//! The matching engine and the stream processor: executable code held to
//! [`crate::priority`].

use crate::listing::{
    first_slots, listing_after_fill, listing_unique, lists, resting_orders, slots_after_fill,
    table_of,
};
use crate::order::{Order, OrderType, Trade};
use crate::priority::{
    book_after, buy_precedes, can_match, fill_at, is_best_buy, is_best_sell, is_bid_at,
    is_next_pair, is_sell, match_book, next_pair, next_pair_in_book, next_pair_unique,
    sell_precedes, step_shrinks_book,
};
use crate::slots::{slot_entries, slots_fill};
use vstd::prelude::*;

verus! {

/// Where the sell that matches next rests, if the book holds a sell: the
/// cheapest one, the lowest id among equally cheap ones.
pub fn best_sell(book: &Vec<Order>) -> (found: Option<usize>)
    ensures
        match found {
            Some(s) => is_best_sell(book@, s as int),
            None => forall|j: int| !is_sell(book@, j),
        },
{
    let mut found: Option<usize> = None;
    let mut i: usize = 0;
    while i < book.len()
        invariant
            0 <= i <= book.len(),
            match found {
                Some(s) => {
                    &&& s < i
                    &&& is_sell(book@, s as int)
                    &&& forall|j: int|
                        #[trigger] is_sell(book@, j) && j < i ==> sell_precedes(book@, s as int, j)
                },
                None => forall|j: int| #[trigger] is_sell(book@, j) ==> j >= i,
            },
        decreases book.len() - i,
    {
        let order = book[i];
        if order.order_type == OrderType::Sell {
            let better = match found {
                None => true,
                Some(s) => {
                    let held = book[s];
                    order.price < held.price || (order.price == held.price && order.id < held.id)
                },
            };
            if better {
                found = Some(i);
            }
        }
        i += 1;
    }
    found
}

/// Where the buy that takes a sell priced at `limit` rests, if any buy pays
/// that much: the one with the lowest id.
pub fn best_buy(book: &Vec<Order>, limit: u32) -> (found: Option<usize>)
    ensures
        match found {
            Some(b) => is_best_buy(book@, limit, b as int),
            None => forall|j: int| !is_bid_at(book@, limit, j),
        },
{
    let mut found: Option<usize> = None;
    let mut i: usize = 0;
    while i < book.len()
        invariant
            0 <= i <= book.len(),
            match found {
                Some(b) => {
                    &&& b < i
                    &&& is_bid_at(book@, limit, b as int)
                    &&& forall|j: int|
                        #[trigger] is_bid_at(book@, limit, j) && j < i ==> buy_precedes(
                            book@,
                            b as int,
                            j,
                        )
                },
                None => forall|j: int| #[trigger] is_bid_at(book@, limit, j) ==> j >= i,
            },
        decreases book.len() - i,
    {
        let order = book[i];
        if order.order_type == OrderType::Buy && order.price >= limit {
            let better = match found {
                None => true,
                Some(b) => order.id < book[b].id,
            };
            if better {
                found = Some(i);
            }
        }
        i += 1;
    }
    found
}

/// The positions of the sell and the buy that trade next, or `None` when no
/// pair in the book crosses.
pub fn find_pair(book: &Vec<Order>) -> (found: Option<(usize, usize)>)
    ensures
        found is Some <==> can_match(book@),
        found matches Some(p) ==> next_pair(book@) == (p.0 as int, p.1 as int),
{
    match best_sell(book) {
        None => {
            assert forall|s: int, b: int| !is_next_pair(book@, s, b) by {
                assert(!is_sell(book@, s));
            }
            None
        },
        Some(s) => match best_buy(book, book[s].price) {
            None => {
                assert forall|s2: int, b2: int| !is_next_pair(book@, s2, b2) by {
                    if is_next_pair(book@, s2, b2) {
                        assert(is_sell(book@, s2) && is_sell(book@, s as int));
                        assert(sell_precedes(book@, s as int, s2));
                        assert(sell_precedes(book@, s2, s as int));
                        assert(!is_bid_at(book@, book@[s as int].price, b2));
                    }
                }
                None
            },
            Some(b) => {
                proof {
                    next_pair_unique(book@, s as int, b as int);
                }
                Some((s, b))
            },
        },
    }
}

/// Takes `quantity` off the order at `i`, and the order off the book when
/// nothing is left of it.
fn settle(book: &mut Vec<Order>, i: usize, quantity: u32)
    requires
        i < old(book).len(),
    ensures
        final(book)@ == fill_at(old(book)@, i as int, quantity),
{
    match book[i].fill(quantity) {
        Some(left) => {
            book.set(i, left);
        },
        None => {
            book.remove(i);
        },
    }
}

/// Matches a book to the end.
///
/// Returns the orders that still rest, in the order in which they came in,
/// and the trades in the order in which they were made. The book is held in
/// a persistent table keyed by arrival position; each step reads the table
/// in that order, picks the pair, and derives the next table from it.
pub fn match_trades(orders: &Vec<Order>) -> (result: (Vec<Order>, Vec<Trade>))
    ensures
        (result.0@, result.1@) == match_book(orders@),
{
    let mut table = table_of(orders);
    let mut trades: Vec<Trade> = Vec::new();
    let ghost mut slots: Seq<usize> = first_slots(orders@.len());
    let ghost mut book: Seq<Order> = orders@;
    loop
        invariant
            lists(slot_entries(table), slots, book),
            match_book(orders@).0 == match_book(book).0,
            match_book(orders@).1 == trades@ + match_book(book).1,
        decreases book.len(),
    {
        let (places, resting) = resting_orders(&table);
        proof {
            listing_unique(slot_entries(table), slots, book, places@, resting@);
        }
        match find_pair(&resting) {
            None => {
                return (resting, trades);
            },
            Some((s, b)) => {
                proof {
                    next_pair_in_book(book);
                    step_shrinks_book(book, s as int, b as int);
                }
                let sell = resting[s];
                let buy = resting[b];
                let quantity: u32 = if buy.quantity <= sell.quantity {
                    buy.quantity
                } else {
                    sell.quantity
                };
                trades.push(
                    Trade {
                        buy_id: buy.id,
                        sell_id: sell.id,
                        price: sell.price,
                        quantity_traded: quantity,
                    },
                );
                let (later, earlier) = if s < b {
                    (b, s)
                } else {
                    (s, b)
                };
                let ghost entries = slot_entries(table);
                table = slots_fill(&table, places[later], quantity);
                proof {
                    listing_after_fill(entries, slots, book, later as int, quantity);
                }
                let ghost slots1 = slots_after_fill(slots, book, later as int, quantity);
                let ghost book1 = fill_at(book, later as int, quantity);
                let ghost entries1 = slot_entries(table);
                assert(slots1[earlier as int] == places@[earlier as int]);
                table = slots_fill(&table, places[earlier], quantity);
                proof {
                    listing_after_fill(entries1, slots1, book1, earlier as int, quantity);
                    assert(fill_at(book1, earlier as int, quantity) == book_after(
                        book,
                        s as int,
                        b as int,
                    ));
                    assert(trades@ + match_book(book_after(book, s as int, b as int)).1
                        == trades@.drop_last() + match_book(book).1);
                    slots = slots_after_fill(slots1, book1, earlier as int, quantity);
                    book = book_after(book, s as int, b as int);
                }
            },
        }
    }
}

/// Matches a book to the end, working on a copy of it in place.
///
/// Returns the orders that still rest, in the order in which they came in,
/// and the trades in the order in which they were made.
pub fn match_trades2(orders: &Vec<Order>) -> (result: (Vec<Order>, Vec<Trade>))
    ensures
        (result.0@, result.1@) == match_book(orders@),
{
    let mut book: Vec<Order> = orders.clone();
    let mut trades: Vec<Trade> = Vec::new();
    assert(book@ == orders@);
    loop
        invariant
            match_book(orders@).0 == match_book(book@).0,
            match_book(orders@).1 == trades@ + match_book(book@).1,
        decreases book.len(),
    {
        match find_pair(&book) {
            None => {
                return (book, trades);
            },
            Some((s, b)) => {
                proof {
                    next_pair_in_book(book@);
                    step_shrinks_book(book@, s as int, b as int);
                }
                let ghost before = book@;
                let sell = book[s];
                let buy = book[b];
                let quantity: u32 = if buy.quantity <= sell.quantity {
                    buy.quantity
                } else {
                    sell.quantity
                };
                trades.push(
                    Trade {
                        buy_id: buy.id,
                        sell_id: sell.id,
                        price: sell.price,
                        quantity_traded: quantity,
                    },
                );
                if s < b {
                    settle(&mut book, b, quantity);
                    settle(&mut book, s, quantity);
                } else {
                    settle(&mut book, s, quantity);
                    settle(&mut book, b, quantity);
                }
                assert(book@ == book_after(before, s as int, b as int));
                assert(trades@ + match_book(book@).1 == trades@.drop_last() + match_book(
                    before,
                ).1);
            },
        }
    }
}

} // verus!
