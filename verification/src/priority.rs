//! What matching means, as mathematics.
//!
//! A book is a `Seq<Order>` in arrival order. One step picks the best sell and
//! the best buy that crosses it, trades the smaller of their two quantities at
//! the sell's price, and takes that much off both. [`match_book`] repeats the
//! step until no pair crosses.

use crate::order::{Order, OrderType, Trade};
use vstd::prelude::*;

verus! {

/// The sell at `i` goes before the sell at `j`: it is cheaper, or as cheap
/// with a lower id, or alike in both and not later in the book.
pub open spec fn sell_precedes(book: Seq<Order>, i: int, j: int) -> bool {
    let a = book[i];
    let b = book[j];
    a.price < b.price || (a.price == b.price && (a.id < b.id || (a.id == b.id && i <= j)))
}

/// The buy at `i` goes before the buy at `j`: it has the lower id, or the
/// same id and is not later in the book.
pub open spec fn buy_precedes(book: Seq<Order>, i: int, j: int) -> bool {
    let a = book[i];
    let b = book[j];
    a.id < b.id || (a.id == b.id && i <= j)
}

/// The order at `i` is a sell.
pub open spec fn is_sell(book: Seq<Order>, i: int) -> bool {
    0 <= i < book.len() && book[i].order_type == OrderType::Sell
}

/// The order at `i` is a buy that pays at least `limit`.
pub open spec fn is_bid_at(book: Seq<Order>, limit: u32, i: int) -> bool {
    0 <= i < book.len() && book[i].order_type == OrderType::Buy && book[i].price >= limit
}

/// `s` is where the sell that matches next rests: no sell goes before it.
pub open spec fn is_best_sell(book: Seq<Order>, s: int) -> bool {
    &&& is_sell(book, s)
    &&& forall|j: int| #[trigger] is_sell(book, j) ==> sell_precedes(book, s, j)
}

/// `b` is where the buy that takes a sell priced at `limit` rests: of the
/// buys that pay `limit` or more, none goes before it.
pub open spec fn is_best_buy(book: Seq<Order>, limit: u32, b: int) -> bool {
    &&& is_bid_at(book, limit, b)
    &&& forall|j: int| #[trigger] is_bid_at(book, limit, j) ==> buy_precedes(book, b, j)
}

/// The sell at `s` and the buy at `b` are the pair that trades next.
pub open spec fn is_next_pair(book: Seq<Order>, s: int, b: int) -> bool {
    is_best_sell(book, s) && is_best_buy(book, book[s].price, b)
}

/// Some pair in the book can trade.
pub open spec fn can_match(book: Seq<Order>) -> bool {
    exists|s: int, b: int| is_next_pair(book, s, b)
}

/// The positions of the sell and the buy that trade next, where
/// [`can_match`] holds.
pub open spec fn next_pair(book: Seq<Order>) -> (int, int) {
    choose|p: (int, int)| is_next_pair(book, p.0, p.1)
}

/// How much the pair trades: the smaller of the two quantities.
pub open spec fn fill_quantity(book: Seq<Order>, s: int, b: int) -> u32 {
    if book[b].quantity <= book[s].quantity {
        book[b].quantity
    } else {
        book[s].quantity
    }
}

/// The record of the sell at `s` trading with the buy at `b`.
pub open spec fn trade_of(book: Seq<Order>, s: int, b: int) -> Trade {
    Trade {
        buy_id: book[b].id,
        sell_id: book[s].id,
        price: book[s].price,
        quantity_traded: fill_quantity(book, s, b),
    }
}

/// The book with `quantity` taken off the order at `i`: the order stays in
/// place while something is left of it, and leaves the book otherwise.
pub open spec fn fill_at(book: Seq<Order>, i: int, quantity: u32) -> Seq<Order> {
    match book[i].after_fill(quantity) {
        Some(left) => book.update(i, left),
        None => book.remove(i),
    }
}

/// The book after the sell at `s` has traded with the buy at `b`. The later
/// of the two positions is settled first, so that the earlier one still
/// names the same order.
pub open spec fn book_after(book: Seq<Order>, s: int, b: int) -> Seq<Order> {
    let quantity = fill_quantity(book, s, b);
    if s < b {
        fill_at(fill_at(book, b, quantity), s, quantity)
    } else {
        fill_at(fill_at(book, s, quantity), b, quantity)
    }
}

/// The resting orders and the trades, earliest first, that matching `book`
/// to the end gives.
pub open spec fn match_book(book: Seq<Order>) -> (Seq<Order>, Seq<Trade>)
    decreases book.len(),
    via match_book_terminates
{
    if can_match(book) {
        let (s, b) = next_pair(book);
        let rest = match_book(book_after(book, s, b));
        (rest.0, seq![trade_of(book, s, b)] + rest.1)
    } else {
        (book, Seq::empty())
    }
}

#[via_fn]
proof fn match_book_terminates(book: Seq<Order>) {
    if can_match(book) {
        let (s, b) = next_pair(book);
        next_pair_in_book(book);
        step_shrinks_book(book, s, b);
    }
}

/// The pair that trades next is a sell and a buy at two different places.
pub proof fn next_pair_in_book(book: Seq<Order>)
    requires
        can_match(book),
    ensures
        is_next_pair(book, next_pair(book).0, next_pair(book).1),
        0 <= next_pair(book).0 < book.len(),
        0 <= next_pair(book).1 < book.len(),
        next_pair(book).0 != next_pair(book).1,
{
    let (s, b) = choose|s: int, b: int| is_next_pair(book, s, b);
    assert(is_next_pair(book, (s, b).0, (s, b).1));
}

/// At most one pair trades next.
pub proof fn next_pair_unique(book: Seq<Order>, s: int, b: int)
    requires
        is_next_pair(book, s, b),
    ensures
        can_match(book),
        next_pair(book) == (s, b),
{
    next_pair_in_book(book);
    let (s2, b2) = next_pair(book);
    assert(is_sell(book, s) && is_sell(book, s2));
    assert(sell_precedes(book, s, s2) && sell_precedes(book, s2, s));
    assert(s == s2);
    assert(is_bid_at(book, book[s].price, b) && is_bid_at(book, book[s].price, b2));
    assert(buy_precedes(book, b, b2) && buy_precedes(book, b2, b));
}

/// A step takes at least one order off the book and never adds one.
pub proof fn step_shrinks_book(book: Seq<Order>, s: int, b: int)
    requires
        is_next_pair(book, s, b),
    ensures
        book.len() - 2 <= book_after(book, s, b).len() < book.len(),
{
}

} // verus!
