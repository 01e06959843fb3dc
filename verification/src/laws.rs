//! What holds of every book, each statement proved from the definitions in
//! [`crate::priority`] and [`crate::stream`].

use crate::order::{Order, OrderType, Trade};
use crate::priority::{
    book_after, buy_precedes, can_match, fill_at, fill_quantity, is_best_buy, is_best_sell,
    is_bid_at, is_next_pair, is_sell, match_book, next_pair, next_pair_in_book, sell_precedes,
    step_shrinks_book, trade_of,
};
use crate::stream::accept;
use vstd::prelude::*;

verus! {

/// The quantity that rests in a book, all orders together.
pub open spec fn total_quantity(book: Seq<Order>) -> int
    decreases book.len(),
{
    if book.len() == 0 {
        0
    } else {
        total_quantity(book.drop_last()) + book.last().quantity
    }
}

/// The quantity that a run of trades moved, all trades together.
pub open spec fn traded_quantity(trades: Seq<Trade>) -> int
    decreases trades.len(),
{
    if trades.len() == 0 {
        0
    } else {
        trades.first().quantity_traded + traded_quantity(trades.drop_first())
    }
}

/// The sell at `s` and the buy at `b` cross: the buy pays the sell's price
/// or more.
pub open spec fn crosses(book: Seq<Order>, s: int, b: int) -> bool {
    is_sell(book, s) && is_bid_at(book, book[s].price, b)
}

/// Every order rests with a quantity above zero, and no two orders share
/// an id.
pub open spec fn book_valid(book: Seq<Order>) -> bool {
    &&& forall|i: int| 0 <= i < book.len() ==> (#[trigger] book[i]).quantity > 0
    &&& forall|i: int, j: int|
        0 <= i < j < book.len() ==> (#[trigger] book[i]).id != (#[trigger] book[j]).id
}

proof fn total_after_update(book: Seq<Order>, i: int, order: Order)
    requires
        0 <= i < book.len(),
    ensures
        total_quantity(book.update(i, order)) == total_quantity(book) - book[i].quantity
            + order.quantity,
    decreases book.len(),
{
    if i == book.len() - 1 {
        assert(book.update(i, order).drop_last() =~= book.drop_last());
    } else {
        total_after_update(book.drop_last(), i, order);
        assert(book.update(i, order).drop_last() =~= book.drop_last().update(i, order));
    }
}

proof fn total_after_remove(book: Seq<Order>, i: int)
    requires
        0 <= i < book.len(),
    ensures
        total_quantity(book.remove(i)) == total_quantity(book) - book[i].quantity,
    decreases book.len(),
{
    if i == book.len() - 1 {
        assert(book.remove(i) =~= book.drop_last());
    } else {
        total_after_remove(book.drop_last(), i);
        assert(book.remove(i).drop_last() =~= book.drop_last().remove(i));
        assert(book.remove(i).last() == book.last());
    }
}

proof fn total_after_fill(book: Seq<Order>, i: int, quantity: u32)
    requires
        0 <= i < book.len(),
        quantity <= book[i].quantity,
    ensures
        total_quantity(fill_at(book, i, quantity)) == total_quantity(book) - quantity,
{
    match book[i].after_fill(quantity) {
        Some(left) => total_after_update(book, i, left),
        None => total_after_remove(book, i),
    }
}

/// In one step the quantity that rests goes down by twice what the step
/// trades, once for the buy and once for the sell.
pub proof fn step_conserves_quantity(book: Seq<Order>)
    requires
        can_match(book),
    ensures
        ({
            let (s, b) = next_pair(book);
            total_quantity(book) - total_quantity(book_after(book, s, b)) == 2 * trade_of(
                book,
                s,
                b,
            ).quantity_traded
        }),
{
    next_pair_in_book(book);
    let (s, b) = next_pair(book);
    let quantity = fill_quantity(book, s, b);
    if s < b {
        total_after_fill(book, b, quantity);
        total_after_fill(fill_at(book, b, quantity), s, quantity);
    } else {
        total_after_fill(book, s, quantity);
        total_after_fill(fill_at(book, s, quantity), b, quantity);
    }
}

/// What rested before matching is what rests after it plus twice what the
/// trades moved.
pub proof fn matching_conserves_quantity(book: Seq<Order>)
    ensures
        total_quantity(book) == total_quantity(match_book(book).0) + 2 * traded_quantity(
            match_book(book).1,
        ),
    decreases book.len(),
{
    if can_match(book) {
        next_pair_in_book(book);
        let (s, b) = next_pair(book);
        let after = book_after(book, s, b);
        step_shrinks_book(book, s, b);
        step_conserves_quantity(book);
        matching_conserves_quantity(after);
        let trades = match_book(book).1;
        assert(trades.drop_first() =~= match_book(after).1);
    }
}

/// Some pair trades exactly where some sell and some buy cross.
pub proof fn can_match_iff_crossing(book: Seq<Order>)
    ensures
        can_match(book) <==> exists|s: int, b: int| crosses(book, s, b),
{
    if can_match(book) {
        next_pair_in_book(book);
        let (s, b) = next_pair(book);
        assert(crosses(book, s, b));
    }
    if exists|s: int, b: int| crosses(book, s, b) {
        let (s, b) = choose|s: int, b: int| crosses(book, s, b);
        let s0 = best_sell_exists(book, book.len() as int, s);
        assert(is_sell(book, s));
        assert(sell_precedes(book, s0, s));
        let limit = book[s0].price;
        assert(is_bid_at(book, limit, b));
        let b0 = best_buy_exists(book, limit, book.len() as int, b);
        assert(is_next_pair(book, s0, b0));
    }
}

/// Among the sells before position `n`, one of which is at `s`, some sell
/// has no sell before `n` ahead of it.
proof fn best_sell_exists(book: Seq<Order>, n: int, s: int) -> (best: int)
    requires
        0 <= s < n <= book.len(),
        is_sell(book, s),
    ensures
        is_sell(book, best),
        best < n,
        forall|j: int| #[trigger] is_sell(book, j) && j < n ==> sell_precedes(book, best, j),
        n == book.len() ==> is_best_sell(book, best),
    decreases n,
{
    if s == n - 1 {
        if exists|k: int| is_sell(book, k) && k < n - 1 {
            let k = choose|k: int| is_sell(book, k) && k < n - 1;
            let before = best_sell_exists(book, n - 1, k);
            if sell_precedes(book, before, s) {
                before
            } else {
                s
            }
        } else {
            s
        }
    } else {
        let before = best_sell_exists(book, n - 1, s);
        if is_sell(book, n - 1) && !sell_precedes(book, before, n - 1) {
            n - 1
        } else {
            before
        }
    }
}

/// Among the buys before position `n` that pay `limit`, one of which is at
/// `b`, some buy has no such buy ahead of it.
proof fn best_buy_exists(book: Seq<Order>, limit: u32, n: int, b: int) -> (best: int)
    requires
        0 <= b < n <= book.len(),
        is_bid_at(book, limit, b),
    ensures
        is_bid_at(book, limit, best),
        best < n,
        forall|j: int| #[trigger]
            is_bid_at(book, limit, j) && j < n ==> buy_precedes(book, best, j),
        n == book.len() ==> is_best_buy(book, limit, best),
    decreases n,
{
    if b == n - 1 {
        if exists|k: int| is_bid_at(book, limit, k) && k < n - 1 {
            let k = choose|k: int| is_bid_at(book, limit, k) && k < n - 1;
            let before = best_buy_exists(book, limit, n - 1, k);
            if buy_precedes(book, before, b) {
                before
            } else {
                b
            }
        } else {
            b
        }
    } else {
        let before = best_buy_exists(book, limit, n - 1, b);
        if is_bid_at(book, limit, n - 1) && !buy_precedes(book, before, n - 1) {
            n - 1
        } else {
            before
        }
    }
}

/// Where every sell asks more than every buy pays, matching leaves the book
/// as it is and makes no trade.
pub proof fn no_cross_no_trade(book: Seq<Order>)
    requires
        forall|s: int, b: int|
            0 <= s < book.len() && 0 <= b < book.len() && book[s].order_type == OrderType::Sell
                && book[b].order_type == OrderType::Buy ==> book[s].price > book[b].price,
    ensures
        match_book(book) == (book, Seq::<Trade>::empty()),
{
    can_match_iff_crossing(book);
    assert forall|s: int, b: int| !crosses(book, s, b) by {
        if crosses(book, s, b) {
            assert(book[s].price > book[b].price);
        }
    }
}

/// Where some sell asks no more than some buy pays, matching makes a trade.
pub proof fn cross_makes_trade(book: Seq<Order>, s: int, b: int)
    requires
        0 <= s < book.len(),
        0 <= b < book.len(),
        book[s].order_type == OrderType::Sell,
        book[b].order_type == OrderType::Buy,
        book[s].price <= book[b].price,
    ensures
        match_book(book).1.len() > 0,
{
    can_match_iff_crossing(book);
    assert(crosses(book, s, b));
}

/// In what matching leaves, no pair crosses: matching it again gives the
/// same book and no trade.
pub proof fn matching_reaches_fixpoint(book: Seq<Order>)
    ensures
        !can_match(match_book(book).0),
        match_book(match_book(book).0) == (match_book(book).0, Seq::<Trade>::empty()),
    decreases book.len(),
{
    if can_match(book) {
        next_pair_in_book(book);
        let (s, b) = next_pair(book);
        step_shrinks_book(book, s, b);
        matching_reaches_fixpoint(book_after(book, s, b));
    }
}

/// Taking a quantity off one order leaves a valid book valid.
proof fn fill_keeps_book_valid(book: Seq<Order>, i: int, quantity: u32)
    requires
        book_valid(book),
        0 <= i < book.len(),
    ensures
        book_valid(fill_at(book, i, quantity)),
{
    let after = fill_at(book, i, quantity);
    match book[i].after_fill(quantity) {
        Some(left) => {
            assert forall|a: int, b: int| 0 <= a < b < after.len() implies (#[trigger] after[a]).id
                != (#[trigger] after[b]).id by {
                assert(book[a].id != book[b].id);
            }
        },
        None => {
            assert forall|a: int| 0 <= a < after.len() implies (#[trigger] after[a]).quantity
                > 0 by {
                let a0 = if a < i {
                    a
                } else {
                    a + 1
                };
                assert(book[a0].quantity > 0);
            }
            assert forall|a: int, b: int| 0 <= a < b < after.len() implies (#[trigger] after[a]).id
                != (#[trigger] after[b]).id by {
                let a0 = if a < i {
                    a
                } else {
                    a + 1
                };
                let b0 = if b < i {
                    b
                } else {
                    b + 1
                };
                assert(book[a0].id != book[b0].id);
            }
        },
    }
}

/// In a book where every order has a quantity above zero and an id of its
/// own, a step trades a quantity above zero, and the book it leaves is such
/// a book again. An order that a trade uses up leaves the book; none rests
/// with nothing left.
pub proof fn step_keeps_book_valid(book: Seq<Order>)
    requires
        book_valid(book),
        can_match(book),
    ensures
        ({
            let (s, b) = next_pair(book);
            &&& trade_of(book, s, b).quantity_traded > 0
            &&& book_valid(book_after(book, s, b))
        }),
{
    next_pair_in_book(book);
    let (s, b) = next_pair(book);
    let quantity = fill_quantity(book, s, b);
    assert(book[s].quantity > 0 && book[b].quantity > 0);
    if s < b {
        fill_keeps_book_valid(book, b, quantity);
        fill_keeps_book_valid(fill_at(book, b, quantity), s, quantity);
    } else {
        fill_keeps_book_valid(book, s, quantity);
        fill_keeps_book_valid(fill_at(book, s, quantity), b, quantity);
    }
}

/// Matching a valid book leaves a valid book, and every trade it makes
/// moves a quantity above zero.
pub proof fn matching_keeps_book_valid(book: Seq<Order>)
    requires
        book_valid(book),
    ensures
        book_valid(match_book(book).0),
        forall|k: int|
            0 <= k < match_book(book).1.len() ==> (#[trigger] match_book(
                book,
            ).1[k]).quantity_traded > 0,
    decreases book.len(),
{
    if can_match(book) {
        next_pair_in_book(book);
        let (s, b) = next_pair(book);
        step_shrinks_book(book, s, b);
        step_keeps_book_valid(book);
        matching_keeps_book_valid(book_after(book, s, b));
        let trades = match_book(book).1;
        let later = match_book(book_after(book, s, b)).1;
        assert forall|k: int| 0 <= k < trades.len() implies (#[trigger] trades[k]).quantity_traded
            > 0 by {
            if k > 0 {
                assert(trades[k] == later[k - 1]);
            }
        }
    }
}

/// Price before time: the sell that trades next asks the lowest price of
/// all sells and has the lowest id of those that ask it; the buy that
/// trades next pays that price or more and has the lowest id of the buys
/// that do. The trade is made at the sell's price, for no more than either
/// order holds.
pub proof fn next_pair_has_priority(book: Seq<Order>)
    requires
        can_match(book),
    ensures
        ({
            let (s, b) = next_pair(book);
            &&& book[s].order_type == OrderType::Sell
            &&& book[b].order_type == OrderType::Buy
            &&& book[b].price >= book[s].price
            &&& trade_of(book, s, b).price == book[s].price
            &&& trade_of(book, s, b).sell_id == book[s].id
            &&& trade_of(book, s, b).buy_id == book[b].id
            &&& trade_of(book, s, b).quantity_traded <= book[s].quantity
            &&& trade_of(book, s, b).quantity_traded <= book[b].quantity
            &&& forall|j: int|
                0 <= j < book.len() && (#[trigger] book[j]).order_type == OrderType::Sell ==> {
                    ||| book[s].price < book[j].price
                    ||| (book[s].price == book[j].price && book[s].id <= book[j].id)
                }
            &&& forall|j: int|
                0 <= j < book.len() && (#[trigger] book[j]).order_type == OrderType::Buy
                    && book[j].price >= book[s].price ==> book[b].id <= book[j].id
        }),
{
    next_pair_in_book(book);
    let (s, b) = next_pair(book);
    assert forall|j: int|
        0 <= j < book.len() && (#[trigger] book[j]).order_type == OrderType::Sell implies {
        ||| book[s].price < book[j].price
        ||| (book[s].price == book[j].price && book[s].id <= book[j].id)
    } by {
        assert(is_sell(book, j));
    }
    assert forall|j: int|
        0 <= j < book.len() && (#[trigger] book[j]).order_type == OrderType::Buy && book[j].price
            >= book[s].price implies book[b].id <= book[j].id by {
        assert(is_bid_at(book, book[s].price, j));
    }
}

/// An arriving sell rests at the end of the book and makes no trade, also
/// where a buy in the book pays its price.
pub proof fn sell_only_rests(book: Seq<Order>, order: Order)
    requires
        order.order_type == OrderType::Sell,
    ensures
        accept(book, order) == (book.push(order), Seq::<Trade>::empty()),
{
}

/// An arriving buy has the whole book matched to the end, itself included.
pub proof fn buy_sets_matching_off(book: Seq<Order>, order: Order)
    requires
        order.order_type == OrderType::Buy,
    ensures
        accept(book, order) == match_book(book.push(order)),
        !can_match(accept(book, order).0),
{
    matching_reaches_fixpoint(book.push(order));
}

} // verus!
