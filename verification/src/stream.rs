//! The stream processor: orders come in one at a time, and only a buy sets
//! the matching engine off.

use crate::matcher::match_trades;
use crate::order::{Order, OrderType, Trade};
use crate::priority::match_book;
use vstd::prelude::*;

verus! {

/// What one arriving order does to a book: it joins the book at the end, and
/// if it is a buy the book is matched to the end. A sell only rests, also
/// where a buy in the book would cross it.
pub open spec fn accept(book: Seq<Order>, order: Order) -> (Seq<Order>, Seq<Trade>) {
    let held = book.push(order);
    if order.order_type == OrderType::Buy {
        match_book(held)
    } else {
        (held, Seq::empty())
    }
}

/// The book and all the trades, earliest first, after `orders` have come in
/// one by one to an empty book.
pub open spec fn stream_outcome(orders: Seq<Order>) -> (Seq<Order>, Seq<Trade>)
    decreases orders.len(),
{
    if orders.len() == 0 {
        (Seq::empty(), Seq::empty())
    } else {
        let before = stream_outcome(orders.drop_last());
        let step = accept(before.0, orders.last());
        (step.0, before.1 + step.1)
    }
}

/// Takes one arriving order into the resting set and returns the trades it
/// sets off, in the order in which they were made.
pub fn process_order(resting: &mut Vec<Order>, order: Order) -> (trades: Vec<Trade>)
    ensures
        (final(resting)@, trades@) == accept(old(resting)@, order),
{
    resting.push(order);
    if order.order_type == OrderType::Buy {
        let (left, trades) = match_trades(resting);
        *resting = left;
        trades
    } else {
        Vec::new()
    }
}

/// Feeds `orders` one by one to an empty book and returns every trade made
/// on the way, in the order in which they were made.
pub fn process_orders(orders: &Vec<Order>) -> (trades: Vec<Trade>)
    ensures
        trades@ == stream_outcome(orders@).1,
{
    let mut resting: Vec<Order> = Vec::new();
    let mut trades: Vec<Trade> = Vec::new();
    let mut i: usize = 0;
    while i < orders.len()
        invariant
            0 <= i <= orders.len(),
            (resting@, trades@) == stream_outcome(orders@.take(i as int)),
        decreases orders.len() - i,
    {
        let mut made = process_order(&mut resting, orders[i]);
        trades.append(&mut made);
        proof {
            assert(orders@.take(i + 1).drop_last() == orders@.take(i as int));
        }
        i += 1;
    }
    proof {
        assert(orders@.take(i as int) == orders@);
    }
    trades
}

} // verus!
