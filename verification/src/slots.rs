//! The persistent slot table under the matcher: `im::HashMap`, keyed by the
//! position at which an order arrived, and `itertools` to put its entries
//! back in that order.
//!
//! The contracts of the items marked `external_body` are not proved. Each
//! says what the named function's source shows.

use crate::order::Order;
use itertools::Itertools;
use std::cmp::Ordering;
use vstd::prelude::*;

verus! {

/// `im::HashMap`, the persistent hash map. A value of it is carried through
/// as it is; what it holds is known by [`slot_entries`] alone.
#[verifier::external_type_specification]
#[verifier::external_body]
#[verifier::reject_recursive_types(K)]
#[verifier::reject_recursive_types(V)]
#[verifier::reject_recursive_types(S)]
pub struct ExImHashMap<K, V, S>(im::HashMap<K, V, S>);

/// What a slot table is to the contracts: a map from arrival position to the
/// order that rests there.
pub type Slots = Map<usize, Order>;

/// The key/value pairs that a slot table holds.
pub uninterp spec fn slot_entries(table: im::HashMap<usize, Order>) -> Map<usize, Order>;

/// The order held under `slot`, if there is one.
pub open spec fn held_at(entries: Slots, slot: usize) -> Option<Order> {
    if entries.dom().contains(slot) {
        Some(entries[slot])
    } else {
        None
    }
}

/// What a slot holds once `quantity` has been taken off the order in it.
pub open spec fn slot_after_fill(held: Option<Order>, quantity: u32) -> Option<Order> {
    match held {
        Some(order) => order.after_fill(quantity),
        None => None,
    }
}

/// The entries once `quantity` has been taken off the order under `slot`:
/// the slot holds what is left of the order, or is gone with it.
pub open spec fn entries_after_fill(entries: Slots, slot: usize, quantity: u32) -> Slots {
    match slot_after_fill(held_at(entries, slot), quantity) {
        Some(left) => entries.insert(slot, left),
        None => entries.remove(slot),
    }
}

/// Takes `quantity` off the order in a slot, if the slot holds one.
pub fn fill_slot(held: Option<Order>, quantity: u32) -> (left: Option<Order>)
    ensures
        left == slot_after_fill(held, quantity),
{
    match held {
        Some(order) => order.fill(quantity),
        None => None,
    }
}

/// Orders two slots by their number.
pub fn slot_order(a: usize, b: usize) -> (order: Ordering)
    ensures
        a < b <==> order == Ordering::Less,
        a == b <==> order == Ordering::Equal,
        a > b <==> order == Ordering::Greater,
{
    if a < b {
        Ordering::Less
    } else if a == b {
        Ordering::Equal
    } else {
        Ordering::Greater
    }
}

/// `im::HashMap::new`: a table with no entry.
#[verifier::external_body]
pub(crate) fn slots_new() -> (table: im::HashMap<usize, Order>)
    ensures
        slot_entries(table) == Slots::empty(),
{
    im::HashMap::new()
}

/// `im::HashMap::insert`: afterwards `slot` maps to `order`, whatever it
/// mapped to before, and every other entry is as it was.
#[verifier::external_body]
pub(crate) fn slots_insert(table: &mut im::HashMap<usize, Order>, slot: usize, order: Order)
    ensures
        slot_entries(*final(table)) == slot_entries(*old(table)).insert(slot, order),
{
    table.insert(slot, order);
}

/// `im::HashMap::iter`, each pair copied out: every pair handed out is an
/// entry of the table, every key of the table is handed out, and none twice.
/// The order in which they come depends on the table's hasher, so nothing is
/// said of it.
#[verifier::external_body]
pub(crate) fn slots_pairs(table: &im::HashMap<usize, Order>) -> (pairs: Vec<(usize, Order)>)
    ensures
        forall|i: int|
            0 <= i < pairs@.len() ==> slot_entries(*table).contains_pair(
                (#[trigger] pairs@[i]).0,
                pairs@[i].1,
            ),
        forall|slot: usize| #[trigger]
            slot_entries(*table).dom().contains(slot) ==> exists|i: int|
                0 <= i < pairs@.len() && (#[trigger] pairs@[i]).0 == slot,
        forall|i: int, j: int|
            0 <= i < j < pairs@.len() ==> (#[trigger] pairs@[i]).0 != (#[trigger] pairs@[j]).0,
{
    table.iter().map(|(slot, order)| (*slot, *order)).collect()
}

/// `im::HashMap::alter` with [`fill_slot`] as the function: a new table in
/// which `slot` holds what `fill_slot` makes of the order there, or nothing
/// if it makes nothing of it; every other entry is as in `table`.
#[verifier::external_body]
pub(crate) fn slots_fill(table: &im::HashMap<usize, Order>, slot: usize, quantity: u32) -> (after:
    im::HashMap<usize, Order>)
    ensures
        slot_entries(after) == entries_after_fill(slot_entries(*table), slot, quantity),
{
    table.alter(|held| fill_slot(held, quantity), slot)
}

/// `Itertools::sorted_by` with [`slot_order`] on the keys: the same pairs,
/// each as often as before, with the slot numbers in ascending order.
#[verifier::external_body]
pub(crate) fn sorted_by_slot(pairs: Vec<(usize, Order)>) -> (sorted: Vec<(usize, Order)>)
    ensures
        sorted@.to_multiset() == pairs@.to_multiset(),
        forall|i: int, j: int|
            0 <= i <= j < sorted@.len() ==> (#[trigger] sorted@[i]).0 <= (#[trigger] sorted@[j]).0,
{
    pairs.into_iter().sorted_by(|a, b| slot_order(a.0, b.0)).collect()
}

} // verus!
