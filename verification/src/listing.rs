//! Reading a slot table as a book: its orders by ascending slot number.

use crate::order::Order;
use crate::priority::fill_at;
use crate::slots::{
    entries_after_fill, slot_entries, slots_insert, slots_new, slots_pairs, sorted_by_slot, Slots,
};
use vstd::prelude::*;

verus! {

/// `slots` and `book` list the entries side by side, by ascending slot
/// number: `book[i]` is the order held under `slots[i]`, and no entry is
/// left out.
pub open spec fn lists(entries: Slots, slots: Seq<usize>, book: Seq<Order>) -> bool {
    &&& slots.len() == book.len()
    &&& forall|i: int, j: int| 0 <= i < j < slots.len() ==> slots[i] < slots[j]
    &&& forall|i: int| 0 <= i < slots.len() ==> entries.contains_pair(#[trigger] slots[i], book[i])
    &&& forall|slot: usize| #[trigger] entries.dom().contains(slot) ==> slots.contains(slot)
}

/// The slot numbers that are left once `quantity` has been taken off the
/// order at position `i`.
pub open spec fn slots_after_fill(slots: Seq<usize>, book: Seq<Order>, i: int, quantity: u32) -> Seq<
    usize,
> {
    if book[i].after_fill(quantity) is Some {
        slots
    } else {
        slots.remove(i)
    }
}

/// A table has one listing only.
pub proof fn listing_unique(
    entries: Slots,
    slots: Seq<usize>,
    book: Seq<Order>,
    slots2: Seq<usize>,
    book2: Seq<Order>,
)
    requires
        lists(entries, slots, book),
        lists(entries, slots2, book2),
    ensures
        slots == slots2,
        book == book2,
    decreases slots.len(),
{
    if slots.len() == 0 {
        assert(slots2.len() == 0) by {
            if slots2.len() > 0 {
                assert(entries.dom().contains(slots2[0]));
                assert(slots.contains(slots2[0]));
            }
        }
        assert(slots =~= slots2);
        assert(book =~= book2);
    } else {
        assert(slots2.len() > 0) by {
            assert(entries.dom().contains(slots[0]));
            assert(slots2.contains(slots[0]));
        }
        let top = slots.last();
        let top2 = slots2.last();
        assert(top <= top2) by {
            assert(entries.dom().contains(top));
            assert(slots2.contains(top));
        }
        assert(top2 <= top) by {
            assert(entries.dom().contains(top2));
            assert(slots.contains(top2));
        }
        let fewer = entries.remove(top);
        listing_without_last(entries, slots, book);
        listing_without_last(entries, slots2, book2);
        listing_unique(fewer, slots.drop_last(), book.drop_last(), slots2.drop_last(), book2.drop_last());
        assert(slots =~= slots.drop_last().push(top));
        assert(slots2 =~= slots2.drop_last().push(top2));
        assert(book.last() == entries[top]);
        assert(book2.last() == entries[top2]);
        assert(book =~= book.drop_last().push(book.last()));
        assert(book2 =~= book2.drop_last().push(book2.last()));
    }
}

/// Without its highest slot, a table is listed by the same listing without
/// its last place.
proof fn listing_without_last(entries: Slots, slots: Seq<usize>, book: Seq<Order>)
    requires
        lists(entries, slots, book),
        slots.len() > 0,
    ensures
        lists(entries.remove(slots.last()), slots.drop_last(), book.drop_last()),
{
    let top = slots.last();
    let fewer = entries.remove(top);
    let head = slots.drop_last();
    assert forall|slot: usize| #[trigger] fewer.dom().contains(slot) implies head.contains(slot) by {
        assert(entries.dom().contains(slot));
        assert(slots.contains(slot));
        let i = choose|i: int| 0 <= i < slots.len() && slots[i] == slot;
        assert(head[i] == slot);
    }
    assert forall|i: int| 0 <= i < head.len() implies fewer.contains_pair(
        #[trigger] head[i],
        book.drop_last()[i],
    ) by {
        assert(entries.contains_pair(slots[i], book[i]));
        assert(slots[i] < slots[slots.len() - 1]);
    }
}

/// Taking a quantity off the order under the `i`-th slot does to the
/// listing what [`fill_at`] does to a book.
pub proof fn listing_after_fill(
    entries: Slots,
    slots: Seq<usize>,
    book: Seq<Order>,
    i: int,
    quantity: u32,
)
    requires
        lists(entries, slots, book),
        0 <= i < book.len(),
    ensures
        lists(
            entries_after_fill(entries, slots[i], quantity),
            slots_after_fill(slots, book, i, quantity),
            fill_at(book, i, quantity),
        ),
{
    let after = entries_after_fill(entries, slots[i], quantity);
    let slots2 = slots_after_fill(slots, book, i, quantity);
    let book2 = fill_at(book, i, quantity);
    assert(entries.contains_pair(slots[i], book[i]));
    match book[i].after_fill(quantity) {
        Some(left) => {
            assert(after == entries.insert(slots[i], left));
            assert forall|k: int| 0 <= k < slots2.len() implies after.contains_pair(
                #[trigger] slots2[k],
                book2[k],
            ) by {
                assert(entries.contains_pair(slots[k], book[k]));
                if k < i {
                    assert(slots[k] < slots[i]);
                } else if k > i {
                    assert(slots[i] < slots[k]);
                }
            }
            assert forall|slot: usize| #[trigger] after.dom().contains(slot) implies slots2.contains(
                slot,
            ) by {
                if slot == slots[i] {
                    assert(slots2[i] == slot);
                } else {
                    assert(entries.dom().contains(slot));
                    assert(slots.contains(slot));
                }
            }
        },
        None => {
            assert(after == entries.remove(slots[i]));
            assert forall|k: int| 0 <= k < slots2.len() implies after.contains_pair(
                #[trigger] slots2[k],
                book2[k],
            ) by {
                if k < i {
                    assert(entries.contains_pair(slots[k], book[k]));
                    assert(slots[k] < slots[i]);
                } else {
                    assert(entries.contains_pair(slots[k + 1], book[k + 1]));
                    assert(slots[i] < slots[k + 1]);
                }
            }
            assert forall|slot: usize| #[trigger] after.dom().contains(slot) implies slots2.contains(
                slot,
            ) by {
                assert(entries.dom().contains(slot));
                assert(slots.contains(slot));
                let k = choose|k: int| 0 <= k < slots.len() && slots[k] == slot;
                if k < i {
                    assert(slots2[k] == slot);
                } else {
                    assert(slots2[k - 1] == slot);
                }
            }
            assert forall|a: int, b: int| 0 <= a < b < slots2.len() implies slots2[a] < slots2[b] by {
                let a1 = if a < i { a } else { a + 1 };
                let b1 = if b < i { b } else { b + 1 };
                assert(slots[a1] < slots[b1]);
            }
        },
    }
}

/// The position numbers `0, 1, ..` up to `n`.
pub open spec fn first_slots(n: nat) -> Seq<usize> {
    Seq::new(n, |k: int| k as usize)
}

/// A table that holds each order of `orders` under its position.
pub(crate) fn table_of(orders: &Vec<Order>) -> (table: im::HashMap<usize, Order>)
    ensures
        lists(slot_entries(table), first_slots(orders@.len()), orders@),
{
    let mut table = slots_new();
    let mut i: usize = 0;
    while i < orders.len()
        invariant
            0 <= i <= orders.len(),
            forall|slot: usize| #[trigger]
                slot_entries(table).dom().contains(slot) <==> slot < i,
            forall|slot: usize|
                slot < i ==> #[trigger] slot_entries(table)[slot] == orders@[slot as int],
        decreases orders.len() - i,
    {
        slots_insert(&mut table, i, orders[i]);
        i += 1;
    }
    proof {
        let slots = first_slots(orders@.len());
        assert forall|slot: usize| #[trigger]
            slot_entries(table).dom().contains(slot) implies slots.contains(slot) by {
            assert(slots[slot as int] == slot);
        }
    }
    table
}

/// The orders of a table by ascending slot number, each beside its slot.
pub(crate) fn resting_orders(table: &im::HashMap<usize, Order>) -> (listed: (Vec<usize>, Vec<Order>))
    ensures
        lists(slot_entries(*table), listed.0@, listed.1@),
{
    let pairs = slots_pairs(table);
    let ghost unsorted = pairs@;
    let sorted = sorted_by_slot(pairs);
    proof {
        pairs_keep_apart(unsorted, sorted@);
    }
    let mut slots: Vec<usize> = Vec::new();
    let mut book: Vec<Order> = Vec::new();
    let mut i: usize = 0;
    while i < sorted.len()
        invariant
            0 <= i <= sorted.len(),
            slots.len() == i,
            book.len() == i,
            forall|k: int| 0 <= k < i ==> #[trigger] slots@[k] == sorted@[k].0,
            forall|k: int| 0 <= k < i ==> #[trigger] book@[k] == sorted@[k].1,
        decreases sorted.len() - i,
    {
        let pair = sorted[i];
        slots.push(pair.0);
        book.push(pair.1);
        i += 1;
    }
    proof {
        let entries = slot_entries(*table);
        assert forall|k: int| 0 <= k < slots@.len() implies entries.contains_pair(
            #[trigger] slots@[k],
            book@[k],
        ) by {
            assert(unsorted.contains(sorted@[k]));
            let a = choose|a: int| 0 <= a < unsorted.len() && unsorted[a] == sorted@[k];
            assert(entries.contains_pair(unsorted[a].0, unsorted[a].1));
        }
        assert forall|slot: usize| #[trigger] entries.dom().contains(slot) implies slots@.contains(
            slot,
        ) by {
            let a = choose|a: int| 0 <= a < unsorted.len() && (#[trigger] unsorted[a]).0 == slot;
            assert(unsorted.contains(unsorted[a]));
            assert(sorted@.contains(unsorted[a]));
            let k = choose|k: int| 0 <= k < sorted@.len() && sorted@[k] == unsorted[a];
            assert(slots@[k] == slot);
        }
        assert forall|a: int, b: int| 0 <= a < b < slots@.len() implies slots@[a] < slots@[b] by {
            assert(sorted@[a].0 <= sorted@[b].0);
            assert(sorted@[a].0 != sorted@[b].0);
        }
    }
    (slots, book)
}

/// Pairs whose keys are all different keep them different, and stay the
/// same pairs, when they are put in another order.
proof fn pairs_keep_apart(pairs: Seq<(usize, Order)>, moved: Seq<(usize, Order)>)
    requires
        moved.to_multiset() == pairs.to_multiset(),
        forall|i: int, j: int|
            0 <= i < j < pairs.len() ==> (#[trigger] pairs[i]).0 != (#[trigger] pairs[j]).0,
    ensures
        forall|x: (usize, Order)| pairs.contains(x) <==> moved.contains(x),
        forall|i: int, j: int|
            0 <= i < j < moved.len() ==> (#[trigger] moved[i]).0 != (#[trigger] moved[j]).0,
{
    assert forall|x: (usize, Order)| pairs.contains(x) <==> moved.contains(x) by {
        vstd::seq_lib::to_multiset_contains(pairs, x);
        vstd::seq_lib::to_multiset_contains(moved, x);
    }
    assert(pairs.no_duplicates()) by {
        assert forall|i: int, j: int|
            0 <= i < pairs.len() && 0 <= j < pairs.len() && i != j implies pairs[i] != pairs[j] by {
            if i < j {
                assert(pairs[i].0 != pairs[j].0);
            } else {
                assert(pairs[j].0 != pairs[i].0);
            }
        }
    }
    pairs.lemma_multiset_has_no_duplicates();
    moved.lemma_multiset_has_no_duplicates_conv();
    assert forall|i: int, j: int| 0 <= i < j < moved.len() implies (#[trigger] moved[i]).0 != (
    #[trigger] moved[j]).0 by {
        if moved[i].0 == moved[j].0 {
            assert(moved.contains(moved[i]));
            assert(moved.contains(moved[j]));
            assert(pairs.contains(moved[i]));
            assert(pairs.contains(moved[j]));
            let a = choose|a: int| 0 <= a < pairs.len() && pairs[a] == moved[i];
            let b = choose|b: int| 0 <= b < pairs.len() && pairs[b] == moved[j];
            if a < b {
                assert(pairs[a].0 != pairs[b].0);
            } else if b < a {
                assert(pairs[b].0 != pairs[a].0);
            }
            assert(moved[i] == moved[j]);
        }
    }
}

} // verus!
