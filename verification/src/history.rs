//! What holds of a filter after a run of insertions of items.
//!
//! An item stands for its position list, which depends on the item, the
//! number of slots and the number of counters alone; so what the model says
//! of position lists holds of items.

use crate::index::{lemma_slot_indices_in_range, slot_indices};
use crate::model::{
    after_adds, after_adds_all, all_raised, bounded, lemma_estimate_never_falls,
    lemma_found_iff_every_position_touched, lemma_minimum_policy_estimates_less,
    lemma_no_false_negatives, lemma_no_underestimation, lesser, minimum_at, occurrences,
    times_added, touched,
};
use vstd::prelude::*;

verus! {

/// The position lists of a run of items, in order.
pub open spec fn index_lists(items: Seq<Seq<u8>>, num_hashes: usize, size: usize) -> Seq<
    Seq<usize>,
> {
    Seq::new(items.len(), |j: int| slot_indices(items[j], num_hashes, size))
}

/// How many entries of `items` are `item`.
pub open spec fn copies(items: Seq<Seq<u8>>, item: Seq<u8>) -> nat
    decreases items.len(),
{
    if items.len() == 0 {
        0
    } else {
        copies(items.drop_last(), item) + if items.last() == item {
            1nat
        } else {
            0nat
        }
    }
}

/// The counters after inserting `items` in order, each insertion raising
/// only its minimum positions.
pub open spec fn after_inserting(
    c: Seq<nat>,
    items: Seq<Seq<u8>>,
    num_hashes: usize,
    max: nat,
) -> Seq<nat> {
    after_adds(c, index_lists(items, num_hashes, c.len() as usize), max)
}

/// The counters after inserting `items` in order, each insertion raising all
/// of its positions.
pub open spec fn after_inserting_all(
    c: Seq<nat>,
    items: Seq<Seq<u8>>,
    num_hashes: usize,
    max: nat,
) -> Seq<nat> {
    after_adds_all(c, index_lists(items, num_hashes, c.len() as usize), max)
}

/// Whether `c` can be the counters of a filter whose counters stop at `max`.
pub open spec fn filter_state(c: Seq<nat>, max: nat) -> bool {
    &&& 1 <= c.len() <= usize::MAX
    &&& 1 <= max
    &&& bounded(c, max)
}

/// The position list of an item was inserted at least as often as the item.
pub proof fn lemma_copies_are_added(
    items: Seq<Seq<u8>>,
    item: Seq<u8>,
    num_hashes: usize,
    size: usize,
)
    ensures
        copies(items, item) <= times_added(
            index_lists(items, num_hashes, size),
            slot_indices(item, num_hashes, size),
        ),
    decreases items.len(),
{
    if items.len() > 0 {
        lemma_copies_are_added(items.drop_last(), item, num_hashes, size);
        assert(index_lists(items, num_hashes, size).drop_last() =~= index_lists(
            items.drop_last(),
            num_hashes,
            size,
        ));
    }
}

/// No false negatives: an item that was inserted at least once, among
/// whatever other insertions, is found.
pub proof fn lemma_inserted_item_is_found(
    c: Seq<nat>,
    items: Seq<Seq<u8>>,
    item: Seq<u8>,
    num_hashes: usize,
    max: nat,
)
    requires
        filter_state(c, max),
        copies(items, item) >= 1,
    ensures
        all_raised(
            after_inserting(c, items, num_hashes, max),
            slot_indices(item, num_hashes, c.len() as usize),
        ),
        all_raised(
            after_inserting_all(c, items, num_hashes, max),
            slot_indices(item, num_hashes, c.len() as usize),
        ),
{
    let size = c.len() as usize;
    lemma_copies_are_added(items, item, num_hashes, size);
    lemma_slot_indices_in_range(item, num_hashes, size);
    lemma_no_false_negatives(
        c,
        index_lists(items, num_hashes, size),
        slot_indices(item, num_hashes, size),
        max,
    );
}

/// No underestimation below saturation: the estimate for an item is at
/// least the number of times it was inserted, or the largest counter value
/// if that is less.
pub proof fn lemma_estimate_covers_insertions(
    c: Seq<nat>,
    items: Seq<Seq<u8>>,
    item: Seq<u8>,
    num_hashes: usize,
    max: nat,
)
    requires
        filter_state(c, max),
    ensures
        minimum_at(
            after_inserting(c, items, num_hashes, max),
            slot_indices(item, num_hashes, c.len() as usize),
            max,
        ) >= lesser(copies(items, item), max),
{
    let size = c.len() as usize;
    lemma_copies_are_added(items, item, num_hashes, size);
    lemma_slot_indices_in_range(item, num_hashes, size);
    lemma_no_underestimation(
        c,
        index_lists(items, num_hashes, size),
        slot_indices(item, num_hashes, size),
        max,
    );
}

/// Whether some item of `items` has the position `k`.
pub open spec fn reached(items: Seq<Seq<u8>>, k: int, num_hashes: usize, size: usize) -> bool {
    exists|j: int|
        0 <= j < items.len() && occurrences(
            slot_indices(#[trigger] items[j], num_hashes, size),
            k,
        ) > 0
}

/// An item never inserted counts zero unless other items reach all of its
/// counters: from counters at zero, an item is found exactly when every one
/// of its positions is a position of some inserted item, and its estimate is
/// zero exactly when one of them is not.
pub proof fn lemma_found_iff_every_position_reached(
    c: Seq<nat>,
    items: Seq<Seq<u8>>,
    item: Seq<u8>,
    num_hashes: usize,
    max: nat,
)
    requires
        filter_state(c, max),
        forall|k: int| 0 <= k < c.len() ==> c[k] == 0,
    ensures
        all_raised(
            after_inserting(c, items, num_hashes, max),
            slot_indices(item, num_hashes, c.len() as usize),
        ) <==> forall|slot: int|
            0 <= slot < num_hashes ==> reached(
                items,
                (#[trigger] slot_indices(item, num_hashes, c.len() as usize)[slot]) as int,
                num_hashes,
                c.len() as usize,
            ),
        minimum_at(
            after_inserting(c, items, num_hashes, max),
            slot_indices(item, num_hashes, c.len() as usize),
            max,
        ) == 0 <==> exists|slot: int|
            0 <= slot < num_hashes && !reached(
                items,
                (#[trigger] slot_indices(item, num_hashes, c.len() as usize)[slot]) as int,
                num_hashes,
                c.len() as usize,
            ),
{
    let size = c.len() as usize;
    let ix = slot_indices(item, num_hashes, size);
    let ops = index_lists(items, num_hashes, size);
    lemma_slot_indices_in_range(item, num_hashes, size);
    assert forall|k: int| reached(items, k, num_hashes, size) <==> touched(ops, k) by {
        if reached(items, k, num_hashes, size) {
            let j = choose|j: int|
                0 <= j < items.len() && occurrences(
                    slot_indices(#[trigger] items[j], num_hashes, size),
                    k,
                ) > 0;
            assert(occurrences(ops[j], k) > 0);
        }
        if touched(ops, k) {
            let j = choose|j: int| 0 <= j < ops.len() && occurrences(#[trigger] ops[j], k) > 0;
            assert(occurrences(slot_indices(items[j], num_hashes, size), k) > 0);
        }
    }
    lemma_found_iff_every_position_touched(c, ops, ix, max);
}

/// Monotonicity: inserting one more item, the same or another, lowers no
/// item's estimate.
pub proof fn lemma_estimate_grows_with_insertions(
    c: Seq<nat>,
    items: Seq<Seq<u8>>,
    next: Seq<u8>,
    item: Seq<u8>,
    num_hashes: usize,
    max: nat,
)
    requires
        filter_state(c, max),
    ensures
        minimum_at(
            after_inserting(c, items, num_hashes, max),
            slot_indices(item, num_hashes, c.len() as usize),
            max,
        ) <= minimum_at(
            after_inserting(c, items.push(next), num_hashes, max),
            slot_indices(item, num_hashes, c.len() as usize),
            max,
        ),
{
    let size = c.len() as usize;
    lemma_slot_indices_in_range(item, num_hashes, size);
    assert(index_lists(items.push(next), num_hashes, size) =~= index_lists(
        items,
        num_hashes,
        size,
    ).push(slot_indices(next, num_hashes, size)));
    lemma_estimate_never_falls(
        c,
        index_lists(items, num_hashes, size),
        slot_indices(next, num_hashes, size),
        slot_indices(item, num_hashes, size),
        max,
    );
}

/// Bounded overestimation: for the same run of items from the same start,
/// raising only the minimum positions gives every item an estimate no
/// larger than raising all positions does.
pub proof fn lemma_minimum_policy_overestimates_less(
    c: Seq<nat>,
    items: Seq<Seq<u8>>,
    item: Seq<u8>,
    num_hashes: usize,
    max: nat,
)
    requires
        filter_state(c, max),
    ensures
        minimum_at(
            after_inserting(c, items, num_hashes, max),
            slot_indices(item, num_hashes, c.len() as usize),
            max,
        ) <= minimum_at(
            after_inserting_all(c, items, num_hashes, max),
            slot_indices(item, num_hashes, c.len() as usize),
            max,
        ),
{
    let size = c.len() as usize;
    lemma_slot_indices_in_range(item, num_hashes, size);
    lemma_minimum_policy_estimates_less(
        c,
        index_lists(items, num_hashes, size),
        slot_indices(item, num_hashes, size),
        max,
    );
}

} // verus!
