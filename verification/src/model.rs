//! The filter as mathematics: a sequence of saturating counters, and what an
//! insertion at a list of positions does to it.
//!
//! A position list may hold one position several times; each occurrence
//! counts on its own.

use vstd::prelude::*;

verus! {

/// Whether every entry of `ix` addresses one of `size` counters.
pub open spec fn in_range(ix: Seq<usize>, size: nat) -> bool {
    forall|p: int| 0 <= p < ix.len() ==> (#[trigger] ix[p]) < size
}

/// Whether no counter of `c` exceeds `max`.
pub open spec fn bounded(c: Seq<nat>, max: nat) -> bool {
    forall|k: int| 0 <= k < c.len() ==> (#[trigger] c[k]) <= max
}

/// Whether `c` is nowhere above `d`, counter by counter.
pub open spec fn nowhere_above(c: Seq<nat>, d: Seq<nat>) -> bool {
    &&& c.len() == d.len()
    &&& forall|k: int| 0 <= k < c.len() ==> (#[trigger] c[k]) <= d[k]
}

/// A counter that stood at `v`, after `by` increments that stop at `max`.
pub open spec fn raised(v: nat, by: nat, max: nat) -> nat {
    if v + by <= max {
        v + by
    } else {
        max
    }
}

/// How many entries of `ix` are the position `k`.
pub open spec fn occurrences(ix: Seq<usize>, k: int) -> nat
    decreases ix.len(),
{
    if ix.len() == 0 {
        0
    } else {
        occurrences(ix.drop_last(), k) + if ix.last() == k {
            1nat
        } else {
            0nat
        }
    }
}

/// The least counter among those that `ix` addresses, and `max` where `ix`
/// is empty. This is the frequency estimate for an item with positions `ix`.
pub open spec fn minimum_at(c: Seq<nat>, ix: Seq<usize>, max: nat) -> nat
    decreases ix.len(),
{
    if ix.len() == 0 {
        max
    } else {
        let rest = minimum_at(c, ix.drop_last(), max);
        let v = c[ix.last() as int];
        if v < rest {
            v
        } else {
            rest
        }
    }
}

/// Whether every counter that `ix` addresses is above zero. This is the
/// membership answer for an item with positions `ix`.
pub open spec fn all_raised(c: Seq<nat>, ix: Seq<usize>) -> bool {
    forall|p: int| 0 <= p < ix.len() ==> c[(#[trigger] ix[p]) as int] > 0
}

/// The counters after an insertion at `ix` that raises only the positions
/// holding the minimum: such a counter rises once for each time `ix` names
/// it, every other counter stays.
pub open spec fn after_add(c: Seq<nat>, ix: Seq<usize>, max: nat) -> Seq<nat> {
    let m = minimum_at(c, ix, max);
    Seq::new(
        c.len(),
        |k: int|
            if c[k] == m {
                raised(c[k], occurrences(ix, k), max)
            } else {
                c[k]
            },
    )
}

/// The counters after an insertion at `ix` that raises every position: each
/// counter rises once for each time `ix` names it.
pub open spec fn after_add_all(c: Seq<nat>, ix: Seq<usize>, max: nat) -> Seq<nat> {
    Seq::new(c.len(), |k: int| raised(c[k], occurrences(ix, k), max))
}

/// The counters after the insertions `ops`, in order, each raising only its
/// minimum positions.
pub open spec fn after_adds(c: Seq<nat>, ops: Seq<Seq<usize>>, max: nat) -> Seq<nat>
    decreases ops.len(),
{
    if ops.len() == 0 {
        c
    } else {
        after_add(after_adds(c, ops.drop_last(), max), ops.last(), max)
    }
}

/// The counters after the insertions `ops`, in order, each raising all of
/// its positions.
pub open spec fn after_adds_all(c: Seq<nat>, ops: Seq<Seq<usize>>, max: nat) -> Seq<nat>
    decreases ops.len(),
{
    if ops.len() == 0 {
        c
    } else {
        after_add_all(after_adds_all(c, ops.drop_last(), max), ops.last(), max)
    }
}

/// How many of the insertions `ops` were made at exactly the list `ix`.
pub open spec fn times_added(ops: Seq<Seq<usize>>, ix: Seq<usize>) -> nat
    decreases ops.len(),
{
    if ops.len() == 0 {
        0
    } else {
        times_added(ops.drop_last(), ix) + if ops.last() == ix {
            1nat
        } else {
            0nat
        }
    }
}

/// Whether some insertion of `ops` addresses the position `k`.
pub open spec fn touched(ops: Seq<Seq<usize>>, k: int) -> bool {
    exists|j: int| 0 <= j < ops.len() && occurrences(#[trigger] ops[j], k) > 0
}

/// The smaller of two numbers.
pub open spec fn lesser(a: nat, b: nat) -> nat {
    if a <= b {
        a
    } else {
        b
    }
}

/// A position that `ix` holds occurs in it at least once, and one that it
/// does not hold occurs zero times.
pub proof fn lemma_occurrences(ix: Seq<usize>, k: int)
    ensures
        occurrences(ix, k) > 0 <==> exists|p: int| 0 <= p < ix.len() && ix[p] == k,
    decreases ix.len(),
{
    if ix.len() > 0 {
        let front = ix.drop_last();
        lemma_occurrences(front, k);
        if occurrences(ix, k) > 0 {
            if ix.last() == k {
                assert(ix[ix.len() - 1] == k);
            } else {
                let p = choose|p: int| 0 <= p < front.len() && front[p] == k;
                assert(ix[p] == k);
            }
        }
        if exists|p: int| 0 <= p < ix.len() && ix[p] == k {
            let p = choose|p: int| 0 <= p < ix.len() && ix[p] == k;
            if p < ix.len() - 1 {
                assert(front[p] == k);
            }
        }
    }
}

/// The estimate is the least of `max` and the addressed counters: it is
/// above none of them, and it is `max` or one of them.
pub proof fn lemma_minimum_at(c: Seq<nat>, ix: Seq<usize>, max: nat)
    ensures
        minimum_at(c, ix, max) <= max,
        forall|p: int| 0 <= p < ix.len() ==> minimum_at(c, ix, max) <= c[(#[trigger] ix[p]) as int],
        minimum_at(c, ix, max) == max || exists|p: int|
            0 <= p < ix.len() && c[ix[p] as int] == minimum_at(c, ix, max),
    decreases ix.len(),
{
    if ix.len() > 0 {
        let front = ix.drop_last();
        let m = minimum_at(c, ix, max);
        lemma_minimum_at(c, front, max);
        assert forall|p: int| 0 <= p < ix.len() implies m <= c[(#[trigger] ix[p]) as int] by {
            if p < ix.len() - 1 {
                assert(front[p] == ix[p]);
            }
        }
        if m != max {
            if c[ix.last() as int] == m {
                assert(c[ix[ix.len() - 1] as int] == m);
            } else {
                let p = choose|p: int|
                    0 <= p < front.len() && c[front[p] as int] == minimum_at(c, front, max);
                assert(c[ix[p] as int] == m);
            }
        }
    }
}

/// A bound that holds of `max` and of every addressed counter holds of the
/// estimate.
pub proof fn lemma_minimum_at_least(c: Seq<nat>, ix: Seq<usize>, max: nat, bound: nat)
    requires
        bound <= max,
        forall|p: int| 0 <= p < ix.len() ==> bound <= c[(#[trigger] ix[p]) as int],
    ensures
        bound <= minimum_at(c, ix, max),
{
    lemma_minimum_at(c, ix, max);
}

/// The estimate is zero exactly when the membership answer is no, for
/// counters of at least one bit.
pub proof fn lemma_zero_estimate_iff_absent(c: Seq<nat>, ix: Seq<usize>, max: nat)
    requires
        max >= 1,
    ensures
        minimum_at(c, ix, max) == 0 <==> !all_raised(c, ix),
{
    lemma_minimum_at(c, ix, max);
}

/// Raising counters never lowers an estimate.
pub proof fn lemma_minimum_monotone(c: Seq<nat>, d: Seq<nat>, ix: Seq<usize>, max: nat)
    requires
        nowhere_above(c, d),
        in_range(ix, c.len()),
    ensures
        minimum_at(c, ix, max) <= minimum_at(d, ix, max),
{
    lemma_minimum_at(c, ix, max);
    lemma_minimum_at(d, ix, max);
}

/// Saturation: a counter that has reached `max` stays there, whatever
/// further increments come, and no increment takes a counter past `max` or
/// back below where it stood.
pub proof fn lemma_saturated_counter_stays(v: nat, by: nat, max: nat)
    requires
        v <= max,
    ensures
        raised(max, by, max) == max,
        v <= raised(v, by, max) <= max,
        raised(v, by, max) == max ==> raised(raised(v, by, max), 1, max) == max,
{
}

/// An insertion lowers no counter and keeps all of them within `max`.
pub proof fn lemma_add_keeps_bounds(c: Seq<nat>, ix: Seq<usize>, max: nat)
    requires
        bounded(c, max),
    ensures
        nowhere_above(c, after_add(c, ix, max)),
        bounded(after_add(c, ix, max), max),
        nowhere_above(c, after_add_all(c, ix, max)),
        bounded(after_add_all(c, ix, max), max),
{
}

/// After an insertion at `ix`, every counter that `ix` addresses is above
/// zero: the inserted item is found.
pub proof fn lemma_added_is_found(c: Seq<nat>, ix: Seq<usize>, max: nat)
    requires
        max >= 1,
        bounded(c, max),
        in_range(ix, c.len()),
    ensures
        all_raised(after_add(c, ix, max), ix),
        all_raised(after_add_all(c, ix, max), ix),
{
    lemma_minimum_at(c, ix, max);
    assert forall|p: int| 0 <= p < ix.len() implies after_add(c, ix, max)[(#[trigger] ix[p]) as int]
        > 0 && after_add_all(c, ix, max)[ix[p] as int] > 0 by {
        lemma_occurrences(ix, ix[p] as int);
    }
}

/// An insertion at `ix` raises the estimate for `ix` by at least one, unless
/// it is held at `max`.
pub proof fn lemma_add_raises_estimate(c: Seq<nat>, ix: Seq<usize>, max: nat)
    requires
        bounded(c, max),
        in_range(ix, c.len()),
    ensures
        minimum_at(after_add(c, ix, max), ix, max) >= raised(minimum_at(c, ix, max), 1, max),
{
    let m = minimum_at(c, ix, max);
    let d = after_add(c, ix, max);
    lemma_minimum_at(c, ix, max);
    assert forall|p: int| 0 <= p < ix.len() implies raised(m, 1, max) <= d[(#[trigger] ix[p]) as int] by {
        lemma_occurrences(ix, ix[p] as int);
    }
    lemma_minimum_at_least(d, ix, max, raised(m, 1, max));
}

/// An insertion, at whatever positions, lowers no estimate.
pub proof fn lemma_add_never_lowers_estimate(
    c: Seq<nat>,
    added: Seq<usize>,
    ix: Seq<usize>,
    max: nat,
)
    requires
        bounded(c, max),
        in_range(ix, c.len()),
    ensures
        minimum_at(c, ix, max) <= minimum_at(after_add(c, added, max), ix, max),
        minimum_at(c, ix, max) <= minimum_at(after_add_all(c, added, max), ix, max),
{
    lemma_add_keeps_bounds(c, added, max);
    lemma_minimum_monotone(c, after_add(c, added, max), ix, max);
    lemma_minimum_monotone(c, after_add_all(c, added, max), ix, max);
}

/// Raising only the minimum positions never leaves a counter above where
/// raising all positions leaves it, from states that compare the same way.
pub proof fn lemma_add_below_add_all(c: Seq<nat>, d: Seq<nat>, ix: Seq<usize>, max: nat)
    requires
        nowhere_above(c, d),
        bounded(d, max),
    ensures
        nowhere_above(after_add(c, ix, max), after_add_all(d, ix, max)),
{
}

/// A run of insertions keeps the number of counters and their bound, and
/// lowers none of them.
pub proof fn lemma_adds_keep_bounds(c: Seq<nat>, ops: Seq<Seq<usize>>, max: nat)
    requires
        bounded(c, max),
    ensures
        nowhere_above(c, after_adds(c, ops, max)),
        bounded(after_adds(c, ops, max), max),
        nowhere_above(c, after_adds_all(c, ops, max)),
        bounded(after_adds_all(c, ops, max), max),
    decreases ops.len(),
{
    if ops.len() > 0 {
        lemma_adds_keep_bounds(c, ops.drop_last(), max);
        lemma_add_keeps_bounds(after_adds(c, ops.drop_last(), max), ops.last(), max);
        lemma_add_keeps_bounds(after_adds_all(c, ops.drop_last(), max), ops.last(), max);
    }
}

/// No false negatives: after a run of insertions, an item whose positions
/// were inserted at least once is found.
pub proof fn lemma_no_false_negatives(
    c: Seq<nat>,
    ops: Seq<Seq<usize>>,
    ix: Seq<usize>,
    max: nat,
)
    requires
        max >= 1,
        bounded(c, max),
        in_range(ix, c.len()),
        times_added(ops, ix) >= 1,
    ensures
        all_raised(after_adds(c, ops, max), ix),
        all_raised(after_adds_all(c, ops, max), ix),
    decreases ops.len(),
{
    if ops.len() > 0 {
        let before = after_adds(c, ops.drop_last(), max);
        let before_all = after_adds_all(c, ops.drop_last(), max);
        lemma_adds_keep_bounds(c, ops.drop_last(), max);
        if ops.last() == ix {
            lemma_added_is_found(before, ix, max);
            lemma_added_is_found(before_all, ix, max);
        } else {
            lemma_no_false_negatives(c, ops.drop_last(), ix, max);
            lemma_add_keeps_bounds(before, ops.last(), max);
            lemma_add_keeps_bounds(before_all, ops.last(), max);
            assert forall|p: int| 0 <= p < ix.len() implies after_adds(c, ops, max)[(
            #[trigger] ix[p]) as int] > 0 && after_adds_all(c, ops, max)[ix[p] as int] > 0 by {
                assert(before[ix[p] as int] > 0);
                assert(before_all[ix[p] as int] > 0);
            }
        }
    }
}

/// No underestimation below saturation: after a run of insertions, the
/// estimate for an item is at least the number of times its positions were
/// inserted, or `max` if that is less.
pub proof fn lemma_no_underestimation(
    c: Seq<nat>,
    ops: Seq<Seq<usize>>,
    ix: Seq<usize>,
    max: nat,
)
    requires
        bounded(c, max),
        in_range(ix, c.len()),
    ensures
        minimum_at(after_adds(c, ops, max), ix, max) >= lesser(times_added(ops, ix), max),
    decreases ops.len(),
{
    if ops.len() > 0 {
        let before = after_adds(c, ops.drop_last(), max);
        lemma_adds_keep_bounds(c, ops.drop_last(), max);
        lemma_no_underestimation(c, ops.drop_last(), ix, max);
        if ops.last() == ix {
            lemma_add_raises_estimate(before, ix, max);
        } else {
            lemma_add_never_lowers_estimate(before, ops.last(), ix, max);
        }
    }
}

/// Monotonicity: one more insertion, at whatever positions, lowers no
/// item's estimate.
pub proof fn lemma_estimate_never_falls(
    c: Seq<nat>,
    ops: Seq<Seq<usize>>,
    next: Seq<usize>,
    ix: Seq<usize>,
    max: nat,
)
    requires
        bounded(c, max),
        in_range(ix, c.len()),
    ensures
        minimum_at(after_adds(c, ops, max), ix, max) <= minimum_at(
            after_adds(c, ops.push(next), max),
            ix,
            max,
        ),
{
    lemma_adds_keep_bounds(c, ops, max);
    assert(ops.push(next).drop_last() =~= ops);
    lemma_add_never_lowers_estimate(after_adds(c, ops, max), next, ix, max);
}

/// A counter that no insertion of a run addresses keeps its value.
pub proof fn lemma_untouched_counter_stays(c: Seq<nat>, ops: Seq<Seq<usize>>, k: int, max: nat)
    requires
        bounded(c, max),
        0 <= k < c.len(),
        forall|j: int| 0 <= j < ops.len() ==> occurrences(#[trigger] ops[j], k) == 0,
    ensures
        after_adds(c, ops, max)[k] == c[k],
        after_adds_all(c, ops, max)[k] == c[k],
    decreases ops.len(),
{
    if ops.len() > 0 {
        let front = ops.drop_last();
        assert forall|j: int| 0 <= j < front.len() implies occurrences(#[trigger] front[j], k)
            == 0 by {
            assert(front[j] == ops[j]);
        }
        lemma_untouched_counter_stays(c, front, k, max);
        lemma_adds_keep_bounds(c, front, max);
        assert(occurrences(ops[ops.len() - 1], k) == 0);
    }
}

/// A counter that some insertion of a run addresses is above zero afterwards.
pub proof fn lemma_touched_counter_is_raised(c: Seq<nat>, ops: Seq<Seq<usize>>, k: int, max: nat)
    requires
        max >= 1,
        bounded(c, max),
        0 <= k < c.len(),
        touched(ops, k),
    ensures
        after_adds(c, ops, max)[k] > 0,
        after_adds_all(c, ops, max)[k] > 0,
    decreases ops.len(),
{
    let front = ops.drop_last();
    let before = after_adds(c, front, max);
    let before_all = after_adds_all(c, front, max);
    lemma_adds_keep_bounds(c, front, max);
    lemma_add_keeps_bounds(before, ops.last(), max);
    lemma_add_keeps_bounds(before_all, ops.last(), max);
    if occurrences(ops.last(), k) > 0 {
        lemma_occurrences(ops.last(), k);
        lemma_minimum_at(before, ops.last(), max);
    } else {
        let j = choose|j: int| 0 <= j < ops.len() && occurrences(#[trigger] ops[j], k) > 0;
        assert(front[j] == ops[j]);
        lemma_touched_counter_is_raised(c, front, k, max);
    }
}

/// From counters at zero, an item is found exactly when insertions have
/// addressed every one of its positions, and its estimate is zero exactly
/// when they have left one of them out. So an item never inserted counts
/// zero unless other insertions reach all of its counters.
pub proof fn lemma_found_iff_every_position_touched(
    c: Seq<nat>,
    ops: Seq<Seq<usize>>,
    ix: Seq<usize>,
    max: nat,
)
    requires
        max >= 1,
        forall|k: int| 0 <= k < c.len() ==> c[k] == 0,
        in_range(ix, c.len()),
    ensures
        all_raised(after_adds(c, ops, max), ix) <==> forall|p: int|
            0 <= p < ix.len() ==> touched(ops, (#[trigger] ix[p]) as int),
        minimum_at(after_adds(c, ops, max), ix, max) == 0 <==> exists|p: int|
            0 <= p < ix.len() && !touched(ops, (#[trigger] ix[p]) as int),
{
    let end = after_adds(c, ops, max);
    lemma_zero_estimate_iff_absent(end, ix, max);
    assert forall|p: int| 0 <= p < ix.len() implies (end[(#[trigger] ix[p]) as int] > 0
        <==> touched(ops, ix[p] as int)) by {
        if touched(ops, ix[p] as int) {
            lemma_touched_counter_is_raised(c, ops, ix[p] as int, max);
        } else {
            lemma_untouched_counter_stays(c, ops, ix[p] as int, max);
        }
    }
}

/// Bounded overestimation: after the same run of insertions from the same
/// start, the estimate under the minimum-only policy is no more than the
/// estimate under the policy that raises every position.
pub proof fn lemma_minimum_policy_estimates_less(
    c: Seq<nat>,
    ops: Seq<Seq<usize>>,
    ix: Seq<usize>,
    max: nat,
)
    requires
        bounded(c, max),
        in_range(ix, c.len()),
    ensures
        nowhere_above(after_adds(c, ops, max), after_adds_all(c, ops, max)),
        minimum_at(after_adds(c, ops, max), ix, max) <= minimum_at(
            after_adds_all(c, ops, max),
            ix,
            max,
        ),
    decreases ops.len(),
{
    if ops.len() > 0 {
        lemma_minimum_policy_estimates_less(c, ops.drop_last(), ix, max);
        lemma_adds_keep_bounds(c, ops.drop_last(), max);
        lemma_add_below_add_all(
            after_adds(c, ops.drop_last(), max),
            after_adds_all(c, ops.drop_last(), max),
            ops.last(),
            max,
        );
    }
    lemma_adds_keep_bounds(c, ops, max);
    lemma_minimum_monotone(after_adds(c, ops, max), after_adds_all(c, ops, max), ix, max);
}

} // verus!
