//! Counters of a fixed width, packed one after the other into a bit
//! sequence: counter `k` of width `w` takes the bits from `k * w` up to
//! `k * w + w`, least significant bit first.

use crate::binary::{
    lemma_carry_adds_one, lemma_value_all_set, lemma_value_bound, lemma_value_zero_iff_clear,
    max_of_width, value_of,
};
use crate::model::bounded;
use vstd::prelude::*;

verus! {

/// The bits of counter `k` among counters of `width` bits.
pub open spec fn window(bits: Seq<bool>, k: int, width: int) -> Seq<bool> {
    bits.subrange(k * width, k * width + width)
}

/// The `size` counters of `width` bits that `bits` holds.
pub open spec fn counters_of(bits: Seq<bool>, size: nat, width: nat) -> Seq<nat> {
    Seq::new(size, |k: int| value_of(window(bits, k, width as int)))
}

/// The bits `bits` with those from `from` up to `to` replaced by `bit`.
pub open spec fn overwritten(bits: Seq<bool>, from: int, to: int, bit: bool) -> Seq<bool> {
    Seq::new(
        bits.len(),
        |q: int|
            if from <= q < to {
                bit
            } else {
                bits[q]
            },
    )
}

/// The window of a counter lies within the bits of all counters.
pub proof fn lemma_window_fits(k: int, width: int, size: int)
    requires
        0 <= k < size,
        0 < width,
    ensures
        0 <= k * width,
        k * width + width <= size * width,
{
    assert(0 <= k * width && k * width + width <= size * width) by (nonlinear_arith)
        requires
            0 <= k < size,
            0 < width,
    ;
}

/// The window of a counter ends before that of any later counter begins.
pub proof fn lemma_windows_apart(j: int, k: int, width: int)
    requires
        0 <= j < k,
        0 < width,
    ensures
        j * width + width <= k * width,
{
    assert(j * width + width <= k * width) by (nonlinear_arith)
        requires
            0 <= j < k,
            0 < width,
    ;
}

/// No packed counter exceeds the largest value of its width.
pub proof fn lemma_counters_bounded(bits: Seq<bool>, size: nat, width: nat)
    requires
        0 < width,
        bits.len() == size * width,
    ensures
        bounded(counters_of(bits, size, width), max_of_width(width)),
{
    assert forall|k: int| 0 <= k < size implies (#[trigger] counters_of(bits, size, width)[k])
        <= max_of_width(width) by {
        lemma_window_fits(k, width as int, size as int);
        lemma_value_bound(window(bits, k, width as int));
    }
}

/// Bits that are all clear hold counters that are all zero.
pub proof fn lemma_clear_bits_hold_zeros(bits: Seq<bool>, size: nat, width: nat)
    requires
        0 < width,
        bits.len() == size * width,
        forall|q: int| 0 <= q < bits.len() ==> !bits[q],
    ensures
        counters_of(bits, size, width) == Seq::new(size, |k: int| 0nat),
{
    assert forall|k: int| 0 <= k < size implies #[trigger] counters_of(bits, size, width)[k]
        == 0 by {
        lemma_window_fits(k, width as int, size as int);
        lemma_value_zero_iff_clear(window(bits, k, width as int));
    }
    assert(counters_of(bits, size, width) =~= Seq::new(size, |k: int| 0nat));
}

/// Rewriting the bits of one counter changes that counter alone.
pub proof fn lemma_one_counter_rewritten(
    before: Seq<bool>,
    after: Seq<bool>,
    size: nat,
    width: nat,
    index: int,
)
    requires
        0 < width,
        before.len() == size * width,
        after.len() == before.len(),
        0 <= index < size,
        forall|q: int|
            0 <= q < index * width || index * width + width <= q < before.len() ==> after[q]
                == before[q],
    ensures
        counters_of(after, size, width) == counters_of(before, size, width).update(
            index,
            value_of(window(after, index, width as int)),
        ),
{
    let w = width as int;
    let changed = counters_of(before, size, width).update(index, value_of(window(after, index, w)));
    assert forall|k: int| 0 <= k < size implies #[trigger] counters_of(after, size, width)[k]
        == changed[k] by {
        lemma_window_fits(k, w, size as int);
        if k < index {
            lemma_windows_apart(k, index, w);
            assert(window(after, k, w) =~= window(before, k, w));
        } else if k > index {
            lemma_windows_apart(index, k, w);
            assert(window(after, k, w) =~= window(before, k, w));
        }
    }
    assert(counters_of(after, size, width) =~= changed);
}

/// A ripple carry within the window of one counter adds one to that counter
/// and changes no other: the set bits below `at` are cleared and the clear
/// bit at `at` is set. The counter was below the largest value of its width.
pub proof fn lemma_carry_in_window(
    before: Seq<bool>,
    size: nat,
    width: nat,
    index: int,
    at: int,
)
    requires
        0 < width,
        before.len() == size * width,
        0 <= index < size,
        index * width <= at < index * width + width,
        forall|q: int| index * width <= q < at ==> before[q],
        !before[at],
    ensures
        counters_of(before, size, width)[index] < max_of_width(width),
        counters_of(overwritten(before, index * width, at, false).update(at, true), size, width)
            == counters_of(before, size, width).update(
            index,
            counters_of(before, size, width)[index] + 1,
        ),
{
    let first = index * width;
    let after = overwritten(before, first, at, false).update(at, true);
    let old_window = window(before, index, width as int);
    let new_window = window(after, index, width as int);
    lemma_window_fits(index, width as int, size as int);
    assert forall|q: int| 0 <= q < at - first implies old_window[q] && !new_window[q] by {
        assert(before[first + q]);
    }
    lemma_carry_adds_one(old_window, new_window, at - first);
    lemma_value_bound(new_window);
    lemma_one_counter_rewritten(before, after, size, width, index);
}

/// A counter whose bits are all set holds the largest value of its width,
/// and clearing its bits and then setting them again restores it.
pub proof fn lemma_saturated_window(before: Seq<bool>, size: nat, width: nat, index: int)
    requires
        0 < width,
        before.len() == size * width,
        0 <= index < size,
        forall|q: int| index * width <= q < index * width + width ==> before[q],
    ensures
        counters_of(before, size, width)[index] == max_of_width(width),
        overwritten(
            overwritten(before, index * width, index * width + width, false),
            index * width,
            index * width + width,
            true,
        ) == before,
{
    let first = index * width;
    let last = first + width;
    lemma_window_fits(index, width as int, size as int);
    let old_window = window(before, index, width as int);
    assert forall|q: int| 0 <= q < old_window.len() implies old_window[q] by {
        assert(before[first + q]);
    }
    lemma_value_all_set(old_window);
    assert(overwritten(overwritten(before, first, last, false), first, last, true) =~= before);
}

} // verus!
