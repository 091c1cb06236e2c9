//! Binary values of bit sequences, least significant bit first.

use vstd::arithmetic::power2::{lemma2_to64, lemma_pow2_pos, lemma_pow2_unfold, pow2};
use vstd::prelude::*;

verus! {

/// The number that `bits` encodes when `bits[0]` is the least significant bit.
pub open spec fn value_of(bits: Seq<bool>) -> nat
    decreases bits.len(),
{
    if bits.len() == 0 {
        0
    } else {
        value_of(bits.drop_last()) + if bits.last() {
            pow2((bits.len() - 1) as nat)
        } else {
            0
        }
    }
}

/// The largest value that `width` bits encode.
pub open spec fn max_of_width(width: nat) -> nat {
    (pow2(width) - 1) as nat
}

/// A value of `n` bits lies below two to the `n`.
pub proof fn lemma_value_bound(bits: Seq<bool>)
    ensures
        value_of(bits) <= max_of_width(bits.len()),
    decreases bits.len(),
{
    lemma_pow2_pos(bits.len());
    if bits.len() > 0 {
        lemma_value_bound(bits.drop_last());
        lemma_pow2_unfold(bits.len());
    }
}

/// The value is zero exactly when no bit is set.
pub proof fn lemma_value_zero_iff_clear(bits: Seq<bool>)
    ensures
        value_of(bits) == 0 <==> forall|q: int| 0 <= q < bits.len() ==> !bits[q],
    decreases bits.len(),
{
    if bits.len() > 0 {
        let front = bits.drop_last();
        lemma_value_zero_iff_clear(front);
        lemma_pow2_pos((bits.len() - 1) as nat);
        if value_of(bits) == 0 {
            assert forall|q: int| 0 <= q < bits.len() implies !bits[q] by {
                if q < bits.len() - 1 {
                    assert(!front[q]);
                }
            }
        }
        if forall|q: int| 0 <= q < bits.len() ==> !bits[q] {
            assert forall|q: int| 0 <= q < front.len() implies !front[q] by {
                assert(!bits[q]);
            }
        }
    }
}

/// With every bit set the value is the largest of its width.
pub proof fn lemma_value_all_set(bits: Seq<bool>)
    requires
        forall|q: int| 0 <= q < bits.len() ==> bits[q],
    ensures
        value_of(bits) == max_of_width(bits.len()),
    decreases bits.len(),
{
    lemma_pow2_pos(bits.len());
    if bits.len() > 0 {
        let front = bits.drop_last();
        assert forall|q: int| 0 <= q < front.len() implies front[q] by {
            assert(bits[q]);
        }
        lemma_value_all_set(front);
        lemma_pow2_unfold(bits.len());
    } else {
        lemma2_to64();
    }
}

/// A ripple-carry step adds one: where `after` differs from `before` by
/// clearing a run of set bits below `at` and setting the clear bit at `at`,
/// its value is one more.
pub proof fn lemma_carry_adds_one(before: Seq<bool>, after: Seq<bool>, at: int)
    requires
        before.len() == after.len(),
        0 <= at < before.len(),
        forall|q: int| 0 <= q < at ==> before[q] && !after[q],
        !before[at] && after[at],
        forall|q: int| at < q < before.len() ==> before[q] == after[q],
    ensures
        value_of(after) == value_of(before) + 1,
    decreases before.len(),
{
    let b = before.drop_last();
    let a = after.drop_last();
    if at < before.len() - 1 {
        assert(before.last() == after.last());
        lemma_carry_adds_one(b, a, at);
    } else {
        assert forall|q: int| 0 <= q < b.len() implies b[q] by {
            assert(before[q]);
        }
        lemma_value_all_set(b);
        assert forall|q: int| 0 <= q < a.len() implies !a[q] by {
            assert(!after[q]);
        }
        lemma_value_zero_iff_clear(a);
        lemma_pow2_pos(at as nat);
    }
}

} // verus!
