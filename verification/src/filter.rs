//! The filter: packed counters, the positions of an item, insertion and the
//! two queries.

use crate::binary::{lemma_value_bound, lemma_value_zero_iff_clear, max_of_width, value_of};
use crate::bitbuf::{bit_at, bits_of, max_bits, repeated, set_bit, BitBuf};
use crate::index::{hash_slot, reduce, slot_indices};
use crate::model::{
    after_add, after_add_all, all_raised, bounded, in_range, lemma_add_keeps_bounds,
    lemma_add_raises_estimate, lemma_added_is_found, lemma_minimum_at, minimum_at, nowhere_above,
    occurrences, raised,
};
use crate::packing::{
    counters_of, lemma_carry_in_window, lemma_clear_bits_hold_zeros, lemma_counters_bounded,
    lemma_saturated_window, lemma_window_fits, overwritten, window,
};
use vstd::arithmetic::power2::{
    lemma2_to64, lemma_pow2_pos, lemma_pow2_strictly_increases, lemma_pow2_unfold,
};
use vstd::bits::{lemma_u32_pow2_no_overflow, lemma_u32_shl_is_mul};
use vstd::prelude::*;

verus! {

/// Why a filter could not be made.
#[derive(Clone, Copy, Debug, PartialEq, Eq, Structural)]
pub enum ConstructionError {
    /// The counter width is not between one and eight bits.
    InvalidBitsPerCounter,
    /// The filter would have no counter.
    ZeroSize,
    /// The counters would take more bits than one buffer can hold.
    TooLarge,
}

/// The reason, if any, for which a filter of `size` counters of
/// `bits_per_counter` bits cannot be made.
pub open spec fn construction_fault(size: usize, bits_per_counter: u8) -> Option<ConstructionError> {
    if bits_per_counter < 1 || bits_per_counter > 8 {
        Some(ConstructionError::InvalidBitsPerCounter)
    } else if size == 0 {
        Some(ConstructionError::ZeroSize)
    } else if size * bits_per_counter > max_bits() {
        Some(ConstructionError::TooLarge)
    } else {
        None
    }
}

/// The counters while an insertion at `ix` is under way: the first `done`
/// entries have been dealt with, and counters that held `m` are raised.
spec fn partly_added(c: Seq<nat>, ix: Seq<usize>, m: nat, done: int, max: nat) -> Seq<nat> {
    Seq::new(
        c.len(),
        |k: int|
            if c[k] == m {
                raised(c[k], occurrences(ix.take(done), k), max)
            } else {
                c[k]
            },
    )
}

/// The same for an insertion that raises every position.
spec fn partly_added_all(c: Seq<nat>, ix: Seq<usize>, done: int, max: nat) -> Seq<nat> {
    Seq::new(c.len(), |k: int| raised(c[k], occurrences(ix.take(done), k), max))
}

proof fn lemma_partly_added_step(c: Seq<nat>, ix: Seq<usize>, m: nat, done: int, max: nat)
    requires
        bounded(c, max),
        in_range(ix, c.len()),
        0 <= done < ix.len(),
    ensures
        partly_added(c, ix, m, done + 1, max) == if c[ix[done] as int] == m {
            partly_added(c, ix, m, done, max).update(
                ix[done] as int,
                raised(partly_added(c, ix, m, done, max)[ix[done] as int], 1, max),
            )
        } else {
            partly_added(c, ix, m, done, max)
        },
{
    assert(ix.take(done + 1).drop_last() =~= ix.take(done));
    assert(ix.take(done + 1).last() == ix[done]);
    let now = partly_added(c, ix, m, done, max);
    let next = partly_added(c, ix, m, done + 1, max);
    if c[ix[done] as int] == m {
        assert(next =~= now.update(ix[done] as int, raised(now[ix[done] as int], 1, max)));
    } else {
        assert(next =~= now);
    }
}

proof fn lemma_partly_added_all_step(c: Seq<nat>, ix: Seq<usize>, done: int, max: nat)
    requires
        bounded(c, max),
        in_range(ix, c.len()),
        0 <= done < ix.len(),
    ensures
        partly_added_all(c, ix, done + 1, max) == partly_added_all(c, ix, done, max).update(
            ix[done] as int,
            raised(partly_added_all(c, ix, done, max)[ix[done] as int], 1, max),
        ),
{
    assert(ix.take(done + 1).drop_last() =~= ix.take(done));
    assert(ix.take(done + 1).last() == ix[done]);
    let now = partly_added_all(c, ix, done, max);
    assert(partly_added_all(c, ix, done + 1, max) =~= now.update(
        ix[done] as int,
        raised(now[ix[done] as int], 1, max),
    ));
}

proof fn lemma_partly_added_ends(c: Seq<nat>, ix: Seq<usize>, max: nat)
    requires
        bounded(c, max),
    ensures
        partly_added(c, ix, minimum_at(c, ix, max), 0, max) == c,
        partly_added(c, ix, minimum_at(c, ix, max), ix.len() as int, max) == after_add(c, ix, max),
        partly_added_all(c, ix, 0, max) == c,
        partly_added_all(c, ix, ix.len() as int, max) == after_add_all(c, ix, max),
{
    let m = minimum_at(c, ix, max);
    assert(ix.take(ix.len() as int) =~= ix);
    assert(partly_added(c, ix, m, 0, max) =~= c);
    assert(partly_added_all(c, ix, 0, max) =~= c);
    assert(partly_added(c, ix, m, ix.len() as int, max) =~= after_add(c, ix, max));
    assert(partly_added_all(c, ix, ix.len() as int, max) =~= after_add_all(c, ix, max));
}

/// An increment-only-minimum counting Bloom filter. Its view is the sequence
/// of its counters, which its bits hold packed: see [`counters_of`].
pub struct IncOnlyMinCbf {
    bb: BitBuf,
    size: usize,
    num_hashes: usize,
    bits_per_counter: u8,
    max_value: u32,
}

impl View for IncOnlyMinCbf {
    type V = Seq<nat>;

    open spec fn view(&self) -> Seq<nat> {
        counters_of(self.bits(), self.spec_size() as nat, self.spec_bits_per_counter() as nat)
    }
}

impl IncOnlyMinCbf {
    #[verifier::type_invariant]
    spec fn well_formed(&self) -> bool {
        &&& 1 <= self.bits_per_counter <= 8
        &&& self.size >= 1
        &&& self.size * self.bits_per_counter <= max_bits()
        &&& bits_of(self.bb).len() == self.size * self.bits_per_counter
        &&& self.max_value == max_of_width(self.bits_per_counter as nat)
    }

    /// The bits of the buffer that holds the counters.
    pub closed spec fn bits(&self) -> Seq<bool> {
        bits_of(self.bb)
    }

    /// The number of counters.
    pub closed spec fn spec_size(&self) -> usize {
        self.size
    }

    /// The number of positions that each item has.
    pub closed spec fn spec_num_hashes(&self) -> usize {
        self.num_hashes
    }

    /// The width of each counter, in bits.
    pub closed spec fn spec_bits_per_counter(&self) -> u8 {
        self.bits_per_counter
    }

    /// The value at which a counter stops.
    pub closed spec fn spec_max_value(&self) -> u32 {
        self.max_value
    }

    /// The positions of `item` in this filter, in slot order.
    pub open spec fn spec_indices(&self, item: Seq<u8>) -> Seq<usize> {
        slot_indices(item, self.spec_num_hashes(), self.spec_size())
    }

    /// Whether `other` has the parameters of `self`: only counters may differ.
    pub open spec fn same_parameters(&self, other: &IncOnlyMinCbf) -> bool {
        &&& self.spec_size() == other.spec_size()
        &&& self.spec_num_hashes() == other.spec_num_hashes()
        &&& self.spec_bits_per_counter() == other.spec_bits_per_counter()
        &&& self.spec_max_value() == other.spec_max_value()
        &&& self.bits().len() == other.bits().len()
    }

    /// Makes a filter of `size` counters of `bits_per_counter` bits, all at
    /// zero, in which each item has `num_hashes` positions. The width must be
    /// between one and eight, and there must be at least one counter; the
    /// buffer holds exactly `size * bits_per_counter` bits.
    pub fn new(size: usize, num_hashes: usize, bits_per_counter: u8) -> (made: Result<
        IncOnlyMinCbf,
        ConstructionError,
    >)
        ensures
            match made {
                Ok(filter) => {
                    &&& construction_fault(size, bits_per_counter) is None
                    &&& filter.spec_size() == size
                    &&& filter.spec_num_hashes() == num_hashes
                    &&& filter.spec_bits_per_counter() == bits_per_counter
                    &&& filter.spec_max_value() == max_of_width(bits_per_counter as nat)
                    &&& filter.bits() == Seq::new(
                        (size * bits_per_counter) as nat,
                        |i: int| false,
                    )
                    &&& filter@ == Seq::new(size as nat, |k: int| 0nat)
                },
                Err(fault) => construction_fault(size, bits_per_counter) == Some(fault),
            },
    {
        if bits_per_counter < 1 || bits_per_counter > 8 {
            return Err(ConstructionError::InvalidBitsPerCounter);
        }
        if size == 0 {
            return Err(ConstructionError::ZeroSize);
        }
        let len: usize = match size.checked_mul(bits_per_counter as usize) {
            Some(len) => len,
            None => {
                return Err(ConstructionError::TooLarge);
            },
        };
        if len > usize::MAX / 8 {
            return Err(ConstructionError::TooLarge);
        }
        proof {
            lemma_u32_pow2_no_overflow(bits_per_counter as nat);
            lemma_u32_shl_is_mul(1u32, bits_per_counter as u32);
        }
        let max_value: u32 = (1u32 << (bits_per_counter as u32)) - 1;
        let bb = repeated(false, len);
        proof {
            lemma_clear_bits_hold_zeros(bits_of(bb), size as nat, bits_per_counter as nat);
        }
        Ok(IncOnlyMinCbf { bb, size, num_hashes, bits_per_counter, max_value })
    }

    /// The number of counters: at least one, and the buffer holds as many
    /// bits as they take.
    #[verifier::when_used_as_spec(spec_size)]
    pub fn size(&self) -> (size: usize)
        ensures
            size == self.spec_size(),
            size >= 1,
            self@.len() == size,
            self.bits().len() == size * self.spec_bits_per_counter(),
    {
        proof {
            use_type_invariant(self);
        }
        self.size
    }

    /// The number of positions that each item has.
    #[verifier::when_used_as_spec(spec_num_hashes)]
    pub fn num_hashes(&self) -> (num_hashes: usize)
        ensures
            num_hashes == self.spec_num_hashes(),
    {
        self.num_hashes
    }

    /// The width of each counter, in bits.
    #[verifier::when_used_as_spec(spec_bits_per_counter)]
    pub fn bits_per_counter(&self) -> (width: u8)
        ensures
            width == self.spec_bits_per_counter(),
            1 <= width <= 8,
    {
        proof {
            use_type_invariant(self);
        }
        self.bits_per_counter
    }

    /// The value at which a counter stops: two to the counter width, less
    /// one. No counter of the filter is above it.
    #[verifier::when_used_as_spec(spec_max_value)]
    pub fn max_value(&self) -> (max: u32)
        ensures
            max == self.spec_max_value(),
            max == max_of_width(self.spec_bits_per_counter() as nat),
            max >= 1,
            bounded(self@, max as nat),
    {
        proof {
            use_type_invariant(self);
            lemma_counters_bounded(
                bits_of(self.bb),
                self.size as nat,
                self.bits_per_counter as nat,
            );
            lemma2_to64();
            lemma_pow2_unfold(self.bits_per_counter as nat);
            lemma_pow2_pos((self.bits_per_counter - 1) as nat);
        }
        self.max_value
    }

    /// Reads the counter at `index`: its bits, least significant first.
    pub fn get_counter(&self, index: usize) -> (value: u32)
        requires
            index < self.spec_size(),
        ensures
            value == self@[index as int],
            value <= self.spec_max_value(),
    {
        proof {
            use_type_invariant(self);
            lemma_counters_bounded(
                bits_of(self.bb),
                self.size as nat,
                self.bits_per_counter as nat,
            );
            lemma_window_fits(index as int, self.bits_per_counter as int, self.size as int);
        }
        let width: usize = self.bits_per_counter as usize;
        let first_bit: usize = index * width;
        let last_bit: usize = first_bit + width;
        let ghost bits = window(bits_of(self.bb), index as int, width as int);
        assert(value_of(bits) == self@[index as int] <= self.max_value);
        let mut value: u32 = 0;
        let mut pos: u32 = 0;
        for i in first_bit..last_bit
            invariant
                1 <= width <= 8,
                last_bit == first_bit + width,
                last_bit <= bits_of(self.bb).len(),
                bits == bits_of(self.bb).subrange(first_bit as int, last_bit as int),
                pos == i - first_bit,
                value == value_of(bits.take(pos as int)),
        {
            proof {
                lemma_u32_pow2_no_overflow(pos as nat);
                lemma_u32_shl_is_mul(1u32, pos);
                lemma_value_bound(bits.take(pos as int));
                lemma_value_bound(bits.take(pos + 1));
                assert(bits.take(pos + 1).drop_last() =~= bits.take(pos as int));
                lemma2_to64();
                lemma_pow2_strictly_increases((pos + 1) as nat, 9);
            }
            if bit_at(&self.bb, i) {
                value += 1u32 << pos;
            }
            pos += 1;
        }
        assert(bits.take(pos as int) =~= bits);
        value
    }

    /// Whether the counter at `index` is zero: whether all its bits are clear.
    pub fn is_zero(&self, index: usize) -> (zero: bool)
        requires
            index < self.spec_size(),
        ensures
            zero == (self@[index as int] == 0),
    {
        proof {
            use_type_invariant(self);
            lemma_window_fits(index as int, self.bits_per_counter as int, self.size as int);
        }
        let width: usize = self.bits_per_counter as usize;
        let first_bit: usize = index * width;
        let last_bit: usize = first_bit + width;
        let ghost bits = window(bits_of(self.bb), index as int, width as int);
        proof {
            lemma_value_zero_iff_clear(bits);
        }
        for i in first_bit..last_bit
            invariant
                index < self.size,
                last_bit == first_bit + width,
                last_bit <= bits_of(self.bb).len(),
                bits == bits_of(self.bb).subrange(first_bit as int, last_bit as int),
                self@[index as int] == value_of(bits),
                value_of(bits) == 0 <==> forall|q: int| 0 <= q < bits.len() ==> !bits[q],
                forall|q: int| 0 <= q < i - first_bit ==> !bits[q],
        {
            if bit_at(&self.bb, i) {
                assert(bits[i - first_bit]);
                return false;
            }
        }
        true
    }

    /// Adds one to the counter at `index` by a ripple carry over its bits. A
    /// counter that has reached its largest value stays there. No other
    /// counter changes.
    pub fn increment_counter(&mut self, index: usize)
        requires
            index < old(self).spec_size(),
        ensures
            final(self)@ == old(self)@.update(
                index as int,
                raised(old(self)@[index as int], 1, old(self).spec_max_value() as nat),
            ),
            final(self).same_parameters(old(self)),
    {
        proof {
            use_type_invariant(&*self);
            lemma_window_fits(index as int, self.bits_per_counter as int, self.size as int);
        }
        let ghost before = bits_of(self.bb);
        let ghost size = self.size as nat;
        let width: usize = self.bits_per_counter as usize;
        let first_bit: usize = index * width;
        let last_bit: usize = first_bit + width;
        assert(bits_of(self.bb) =~= overwritten(before, first_bit as int, first_bit as int, false));
        for i in first_bit..last_bit
            invariant
                old(self).well_formed(),
                before == old(self).bits(),
                size == old(self).size,
                width == old(self).bits_per_counter,
                self.same_parameters(old(self)),
                before.len() == size * width,
                index < size,
                first_bit == index * width,
                last_bit == first_bit + width,
                last_bit <= before.len(),
                bits_of(self.bb) == overwritten(before, first_bit as int, i as int, false),
                forall|q: int| first_bit <= q < i ==> before[q],
        {
            if bit_at(&self.bb, i) {
                set_bit(&mut self.bb, i, false);
                assert(bits_of(self.bb) =~= overwritten(before, first_bit as int, i + 1, false));
            } else {
                set_bit(&mut self.bb, i, true);
                proof {
                    lemma_carry_in_window(before, size, width as nat, index as int, i as int);
                }
                return ;
            }
        }
        let ghost cleared = bits_of(self.bb);
        assert(cleared =~= overwritten(cleared, first_bit as int, first_bit as int, true));
        for i in first_bit..last_bit
            invariant
                old(self).well_formed(),
                before == old(self).bits(),
                size == old(self).size,
                width == old(self).bits_per_counter,
                self.same_parameters(old(self)),
                before.len() == size * width,
                index < size,
                first_bit == index * width,
                last_bit == first_bit + width,
                last_bit <= before.len(),
                cleared == overwritten(before, first_bit as int, last_bit as int, false),
                bits_of(self.bb) == overwritten(cleared, first_bit as int, i as int, true),
                forall|q: int| first_bit <= q < last_bit ==> before[q],
        {
            set_bit(&mut self.bb, i, true);
            assert(bits_of(self.bb) =~= overwritten(cleared, first_bit as int, i + 1, true));
        }
        proof {
            lemma_saturated_window(before, size, width as nat, index as int);
            assert(self@ =~= old(self)@);
        }
    }

    /// Computes the positions of `item`: one per slot, each below the number
    /// of counters. The same item always gets the same positions.
    pub fn hash_indices(&self, item: &[u8]) -> (indices: Vec<usize>)
        ensures
            indices@ == self.spec_indices(item@),
            indices@.len() == self.spec_num_hashes(),
            in_range(indices@, self.spec_size() as nat),
    {
        proof {
            use_type_invariant(self);
        }
        let mut indices: Vec<usize> = Vec::new();
        for i in 0..self.num_hashes
            invariant
                self.size >= 1,
                indices@ == slot_indices(item@, i, self.size),
        {
            indices.push(reduce(hash_slot(i, item), self.size));
            assert(indices@ =~= slot_indices(item@, (i + 1) as usize, self.size));
        }
        indices
    }

    /// Inserts at the given positions, raising only those whose counter holds
    /// the minimum among them. A position listed twice is raised twice.
    pub fn add_at(&mut self, indices: &[usize])
        requires
            in_range(indices@, old(self).spec_size() as nat),
        ensures
            final(self)@ == after_add(old(self)@, indices@, old(self).spec_max_value() as nat),
            final(self).same_parameters(old(self)),
            nowhere_above(old(self)@, final(self)@),
            all_raised(final(self)@, indices@),
            minimum_at(final(self)@, indices@, old(self).spec_max_value() as nat) >= raised(
                minimum_at(old(self)@, indices@, old(self).spec_max_value() as nat),
                1,
                old(self).spec_max_value() as nat,
            ),
    {
        let ghost before = self@;
        let ghost max = self.max_value as nat;
        let mut min_value: u32 = self.max_value();
        let mut values: Vec<u32> = Vec::new();
        for p in 0..indices.len()
            invariant
                in_range(indices@, self.size as nat),
                before == self@,
                max == self.max_value,
                values@.len() == p,
                forall|q: int| 0 <= q < p ==> values@[q] == before[indices@[q] as int],
                min_value == minimum_at(before, indices@.take(p as int), max),
        {
            let current_value: u32 = self.get_counter(indices[p]);
            values.push(current_value);
            if current_value < min_value {
                min_value = current_value;
            }
            assert(indices@.take(p + 1).drop_last() =~= indices@.take(p as int));
        }
        proof {
            assert(indices@.take(indices@.len() as int) =~= indices@);
            lemma_partly_added_ends(before, indices@, max);
        }
        for p in 0..indices.len()
            invariant
                in_range(indices@, before.len()),
                bounded(before, max),
                before.len() == self.size,
                self.same_parameters(old(self)),
                max == old(self).max_value,
                values@.len() == indices@.len(),
                forall|q: int| 0 <= q < indices@.len() ==> values@[q] == before[indices@[q] as int],
                min_value == minimum_at(before, indices@, max),
                self@ == partly_added(before, indices@, min_value as nat, p as int, max),
        {
            proof {
                lemma_partly_added_step(before, indices@, min_value as nat, p as int, max);
            }
            if values[p] == min_value {
                self.increment_counter(indices[p]);
            }
        }
        proof {
            lemma_add_keeps_bounds(before, indices@, max);
            lemma_added_is_found(before, indices@, max);
            lemma_add_raises_estimate(before, indices@, max);
        }
    }

    /// Inserts at the given positions, raising every one of them. A position
    /// listed twice is raised twice.
    pub fn add_all_at(&mut self, indices: &[usize])
        requires
            in_range(indices@, old(self).spec_size() as nat),
        ensures
            final(self)@ == after_add_all(old(self)@, indices@, old(self).spec_max_value() as nat),
            final(self).same_parameters(old(self)),
            nowhere_above(old(self)@, final(self)@),
            all_raised(final(self)@, indices@),
    {
        let ghost before = self@;
        let max_value: u32 = self.max_value();
        let ghost max = max_value as nat;
        proof {
            lemma_partly_added_ends(before, indices@, max);
        }
        for p in 0..indices.len()
            invariant
                in_range(indices@, before.len()),
                bounded(before, max),
                before.len() == self.size,
                self.same_parameters(old(self)),
                max == old(self).max_value,
                self@ == partly_added_all(before, indices@, p as int, max),
        {
            proof {
                lemma_partly_added_all_step(before, indices@, p as int, max);
            }
            self.increment_counter(indices[p]);
        }
        proof {
            lemma_add_keeps_bounds(before, indices@, max);
            lemma_added_is_found(before, indices@, max);
        }
    }

    /// Whether every counter at the given positions is above zero.
    pub fn contains_at(&self, indices: &[usize]) -> (found: bool)
        requires
            in_range(indices@, self.spec_size() as nat),
        ensures
            found == all_raised(self@, indices@),
    {
        for p in 0..indices.len()
            invariant
                in_range(indices@, self.spec_size() as nat),
                forall|q: int| 0 <= q < p ==> self@[indices@[q] as int] > 0,
        {
            if self.is_zero(indices[p]) {
                return false;
            }
        }
        true
    }

    /// The least counter at the given positions, and the largest counter
    /// value where no position is given.
    pub fn count_at(&self, indices: &[usize]) -> (estimate: u32)
        requires
            in_range(indices@, self.spec_size() as nat),
        ensures
            estimate == minimum_at(self@, indices@, self.spec_max_value() as nat),
            estimate <= self.spec_max_value(),
    {
        let mut min_value: u32 = self.max_value();
        for p in 0..indices.len()
            invariant
                in_range(indices@, self.spec_size() as nat),
                min_value == minimum_at(self@, indices@.take(p as int), self.spec_max_value() as nat),
        {
            let value: u32 = self.get_counter(indices[p]);
            if value == 0 {
                proof {
                    lemma_minimum_at(self@, indices@, self.spec_max_value() as nat);
                }
                return 0;
            }
            if value < min_value {
                min_value = value;
            }
            assert(indices@.take(p + 1).drop_last() =~= indices@.take(p as int));
        }
        proof {
            assert(indices@.take(indices@.len() as int) =~= indices@);
            lemma_minimum_at(self@, indices@, self.spec_max_value() as nat);
        }
        min_value
    }

    /// Inserts `item`: of the counters at its positions, those that hold the
    /// minimum rise by one, once for each time the position occurs, and stop
    /// at the largest counter value. Afterwards the item is found, and its
    /// estimate has risen unless it was at the largest value.
    pub fn add(&mut self, item: &[u8])
        ensures
            final(self)@ == after_add(
                old(self)@,
                old(self).spec_indices(item@),
                old(self).spec_max_value() as nat,
            ),
            final(self).same_parameters(old(self)),
            nowhere_above(old(self)@, final(self)@),
            all_raised(final(self)@, old(self).spec_indices(item@)),
            minimum_at(
                final(self)@,
                old(self).spec_indices(item@),
                old(self).spec_max_value() as nat,
            ) >= raised(
                minimum_at(
                    old(self)@,
                    old(self).spec_indices(item@),
                    old(self).spec_max_value() as nat,
                ),
                1,
                old(self).spec_max_value() as nat,
            ),
    {
        let indices = self.hash_indices(item);
        self.add_at(indices.as_slice());
    }

    /// Inserts `item` by raising the counter at every one of its positions:
    /// the plain counting filter, kept for comparison with [`Self::add`].
    pub fn add_all(&mut self, item: &[u8])
        ensures
            final(self)@ == after_add_all(
                old(self)@,
                old(self).spec_indices(item@),
                old(self).spec_max_value() as nat,
            ),
            final(self).same_parameters(old(self)),
            nowhere_above(old(self)@, final(self)@),
            all_raised(final(self)@, old(self).spec_indices(item@)),
    {
        let indices = self.hash_indices(item);
        self.add_all_at(indices.as_slice());
    }

    /// Whether `item` may have been inserted: whether every counter at its
    /// positions is above zero.
    pub fn contains(&self, item: &[u8]) -> (found: bool)
        ensures
            found == all_raised(self@, self.spec_indices(item@)),
    {
        let indices = self.hash_indices(item);
        self.contains_at(indices.as_slice())
    }

    /// The frequency estimate for `item`: the least counter at its positions.
    pub fn count(&self, item: &[u8]) -> (estimate: u32)
        ensures
            estimate == minimum_at(self@, self.spec_indices(item@), self.spec_max_value() as nat),
            estimate <= self.spec_max_value(),
    {
        let indices = self.hash_indices(item);
        self.count_at(indices.as_slice())
    }
}

} // verus!
