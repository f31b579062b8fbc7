//! Storage strategies: how an ever-increasing logical cursor value is
//! translated to a physical slot index in `[0, capacity)`.
use vstd::arithmetic::power2::lemma_pow2_pos;
use vstd::arithmetic::power2::pow2;
use vstd::bits::lemma_usize_low_bits_mask_is_mod;
use vstd::bits::low_bits_mask;
use vstd::prelude::*;

verus! {

/// Marker for buffers whose capacity is a power of two: the translation
/// is a single bitmask.
#[derive(Debug, Copy, Clone)]
pub struct PowerOfTwo;

/// Marker for buffers of arbitrary nonzero capacity: the translation is
/// a general modulo, measurably slower than the bitmask.
#[derive(Debug, Copy, Clone)]
pub struct NonPowerOfTwo;

/// Closes `RingbufferSize`: exactly the two markers above implement it,
/// so the choice of strategy is a closed, two-way, type-level tag.
pub trait Sealed {}

impl Sealed for PowerOfTwo {}

impl Sealed for NonPowerOfTwo {}

/// A storage strategy: which capacities it accepts, and how it maps a
/// logical cursor value to the physical slot that the cursor occupies.
/// Whatever the strategy, the slot is the cursor value modulo the
/// capacity; a strategy may restrict the accepted capacities so that it
/// can compute that remainder faster.
pub trait RingbufferSize: Sealed {
    /// The capacities this strategy accepts.
    spec fn spec_valid_capacity(cap: usize) -> bool;

    /// A valid capacity is never zero.
    proof fn valid_capacity_positive(cap: usize)
        requires
            Self::spec_valid_capacity(cap),
        ensures
            cap > 0,
    ;

    /// Translates a logical cursor value to its physical slot.
    fn mask(cap: usize, index: usize) -> (r: usize)
        requires
            Self::spec_valid_capacity(cap),
        ensures
            r as int == index as int % cap as int,
    ;

    spec fn spec_must_be_power_of_two() -> bool;

    /// Whether this strategy restricts capacities to powers of two.
    fn must_be_power_of_two() -> (r: bool)
        ensures
            r == Self::spec_must_be_power_of_two(),
    ;
}

impl RingbufferSize for PowerOfTwo {
    /// A power of two that fits the machine word.
    open spec fn spec_valid_capacity(cap: usize) -> bool {
        exists|n: nat| n < usize::BITS && cap == pow2(n)
    }

    proof fn valid_capacity_positive(cap: usize) {
        let n = choose|n: nat| n < usize::BITS && cap == pow2(n);
        lemma_pow2_pos(n);
    }

    fn mask(cap: usize, index: usize) -> (r: usize) {
        proof {
            let n = choose|n: nat| n < usize::BITS && cap == pow2(n);
            lemma_pow2_pos(n);
            lemma_usize_low_bits_mask_is_mod(index, n);
            assert((cap - 1) as usize == low_bits_mask(n) as usize);
        }
        index & (cap - 1)
    }

    open spec fn spec_must_be_power_of_two() -> bool {
        true
    }

    fn must_be_power_of_two() -> (r: bool) {
        true
    }
}

impl RingbufferSize for NonPowerOfTwo {
    /// Any nonzero capacity.
    open spec fn spec_valid_capacity(cap: usize) -> bool {
        cap > 0
    }

    proof fn valid_capacity_positive(cap: usize) {
    }

    fn mask(cap: usize, index: usize) -> (r: usize) {
        index % cap
    }

    open spec fn spec_must_be_power_of_two() -> bool {
        false
    }

    fn must_be_power_of_two() -> (r: bool) {
        false
    }
}

} // verus!
