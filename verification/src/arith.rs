//! Powers of two and the mask test for alignment.

use vstd::arithmetic::power2::{is_pow2, is_pow2_equiv, pow2};
use vstd::prelude::*;

verus! {

/// `value` has no bit in common with `alignment - 1`. For a power of two this
/// says that `value` is a multiple of it.
pub open spec fn aligned(value: int, alignment: int) -> bool {
    (value as u64) & ((alignment - 1) as u64) == 0
}

pub fn is_aligned(value: u64, alignment: u64) -> (res: bool)
    requires
        alignment > 0,
    ensures
        res == aligned(value as int, alignment as int),
{
    value & (alignment - 1) == 0
}

/// For a power of two the mask test is divisibility.
pub proof fn law_alignment_is_divisibility(value: u64, alignment: u64)
    requires
        is_pow2(alignment as int),
    ensures
        aligned(value as int, alignment as int) <==> value % alignment == 0,
{
    is_pow2_equiv(alignment as int);
    let e: nat = choose|e: nat| vstd::arithmetic::power::pow(2, e) == alignment as int;
    assert(e < 64) by {
        if e >= 64 {
            vstd::arithmetic::power::lemma_pow_increases(2, 64, e);
            vstd::arithmetic::power2::lemma2_to64();
            vstd::arithmetic::power2::lemma2_to64_rest();
            vstd::arithmetic::power::lemma_pow_positive(2, 64);
            assert(pow2(64) == 0x1_0000_0000_0000_0000);
        }
    }
    vstd::arithmetic::power2::lemma_pow2_pos(e);
    assert(pow2(e) == alignment);
    vstd::bits::lemma_u64_low_bits_mask_is_mod(value, e);
    assert(vstd::bits::low_bits_mask(e) == alignment - 1);
}

pub fn is_power_of_two(n: u64) -> (res: bool)
    ensures
        res == is_pow2(n as int),
{
    reveal(is_pow2);
    let mut rest: u64 = n;
    while rest > 1 && rest % 2 == 0
        invariant
            is_pow2(n as int) == is_pow2(rest as int),
        decreases rest,
    {
        reveal(is_pow2);
        rest = rest / 2;
    }
    rest == 1
}

/// How many pieces of at most `size` cover `total`.
pub open spec fn div_ceil(total: int, size: int) -> int {
    if total % size == 0 {
        total / size
    } else {
        total / size + 1
    }
}

} // verus!
