//! Limb decomposition of 32-byte little-endian values.
//!
//! A scalar that crosses a circuit boundary is carried as three 88-bit
//! limbs; the canonicity test for 32-byte encodings splits the same value
//! at the 128-bit mark instead.

use vstd::prelude::*;
use vstd::arithmetic::power2::*;
use vstd::arithmetic::mul::*;
use crate::bytes::le_val;
use crate::bytes::lemma_le_val_bound;
use crate::bytes::lemma_le_val_split;

verus! {

/// The value that three 88-bit limbs reconstruct: `l0 + l1·2^88 + l2·2^176`.
pub open spec fn limbs_val(l0: u128, l1: u128, l2: u128) -> nat {
    (l0 + l1 * pow2(88) + l2 * pow2(176)) as nat
}

/// The powers of two that the limb layouts use, as literals.
pub proof fn lemma_pow2_constants()
    ensures
        pow2(80) == 0x100000000000000000000,
        pow2(88) == 0x10000000000000000000000,
        pow2(120) == 0x1000000000000000000000000000000,
        pow2(128) == 0x100000000000000000000000000000000,
        pow2(176) == 0x100000000000000000000000000000000000000000000,
        pow2(248) == 0x100000000000000000000000000000000000000000000000000000000000000,

{
    lemma2_to64();
    lemma2_to64_rest();
    lemma_pow2_adds(64, 16);
    lemma_pow2_adds(64, 24);
    lemma_pow2_adds(64, 56);
    lemma_pow2_adds(64, 64);
    lemma_pow2_adds(128, 48);
    lemma_pow2_adds(128, 120);
    assert(pow2(120) == 0x1000000000000000000000000000000);
    assert(pow2(128) == 0x100000000000000000000000000000000);
    assert(pow2(248) == 0x100000000000000000000000000000000 * 0x1000000000000000000000000000000);
}

/// The value of `len` bytes of `b` starting at `start`, read little-endian.
pub fn le_chunk_val(b: &[u8; 32], start: usize, len: usize) -> (v: u128)
    requires
        start + len <= 32,
        len <= 16,
    ensures
        v == le_val(b@.subrange(start as int, (start + len) as int)),
{
    let mut v: u128 = 0;
    let mut k: usize = 0;
    proof {
        lemma2_to64();
    }
    while k < len
        invariant
            start + len <= 32,
            len <= 16,
            k <= len,
            v == le_val(b@.subrange((start + len - k) as int, (start + len) as int)),
            v < pow2((8 * k) as nat),
        decreases len - k,
    {
        let m: usize = start + len - 1 - k;
        proof {
            let s_old = b@.subrange((start + len - k) as int, (start + len) as int);
            let s_new = b@.subrange(m as int, (start + len) as int);
            assert(s_new[0] == b@[m as int]);
            assert(s_new.skip(1) =~= s_old);
            assert(le_val(s_new) == (b@[m as int] as nat) + 256 * le_val(s_old));
            assert(pow2((8 * k) as nat) <= pow2(120)) by {
                if 8 * k < 120 {
                    lemma_pow2_strictly_increases((8 * k) as nat, 120);
                }
            }
            assert(pow2(120) * 256 == pow2(128)) by {
                lemma_pow2_adds(120, 8);
                lemma2_to64();
            }
            assert(v * 256 <= (pow2(120) - 1) * 256) by {
                lemma_mul_inequality(v as int, pow2(120) - 1, 256);
            }
            lemma_pow2_constants();
            assert(pow2((8 * (k + 1)) as nat) == 256 * pow2((8 * k) as nat)) by {
                lemma_pow2_adds(8, (8 * k) as nat);
                lemma2_to64();
            }
            assert(v * 256 + 255 < pow2((8 * (k + 1)) as nat)) by {
                lemma_mul_strict_inequality(v as int, pow2((8 * k) as nat) as int, 256);
            }
        }
        v = v * 256 + (b[m] as u128);
        k = k + 1;
    }
    proof {
        assert(b@.subrange(start as int, (start + len) as int) =~= b@.subrange(
            (start + len - k) as int,
            (start + len) as int,
        ));
    }
    v
}

/// Decompose a 32-byte little-endian value into three 88-bit limbs.
///
/// The limbs reconstruct the value exactly and are bounded, which pins
/// each limb to the matching base-2^88 digit.
pub fn le_limbs(b: &[u8; 32]) -> (l: [u128; 3])
    ensures
        le_val(b@) == limbs_val(l[0], l[1], l[2]),
        l[0] < pow2(88),
        l[1] < pow2(88),
        l[2] < pow2(80),
{
    let l0 = le_chunk_val(b, 0, 11);
    let l1 = le_chunk_val(b, 11, 11);
    let l2 = le_chunk_val(b, 22, 10);
    proof {
        let s = b@;
        lemma_le_val_split(s, 11);
        lemma_le_val_split(s.skip(11), 11);
        assert(s.take(11) =~= s.subrange(0, 11));
        assert(s.skip(11).take(11) =~= s.subrange(11, 22));
        assert(s.skip(11).skip(11) =~= s.subrange(22, 32));
        lemma_le_val_bound(s.subrange(0, 11));
        lemma_le_val_bound(s.subrange(11, 22));
        lemma_le_val_bound(s.subrange(22, 32));
        assert(le_val(s) == le_val(s.subrange(0, 11)) + pow2(88) * (le_val(s.subrange(11, 22))
            + pow2(88) * le_val(s.subrange(22, 32))));
        assert(pow2(88) * (le_val(s.subrange(11, 22)) + pow2(88) * le_val(s.subrange(22, 32)))
            == pow2(88) * le_val(s.subrange(11, 22)) + pow2(176) * le_val(s.subrange(22, 32)))
            by {
            lemma_mul_is_distributive_add(
                pow2(88) as int,
                le_val(s.subrange(11, 22)) as int,
                pow2(88) * le_val(s.subrange(22, 32)) as int,
            );
            lemma_mul_is_associative(
                pow2(88) as int,
                pow2(88) as int,
                le_val(s.subrange(22, 32)) as int,
            );
            lemma_pow2_adds(88, 88);
        }
        lemma_mul_is_commutative(pow2(88) as int, le_val(s.subrange(11, 22)) as int);
        lemma_mul_is_commutative(pow2(176) as int, le_val(s.subrange(22, 32)) as int);
    }
    [l0, l1, l2]
}

/// Two values split at the 128-bit mark compare lexicographically,
/// high half first.
proof fn lemma_two_limb_lt(lo: nat, hi: nat, mlo: nat, mhi: nat)
    requires
        lo < pow2(128),
        mlo < pow2(128),
    ensures
        (lo + hi * pow2(128) < mlo + mhi * pow2(128)) <==> (hi < mhi || (hi == mhi && lo
            < mlo)),
{
    if hi < mhi {
        assert((hi + 1) * pow2(128) <= mhi * pow2(128)) by {
            lemma_mul_inequality(hi as int + 1, mhi as int, pow2(128) as int);
        }
        assert(hi * pow2(128) + pow2(128) == (hi + 1) * pow2(128)) by {
            lemma_mul_is_distributive_add_other_way(pow2(128) as int, hi as int, 1);
        }
    }
    if mhi < hi {
        assert((mhi + 1) * pow2(128) <= hi * pow2(128)) by {
            lemma_mul_inequality(mhi as int + 1, hi as int, pow2(128) as int);
        }
        assert(mhi * pow2(128) + pow2(128) == (mhi + 1) * pow2(128)) by {
            lemma_mul_is_distributive_add_other_way(pow2(128) as int, mhi as int, 1);
        }
    }
    if hi == mhi {
    }
}

/// The low and high 128-bit halves of the scalar-field order.
pub open spec fn fp_modulus_lo() -> nat {
    0x53bda402fffe5bfeffffffff00000001nat
}

/// The high 128-bit half of the scalar-field order.
pub open spec fn fp_modulus_hi() -> nat {
    0x73eda753299d7d483339d80809a1d805nat
}

/// Whether 32 little-endian bytes hold a value below the scalar-field order.
pub fn lt_fp_modulus(b: &[u8; 32]) -> (r: bool)
    ensures
        r == (le_val(b@) < fp_modulus_lo() + fp_modulus_hi() * pow2(128)),
{
    let lo = le_chunk_val(b, 0, 16);
    let hi = le_chunk_val(b, 16, 16);
    proof {
        lemma_le_val_split(b@, 16);
        assert(b@.take(16) =~= b@.subrange(0, 16));
        assert(b@.skip(16) =~= b@.subrange(16, 32));
        lemma_le_val_bound(b@.subrange(0, 16));
        lemma_mul_is_commutative(pow2(128) as int, le_val(b@.subrange(16, 32)) as int);
        lemma_pow2_constants();
        lemma_two_limb_lt(lo as nat, hi as nat, fp_modulus_lo(), fp_modulus_hi());
    }
    hi < 0x73eda753299d7d483339d80809a1d805u128 || (hi == 0x73eda753299d7d483339d80809a1d805u128
        && lo < 0x53bda402fffe5bfeffffffff00000001u128)
}

} // verus!
