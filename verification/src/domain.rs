//! The bit-reversed evaluation domain of 4096th roots of unity.
//!
//! The domain holds the powers of the primitive 4096th root of unity of the
//! scalar field, permuted by reversing the 12 bits of each index, the
//! canonical ordering of the blob commitment scheme.

use vstd::prelude::*;
use vstd::arithmetic::power2::*;
use vstd::arithmetic::div_mod::*;
use crate::bytes::le_val;
use crate::field::Fe;
use crate::field::fp_modulus;
use crate::field::pow_fp;
use crate::field::lemma_le_val_32;
use crate::field::lemma_pow_fp_step;
use crate::field::lemma_pow_fp_zero;

verus! {

/// The number of field elements in a blob; a power of two.
pub const BLOB_WIDTH: usize = 4096;

/// log2 of `BLOB_WIDTH`.
pub const BLOB_WIDTH_BITS: u32 = 12;

/// The value of the primitive `BLOB_WIDTH`-th root of unity:
/// the field generator 7 raised to (order − 1)/4096.
pub open spec fn omega_val() -> nat {
    pow_fp(7, ((fp_modulus() - 1) / 4096) as nat)
}

/// The low `n` bits of `x`, reversed: bit `j` of `x` lands at bit `n−1−j`.
pub open spec fn brev(x: nat, n: nat) -> nat
    decreases n,
{
    if n == 0 {
        0
    } else {
        2 * brev(x, (n - 1) as nat) + (x / pow2((n - 1) as nat)) % 2
    }
}

/// The reversal of `n` bits stays below `2^n`.
pub proof fn lemma_brev_bound(x: nat, n: nat)
    ensures
        brev(x, n) < pow2(n),
    decreases n,
{
    if n == 0 {
        lemma2_to64();
    } else {
        lemma_brev_bound(x, (n - 1) as nat);
        lemma_pow2_unfold(n);
        lemma_mod_bound((x / pow2((n - 1) as nat)) as int, 2);
    }
}

/// The value at position `i` of the bit-reversed domain.
pub open spec fn domain_val(i: int) -> nat {
    pow_fp(omega_val(), brev(i as nat, 12))
}

/// The whole domain's values: position `i` holds the root at the
/// bit-reversal of `i`.
pub open spec fn domain_vals() -> Seq<nat> {
    Seq::new(4096, |i: int| domain_val(i))
}

/// The 12-bit bit-reversal of an index below 4096.
pub fn bit_reversal_index(i: usize) -> (r: usize)
    requires
        i < 4096,
    ensures
        r == brev(i as nat, 12),
        r < 4096,
{
    let mut x: usize = i;
    let mut r: usize = 0;
    let mut b: u32 = 0;
    proof {
        lemma2_to64();
    }
    while b < 12
        invariant
            b <= 12,
            i < 4096,
            x == i as nat / pow2(b as nat),
            r == brev(i as nat, b as nat),
            r < pow2(b as nat),
        decreases 12 - b,
    {
        proof {
            lemma_pow2_unfold(b as nat + 1);
            lemma_div_denominator(i as int, pow2(b as nat) as int, 2);
            lemma_pow2_pos(b as nat);
            assert(x / 2 == i as nat / pow2(b as nat + 1));
            assert(x % 2 == (i as nat / pow2(b as nat)) % 2);
            lemma_brev_bound(i as nat, b as nat);
            assert(pow2(b as nat + 1) == 2 * pow2(b as nat));
            assert(pow2(12) == 4096) by {
                lemma2_to64();
            }
            assert(pow2(b as nat) <= pow2(12)) by {
                if b < 12 {
                    lemma_pow2_strictly_increases(b as nat, 12);
                }
            }
        }
        r = 2 * r + x % 2;
        x = x / 2;
        b = b + 1;
    }
    proof {
        assert(pow2(12) == 4096) by {
            lemma2_to64();
        }
    }
    r
}

/// The primitive 4096th root of unity: 7^((order − 1)/4096).
pub fn blob_width_th_root_of_unity() -> (r: Fe)
    ensures
        r.wf(),
        r.val() == omega_val(),
{
    let seven: [u8; 32] = [7u8, 0, 0, 0, 0, 0, 0, 0, 0, 0, 0, 0, 0, 0, 0, 0, 0, 0, 0, 0, 0, 0, 0, 0, 0, 0, 0, 0, 0, 0, 0, 0];
    let e: [u8; 32] = [0u8, 0, 240, 255, 255, 255, 239, 191, 229, 255, 47, 64, 218, 59, 85, 128, 29, 154, 128, 128, 157, 51, 131, 212, 215, 153, 50, 117, 218, 62, 7, 0];
    proof {
        lemma_le_val_32(seven@);
        lemma_le_val_32(e@);
        assert(le_val(e@) == (fp_modulus() - 1) / 4096);
    }
    let base = Fe { bytes: seven };
    base.pow_le_bytes(&e)
}

/// Build the evaluation domain: the powers of the primitive root, permuted
/// by 12-bit bit reversal of the index.
pub fn roots_of_unity_brp() -> (r: Vec<Fe>)
    ensures
        r@.len() == 4096,
        forall|i: int|
            0 <= i < 4096 ==> (#[trigger] r@[i]).wf() && r@[i].val() == domain_val(i),
{
    let omega = blob_width_th_root_of_unity();

    let mut powers: Vec<Fe> = Vec::new();
    let mut cur: Fe = Fe::one();
    proof {
        lemma_pow_fp_zero(omega_val());
    }
    let mut j: usize = 0;
    while j < 4096
        invariant
            j <= 4096,
            powers@.len() == j,
            omega.wf(),
            omega.val() == omega_val(),
            cur.wf(),
            cur.val() == pow_fp(omega_val(), j as nat),
            forall|t: int|
                0 <= t < j ==> (#[trigger] powers@[t]).wf() && powers@[t].val() == pow_fp(
                    omega_val(),
                    t as nat,
                ),
        decreases 4096 - j,
    {
        powers.push(cur);
        proof {
            lemma_pow_fp_step(omega_val(), j as nat);
        }
        cur = cur.mul(&omega);
        j = j + 1;
    }

    let mut out: Vec<Fe> = Vec::new();
    let mut i: usize = 0;
    while i < 4096
        invariant
            i <= 4096,
            out@.len() == i,
            powers@.len() == 4096,
            forall|t: int|
                0 <= t < 4096 ==> (#[trigger] powers@[t]).wf() && powers@[t].val() == pow_fp(
                    omega_val(),
                    t as nat,
                ),
            forall|t: int|
                0 <= t < i ==> (#[trigger] out@[t]).wf() && out@[t].val() == domain_val(t),
        decreases 4096 - i,
    {
        let src = bit_reversal_index(i);
        out.push(powers[src]);
        i = i + 1;
    }
    out
}

} // verus!
