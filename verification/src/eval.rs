//! Barycentric evaluation of the blob polynomial at a challenge point.
//!
//! Given the bit-reversed domain, a window of blob values at positions
//! `[index, index+len)`, and a challenge point `z`, the engine computes the
//! evaluation of the unique interpolating polynomial: the window value
//! itself when `z` is a domain point of the window, zero when `z` is a
//! domain point outside it, and the normalized barycentric sum otherwise.
//! Division by zero never arises: a coinciding domain point flips an
//! indicator, substitutes a denominator of one, and routes the blob value
//! through a direct-lookup accumulator instead.

use vstd::prelude::*;
use vstd::arithmetic::div_mod::*;
use crate::bytes::le_val;
use crate::field::Fe;
use crate::field::add_fp;
use crate::field::sub_fp;
use crate::field::mul_fp;
use crate::field::pow_fp;
use crate::field::inv_fp;
use crate::field::fp_modulus;
use crate::field::lemma_le_val_32;
use vstd::seq_lib::*;

verus! {

/// The values a sequence of field elements stands for.
pub open spec fn vals_of(s: Seq<Fe>) -> Seq<nat> {
    s.map_values(|fe: Fe| fe.val())
}

/// The denominator the engine divides by at domain point `d`: `z − d`,
/// or 1 when the two coincide.
pub open spec fn safe_den(z: nat, d: nat) -> nat {
    if z == d {
        1
    } else {
        sub_fp(z, d)
    }
}

/// One barycentric term: `b · d / safe_den(z, d)`.
pub open spec fn bary_term(b: nat, d: nat, z: nat) -> nat {
    mul_fp(mul_fp(b, d), inv_fp(safe_den(z, d)))
}

/// The sum of the first `k` barycentric terms of the window.
pub open spec fn bary_sum(domain: Seq<nat>, blob: Seq<nat>, index: int, z: nat, k: int) -> nat
    decreases k,
{
    if k <= 0 {
        0
    } else {
        add_fp(
            bary_sum(domain, blob, index, z, k - 1),
            bary_term(blob[k - 1], domain[index + k - 1], z),
        )
    }
}

/// The direct-lookup sum: the blob values at the first `k` window
/// positions whose domain point coincides with `z`.
pub open spec fn direct_sum(domain: Seq<nat>, blob: Seq<nat>, index: int, z: nat, k: int) -> nat
    decreases k,
{
    if k <= 0 {
        0
    } else {
        add_fp(
            direct_sum(domain, blob, index, z, k - 1),
            if domain[index + k - 1] == z {
                blob[k - 1]
            } else {
                0
            },
        )
    }
}

/// Whether `z` misses every one of the first `k` domain points.
pub open spec fn misses_domain(domain: Seq<nat>, z: nat, k: int) -> bool {
    forall|i: int| 0 <= i < k ==> #[trigger] domain[i] != z
}

/// The barycentric normalization factor `(z^4096 − 1) / 4096`.
pub open spec fn normalizer(z: nat) -> nat {
    mul_fp(sub_fp(pow_fp(z, 4096), 1), inv_fp(4096))
}

/// The evaluation the engine must produce: the direct lookups, plus the
/// normalized barycentric sum if and only if `z` misses the whole domain.
pub open spec fn eval_result(domain: Seq<nat>, blob: Seq<nat>, index: int, z: nat) -> nat {
    add_fp(
        direct_sum(domain, blob, index, z, blob.len() as int),
        if misses_domain(domain, z, 4096) {
            mul_fp(bary_sum(domain, blob, index, z, blob.len() as int), normalizer(z))
        } else {
            0
        },
    )
}

/// The direct-lookup sum over a window that holds the matching domain
/// point exactly once: zero until the match is reached, the matched blob
/// value afterwards.
proof fn lemma_direct_sum_single(domain: Seq<nat>, blob: Seq<nat>, index: int, k: int, m: int)
    requires
        domain.len() == 4096,
        forall|i: int, j: int|
            0 <= i < 4096 && 0 <= j < 4096 && i != j ==> #[trigger] domain[i] != #[trigger] domain[j],
        0 <= index,
        index + blob.len() <= 4096,
        index <= k < index + blob.len(),
        forall|i: int| 0 <= i < blob.len() ==> #[trigger] blob[i] < fp_modulus(),
        0 <= m <= blob.len(),
    ensures
        m <= k - index ==> direct_sum(domain, blob, index, domain[k], m) == 0,
        m > k - index ==> direct_sum(domain, blob, index, domain[k], m) == blob[k - index],
    decreases m,
{
    let z = domain[k];
    if m > 0 {
        lemma_direct_sum_single(domain, blob, index, k, m - 1);
        let p = index + m - 1;
        if p == k {
            assert(direct_sum(domain, blob, index, z, m) == add_fp(0, blob[k - index]));
            lemma_small_mod(blob[k - index], fp_modulus());
        } else {
            assert(domain[p] != z);
            if m - 1 <= k - index {
                lemma_small_mod(0, fp_modulus());
            } else {
                lemma_small_mod(blob[k - index], fp_modulus());
            }
        }
    }
}

/// The direct-lookup sum vanishes when the challenge point misses the
/// whole domain.
proof fn lemma_direct_sum_zero(domain: Seq<nat>, blob: Seq<nat>, index: int, z: nat, m: int)
    requires
        domain.len() == 4096,
        0 <= index,
        index + blob.len() <= 4096,
        misses_domain(domain, z, 4096),
        0 <= m <= blob.len(),
    ensures
        direct_sum(domain, blob, index, z, m) == 0,
    decreases m,
{
    if m > 0 {
        lemma_direct_sum_zero(domain, blob, index, z, m - 1);
        assert(domain[index + m - 1] != z);
        lemma_small_mod(0, fp_modulus());
    }
}

/// Law: at a domain point inside the held window — the domain's points
/// being pairwise distinct — the evaluation equals the window's blob value
/// there exactly, whatever the barycentric sum's value at that point.
pub proof fn lemma_eval_at_window_domain_point(
    domain: Seq<nat>,
    blob: Seq<nat>,
    index: int,
    k: int,
)
    requires
        domain.len() == 4096,
        forall|i: int, j: int|
            0 <= i < 4096 && 0 <= j < 4096 && i != j ==> #[trigger] domain[i] != #[trigger] domain[j],
        0 <= index,
        index + blob.len() <= 4096,
        index <= k < index + blob.len(),
        forall|i: int| 0 <= i < blob.len() ==> #[trigger] blob[i] < fp_modulus(),
    ensures
        eval_result(domain, blob, index, domain[k]) == blob[k - index],
{
    let z = domain[k];
    assert(!misses_domain(domain, z, 4096)) by {
        assert(domain[k] == z);
    }
    lemma_direct_sum_single(domain, blob, index, k, blob.len() as int);
    assert(eval_result(domain, blob, index, z) == add_fp(blob[k - index], 0));
    lemma_small_mod(blob[k - index], fp_modulus());
}

/// Law: off the domain, the evaluation is exactly the normalized
/// barycentric sum — with a full-width window this is the complete
/// barycentric formula for the interpolating polynomial.
pub proof fn lemma_eval_off_domain(domain: Seq<nat>, blob: Seq<nat>, index: int, z: nat)
    requires
        domain.len() == 4096,
        0 <= index,
        index + blob.len() <= 4096,
        misses_domain(domain, z, 4096),
    ensures
        eval_result(domain, blob, index, z) == mul_fp(
            bary_sum(domain, blob, index, z, blob.len() as int),
            normalizer(z),
        ),
{
    lemma_direct_sum_zero(domain, blob, index, z, blob.len() as int);
    let x = mul_fp(bary_sum(domain, blob, index, z, blob.len() as int), normalizer(z));
    assert(x < fp_modulus()) by {
        lemma_mod_bound(
            (bary_sum(domain, blob, index, z, blob.len() as int) * normalizer(z)) as int,
            fp_modulus() as int,
        );
    }
    assert(eval_result(domain, blob, index, z) == add_fp(0, x));
    lemma_small_mod(x, fp_modulus());
}

/// Evaluate the blob polynomial at `z`, holding only the window
/// `blob[0..len]` at domain positions `[index, index+len)`.
///
/// Every one of the 4096 domain points is checked against `z`, not only
/// the held window: the selection between direct lookup and barycentric
/// sum depends on the whole domain.
pub fn evaluate(domain: &Vec<Fe>, blob: &Vec<Fe>, index: usize, z: &Fe) -> (r: Fe)
    requires
        domain@.len() == 4096,
        forall|i: int| 0 <= i < 4096 ==> (#[trigger] domain@[i]).wf(),
        forall|i: int| 0 <= i < blob@.len() ==> (#[trigger] blob@[i]).wf(),
        index + blob@.len() <= 4096,
        z.wf(),
    ensures
        r.wf(),
        r.val() == eval_result(vals_of(domain@), vals_of(blob@), index as int, z.val()),
{
    let ghost dv = vals_of(domain@);
    let ghost bv = vals_of(blob@);
    proof {
        assert(forall|t: int| 0 <= t < 4096 ==> #[trigger] dv[t] == domain@[t].val());
        assert(forall|t: int| 0 <= t < blob@.len() ==> #[trigger] bv[t] == blob@[t].val());
    }
    let len = blob.len();
    let mut direct = Fe::zero();
    let mut bsum = Fe::zero();
    let mut not_root = true;

    let mut i: usize = 0;
    while i < len
        invariant
            len == blob@.len(),
            index + len <= 4096,
            domain@.len() == 4096,
            forall|t: int| 0 <= t < 4096 ==> (#[trigger] domain@[t]).wf(),
            forall|t: int| 0 <= t < blob@.len() ==> (#[trigger] blob@[t]).wf(),
            z.wf(),
            i <= len,
            direct.wf(),
            dv == vals_of(domain@),
            bv == vals_of(blob@),
            dv.len() == 4096,
            bv.len() == blob@.len(),
            forall|t: int| 0 <= t < 4096 ==> #[trigger] dv[t] == domain@[t].val(),
            forall|t: int| 0 <= t < blob@.len() ==> #[trigger] bv[t] == blob@[t].val(),
            direct.val() == direct_sum(dv, bv, index as int, z.val(), i as int),
            bsum.wf(),
            bsum.val() == bary_sum(dv, bv, index as int, z.val(), i as int),
            not_root <==> (forall|t: int|
                index <= t < index + i ==> (#[trigger] domain@[t]).val() != z.val()),
        decreases len - i,
    {
        let d = domain[index + i];
        let is_zero = z.eq_val(&d);
        if is_zero {
            direct = direct.add(&blob[i]);
            not_root = false;
        } else {
            proof {
                lemma_small_mod(direct.val(), fp_modulus());
            }
        }
        let sden = if is_zero {
            Fe::one()
        } else {
            z.sub(&d)
        };
        proof {
            assert(sden.val() == safe_den(z.val(), d.val()));
        }
        let term = blob[i].mul(&d).mul(&sden.inv());
        bsum = bsum.add(&term);
        i = i + 1;
    }

    let mut j: usize = 0;
    while j < index
        invariant
            index + len <= 4096,
            domain@.len() == 4096,
            forall|t: int| 0 <= t < 4096 ==> (#[trigger] domain@[t]).wf(),
            z.wf(),
            dv.len() == 4096,
            forall|t: int| 0 <= t < 4096 ==> #[trigger] dv[t] == domain@[t].val(),
            j <= index,
            not_root <==> ((forall|t: int|
                index <= t < index + len ==> (#[trigger] domain@[t]).val() != z.val()) && (
            forall|t: int| 0 <= t < j ==> (#[trigger] domain@[t]).val() != z.val())),
        decreases index - j,
    {
        if z.eq_val(&domain[j]) {
            not_root = false;
        }
        j = j + 1;
    }

    let mut m: usize = index + len;
    while m < 4096
        invariant
            index + len <= m <= 4096,
            domain@.len() == 4096,
            forall|t: int| 0 <= t < 4096 ==> (#[trigger] domain@[t]).wf(),
            z.wf(),
            dv.len() == 4096,
            forall|t: int| 0 <= t < 4096 ==> #[trigger] dv[t] == domain@[t].val(),
            not_root <==> ((forall|t: int|
                index <= t < index + len ==> (#[trigger] domain@[t]).val() != z.val()) && (
            forall|t: int| 0 <= t < index ==> (#[trigger] domain@[t]).val() != z.val()) && (
            forall|t: int|
                index + len <= t < m ==> (#[trigger] domain@[t]).val() != z.val())),
        decreases 4096 - m,
    {
        if z.eq_val(&domain[m]) {
            not_root = false;
        }
        m = m + 1;
    }
    proof {
        if not_root {
            assert forall|t: int| 0 <= t < 4096 implies #[trigger] dv[t] != z.val() by {
                assert(domain@[t].val() != z.val());
            }
            assert(misses_domain(dv, z.val(), 4096));
        } else {
            assert(!misses_domain(dv, z.val(), 4096)) by {
                if misses_domain(dv, z.val(), 4096) {
                    assert forall|t: int| 0 <= t < 4096 implies (#[trigger] domain@[t]).val()
                        != z.val() by {
                        assert(dv[t] != z.val());
                    }
                }
            }
        }
    }

    let width_exp: [u8; 32] = [0u8, 16, 0, 0, 0, 0, 0, 0, 0, 0, 0, 0, 0, 0, 0, 0, 0, 0, 0, 0, 0, 0, 0, 0, 0, 0, 0, 0, 0, 0, 0, 0];
    proof {
        lemma_le_val_32(width_exp@);
        assert(le_val(width_exp@) == 4096);
    }
    let z_to_width = z.pow_le_bytes(&width_exp);
    let one = Fe::one();
    let num = z_to_width.sub(&one);
    let width = Fe { bytes: width_exp };
    let factor = num.mul(&width.inv());
    let beval = bsum.mul(&factor);

    if not_root {
        direct.add(&beval)
    } else {
        proof {
            lemma_small_mod(direct.val(), fp_modulus());
        }
        direct
    }
}

} // verus!
