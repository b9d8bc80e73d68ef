//! The bls12-381 scalar field, carried as canonical little-endian bytes.
//!
//! An element is its 32-byte little-endian encoding; the arithmetic is done
//! by the `bls12_381` crate behind trusted wrappers whose contracts state the
//! result as modular arithmetic on the encoded values.

use vstd::prelude::*;
use vstd::arithmetic::power::pow;
use vstd::arithmetic::power2::pow2;
use crate::bytes::le_val;
use crate::bytes::lemma_le_val_injective;
use crate::limbs::lt_fp_modulus;
use crate::limbs::fp_modulus_lo;
use crate::limbs::fp_modulus_hi;
use crate::limbs::lemma_pow2_constants;

verus! {

/// The order of the bls12-381 scalar field.
pub open spec fn fp_modulus() -> nat {
    0x73eda753299d7d483339d80809a1d80553bda402fffe5bfeffffffff00000001nat
}

/// The order, rebuilt from its two 128-bit halves.
pub proof fn lemma_fp_modulus_halves()
    ensures
        fp_modulus() == fp_modulus_lo() + fp_modulus_hi() * pow2(128),
{
    lemma_pow2_constants();
}

/// Addition modulo the field order.
pub open spec fn add_fp(a: nat, b: nat) -> nat {
    (a + b) % fp_modulus()
}

/// Subtraction modulo the field order.
pub open spec fn sub_fp(a: nat, b: nat) -> nat {
    ((a as int - b as int) % (fp_modulus() as int)) as nat
}

/// Multiplication modulo the field order.
pub open spec fn mul_fp(a: nat, b: nat) -> nat {
    (a * b) % fp_modulus()
}

/// Exponentiation modulo the field order.
pub open spec fn pow_fp(a: nat, e: nat) -> nat {
    (pow(a as int, e) % (fp_modulus() as int)) as nat
}

/// The multiplicative inverse: the (order − 2)-th power, which by
/// Fermat's little theorem inverts every non-zero element and sends 0 to 0.
pub open spec fn inv_fp(a: nat) -> nat {
    pow_fp(a, (fp_modulus() - 2) as nat)
}

/// Division modulo the field order: multiplication by the inverse.
pub open spec fn div_fp(a: nat, b: nat) -> nat {
    mul_fp(a, inv_fp(b))
}

/// A value spelled out from the 32 bytes of its little-endian encoding.
pub proof fn lemma_le_val_32(s: Seq<u8>)
    requires
        s.len() == 32,
    ensures
        le_val(s) == (s[0] as int) + 256 * ((s[1] as int) + 256 * ((s[2] as int) + 256 * ((s[3] as int) + 256 * ((s[4] as int) + 256 * ((s[5] as int) + 256 * ((s[6] as int) + 256 * ((s[7] as int) + 256 * ((s[8] as int) + 256 * ((s[9] as int) + 256 * ((s[10] as int) + 256 * ((s[11] as int) + 256 * ((s[12] as int) + 256 * ((s[13] as int) + 256 * ((s[14] as int) + 256 * ((s[15] as int) + 256 * ((s[16] as int) + 256 * ((s[17] as int) + 256 * ((s[18] as int) + 256 * ((s[19] as int) + 256 * ((s[20] as int) + 256 * ((s[21] as int) + 256 * ((s[22] as int) + 256 * ((s[23] as int) + 256 * ((s[24] as int) + 256 * ((s[25] as int) + 256 * ((s[26] as int) + 256 * ((s[27] as int) + 256 * ((s[28] as int) + 256 * ((s[29] as int) + 256 * ((s[30] as int) + 256 * ((s[31] as int)))))))))))))))))))))))))))))))),
{
    assert(s.skip(32) =~= Seq::<u8>::empty());
    assert(le_val(s.skip(32)) == 0);
    assert(s.skip(31).skip(1) =~= s.skip(32));
    assert(s.skip(31)[0] == s[31]);
    assert(le_val(s.skip(31)) == (s[31] as nat) + 256 * le_val(s.skip(32)));
    assert(s.skip(30).skip(1) =~= s.skip(31));
    assert(s.skip(30)[0] == s[30]);
    assert(le_val(s.skip(30)) == (s[30] as nat) + 256 * le_val(s.skip(31)));
    assert(s.skip(29).skip(1) =~= s.skip(30));
    assert(s.skip(29)[0] == s[29]);
    assert(le_val(s.skip(29)) == (s[29] as nat) + 256 * le_val(s.skip(30)));
    assert(s.skip(28).skip(1) =~= s.skip(29));
    assert(s.skip(28)[0] == s[28]);
    assert(le_val(s.skip(28)) == (s[28] as nat) + 256 * le_val(s.skip(29)));
    assert(s.skip(27).skip(1) =~= s.skip(28));
    assert(s.skip(27)[0] == s[27]);
    assert(le_val(s.skip(27)) == (s[27] as nat) + 256 * le_val(s.skip(28)));
    assert(s.skip(26).skip(1) =~= s.skip(27));
    assert(s.skip(26)[0] == s[26]);
    assert(le_val(s.skip(26)) == (s[26] as nat) + 256 * le_val(s.skip(27)));
    assert(s.skip(25).skip(1) =~= s.skip(26));
    assert(s.skip(25)[0] == s[25]);
    assert(le_val(s.skip(25)) == (s[25] as nat) + 256 * le_val(s.skip(26)));
    assert(s.skip(24).skip(1) =~= s.skip(25));
    assert(s.skip(24)[0] == s[24]);
    assert(le_val(s.skip(24)) == (s[24] as nat) + 256 * le_val(s.skip(25)));
    assert(s.skip(23).skip(1) =~= s.skip(24));
    assert(s.skip(23)[0] == s[23]);
    assert(le_val(s.skip(23)) == (s[23] as nat) + 256 * le_val(s.skip(24)));
    assert(s.skip(22).skip(1) =~= s.skip(23));
    assert(s.skip(22)[0] == s[22]);
    assert(le_val(s.skip(22)) == (s[22] as nat) + 256 * le_val(s.skip(23)));
    assert(s.skip(21).skip(1) =~= s.skip(22));
    assert(s.skip(21)[0] == s[21]);
    assert(le_val(s.skip(21)) == (s[21] as nat) + 256 * le_val(s.skip(22)));
    assert(s.skip(20).skip(1) =~= s.skip(21));
    assert(s.skip(20)[0] == s[20]);
    assert(le_val(s.skip(20)) == (s[20] as nat) + 256 * le_val(s.skip(21)));
    assert(s.skip(19).skip(1) =~= s.skip(20));
    assert(s.skip(19)[0] == s[19]);
    assert(le_val(s.skip(19)) == (s[19] as nat) + 256 * le_val(s.skip(20)));
    assert(s.skip(18).skip(1) =~= s.skip(19));
    assert(s.skip(18)[0] == s[18]);
    assert(le_val(s.skip(18)) == (s[18] as nat) + 256 * le_val(s.skip(19)));
    assert(s.skip(17).skip(1) =~= s.skip(18));
    assert(s.skip(17)[0] == s[17]);
    assert(le_val(s.skip(17)) == (s[17] as nat) + 256 * le_val(s.skip(18)));
    assert(s.skip(16).skip(1) =~= s.skip(17));
    assert(s.skip(16)[0] == s[16]);
    assert(le_val(s.skip(16)) == (s[16] as nat) + 256 * le_val(s.skip(17)));
    assert(s.skip(15).skip(1) =~= s.skip(16));
    assert(s.skip(15)[0] == s[15]);
    assert(le_val(s.skip(15)) == (s[15] as nat) + 256 * le_val(s.skip(16)));
    assert(s.skip(14).skip(1) =~= s.skip(15));
    assert(s.skip(14)[0] == s[14]);
    assert(le_val(s.skip(14)) == (s[14] as nat) + 256 * le_val(s.skip(15)));
    assert(s.skip(13).skip(1) =~= s.skip(14));
    assert(s.skip(13)[0] == s[13]);
    assert(le_val(s.skip(13)) == (s[13] as nat) + 256 * le_val(s.skip(14)));
    assert(s.skip(12).skip(1) =~= s.skip(13));
    assert(s.skip(12)[0] == s[12]);
    assert(le_val(s.skip(12)) == (s[12] as nat) + 256 * le_val(s.skip(13)));
    assert(s.skip(11).skip(1) =~= s.skip(12));
    assert(s.skip(11)[0] == s[11]);
    assert(le_val(s.skip(11)) == (s[11] as nat) + 256 * le_val(s.skip(12)));
    assert(s.skip(10).skip(1) =~= s.skip(11));
    assert(s.skip(10)[0] == s[10]);
    assert(le_val(s.skip(10)) == (s[10] as nat) + 256 * le_val(s.skip(11)));
    assert(s.skip(9).skip(1) =~= s.skip(10));
    assert(s.skip(9)[0] == s[9]);
    assert(le_val(s.skip(9)) == (s[9] as nat) + 256 * le_val(s.skip(10)));
    assert(s.skip(8).skip(1) =~= s.skip(9));
    assert(s.skip(8)[0] == s[8]);
    assert(le_val(s.skip(8)) == (s[8] as nat) + 256 * le_val(s.skip(9)));
    assert(s.skip(7).skip(1) =~= s.skip(8));
    assert(s.skip(7)[0] == s[7]);
    assert(le_val(s.skip(7)) == (s[7] as nat) + 256 * le_val(s.skip(8)));
    assert(s.skip(6).skip(1) =~= s.skip(7));
    assert(s.skip(6)[0] == s[6]);
    assert(le_val(s.skip(6)) == (s[6] as nat) + 256 * le_val(s.skip(7)));
    assert(s.skip(5).skip(1) =~= s.skip(6));
    assert(s.skip(5)[0] == s[5]);
    assert(le_val(s.skip(5)) == (s[5] as nat) + 256 * le_val(s.skip(6)));
    assert(s.skip(4).skip(1) =~= s.skip(5));
    assert(s.skip(4)[0] == s[4]);
    assert(le_val(s.skip(4)) == (s[4] as nat) + 256 * le_val(s.skip(5)));
    assert(s.skip(3).skip(1) =~= s.skip(4));
    assert(s.skip(3)[0] == s[3]);
    assert(le_val(s.skip(3)) == (s[3] as nat) + 256 * le_val(s.skip(4)));
    assert(s.skip(2).skip(1) =~= s.skip(3));
    assert(s.skip(2)[0] == s[2]);
    assert(le_val(s.skip(2)) == (s[2] as nat) + 256 * le_val(s.skip(3)));
    assert(s.skip(1).skip(1) =~= s.skip(2));
    assert(s.skip(1)[0] == s[1]);
    assert(le_val(s.skip(1)) == (s[1] as nat) + 256 * le_val(s.skip(2)));
    assert(s.skip(0).skip(1) =~= s.skip(1));
    assert(s.skip(0)[0] == s[0]);
    assert(le_val(s.skip(0)) == (s[0] as nat) + 256 * le_val(s.skip(1)));
    assert(s.skip(0) =~= s);
}

/// The zeroth power is 1 in the field.
pub proof fn lemma_pow_fp_zero(b: nat)
    ensures
        pow_fp(b, 0) == 1,
{
    vstd::arithmetic::power::lemma_pow0(b as int);
    vstd::arithmetic::div_mod::lemma_small_mod(1, fp_modulus());
}

/// One more power is one more field multiplication by the base.
pub proof fn lemma_pow_fp_step(b: nat, e: nat)
    ensures
        pow_fp(b, e + 1) == mul_fp(pow_fp(b, e), b),
{
    vstd::arithmetic::power::lemma_pow_adds(b as int, e, 1);
    vstd::arithmetic::power::lemma_pow1(b as int);
    vstd::arithmetic::div_mod::lemma_mul_mod_noop_left(
        pow(b as int, e),
        b as int,
        fp_modulus() as int,
    );
}

/// Relies on `bls12_381::Scalar`: `from_bytes` accepts exactly the canonical
/// little-endian encodings (values below the order), `+` adds modulo the
/// order, and `to_bytes` returns the canonical encoding of the result.
#[verifier::external_body]
fn scalar_add_bytes(a: &[u8; 32], b: &[u8; 32]) -> (r: [u8; 32])
    requires
        le_val(a@) < fp_modulus(),
        le_val(b@) < fp_modulus(),
    ensures
        le_val(r@) == add_fp(le_val(a@), le_val(b@)),
        le_val(r@) < fp_modulus(),
{
    let x = bls12_381::Scalar::from_bytes(a).unwrap();
    let y = bls12_381::Scalar::from_bytes(b).unwrap();
    (x + y).to_bytes()
}

/// Relies on `bls12_381::Scalar`: `-` subtracts modulo the order.
#[verifier::external_body]
fn scalar_sub_bytes(a: &[u8; 32], b: &[u8; 32]) -> (r: [u8; 32])
    requires
        le_val(a@) < fp_modulus(),
        le_val(b@) < fp_modulus(),
    ensures
        le_val(r@) == sub_fp(le_val(a@), le_val(b@)),
        le_val(r@) < fp_modulus(),
{
    let x = bls12_381::Scalar::from_bytes(a).unwrap();
    let y = bls12_381::Scalar::from_bytes(b).unwrap();
    (x - y).to_bytes()
}

/// Relies on `bls12_381::Scalar`: `*` multiplies modulo the order.
#[verifier::external_body]
fn scalar_mul_bytes(a: &[u8; 32], b: &[u8; 32]) -> (r: [u8; 32])
    requires
        le_val(a@) < fp_modulus(),
        le_val(b@) < fp_modulus(),
    ensures
        le_val(r@) == mul_fp(le_val(a@), le_val(b@)),
        le_val(r@) < fp_modulus(),
{
    let x = bls12_381::Scalar::from_bytes(a).unwrap();
    let y = bls12_381::Scalar::from_bytes(b).unwrap();
    (x * y).to_bytes()
}

/// Relies on `bls12_381::Scalar::pow`: raises to the power of the 256-bit
/// little-endian integer exponent.
#[verifier::external_body]
fn scalar_pow_bytes(a: &[u8; 32], e: &[u8; 32]) -> (r: [u8; 32])
    requires
        le_val(a@) < fp_modulus(),
    ensures
        le_val(r@) == pow_fp(le_val(a@), le_val(e@)),
        le_val(r@) < fp_modulus(),
{
    let x = bls12_381::Scalar::from_bytes(a).unwrap();
    let by = [
        u64::from_le_bytes(<[u8; 8]>::try_from(&e[0..8]).unwrap()),
        u64::from_le_bytes(<[u8; 8]>::try_from(&e[8..16]).unwrap()),
        u64::from_le_bytes(<[u8; 8]>::try_from(&e[16..24]).unwrap()),
        u64::from_le_bytes(<[u8; 8]>::try_from(&e[24..32]).unwrap()),
    ];
    x.pow(&by).to_bytes()
}

/// Relies on `bls12_381::Scalar::from_bytes_wide`: reduces a 512-bit
/// little-endian integer modulo the order.
#[verifier::external_body]
fn scalar_from_wide_bytes(b: &[u8; 64]) -> (r: [u8; 32])
    ensures
        le_val(r@) == le_val(b@) % fp_modulus(),
        le_val(r@) < fp_modulus(),
{
    bls12_381::Scalar::from_bytes_wide(b).to_bytes()
}

/// A scalar-field element, held as its canonical 32-byte little-endian
/// encoding; well-formed values stay below the field order.
#[derive(Clone, Copy, Debug)]
pub struct Fe {
    /// The little-endian encoding.
    pub bytes: [u8; 32],
}

impl Fe {
    /// The integer this element stands for.
    pub open spec fn val(self) -> nat {
        le_val(self.bytes@)
    }

    /// The encoding is canonical: its value lies below the field order.
    pub open spec fn wf(self) -> bool {
        self.val() < fp_modulus()
    }

    /// Decode 32 little-endian bytes, rejecting non-canonical encodings.
    pub fn from_le_bytes(b: &[u8; 32]) -> (r: Option<Fe>)
        ensures
            r is Some <==> le_val(b@) < fp_modulus(),
            r matches Some(fe) ==> fe.bytes@ == b@ && fe.wf(),
    {
        proof {
            lemma_fp_modulus_halves();
        }
        if lt_fp_modulus(b) {
            Some(Fe { bytes: *b })
        } else {
            None
        }
    }

    /// The canonical little-endian encoding.
    pub fn to_le_bytes(&self) -> (r: [u8; 32])
        ensures
            r@ == self.bytes@,
    {
        self.bytes
    }

    /// Reduce a 512-bit little-endian integer into the field.
    pub fn from_wide_bytes(b: &[u8; 64]) -> (r: Fe)
        ensures
            r.wf(),
            r.val() == le_val(b@) % fp_modulus(),
    {
        Fe { bytes: scalar_from_wide_bytes(b) }
    }

    /// The additive identity.
    pub fn zero() -> (r: Fe)
        ensures
            r.wf(),
            r.val() == 0,
    {
        let b: [u8; 32] = [0u8, 0, 0, 0, 0, 0, 0, 0, 0, 0, 0, 0, 0, 0, 0, 0, 0, 0, 0, 0, 0, 0, 0, 0, 0, 0, 0, 0, 0, 0, 0, 0];
        proof {
            lemma_le_val_32(b@);
        }
        Fe { bytes: b }
    }

    /// The multiplicative identity.
    pub fn one() -> (r: Fe)
        ensures
            r.wf(),
            r.val() == 1,
    {
        let b: [u8; 32] = [1u8, 0, 0, 0, 0, 0, 0, 0, 0, 0, 0, 0, 0, 0, 0, 0, 0, 0, 0, 0, 0, 0, 0, 0, 0, 0, 0, 0, 0, 0, 0, 0];
        proof {
            lemma_le_val_32(b@);
        }
        Fe { bytes: b }
    }

    /// Add in the field.
    pub fn add(&self, other: &Fe) -> (r: Fe)
        requires
            self.wf(),
            other.wf(),
        ensures
            r.wf(),
            r.val() == add_fp(self.val(), other.val()),
    {
        Fe { bytes: scalar_add_bytes(&self.bytes, &other.bytes) }
    }

    /// Subtract in the field.
    pub fn sub(&self, other: &Fe) -> (r: Fe)
        requires
            self.wf(),
            other.wf(),
        ensures
            r.wf(),
            r.val() == sub_fp(self.val(), other.val()),
    {
        Fe { bytes: scalar_sub_bytes(&self.bytes, &other.bytes) }
    }

    /// Multiply in the field.
    pub fn mul(&self, other: &Fe) -> (r: Fe)
        requires
            self.wf(),
            other.wf(),
        ensures
            r.wf(),
            r.val() == mul_fp(self.val(), other.val()),
    {
        Fe { bytes: scalar_mul_bytes(&self.bytes, &other.bytes) }
    }

    /// Raise to the power of the 256-bit little-endian integer `exp`.
    pub fn pow_le_bytes(&self, exp: &[u8; 32]) -> (r: Fe)
        requires
            self.wf(),
        ensures
            r.wf(),
            r.val() == pow_fp(self.val(), le_val(exp@)),
    {
        Fe { bytes: scalar_pow_bytes(&self.bytes, exp) }
    }

    /// The multiplicative inverse (0 maps to 0): the (order − 2)-th power.
    pub fn inv(&self) -> (r: Fe)
        requires
            self.wf(),
        ensures
            r.wf(),
            r.val() == inv_fp(self.val()),
    {
        let e: [u8; 32] = [255u8, 255, 255, 255, 254, 255, 255, 255, 254, 91, 254, 255, 2, 164, 189, 83, 5, 216, 161, 9, 8, 216, 57, 51, 72, 125, 157, 41, 83, 167, 237, 115];
        proof {
            lemma_le_val_32(e@);
            assert(le_val(e@) == fp_modulus() - 2);
        }
        self.pow_le_bytes(&e)
    }

    /// Whether two elements stand for one value.
    pub fn eq_val(&self, other: &Fe) -> (r: bool)
        ensures
            r <==> self.val() == other.val(),
    {
        let mut i: usize = 0;
        while i < 32
            invariant
                i <= 32,
                forall|j: int| 0 <= j < i ==> self.bytes@[j] == other.bytes@[j],
            decreases 32 - i,
        {
            if self.bytes[i] != other.bytes[i] {
                proof {
                    assert(self.bytes@[i as int] != other.bytes@[i as int]);
                    if self.val() == other.val() {
                        lemma_le_val_injective(self.bytes@, other.bytes@);
                    }
                }
                return false;
            }
            i = i + 1;
        }
        proof {
            assert(self.bytes@ =~= other.bytes@);
        }
        true
    }
}

} // verus!
