//! Little-endian byte-string values and fixed-width integer encodings.

use vstd::prelude::*;
use vstd::arithmetic::power2::*;
use vstd::arithmetic::div_mod::*;
use vstd::arithmetic::mul::*;

verus! {

/// The integer that a little-endian byte string stands for.
pub open spec fn le_val(s: Seq<u8>) -> nat
    decreases s.len(),
{
    if s.len() == 0 {
        0
    } else {
        (s[0] as nat) + 256 * le_val(s.skip(1))
    }
}

/// A byte string's value is below 2^(8·len).
pub proof fn lemma_le_val_bound(s: Seq<u8>)
    ensures
        le_val(s) < pow2(8 * s.len()),
    decreases s.len(),
{
    if s.len() == 0 {
        lemma2_to64();
    } else {
        lemma_le_val_bound(s.skip(1));
        lemma_pow2_adds(8, 8 * (s.len() - 1) as nat);
        lemma2_to64();
        assert(le_val(s) == (s[0] as nat) + 256 * le_val(s.skip(1)));
        assert(256 * le_val(s.skip(1)) <= 256 * (pow2(8 * (s.len() - 1) as nat) - 1)) by {
            lemma_mul_inequality(
                le_val(s.skip(1)) as int,
                pow2(8 * (s.len() - 1) as nat) - 1,
                256,
            );
        }
    }
}

/// Splitting a byte string splits its value at the matching power of two.
pub proof fn lemma_le_val_split(s: Seq<u8>, i: int)
    requires
        0 <= i <= s.len(),
    ensures
        le_val(s) == le_val(s.take(i)) + pow2(8 * i as nat) * le_val(s.skip(i)),
    decreases i,
{
    if i == 0 {
        assert(s.take(0) =~= Seq::<u8>::empty());
        assert(s.skip(0) =~= s);
        lemma2_to64();
    } else {
        lemma_le_val_split(s.skip(1), i - 1);
        assert(s.skip(1).take(i - 1) =~= s.take(i).skip(1));
        assert(s.skip(1).skip(i - 1) =~= s.skip(i));
        assert(s.take(i)[0] == s[0]);
        assert(le_val(s.take(i)) == (s[0] as nat) + 256 * le_val(s.take(i).skip(1)));
        lemma_pow2_adds(8, 8 * (i - 1) as nat);
        lemma2_to64();
        assert(le_val(s) == (s[0] as nat) + 256 * le_val(s.skip(1)));
        assert(256 * (le_val(s.take(i).skip(1)) + pow2(8 * (i - 1) as nat) * le_val(s.skip(i)))
            == 256 * le_val(s.take(i).skip(1)) + 256 * (pow2(8 * (i - 1) as nat) * le_val(
            s.skip(i),
        ))) by {
            lemma_mul_is_distributive_add(
                256,
                le_val(s.take(i).skip(1)) as int,
                pow2(8 * (i - 1) as nat) * le_val(s.skip(i)) as int,
            );
        }
        assert(256 * (pow2(8 * (i - 1) as nat) * le_val(s.skip(i))) == pow2(8 * i as nat)
            * le_val(s.skip(i))) by {
            lemma_mul_is_associative(
                256,
                pow2(8 * (i - 1) as nat) as int,
                le_val(s.skip(i)) as int,
            );
        }
    }
}

/// Byte strings of one length with one value are equal.
pub proof fn lemma_le_val_injective(a: Seq<u8>, b: Seq<u8>)
    requires
        a.len() == b.len(),
        le_val(a) == le_val(b),
    ensures
        a =~= b,
    decreases a.len(),
{
    if a.len() > 0 {
        assert(le_val(a) == (a[0] as nat) + 256 * le_val(a.skip(1)));
        assert(le_val(b) == (b[0] as nat) + 256 * le_val(b.skip(1)));
        lemma_fundamental_div_mod_converse(le_val(a) as int, 256, le_val(a.skip(1)) as int, a[0] as int);
        lemma_fundamental_div_mod_converse(le_val(b) as int, 256, le_val(b.skip(1)) as int, b[0] as int);
        lemma_le_val_injective(a.skip(1), b.skip(1));
        assert(a =~= seq![a[0]] + a.skip(1));
        assert(b =~= seq![b[0]] + b.skip(1));
    }
}

/// The big-endian 8-byte encoding of a 64-bit integer.
pub open spec fn be64(n: u64) -> Seq<u8> {
    seq![
        ((n >> 56) & 0xff) as u8,
        ((n >> 48) & 0xff) as u8,
        ((n >> 40) & 0xff) as u8,
        ((n >> 32) & 0xff) as u8,
        ((n >> 24) & 0xff) as u8,
        ((n >> 16) & 0xff) as u8,
        ((n >> 8) & 0xff) as u8,
        (n & 0xff) as u8,
    ]
}

/// The big-endian 2-byte encoding of a 16-bit integer.
pub open spec fn be16(n: u16) -> Seq<u8> {
    seq![((n >> 8) & 0xff) as u8, (n & 0xff) as u8]
}

/// The little-endian 4-byte encoding of a 32-bit integer.
pub open spec fn le32(n: u32) -> Seq<u8> {
    seq![
        (n & 0xff) as u8,
        ((n >> 8) & 0xff) as u8,
        ((n >> 16) & 0xff) as u8,
        ((n >> 24) & 0xff) as u8,
    ]
}

/// Distinct 64-bit integers have distinct big-endian encodings.
pub proof fn lemma_be64_injective(x: u64, y: u64)
    requires
        be64(x) == be64(y),
    ensures
        x == y,
{
    assert(be64(x)[0] == be64(y)[0]);
    assert(be64(x)[1] == be64(y)[1]);
    assert(be64(x)[2] == be64(y)[2]);
    assert(be64(x)[3] == be64(y)[3]);
    assert(be64(x)[4] == be64(y)[4]);
    assert(be64(x)[5] == be64(y)[5]);
    assert(be64(x)[6] == be64(y)[6]);
    assert(be64(x)[7] == be64(y)[7]);
    assert(x == y) by (bit_vector)
        requires
            ((x >> 56) & 0xff) as u8 == ((y >> 56) & 0xff) as u8,
            ((x >> 48) & 0xff) as u8 == ((y >> 48) & 0xff) as u8,
            ((x >> 40) & 0xff) as u8 == ((y >> 40) & 0xff) as u8,
            ((x >> 32) & 0xff) as u8 == ((y >> 32) & 0xff) as u8,
            ((x >> 24) & 0xff) as u8 == ((y >> 24) & 0xff) as u8,
            ((x >> 16) & 0xff) as u8 == ((y >> 16) & 0xff) as u8,
            ((x >> 8) & 0xff) as u8 == ((y >> 8) & 0xff) as u8,
            (x & 0xff) as u8 == (y & 0xff) as u8,
    ;
}

/// Append the big-endian 8-byte encoding of `n`.
pub fn push_be64(out: &mut Vec<u8>, n: u64)
    ensures
        final(out)@ == old(out)@ + be64(n),
{
    out.push(((n >> 56) & 0xff) as u8);
    out.push(((n >> 48) & 0xff) as u8);
    out.push(((n >> 40) & 0xff) as u8);
    out.push(((n >> 32) & 0xff) as u8);
    out.push(((n >> 24) & 0xff) as u8);
    out.push(((n >> 16) & 0xff) as u8);
    out.push(((n >> 8) & 0xff) as u8);
    out.push((n & 0xff) as u8);
    assert(out@ =~= old(out)@ + be64(n));
}

/// Append the big-endian 2-byte encoding of `n`.
pub fn push_be16(out: &mut Vec<u8>, n: u16)
    ensures
        final(out)@ == old(out)@ + be16(n),
{
    out.push(((n >> 8) & 0xff) as u8);
    out.push((n & 0xff) as u8);
    assert(out@ =~= old(out)@ + be16(n));
}

/// Append the little-endian 4-byte encoding of `n`.
pub fn push_le32(out: &mut Vec<u8>, n: u32)
    ensures
        final(out)@ == old(out)@ + le32(n),
{
    out.push((n & 0xff) as u8);
    out.push(((n >> 8) & 0xff) as u8);
    out.push(((n >> 16) & 0xff) as u8);
    out.push(((n >> 24) & 0xff) as u8);
    assert(out@ =~= old(out)@ + le32(n));
}

/// Append all 32 bytes of `src`.
pub fn push_bytes32(out: &mut Vec<u8>, src: &[u8; 32])
    ensures
        final(out)@ == old(out)@ + src@,
{
    let mut k: usize = 0;
    while k < 32
        invariant
            k <= 32,
            out@ == old(out)@ + src@.take(k as int),
        decreases 32 - k,
    {
        out.push(src[k]);
        proof {
            assert(out@ =~= old(out)@ + src@.take(k as int + 1));
        }
        k = k + 1;
    }
    proof {
        assert(src@.take(32) =~= src@);
    }
}

} // verus!
