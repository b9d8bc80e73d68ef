//! The blob byte encoding of a chunk's transaction payload.
//!
//! The payload is framed as one version byte, its 4-byte little-endian
//! length, and the payload split over 32-byte groups whose first byte is
//! always zero, so that every group — read back to front as a little-endian
//! integer — stays below the scalar-field order.

use vstd::prelude::*;
use vstd::seq_lib::*;
use vstd::arithmetic::power2::pow2;
use vstd::arithmetic::div_mod::*;
use crate::bytes::le32;
use crate::bytes::le_val;
use crate::bytes::push_le32;
use crate::bytes::lemma_le_val_bound;
use crate::bytes::lemma_le_val_split;
use crate::chunk::WitnessBlock;
use crate::chunk::WitnessTx;
use crate::field::Fe;
use crate::field::fp_modulus;
use crate::limbs::lemma_pow2_constants;
use crate::BlobError;

verus! {

/// The largest payload one blob can carry: 4096 31-byte groups less the
/// 4-byte length header and the version byte's slot.
pub const MAX_BLOB_DATA_SIZE: usize = 126972;

/// A run of `n` zero bytes.
pub open spec fn zeros(n: nat) -> Seq<u8> {
    Seq::new(n, |i: int| 0u8)
}

/// `s` zero-padded at the end to length `n`.
pub open spec fn zero_pad(s: Seq<u8>, n: int) -> Seq<u8> {
    s + zeros((n - s.len()) as nat)
}

/// The payload bytes beyond the first 27, framed as 32-byte groups: a zero
/// byte, then up to 31 payload bytes, the last group zero-padded.
pub open spec fn tail_groups(rest: Seq<u8>) -> Seq<u8>
    decreases rest.len(),
{
    if rest.len() == 0 {
        Seq::empty()
    } else if rest.len() <= 31 {
        seq![0u8] + zero_pad(rest, 31)
    } else {
        (seq![0u8] + rest.take(31)) + tail_groups(rest.skip(31))
    }
}

/// The full blob byte stream for a payload: version byte zero, the 4-byte
/// little-endian payload length, the first 27 payload bytes (zero-padded),
/// then the remaining payload in 32-byte groups.
pub open spec fn blob_bytes(payload: Seq<u8>) -> Seq<u8> {
    if payload.len() <= 27 {
        seq![0u8] + le32(payload.len() as u32) + zero_pad(payload, 27)
    } else {
        seq![0u8] + le32(payload.len() as u32) + payload.take(27) + tail_groups(payload.skip(27))
    }
}

/// The concatenated signed encodings of the first `k` transactions.
pub open spec fn payload_bytes(txs: Seq<WitnessTx>, k: int) -> Seq<u8>
    decreases k,
{
    if k <= 0 {
        Seq::empty()
    } else {
        payload_bytes(txs, k - 1) + txs[k - 1].rlp_signed@
    }
}

/// The payload of a witness: every transaction's signed encoding in order.
pub open spec fn payload_of(w: WitnessBlock) -> Seq<u8> {
    payload_bytes(w.txs@, w.txs@.len() as int)
}

/// The length and group structure of the tail groups: a multiple of 32,
/// one group per started 31-byte run, and every group starts with zero.
pub proof fn lemma_tail_groups(rest: Seq<u8>)
    ensures
        rest.len() == 0 ==> tail_groups(rest).len() == 0,
        rest.len() > 0 ==> tail_groups(rest).len() == 32 * ((rest.len() + 30) / 31),
        forall|j: int|
            0 <= j < tail_groups(rest).len() && j % 32 == 0 ==> #[trigger] tail_groups(rest)[j]
                == 0,
    decreases rest.len(),
{
    if rest.len() == 0 {
    } else if rest.len() <= 31 {
        assert(tail_groups(rest).len() == 32);
        assert((rest.len() + 30) / 31 == 1) by {
            lemma_basic_div_specific_divisor(31);
        }
        assert(tail_groups(rest)[0] == 0);
    } else {
        lemma_tail_groups(rest.skip(31));
        let g = seq![0u8] + rest.take(31);
        let t = tail_groups(rest.skip(31));
        assert(g.len() == 32);
        assert(tail_groups(rest) == g + t);
        assert(rest.skip(31).len() == rest.len() - 31);
        assert((rest.len() + 30) / 31 == (rest.len() - 31 + 30) / 31 + 1) by {
            lemma_div_plus_one(rest.len() - 31 + 30, 31);
        }
        assert(tail_groups(rest).len() == 32 + 32 * ((rest.len() - 31 + 30) / 31));
        assert forall|j: int|
            0 <= j < tail_groups(rest).len() && j % 32 == 0 implies #[trigger] tail_groups(
            rest,
        )[j] == 0 by {
            if j == 0 {
                assert(tail_groups(rest)[0] == g[0]);
            } else {
                assert(j >= 32) by {
                    lemma_mod_bound(j, 32);
                    if 0 < j < 32 {
                        lemma_small_mod(j as nat, 32);
                    }
                }
                assert(tail_groups(rest)[j] == t[j - 32]);
                assert((j - 32) % 32 == 0) by {
                    lemma_mod_sub_multiples_vanish(j, 32);
                }
                assert(t[j - 32] == 0);
            }
        }
    }
}

/// The blob stream's length: one 32-byte group when the payload fits the
/// head group, and one further group per started 31-byte run beyond 27
/// payload bytes.
pub proof fn lemma_blob_bytes_len(payload: Seq<u8>)
    ensures
        payload.len() <= 27 ==> blob_bytes(payload).len() == 32,
        payload.len() > 27 ==> blob_bytes(payload).len() == 32 + 32 * ((payload.len() - 27 + 30)
            / 31),
{
    if payload.len() > 27 {
        lemma_tail_groups(payload.skip(27));
    }
}

/// Every 32-byte group of the blob stream starts with a zero byte.
pub proof fn lemma_blob_bytes_groups(payload: Seq<u8>)
    ensures
        blob_bytes(payload).len() % 32 == 0,
        forall|j: int|
            0 <= j < blob_bytes(payload).len() && j % 32 == 0 ==> #[trigger] blob_bytes(payload)[j]
                == 0,
{
    let b = blob_bytes(payload);
    lemma_blob_bytes_len(payload);
    if payload.len() <= 27 {
        assert(b.len() == 32);
        assert(b[0] == 0);
    } else {
        lemma_tail_groups(payload.skip(27));
        let t = tail_groups(payload.skip(27));
        assert(b.len() == 32 + t.len());
        assert(b.len() % 32 == 0) by {
            assert(t.len() % 32 == 0) by {
                lemma_mod_multiples_basic((t.len() / 32) as int, 32);
                assert(t.len() == 32 * ((payload.len() - 27 + 30) / 31));
            }
            lemma_mod_add_multiples_vanish(t.len() as int, 32);
        }
        assert forall|j: int| 0 <= j < b.len() && j % 32 == 0 implies #[trigger] b[j] == 0 by {
            if j == 0 {
                assert(b[0] == 0);
            } else {
                assert(j >= 32) by {
                    lemma_mod_bound(j, 32);
                    if 0 < j < 32 {
                        lemma_small_mod(j as nat, 32);
                    }
                }
                assert(b[j] == t[j - 32]);
                assert((j - 32) % 32 == 0) by {
                    lemma_mod_sub_multiples_vanish(j, 32);
                }
                assert(t[j - 32] == 0);
            }
        }
    }
}

/// A 32-byte group whose first byte is zero reads back to front as a value
/// below the scalar-field order.
pub proof fn lemma_group_canonical(g: Seq<u8>)
    requires
        g.len() == 32,
        g[0] == 0,
    ensures
        le_val(g.reverse()) < fp_modulus(),
{
    let r = g.reverse();
    assert(r.len() == 32);
    assert(r[31] == g[0]);
    lemma_le_val_split(r, 31);
    lemma_le_val_bound(r.take(31));
    assert(r.skip(31).len() == 1);
    assert(r.skip(31)[0] == r[31]);
    assert(r.skip(31).skip(1) =~= Seq::<u8>::empty());
    assert(le_val(Seq::<u8>::empty()) == 0);
    assert(le_val(r.skip(31)) == (r.skip(31)[0] as nat) + 256 * le_val(r.skip(31).skip(1)));
    assert(le_val(r.skip(31)) == 0);
    assert(pow2(248) * le_val(r.skip(31)) == 0) by {
        vstd::arithmetic::mul::lemma_mul_by_zero_is_zero(pow2(248) as int);
    }
    assert(le_val(r) == le_val(r.take(31)));
    lemma_pow2_constants();
}

/// Law: every 32-byte group of a blob stream decodes — after the byte
/// reversal — to a canonical scalar, below the field order, whatever the
/// payload holds.
pub proof fn lemma_blob_groups_decode_canonically(payload: Seq<u8>, k: int)
    requires
        0 <= k,
        32 * k + 32 <= blob_bytes(payload).len(),
    ensures
        group_val(blob_bytes(payload).subrange(32 * k, 32 * k + 32)) < fp_modulus(),
{
    lemma_blob_bytes_groups(payload);
    let g = blob_bytes(payload).subrange(32 * k, 32 * k + 32);
    assert((32 * k) % 32 == 0) by {
        lemma_mod_multiples_basic(k, 32);
    }
    assert(g[0] == blob_bytes(payload)[32 * k]);
    lemma_group_canonical(g);
}

/// Append `src[from..to)` to `out`.
fn push_range(out: &mut Vec<u8>, src: &Vec<u8>, from: usize, to: usize)
    requires
        from <= to <= src@.len(),
    ensures
        final(out)@ == old(out)@ + src@.subrange(from as int, to as int),
{
    let mut k: usize = from;
    while k < to
        invariant
            from <= k <= to <= src@.len(),
            out@ == old(out)@ + src@.subrange(from as int, k as int),
        decreases to - k,
    {
        out.push(src[k]);
        proof {
            assert(out@ =~= old(out)@ + src@.subrange(from as int, k as int + 1));
        }
        k = k + 1;
    }
}

/// Append `n` zero bytes to `out`.
fn push_zeros(out: &mut Vec<u8>, n: usize)
    ensures
        final(out)@ == old(out)@ + zeros(n as nat),
{
    let mut k: usize = 0;
    while k < n
        invariant
            k <= n,
            out@ == old(out)@ + zeros(k as nat),
        decreases n - k,
    {
        out.push(0);
        proof {
            assert(out@ =~= old(out)@ + zeros(k as nat + 1));
        }
        k = k + 1;
    }
}

/// Serialize a witness's transaction payload into the blob byte format.
///
/// Fails exactly when the payload exceeds the blob's capacity; otherwise
/// the output is the framed stream of `blob_bytes`.
pub fn block_to_blob(block: &WitnessBlock) -> (r: Result<Vec<u8>, BlobError>)
    ensures
        payload_of(*block).len() <= MAX_BLOB_DATA_SIZE ==> (r matches Ok(v) && v@ == blob_bytes(
            payload_of(*block),
        )),
        payload_of(*block).len() > MAX_BLOB_DATA_SIZE ==> r == Err::<Vec<u8>, BlobError>(
            BlobError::DataTooLarge(payload_of(*block).len() as usize),
        ),
{
    let mut payload: Vec<u8> = Vec::new();
    let mut i: usize = 0;
    while i < block.txs.len()
        invariant
            i <= block.txs@.len(),
            payload@ == payload_bytes(block.txs@, i as int),
        decreases block.txs@.len() - i,
    {
        let n = block.txs[i].rlp_signed.len();
        push_range(&mut payload, &block.txs[i].rlp_signed, 0, n);
        proof {
            assert(block.txs@[i as int].rlp_signed@.subrange(
                0,
                block.txs@[i as int].rlp_signed@.len() as int,
            ) =~= block.txs@[i as int].rlp_signed@);
        }
        i = i + 1;
    }

    if payload.len() > MAX_BLOB_DATA_SIZE {
        return Err(BlobError::DataTooLarge(payload.len()));
    }

    let mut out: Vec<u8> = Vec::new();
    out.push(0);
    push_le32(&mut out, payload.len() as u32);

    if payload.len() <= 27 {
        let n = payload.len();
        push_range(&mut out, &payload, 0, n);
        push_zeros(&mut out, 27 - n);
        proof {
            assert(payload@.subrange(0, payload@.len() as int) =~= payload@);
            assert(out@ =~= blob_bytes(payload@));
        }
        return Ok(out);
    }

    push_range(&mut out, &payload, 0, 27);
    proof {
        assert(payload@.subrange(0, 27) =~= payload@.take(27));
    }

    let mut o: usize = 27;
    while o < payload.len()
        invariant
            27 <= o <= payload@.len(),
            payload@.len() > 27,
            payload@.len() <= MAX_BLOB_DATA_SIZE,
            out@ + tail_groups(payload@.skip(o as int)) == blob_bytes(payload@),
        decreases payload@.len() - o,
    {
        let ghost before = out@;
        let ghost rest = payload@.skip(o as int);
        out.push(0);
        let rem = payload.len() - o;
        if rem <= 31 {
            let n = payload.len();
            push_range(&mut out, &payload, o, n);
            push_zeros(&mut out, 31 - rem);
            o = n;
            proof {
                assert(payload@.subrange(o as int - rem, payload@.len() as int) =~= rest);
                assert(out@ =~= before + (seq![0u8] + zero_pad(rest, 31)));
                assert(tail_groups(rest) == seq![0u8] + zero_pad(rest, 31));
                assert(payload@.skip(o as int) =~= Seq::<u8>::empty());
            }
        } else {
            push_range(&mut out, &payload, o, o + 31);
            proof {
                assert(payload@.subrange(o as int, o as int + 31) =~= rest.take(31));
                assert(out@ =~= before + (seq![0u8] + rest.take(31)));
                assert(rest.skip(31) =~= payload@.skip(o as int + 31));
                assert(tail_groups(rest) == (seq![0u8] + rest.take(31)) + tail_groups(
                    rest.skip(31),
                ));
                assert(before + tail_groups(rest) =~= out@ + tail_groups(
                    payload@.skip(o as int + 31),
                ));
            }
            o = o + 31;
        }
    }
    proof {
        assert(payload@.skip(o as int).len() == 0);
        assert(tail_groups(payload@.skip(o as int)) =~= Seq::<u8>::empty());
        assert(out@ =~= out@ + tail_groups(payload@.skip(o as int)));
    }
    Ok(out)
}

/// The scalar value a 32-byte group decodes to: the group read back to
/// front as a little-endian integer.
pub open spec fn group_val(g: Seq<u8>) -> nat {
    le_val(g.reverse())
}

/// What the partial blob derived from a payload holds: one field element
/// per 32-byte group of the framed stream when the payload fits the blob,
/// and nothing when it does not.
pub open spec fn is_partial_blob_of(r: Seq<Fe>, payload: Seq<u8>) -> bool {
    if payload.len() <= MAX_BLOB_DATA_SIZE {
        &&& r.len() == blob_bytes(payload).len() / 32
        &&& forall|k: int|
            0 <= k < r.len() ==> (#[trigger] r[k]).wf() && r[k].val() == group_val(
                blob_bytes(payload).subrange(32 * k, 32 * k + 32),
            )
    } else {
        r.len() == 0
    }
}

/// Reinterpret a blob byte stream as scalar-field elements, one per
/// 32-byte group, reversing each group's bytes into little-endian order.
pub fn blob_fields(blob: &Vec<u8>) -> (r: Vec<Fe>)
    requires
        blob@.len() % 32 == 0,
        forall|j: int| 0 <= j < blob@.len() && j % 32 == 0 ==> #[trigger] blob@[j] == 0,
    ensures
        r@.len() == blob@.len() / 32,
        forall|k: int|
            0 <= k < r@.len() ==> (#[trigger] r@[k]).wf() && r@[k].val() == group_val(
                blob@.subrange(32 * k, 32 * k + 32),
            ),
{
    let mut r: Vec<Fe> = Vec::new();
    let mut k: usize = 0;
    proof {
        lemma_mod_bound(blob@.len() as int, 32);
        lemma_fundamental_div_mod(blob@.len() as int, 32);
    }
    let total = blob.len();
    let n_groups = total / 32;
    while k < n_groups
        invariant
            blob@.len() % 32 == 0,
            blob@.len() == 32 * (blob@.len() / 32),
            forall|j: int| 0 <= j < blob@.len() && j % 32 == 0 ==> #[trigger] blob@[j] == 0,
            k <= n_groups,
            total == blob@.len(),
            n_groups == blob@.len() / 32,
            r@.len() == k,
            forall|j: int|
                0 <= j < r@.len() ==> (#[trigger] r@[j]).wf() && r@[j].val() == group_val(
                    blob@.subrange(32 * j, 32 * j + 32),
                ),
        decreases n_groups - k,
    {
        proof {
            assert(32 * (k as int) <= 32 * (n_groups - 1)) by {
                vstd::arithmetic::mul::lemma_mul_inequality(k as int, n_groups - 1, 32);
            }
            assert(32 * (n_groups - 1) == 32 * (blob@.len() / 32) - 32);
            assert(32 * (k as int) + 32 <= blob@.len());
        }
        let off = 32 * k;
        let g: [u8; 32] = [
            blob[off + 31],
            blob[off + 30],
            blob[off + 29],
            blob[off + 28],
            blob[off + 27],
            blob[off + 26],
            blob[off + 25],
            blob[off + 24],
            blob[off + 23],
            blob[off + 22],
            blob[off + 21],
            blob[off + 20],
            blob[off + 19],
            blob[off + 18],
            blob[off + 17],
            blob[off + 16],
            blob[off + 15],
            blob[off + 14],
            blob[off + 13],
            blob[off + 12],
            blob[off + 11],
            blob[off + 10],
            blob[off + 9],
            blob[off + 8],
            blob[off + 7],
            blob[off + 6],
            blob[off + 5],
            blob[off + 4],
            blob[off + 3],
            blob[off + 2],
            blob[off + 1],
            blob[off],
        ];
        proof {
            let group = blob@.subrange(off as int, off as int + 32);
            assert(group.len() == 32);
            assert(g@ =~= group.reverse());
            assert((off as int) % 32 == 0) by {
                lemma_mod_multiples_basic(k as int, 32);
            }
            assert(group[0] == blob@[off as int]);
            assert(blob@[off as int] == 0);
            lemma_group_canonical(group);
        }
        let fe = Fe { bytes: g };
        r.push(fe);
        k = k + 1;
    }
    r
}

} // verus!
