//! Chunk summaries derived from a block witness.
//!
//! A chunk is a contiguous run of L2 blocks. Its summary binds the state
//! roots around the chunk, the withdraw root, and a data hash over the
//! block headers and transaction hashes, and carries the blob challenge
//! point and claimed partial result for the blob opening.

use vstd::prelude::*;
use crate::bytes::be16;
use crate::bytes::be64;
use crate::bytes::le_val;
use crate::bytes::push_be16;
use crate::bytes::push_be64;
use crate::bytes::push_bytes32;
use crate::bytes::lemma_be64_injective;
use crate::field::Fe;
use crate::field::fp_modulus;
use crate::keccak::keccak_of;
use crate::keccak::keccak256;
use crate::limbs::le_limbs;
use crate::limbs::limbs_val;
use crate::limbs::lt_fp_modulus;
use crate::field::lemma_fp_modulus_halves;
use crate::BlobError;
use vstd::arithmetic::power2::pow2;

verus! {

/// The context of one executed block inside a witness.
#[derive(Clone, Copy, Debug)]
pub struct BlockContext {
    /// Block number.
    pub number: u64,
    /// Block timestamp in seconds.
    pub timestamp: u64,
    /// Base fee, as the 32 big-endian bytes the header emits.
    pub base_fee: [u8; 32],
    /// Block gas limit.
    pub gas_limit: u64,
    /// State root after this block.
    pub state_root: [u8; 32],
}

/// One transaction of a witness.
#[derive(Clone, Debug)]
pub struct WitnessTx {
    /// Whether the transaction is an L1-originated message.
    pub is_l1_msg: bool,
    /// The number of the block that holds it.
    pub block_number: u64,
    /// For an L1 message, its position in the L1 message queue.
    pub queue_index: u64,
    /// The transaction hash.
    pub hash: [u8; 32],
    /// The signed transaction encoding.
    pub rlp_signed: Vec<u8>,
}

/// A finalized execution trace of a chunk's blocks.
#[derive(Clone, Debug)]
pub struct WitnessBlock {
    /// Chain identifier.
    pub chain_id: u64,
    /// State root before the chunk.
    pub prev_state_root: [u8; 32],
    /// Withdraw root after the chunk.
    pub withdraw_root: [u8; 32],
    /// Blob challenge point, a 32-byte little-endian scalar encoding.
    pub challenge_point: [u8; 32],
    /// Claimed blob opening result, a 32-byte little-endian scalar encoding.
    pub partial_result: [u8; 32],
    /// Commitment of the batch the chunk belongs to.
    pub batch_commit: [u8; 32],
    /// Offset of this chunk's blob slice inside the full blob.
    pub index: usize,
    /// The L1 message queue position where the chunk starts.
    pub start_l1_queue_index: u64,
    /// Block contexts, in ascending block-number order.
    pub ctxs: Vec<BlockContext>,
    /// Transactions, in witness order.
    pub txs: Vec<WitnessTx>,
}

/// How many L2 transactions of `txs` belong to block `bnum`.
pub open spec fn count_l2_txs(txs: Seq<WitnessTx>, bnum: u64) -> nat
    decreases txs.len(),
{
    if txs.len() == 0 {
        0
    } else {
        count_l2_txs(txs.drop_last(), bnum) + if !txs.last().is_l1_msg && txs.last().block_number
            == bnum {
            1nat
        } else {
            0nat
        }
    }
}

/// The greatest queue index among block `bnum`'s L1 messages, if any.
pub open spec fn max_l1_queue_index(txs: Seq<WitnessTx>, bnum: u64) -> Option<u64>
    decreases txs.len(),
{
    if txs.len() == 0 {
        None
    } else {
        let rest = max_l1_queue_index(txs.drop_last(), bnum);
        let t = txs.last();
        if t.is_l1_msg && t.block_number == bnum {
            match rest {
                Option::None => Some(t.queue_index),
                Option::Some(m) => Some(if t.queue_index > m {
                    t.queue_index
                } else {
                    m
                }),
            }
        } else {
            rest
        }
    }
}

/// How many L1 messages block `bnum` consumes when the queue cursor stands
/// at `cursor`: up to the block's greatest queue index, inclusive.
pub open spec fn l1_msg_count(txs: Seq<WitnessTx>, bnum: u64, cursor: int) -> int {
    match max_l1_queue_index(txs, bnum) {
        Option::None => 0,
        Option::Some(m) => m - cursor + 1,
    }
}

/// The queue cursor after the first `i` blocks of the witness.
pub open spec fn cursor_after(w: WitnessBlock, i: int) -> int
    decreases i,
{
    if i <= 0 {
        w.start_l1_queue_index as int
    } else {
        let c = cursor_after(w, i - 1);
        c + l1_msg_count(w.txs@, w.ctxs@[i - 1].number, c)
    }
}

/// The total transaction count that block `i`'s header advertises.
pub open spec fn block_tx_count(w: WitnessBlock, i: int) -> int {
    count_l2_txs(w.txs@, w.ctxs@[i].number) + l1_msg_count(
        w.txs@,
        w.ctxs@[i].number,
        cursor_after(w, i),
    )
}

/// Block `i` of the witness is consistent with the queue cursor reaching it.
pub open spec fn block_wf(w: WitnessBlock, i: int) -> bool {
    &&& (match max_l1_queue_index(w.txs@, w.ctxs@[i].number) {
        Option::None => true,
        Option::Some(m) => cursor_after(w, i) <= m && m < u64::MAX,
    })
    &&& block_tx_count(w, i) < 0x10000
}

/// A witness this crate accepts: queue indices consistent with the starting
/// offset, per-block transaction counts that fit the 2-byte header field,
/// and block contexts in strictly ascending block-number order.
pub open spec fn witness_wf(w: WitnessBlock) -> bool {
    &&& forall|i: int| 0 <= i < w.ctxs@.len() ==> #[trigger] block_wf(w, i)
    &&& forall|i: int, j: int|
        0 <= i < j < w.ctxs@.len() ==> #[trigger] w.ctxs@[i].number < #[trigger] w.ctxs@[j].number
}

/// The header bytes block `i` contributes to the data-hash preimage.
pub open spec fn block_header_bytes(w: WitnessBlock, i: int) -> Seq<u8> {
    be64(w.ctxs@[i].number) + be64(w.ctxs@[i].timestamp) + w.ctxs@[i].base_fee@ + be64(
        w.ctxs@[i].gas_limit,
    ) + be16(block_tx_count(w, i) as u16)
}

/// The header bytes of the first `k` blocks, concatenated.
pub open spec fn headers_bytes(w: WitnessBlock, k: int) -> Seq<u8>
    decreases k,
{
    if k <= 0 {
        Seq::empty()
    } else {
        headers_bytes(w, k - 1) + block_header_bytes(w, k - 1)
    }
}

/// The hashes of the first `k` transactions, concatenated in witness order.
pub open spec fn tx_hash_bytes(txs: Seq<WitnessTx>, k: int) -> Seq<u8>
    decreases k,
{
    if k <= 0 {
        Seq::empty()
    } else {
        tx_hash_bytes(txs, k - 1) + txs[k - 1].hash@
    }
}

/// The data-hash preimage: all block headers, then all transaction hashes.
pub open spec fn data_bytes(w: WitnessBlock) -> Seq<u8> {
    headers_bytes(w, w.ctxs@.len() as int) + tx_hash_bytes(w.txs@, w.txs@.len() as int)
}

/// The state root the chunk ends in: the last (greatest-numbered) block's,
/// or the previous state root when the chunk holds no block context.
pub open spec fn post_state_root_of(w: WitnessBlock) -> Seq<u8> {
    if w.ctxs@.len() > 0 {
        w.ctxs@.last().state_root@
    } else {
        w.prev_state_root@
    }
}

/// The summary of one chunk: four hashes for the state transition, the
/// blob challenge point and partial result, and the padding mark.
#[derive(Clone, Copy, Debug)]
pub struct ChunkHash {
    /// Chain identifier.
    pub chain_id: u64,
    /// State root before this chunk.
    pub prev_state_root: [u8; 32],
    /// State root after this chunk.
    pub post_state_root: [u8; 32],
    /// Withdraw root after this chunk.
    pub withdraw_root: [u8; 32],
    /// The data hash of this chunk.
    pub data_hash: [u8; 32],
    /// Blob challenge point, as a 32-byte little-endian scalar encoding.
    pub challenge_point: [u8; 32],
    /// Blob partial result, as a 32-byte little-endian scalar encoding.
    pub partial_result: [u8; 32],
    /// Whether the chunk is a padding copy of an earlier chunk.
    pub is_padding: bool,
}

/// The public-input-hash preimage: chain id, then the two state roots, the
/// withdraw root and the data hash. The challenge point and partial result
/// are deliberately left out.
pub open spec fn hash_preimage(c: ChunkHash) -> Seq<u8> {
    be64(c.chain_id) + c.prev_state_root@ + c.post_state_root@ + c.withdraw_root@ + c.data_hash@
}

/// What padding produces: the same chunk with only the padding mark set,
/// or nothing when the chunk is already a padding copy.
pub open spec fn padded_spec(c: ChunkHash) -> Option<ChunkHash> {
    if c.is_padding {
        None
    } else {
        Some(ChunkHash { is_padding: true, ..c })
    }
}

/// Law: a chunk without block contexts and without transactions digests
/// the empty byte string, so its data hash is keccak-256 of no bytes.
pub proof fn lemma_empty_chunk_data_bytes(w: WitnessBlock)
    requires
        w.ctxs@.len() == 0,
        w.txs@.len() == 0,
    ensures
        data_bytes(w) == Seq::<u8>::empty(),
{
    assert(data_bytes(w) =~= Seq::<u8>::empty());
}

/// Law: the public-input-hash preimage separates chunks — whenever one of
/// the five digested fields differs, the preimages differ, so no change to
/// one field can cancel inside the encoding.
pub proof fn lemma_preimage_injective(a: ChunkHash, b: ChunkHash)
    requires
        a.chain_id != b.chain_id || a.prev_state_root@ != b.prev_state_root@
            || a.post_state_root@ != b.post_state_root@ || a.withdraw_root@ != b.withdraw_root@
            || a.data_hash@ != b.data_hash@,
    ensures
        hash_preimage(a) != hash_preimage(b),
{
    if hash_preimage(a) == hash_preimage(b) {
        let pa = hash_preimage(a);
        let pb = hash_preimage(b);
        assert(pa.len() == 136);
        assert(be64(a.chain_id) =~= pa.subrange(0, 8));
        assert(be64(b.chain_id) =~= pb.subrange(0, 8));
        lemma_be64_injective(a.chain_id, b.chain_id);
        assert(a.prev_state_root@ =~= pa.subrange(8, 40));
        assert(b.prev_state_root@ =~= pb.subrange(8, 40));
        assert(a.post_state_root@ =~= pa.subrange(40, 72));
        assert(b.post_state_root@ =~= pb.subrange(40, 72));
        assert(a.withdraw_root@ =~= pa.subrange(72, 104));
        assert(b.withdraw_root@ =~= pb.subrange(72, 104));
        assert(a.data_hash@ =~= pa.subrange(104, 136));
        assert(b.data_hash@ =~= pb.subrange(104, 136));
        assert(false);
    }
}

/// Law: padding is one-shot and preserves every field — the padding copy
/// carries the chunk's fields with only the mark set, and padding the copy
/// again yields nothing.
pub proof fn lemma_padding_one_shot(c: ChunkHash)
    requires
        !c.is_padding,
    ensures
        padded_spec(c) matches Some(p) && p.chain_id == c.chain_id && p.prev_state_root
            == c.prev_state_root && p.post_state_root == c.post_state_root && p.withdraw_root
            == c.withdraw_root && p.data_hash == c.data_hash && p.challenge_point
            == c.challenge_point && p.partial_result == c.partial_result && p.is_padding
            && padded_spec(p) is None,
{
}

impl ChunkHash {
    /// Derive the chunk summary from a block witness.
    ///
    /// The data hash digests, per block in order: the 8-byte block number,
    /// 8-byte timestamp, 32-byte base fee, 8-byte gas limit and 2-byte
    /// transaction count, all big-endian; then every transaction hash in
    /// witness order.
    pub fn from_witness_block(block: &WitnessBlock, is_padding: bool) -> (r: ChunkHash)
        requires
            witness_wf(*block),
        ensures
            r.chain_id == block.chain_id,
            r.prev_state_root@ == block.prev_state_root@,
            r.post_state_root@ == post_state_root_of(*block),
            r.withdraw_root@ == block.withdraw_root@,
            r.data_hash@ == keccak_of(data_bytes(*block)),
            r.challenge_point@ == block.challenge_point@,
            r.partial_result@ == block.partial_result@,
            r.is_padding == is_padding,
    {
        let mut data: Vec<u8> = Vec::new();
        let mut cursor: u64 = block.start_l1_queue_index;
        let mut i: usize = 0;
        while i < block.ctxs.len()
            invariant
                witness_wf(*block),
                i <= block.ctxs@.len(),
                cursor == cursor_after(*block, i as int),
                data@ == headers_bytes(*block, i as int),
            decreases block.ctxs@.len() - i,
        {
            let ghost prefix = data@;
            let ctx_number = block.ctxs[i].number;
            let ctx_timestamp = block.ctxs[i].timestamp;
            let ctx_gas_limit = block.ctxs[i].gas_limit;

            let mut num_l2: u64 = 0;
            let mut j: usize = 0;
            while j < block.txs.len()
                invariant
                    j <= block.txs@.len(),
                    num_l2 <= j,
                    num_l2 == count_l2_txs(block.txs@.take(j as int), ctx_number),
                decreases block.txs@.len() - j,
            {
                proof {
                    assert(block.txs@.take(j as int + 1).drop_last() =~= block.txs@.take(j as int));
                    assert(block.txs@.take(j as int + 1).last() == block.txs@[j as int]);
                }
                if !block.txs[j].is_l1_msg && block.txs[j].block_number == ctx_number {
                    num_l2 = num_l2 + 1;
                }
                j = j + 1;
            }
            proof {
                assert(block.txs@.take(block.txs@.len() as int) =~= block.txs@);
            }

            let mut max_qi: Option<u64> = None;
            let mut k: usize = 0;
            while k < block.txs.len()
                invariant
                    k <= block.txs@.len(),
                    max_qi == max_l1_queue_index(block.txs@.take(k as int), ctx_number),
                decreases block.txs@.len() - k,
            {
                proof {
                    assert(block.txs@.take(k as int + 1).drop_last() =~= block.txs@.take(k as int));
                    assert(block.txs@.take(k as int + 1).last() == block.txs@[k as int]);
                }
                if block.txs[k].is_l1_msg && block.txs[k].block_number == ctx_number {
                    let qi = block.txs[k].queue_index;
                    max_qi = match max_qi {
                        None => Some(qi),
                        Some(m) => Some(if qi > m {
                            qi
                        } else {
                            m
                        }),
                    };
                }
                k = k + 1;
            }
            proof {
                assert(block.txs@.take(block.txs@.len() as int) =~= block.txs@);
                assert(block_wf(*block, i as int));
            }

            let num_l1: u64 = match max_qi {
                None => 0,
                Some(m) => m - cursor + 1,
            };
            let num_txs: u16 = (num_l2 + num_l1) as u16;
            cursor = cursor + num_l1;

            push_be64(&mut data, ctx_number);
            push_be64(&mut data, ctx_timestamp);
            push_bytes32(&mut data, &block.ctxs[i].base_fee);
            push_be64(&mut data, ctx_gas_limit);
            push_be16(&mut data, num_txs);
            proof {
                assert(num_txs == block_tx_count(*block, i as int) as u16);
                assert(data@ =~= prefix + block_header_bytes(*block, i as int));
                assert(headers_bytes(*block, i as int + 1) == headers_bytes(*block, i as int)
                    + block_header_bytes(*block, i as int));
            }
            i = i + 1;
        }

        let mut t: usize = 0;
        let ghost all_headers = data@;
        while t < block.txs.len()
            invariant
                t <= block.txs@.len(),
                data@ == all_headers + tx_hash_bytes(block.txs@, t as int),
            decreases block.txs@.len() - t,
        {
            push_bytes32(&mut data, &block.txs[t].hash);
            proof {
                assert(data@ =~= all_headers + tx_hash_bytes(block.txs@, t as int + 1));
            }
            t = t + 1;
        }

        let data_hash = keccak256(data.as_slice());

        let post_state_root: [u8; 32] = if block.ctxs.len() > 0 {
            block.ctxs[block.ctxs.len() - 1].state_root
        } else {
            block.prev_state_root
        };
        proof {
            if block.ctxs@.len() > 0 {
                assert(block.ctxs@.last() == block.ctxs@[block.ctxs@.len() - 1]);
            }
        }

        ChunkHash {
            chain_id: block.chain_id,
            prev_state_root: block.prev_state_root,
            post_state_root,
            withdraw_root: block.withdraw_root,
            data_hash,
            challenge_point: block.challenge_point,
            partial_result: block.partial_result,
            is_padding,
        }
    }

    /// The bytes that the public input hash digests.
    pub fn extract_hash_preimage(&self) -> (r: Vec<u8>)
        ensures
            r@ == hash_preimage(*self),
    {
        let mut out: Vec<u8> = Vec::new();
        push_be64(&mut out, self.chain_id);
        push_bytes32(&mut out, &self.prev_state_root);
        push_bytes32(&mut out, &self.post_state_root);
        push_bytes32(&mut out, &self.withdraw_root);
        push_bytes32(&mut out, &self.data_hash);
        proof {
            assert(out@ =~= hash_preimage(*self));
        }
        out
    }

    /// The chunk's public input hash:
    /// keccak-256 of chain id, previous and post state root, withdraw root
    /// and data hash.
    pub fn public_input_hash(&self) -> (r: [u8; 32])
        ensures
            r@ == keccak_of(hash_preimage(*self)),
    {
        let preimage = self.extract_hash_preimage();
        keccak256(preimage.as_slice())
    }

    /// The challenge point, decomposed into three 88-bit limbs; fails when
    /// the stored bytes are not a canonical scalar encoding.
    pub fn challenge_point(&self) -> (r: Result<[u128; 3], BlobError>)
        ensures
            r matches Ok(l) ==> le_val(self.challenge_point@) < fp_modulus() && le_val(
                self.challenge_point@,
            ) == limbs_val(l[0], l[1], l[2]) && l[0] < pow2(88) && l[1] < pow2(88) && l[2] < pow2(
                80,
            ),
            r is Err ==> r == Err::<[u128; 3], BlobError>(BlobError::InvalidFieldEncoding)
                && le_val(self.challenge_point@) >= fp_modulus(),
    {
        proof {
            lemma_fp_modulus_halves();
        }
        if lt_fp_modulus(&self.challenge_point) {
            Ok(le_limbs(&self.challenge_point))
        } else {
            Err(BlobError::InvalidFieldEncoding)
        }
    }

    /// The partial result, decomposed into three 88-bit limbs; fails when
    /// the stored bytes are not a canonical scalar encoding.
    pub fn partial_result(&self) -> (r: Result<[u128; 3], BlobError>)
        ensures
            r matches Ok(l) ==> le_val(self.partial_result@) < fp_modulus() && le_val(
                self.partial_result@,
            ) == limbs_val(l[0], l[1], l[2]) && l[0] < pow2(88) && l[1] < pow2(88) && l[2] < pow2(
                80,
            ),
            r is Err ==> r == Err::<[u128; 3], BlobError>(BlobError::InvalidFieldEncoding)
                && le_val(self.partial_result@) >= fp_modulus(),
    {
        proof {
            lemma_fp_modulus_halves();
        }
        if lt_fp_modulus(&self.partial_result) {
            Ok(le_limbs(&self.partial_result))
        } else {
            Err(BlobError::InvalidFieldEncoding)
        }
    }

    /// Assemble a chunk summary from drawn bytes: the four roots verbatim,
    /// the two 64-byte strings reduced into the scalar field. The caller
    /// supplies the randomness; chain id is zero and the chunk is not
    /// padding.
    pub fn mock_random_chunk_hash_for_testing(
        prev_state_root: &[u8; 32],
        post_state_root: &[u8; 32],
        withdraw_root: &[u8; 32],
        data_hash: &[u8; 32],
        challenge_point_wide: &[u8; 64],
        partial_result_wide: &[u8; 64],
    ) -> (r: ChunkHash)
        ensures
            r.chain_id == 0,
            r.prev_state_root@ == prev_state_root@,
            r.post_state_root@ == post_state_root@,
            r.withdraw_root@ == withdraw_root@,
            r.data_hash@ == data_hash@,
            le_val(r.challenge_point@) == le_val(challenge_point_wide@) % fp_modulus(),
            le_val(r.partial_result@) == le_val(partial_result_wide@) % fp_modulus(),
            !r.is_padding,
    {
        let cp = Fe::from_wide_bytes(challenge_point_wide);
        let pr = Fe::from_wide_bytes(partial_result_wide);
        ChunkHash {
            chain_id: 0,
            prev_state_root: *prev_state_root,
            post_state_root: *post_state_root,
            withdraw_root: *withdraw_root,
            data_hash: *data_hash,
            challenge_point: cp.to_le_bytes(),
            partial_result: pr.to_le_bytes(),
            is_padding: false,
        }
    }

    /// Build the padding copy of a chunk: every hash field and the chain id
    /// carry over unchanged, only the padding mark flips. A chunk already
    /// marked as padding cannot be padded again.
    pub fn padded(previous: &ChunkHash) -> (r: Option<ChunkHash>)
        ensures
            r == padded_spec(*previous),
            previous.is_padding ==> r is None,
            !previous.is_padding ==> (r matches Some(c) && c.chain_id == previous.chain_id
                && c.prev_state_root@ == previous.prev_state_root@ && c.post_state_root@
                == previous.post_state_root@ && c.withdraw_root@ == previous.withdraw_root@
                && c.data_hash@ == previous.data_hash@ && c.challenge_point@
                == previous.challenge_point@ && c.partial_result@ == previous.partial_result@
                && c.is_padding),
    {
        if previous.is_padding {
            None
        } else {
            Some(
                ChunkHash {
                    chain_id: previous.chain_id,
                    prev_state_root: previous.prev_state_root,
                    post_state_root: previous.post_state_root,
                    withdraw_root: previous.withdraw_root,
                    data_hash: previous.data_hash,
                    challenge_point: previous.challenge_point,
                    partial_result: previous.partial_result,
                    is_padding: true,
                },
            )
        }
    }
}

} // verus!
