//! The blob opening assembled as one verifiable computation.
//!
//! The circuit holds the challenge point, the blob window with its offset,
//! and the claimed result, and exposes the public instance: the challenge
//! point's three 88-bit limbs followed by the evaluation result's three.

use vstd::prelude::*;
use vstd::arithmetic::power2::pow2;
use crate::blob::block_to_blob;
use crate::blob::blob_fields;
use crate::blob::is_partial_blob_of;
use crate::blob::lemma_blob_bytes_groups;
use crate::blob::payload_of;
use crate::bytes::le_val;
use crate::chunk::WitnessBlock;
use crate::domain::domain_vals;
use crate::domain::roots_of_unity_brp;
use crate::eval::eval_result;
use crate::eval::evaluate;
use crate::eval::vals_of;
use crate::field::Fe;
use crate::field::fp_modulus;
use crate::limbs::le_limbs;
use crate::limbs::limbs_val;
use crate::BlobError;

verus! {

/// The blob circuit's witness: the challenge point, the held blob window
/// and its offset, the claimed result, and the batch commitment.
#[derive(Clone, Debug)]
pub struct BlobCircuit {
    /// Commitment of the batch.
    pub batch_commit: [u8; 32],
    /// The challenge point `x`.
    pub challenge_point: Fe,
    /// Offset of the window's first element in the full blob.
    pub index: usize,
    /// The held blob elements.
    pub partial_blob: Vec<Fe>,
    /// The claimed evaluation result.
    pub partial_result: Fe,
}

impl BlobCircuit {
    /// The circuit's elements are canonical and the window fits the blob.
    pub open spec fn wf(self) -> bool {
        &&& self.challenge_point.wf()
        &&& self.partial_result.wf()
        &&& self.index + self.partial_blob@.len() <= 4096
        &&& forall|i: int|
            0 <= i < self.partial_blob@.len() ==> (#[trigger] self.partial_blob@[i]).wf()
    }

    /// Assemble a circuit from its parts.
    pub fn new(
        batch_commit: [u8; 32],
        challenge_point: Fe,
        index: usize,
        partial_blob: Vec<Fe>,
        partial_result: Fe,
    ) -> (r: Self)
        ensures
            r.batch_commit@ == batch_commit@,
            r.challenge_point == challenge_point,
            r.index == index,
            r.partial_blob@ == partial_blob@,
            r.partial_result == partial_result,
    {
        BlobCircuit { batch_commit, challenge_point, index, partial_blob, partial_result }
    }

    /// The blob window a witness yields: the framed payload reinterpreted
    /// as field elements, or nothing when the payload is too large.
    pub fn partial_blob(block: &WitnessBlock) -> (r: Vec<Fe>)
        ensures
            is_partial_blob_of(r@, payload_of(*block)),
    {
        match block_to_blob(block) {
            Ok(blob) => {
                proof {
                    lemma_blob_bytes_groups(payload_of(*block));
                }
                blob_fields(&blob)
            },
            Err(_) => Vec::new(),
        }
    }

    /// Assemble the circuit from a witness; fails when a stored scalar is
    /// not a canonical encoding.
    pub fn new_from_block(block: &WitnessBlock) -> (r: Result<BlobCircuit, BlobError>)
        ensures
            r is Ok <==> le_val(block.challenge_point@) < fp_modulus() && le_val(
                block.partial_result@,
            ) < fp_modulus(),
            r matches Ok(c) ==> c.batch_commit@ == block.batch_commit@
                && c.challenge_point.val() == le_val(block.challenge_point@) && c.index
                == block.index && is_partial_blob_of(c.partial_blob@, payload_of(*block))
                && c.partial_result.val() == le_val(block.partial_result@),
            r is Err ==> r == Err::<BlobCircuit, BlobError>(BlobError::InvalidFieldEncoding),
    {
        let challenge_point = match Fe::from_le_bytes(&block.challenge_point) {
            Some(fe) => fe,
            None => {
                return Err(BlobError::InvalidFieldEncoding);
            },
        };
        let partial_result = match Fe::from_le_bytes(&block.partial_result) {
            Some(fe) => fe,
            None => {
                return Err(BlobError::InvalidFieldEncoding);
            },
        };
        Ok(
            BlobCircuit {
                batch_commit: block.batch_commit,
                challenge_point,
                index: block.index,
                partial_blob: Self::partial_blob(block),
                partial_result,
            },
        )
    }

    /// The public instance: the challenge point's three 88-bit limbs, then
    /// the three limbs of the evaluation over the bit-reversed domain.
    pub fn instance(&self) -> (r: Vec<u128>)
        requires
            self.wf(),
        ensures
            r@.len() == 6,
            limbs_val(r@[0], r@[1], r@[2]) == self.challenge_point.val(),
            limbs_val(r@[3], r@[4], r@[5]) == eval_result(
                domain_vals(),
                vals_of(self.partial_blob@),
                self.index as int,
                self.challenge_point.val(),
            ),
            forall|i: int| 0 <= i < 6 ==> #[trigger] r@[i] < pow2(88),
    {
        let cp_bytes = self.challenge_point.to_le_bytes();
        let cl = le_limbs(&cp_bytes);
        let domain = roots_of_unity_brp();
        let result = evaluate(&domain, &self.partial_blob, self.index, &self.challenge_point);
        let res_bytes = result.to_le_bytes();
        let rl = le_limbs(&res_bytes);
        proof {
            assert(vals_of(domain@) =~= domain_vals());
        }
        let mut out: Vec<u128> = Vec::new();
        out.push(cl[0]);
        out.push(cl[1]);
        out.push(cl[2]);
        out.push(rl[0]);
        out.push(rl[1]);
        out.push(rl[2]);
        proof {
            assert(out@ =~= seq![cl[0], cl[1], cl[2], rl[0], rl[1], rl[2]]);
            assert(forall|i: int| 0 <= i < 6 ==> #[trigger] out@[i] < pow2(88)) by {
                crate::limbs::lemma_pow2_constants();
            }
        }
        out
    }
}

} // verus!
