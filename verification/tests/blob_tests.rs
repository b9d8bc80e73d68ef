use blob_chunk::blob::{blob_fields, block_to_blob};
use blob_chunk::chunk::{WitnessBlock, WitnessTx};
use blob_chunk::circuit::BlobCircuit;
use blob_chunk::BlobError;
use rand::RngCore;

fn witness_with_payload(payload: Vec<u8>) -> WitnessBlock {
    WitnessBlock {
        chain_id: 1,
        prev_state_root: [0u8; 32],
        withdraw_root: [0u8; 32],
        challenge_point: [0u8; 32],
        partial_result: [0u8; 32],
        batch_commit: [0u8; 32],
        index: 0,
        start_l1_queue_index: 0,
        ctxs: Vec::new(),
        txs: vec![WitnessTx {
            is_l1_msg: false,
            block_number: 1,
            queue_index: 0,
            hash: [0u8; 32],
            rlp_signed: payload,
        }],
    }
}

fn blob_len_for(payload_len: usize) -> usize {
    let w = witness_with_payload(vec![0xab; payload_len]);
    block_to_blob(&w).expect("payload fits").len()
}

#[test]
fn test_block_to_blob_lengths() {
    // up to 27 payload bytes fit the single head group
    assert_eq!(blob_len_for(0), 32);
    assert_eq!(blob_len_for(1), 32);
    assert_eq!(blob_len_for(27), 32);
    // each started 31-byte run beyond 27 adds one group
    assert_eq!(blob_len_for(28), 64);
    assert_eq!(blob_len_for(27 + 31), 64);
    assert_eq!(blob_len_for(27 + 31 + 1), 96);
    // the largest payload fills the blob exactly
    assert_eq!(blob_len_for(4096 * 31 - 4), 4096 * 32);
    // one byte more is rejected with the offending length
    let w = witness_with_payload(vec![0xab; 4096 * 31 - 3]);
    assert_eq!(
        block_to_blob(&w),
        Err(BlobError::DataTooLarge(4096 * 31 - 3))
    );
}

#[test]
fn test_block_to_blob_exact_bytes() {
    let w = witness_with_payload(vec![1, 2, 3]);
    let blob = block_to_blob(&w).expect("payload fits");
    let mut expected = vec![0u8, 3, 0, 0, 0, 1, 2, 3];
    expected.resize(32, 0);
    assert_eq!(blob, expected);

    // 30 bytes: 27 in the head group, 3 in one zero-padded tail group
    let payload: Vec<u8> = (1..=30).collect();
    let w = witness_with_payload(payload.clone());
    let blob = block_to_blob(&w).expect("payload fits");
    let mut expected = vec![0u8, 30, 0, 0, 0];
    expected.extend_from_slice(&payload[..27]);
    expected.push(0);
    expected.extend_from_slice(&payload[27..]);
    expected.resize(64, 0);
    assert_eq!(blob, expected);
}

#[test]
fn test_blob_groups_canonical() {
    let mut rng = rand::thread_rng();
    let mut payload = vec![0u8; 2000];
    rng.fill_bytes(&mut payload);
    let w = witness_with_payload(payload);
    let blob = block_to_blob(&w).expect("payload fits");
    assert_eq!(blob.len() % 32, 0);
    // every group, reversed into little-endian order, is canonical
    for group in blob.chunks(32) {
        let reversed: Vec<u8> = group.iter().rev().cloned().collect();
        let bytes: [u8; 32] = reversed.as_slice().try_into().unwrap();
        assert!(bool::from(bls12_381::Scalar::from_bytes(&bytes).is_some()));
    }
    // the library decodes the same groups to the same scalars
    let fields = BlobCircuit::partial_blob(&w);
    assert_eq!(fields.len(), blob.len() / 32);
    for (fe, group) in fields.iter().zip(blob.chunks(32)) {
        let reversed: Vec<u8> = group.iter().rev().cloned().collect();
        let bytes: [u8; 32] = reversed.as_slice().try_into().unwrap();
        let scalar = bls12_381::Scalar::from_bytes(&bytes).unwrap();
        assert_eq!(fe.to_le_bytes(), scalar.to_bytes());
    }
}

#[test]
fn test_zero_blob() {
    let blob: Vec<u8> = vec![0; 32 * 4096];
    let result = blob_fields(&blob);
    assert_eq!(result.len(), 4096);
    for fe in &result {
        assert_eq!(fe.to_le_bytes(), [0u8; 32]);
    }
}

#[test]
fn test_partial_blob_too_large() {
    // an oversized payload yields no blob elements
    let w = witness_with_payload(vec![0xab; 4096 * 31 - 3]);
    let fields = BlobCircuit::partial_blob(&w);
    assert!(fields.is_empty());
}
