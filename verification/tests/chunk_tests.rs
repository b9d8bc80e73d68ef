use blob_chunk::chunk::{BlockContext, ChunkHash, WitnessBlock, WitnessTx};
use rand::RngCore;

fn empty_witness() -> WitnessBlock {
    WitnessBlock {
        chain_id: 5,
        prev_state_root: [1u8; 32],
        withdraw_root: [2u8; 32],
        challenge_point: [0u8; 32],
        partial_result: [0u8; 32],
        batch_commit: [0u8; 32],
        index: 0,
        start_l1_queue_index: 0,
        ctxs: Vec::new(),
        txs: Vec::new(),
    }
}

const KECCAK_EMPTY: [u8; 32] = [
    0xc5, 0xd2, 0x46, 0x01, 0x86, 0xf7, 0x23, 0x3c, 0x92, 0x7e, 0x7d, 0xb2, 0xdc, 0xc7, 0x03,
    0xc0, 0xe5, 0x00, 0xb6, 0x53, 0xca, 0x82, 0x27, 0x3b, 0x7b, 0xfa, 0xd8, 0x04, 0x5d, 0x85,
    0xa4, 0x70,
];

#[test]
fn test_empty_chunk_data_hash() {
    let w = empty_witness();
    let chunk = ChunkHash::from_witness_block(&w, false);
    assert_eq!(chunk.data_hash, KECCAK_EMPTY);
    // with no block context the post state root falls back to the previous one
    assert_eq!(chunk.post_state_root, w.prev_state_root);
    assert!(!chunk.is_padding);
}

#[test]
fn test_public_input_hash_changes() {
    let base = ChunkHash {
        chain_id: 7,
        prev_state_root: [1u8; 32],
        post_state_root: [2u8; 32],
        withdraw_root: [3u8; 32],
        data_hash: [4u8; 32],
        challenge_point: [0u8; 32],
        partial_result: [0u8; 32],
        is_padding: false,
    };
    let h = base.public_input_hash();

    let mut c = base;
    c.chain_id = 8;
    assert_ne!(c.public_input_hash(), h);

    let mut c = base;
    c.prev_state_root[0] = 9;
    assert_ne!(c.public_input_hash(), h);

    let mut c = base;
    c.post_state_root[31] = 9;
    assert_ne!(c.public_input_hash(), h);

    let mut c = base;
    c.withdraw_root[15] = 9;
    assert_ne!(c.public_input_hash(), h);

    let mut c = base;
    c.data_hash[7] = 9;
    assert_ne!(c.public_input_hash(), h);

    // the excluded fields leave the hash unchanged
    let mut c = base;
    c.challenge_point[0] = 9;
    c.partial_result[0] = 9;
    assert_eq!(c.public_input_hash(), h);
}

#[test]
fn test_padding() {
    let base = ChunkHash {
        chain_id: 7,
        prev_state_root: [1u8; 32],
        post_state_root: [2u8; 32],
        withdraw_root: [3u8; 32],
        data_hash: [4u8; 32],
        challenge_point: [5u8; 32],
        partial_result: [6u8; 32],
        is_padding: false,
    };
    let padded = ChunkHash::padded(&base).expect("padding a fresh chunk succeeds");
    assert_eq!(padded.chain_id, base.chain_id);
    assert_eq!(padded.prev_state_root, base.prev_state_root);
    assert_eq!(padded.post_state_root, base.post_state_root);
    assert_eq!(padded.withdraw_root, base.withdraw_root);
    assert_eq!(padded.data_hash, base.data_hash);
    assert_eq!(padded.challenge_point, base.challenge_point);
    assert_eq!(padded.partial_result, base.partial_result);
    assert!(padded.is_padding);
    // padding the padding copy must fail
    assert!(ChunkHash::padded(&padded).is_none());
}

#[test]
fn test_from_witness_block_data_hash() {
    // two blocks: block 10 with one L2 tx, block 11 with two L1 messages
    // (queue indices 3 and 4) and one L2 tx
    let ctxs = vec![
        BlockContext {
            number: 10,
            timestamp: 1000,
            base_fee: [0u8; 32],
            gas_limit: 30_000_000,
            state_root: [0xaa; 32],
        },
        BlockContext {
            number: 11,
            timestamp: 1001,
            base_fee: {
                let mut f = [0u8; 32];
                f[31] = 7;
                f
            },
            gas_limit: 30_000_001,
            state_root: [0xbb; 32],
        },
    ];
    let txs = vec![
        WitnessTx {
            is_l1_msg: false,
            block_number: 10,
            queue_index: 0,
            hash: [0x11; 32],
            rlp_signed: vec![1, 2, 3],
        },
        WitnessTx {
            is_l1_msg: true,
            block_number: 11,
            queue_index: 3,
            hash: [0x22; 32],
            rlp_signed: vec![],
        },
        WitnessTx {
            is_l1_msg: true,
            block_number: 11,
            queue_index: 4,
            hash: [0x33; 32],
            rlp_signed: vec![],
        },
        WitnessTx {
            is_l1_msg: false,
            block_number: 11,
            queue_index: 0,
            hash: [0x44; 32],
            rlp_signed: vec![4, 5],
        },
    ];
    let w = WitnessBlock {
        chain_id: 534352,
        prev_state_root: [0x01; 32],
        withdraw_root: [0x02; 32],
        challenge_point: [0u8; 32],
        partial_result: [0u8; 32],
        batch_commit: [0u8; 32],
        index: 0,
        start_l1_queue_index: 3,
        ctxs,
        txs,
    };
    let chunk = ChunkHash::from_witness_block(&w, false);

    // the expected preimage, assembled by hand
    let mut data: Vec<u8> = Vec::new();
    // block 10: 1 L2 tx, no L1 messages
    data.extend_from_slice(&10u64.to_be_bytes());
    data.extend_from_slice(&1000u64.to_be_bytes());
    data.extend_from_slice(&[0u8; 32]);
    data.extend_from_slice(&30_000_000u64.to_be_bytes());
    data.extend_from_slice(&1u16.to_be_bytes());
    // block 11: 1 L2 tx, max queue index 4, cursor 3 -> 2 L1 messages
    data.extend_from_slice(&11u64.to_be_bytes());
    data.extend_from_slice(&1001u64.to_be_bytes());
    let mut fee = [0u8; 32];
    fee[31] = 7;
    data.extend_from_slice(&fee);
    data.extend_from_slice(&30_000_001u64.to_be_bytes());
    data.extend_from_slice(&3u16.to_be_bytes());
    // all transaction hashes in witness order
    data.extend_from_slice(&[0x11; 32]);
    data.extend_from_slice(&[0x22; 32]);
    data.extend_from_slice(&[0x33; 32]);
    data.extend_from_slice(&[0x44; 32]);

    assert_eq!(chunk.data_hash, ethers_core::utils::keccak256(&data));
    assert_eq!(chunk.post_state_root, [0xbb; 32]);
    assert_eq!(chunk.chain_id, 534352);

    // the public input hash digests exactly the five fields
    let mut preimage: Vec<u8> = Vec::new();
    preimage.extend_from_slice(&534352u64.to_be_bytes());
    preimage.extend_from_slice(&chunk.prev_state_root);
    preimage.extend_from_slice(&chunk.post_state_root);
    preimage.extend_from_slice(&chunk.withdraw_root);
    preimage.extend_from_slice(&chunk.data_hash);
    assert_eq!(chunk.extract_hash_preimage(), preimage);
    assert_eq!(
        chunk.public_input_hash(),
        ethers_core::utils::keccak256(&preimage)
    );
}

#[test]
fn test_challenge_point_limbs() {
    let mut chunk = ChunkHash {
        chain_id: 0,
        prev_state_root: [0u8; 32],
        post_state_root: [0u8; 32],
        withdraw_root: [0u8; 32],
        data_hash: [0u8; 32],
        challenge_point: [0u8; 32],
        partial_result: [0xff; 32],
        is_padding: false,
    };
    // value 2 + 3·2^88 + 5·2^176: limb boundaries at bytes 11 and 22
    chunk.challenge_point[0] = 2;
    chunk.challenge_point[11] = 3;
    chunk.challenge_point[22] = 5;
    let limbs = chunk.challenge_point().expect("canonical encoding");
    assert_eq!(limbs, [2u128, 3u128, 5u128]);
    // 32 bytes of 0xff exceed the field order
    assert_eq!(
        chunk.partial_result(),
        Err(blob_chunk::BlobError::InvalidFieldEncoding)
    );
}

#[test]
fn test_mock_random_chunk_hash() {
    let mut rng = rand::thread_rng();
    let mut root = [0u8; 32];
    rng.fill_bytes(&mut root);
    let mut wide_cp = [0u8; 64];
    rng.fill_bytes(&mut wide_cp);
    let mut wide_pr = [0u8; 64];
    rng.fill_bytes(&mut wide_pr);
    let chunk = ChunkHash::mock_random_chunk_hash_for_testing(
        &root, &root, &root, &root, &wide_cp, &wide_pr,
    );
    assert_eq!(chunk.chain_id, 0);
    assert!(!chunk.is_padding);
    assert_eq!(chunk.prev_state_root, root);
    // the stored scalars are the wide values reduced modulo the field order
    let expected_cp = bls12_381::Scalar::from_bytes_wide(&wide_cp).to_bytes();
    let expected_pr = bls12_381::Scalar::from_bytes_wide(&wide_pr).to_bytes();
    assert_eq!(chunk.challenge_point, expected_cp);
    assert_eq!(chunk.partial_result, expected_pr);
    // and are canonical, so the limb accessor succeeds
    assert!(chunk.challenge_point().is_ok());
}
