use peer_manager::consensus::{
    decode_response_frame, encode_response_frame, Block, BlockHeader, ConsensusRpcRequest, Digest,
    FixedBlock, FixedHeight, FixedPill, FixedProof, MessageTarget, NodeInfo, Pill, Proof,
    PullTxsRequest, RpcResponseKind,
};
use peer_manager::schema::{StorageBatchModify, StorageCategory};

fn digest(n: u8) -> Digest {
    Digest::new(vec![n; 32])
}

fn sample_proof() -> Proof {
    Proof { height: 0, round: 0, block_hash: digest(0), signature: vec![], bitmap: vec![] }
}

fn block(height: u64) -> Block {
    Block {
        header: BlockHeader {
            chain_id: digest(1),
            height,
            exec_height: height - 1,
            prev_hash: digest(2),
            timestamp: 1000,
            proposer: vec![9],
            proof: sample_proof(),
            validator_version: 1,
        },
        ordered_tx_hashes: vec![digest(3), digest(4)],
    }
}

#[test]
fn fixed_pill_gives_its_hashes() {
    let pill = FixedPill { inner: Pill { block: block(10), propose_hashes: vec![digest(5)] } };
    assert_eq!(pill.get_ordered_hashes(), vec![digest(3), digest(4)]);
    assert_eq!(pill.get_propose_hashes(), vec![digest(5)]);
}

#[test]
fn fixed_types_hold_their_values() {
    let b = block(7);
    assert_eq!(FixedBlock::new(b.clone()).inner, b);
    assert_eq!(FixedProof::new(sample_proof()).inner, sample_proof());
    assert_eq!(FixedHeight::new(42).inner, 42);
    let req = PullTxsRequest::new(3, vec![digest(8)]);
    assert_eq!(req.height, 3);
    assert_eq!(req.inner, vec![digest(8)]);
    assert_eq!(ConsensusRpcRequest::PullTxs(req.clone()), ConsensusRpcRequest::PullTxs(req));
    assert_ne!(MessageTarget::Broadcast, MessageTarget::Specified(vec![1]));
    let info = NodeInfo { chain_id: digest(1), self_pub_key: vec![2], self_address: vec![3] };
    assert_eq!(info.clone(), info);
}

#[test]
fn response_frames_round_trip() {
    let payload = vec![1u8, 2, 3];
    let framed = encode_response_frame(RpcResponseKind::PullTxs, &payload);
    assert_eq!(framed, vec![1, 2, 3, b'b']);
    assert_eq!(decode_response_frame(&framed), Some((RpcResponseKind::PullTxs, payload.clone())));
    let framed = encode_response_frame(RpcResponseKind::PullBlocks, &payload);
    assert_eq!(framed, vec![1, 2, 3, b'a']);
    assert_eq!(decode_response_frame(&framed), Some((RpcResponseKind::PullBlocks, payload)));
}

#[test]
fn response_frames_with_unknown_flag_are_refused() {
    assert_eq!(decode_response_frame(&vec![]), None);
    assert_eq!(decode_response_frame(&vec![1, 2, b'c']), None);
    assert_eq!(decode_response_frame(&vec![b'a']), Some((RpcResponseKind::PullBlocks, vec![])));
}

#[test]
fn storage_categories_have_names() {
    assert_eq!(StorageCategory::Block.name(), "Block");
    assert_eq!(StorageCategory::HashHeight.name(), "HashHeight");
    assert_ne!(StorageBatchModify::Remove, StorageBatchModify::Insert(vec![1]));
}
