//! Consensus messages that travel between peers.

use vstd::prelude::*;

use crate::peer::copy_bytes;

verus! {

/// A 32-byte digest, held as bytes.
#[derive(Debug, Clone, PartialEq, Eq, Hash)]
pub struct Digest {
    pub bytes: Vec<u8>,
}

impl View for Digest {
    type V = Seq<u8>;

    open spec fn view(&self) -> Seq<u8> {
        self.bytes@
    }
}

impl Digest {
    pub fn new(bytes: Vec<u8>) -> (r: Digest)
        ensures
            r@ == bytes@,
    {
        Digest { bytes }
    }

    pub fn copy(&self) -> (r: Digest)
        ensures
            r@ == self@,
    {
        Digest { bytes: copy_bytes(&self.bytes) }
    }
}

pub open spec fn hashes_view(h: Seq<Digest>) -> Seq<Seq<u8>> {
    h.map_values(|x: Digest| x@)
}

/// A copy of a list of hashes.
pub fn copy_hashes(h: &Vec<Digest>) -> (r: Vec<Digest>)
    ensures
        hashes_view(r@) == hashes_view(h@),
{
    let mut r: Vec<Digest> = Vec::new();
    let mut i: usize = 0;
    while i < h.len()
        invariant
            i <= h@.len(),
            hashes_view(r@) == hashes_view(h@.subrange(0, i as int)),
        decreases h@.len() - i,
    {
        let ghost r0 = r@;
        r.push(h[i].copy());
        assert(hashes_view(r@) =~= hashes_view(r0).push(h@[i as int]@));
        assert(hashes_view(h@.subrange(0, i + 1)) =~= hashes_view(h@.subrange(0, i as int)).push(h@[i as int]@));
        i = i + 1;
    }
    assert(h@.subrange(0, h@.len() as int) =~= h@);
    r
}

/// Proof that validators signed a block.
#[derive(Debug, Clone, PartialEq, Eq)]
pub struct Proof {
    pub height: u64,
    pub round: u64,
    pub block_hash: Digest,
    pub signature: Vec<u8>,
    pub bitmap: Vec<u8>,
}

/// The header fields of a block that the node carries.
#[derive(Debug, Clone, PartialEq, Eq)]
pub struct BlockHeader {
    pub chain_id: Digest,
    pub height: u64,
    pub exec_height: u64,
    pub prev_hash: Digest,
    pub timestamp: u64,
    pub proposer: Vec<u8>,
    pub proof: Proof,
    pub validator_version: u64,
}

#[derive(Debug, Clone, PartialEq, Eq)]
pub struct Block {
    pub header: BlockHeader,
    pub ordered_tx_hashes: Vec<Digest>,
}

/// A block proposal with the hashes of the transactions it proposes.
#[derive(Debug, Clone, PartialEq, Eq)]
pub struct Pill {
    pub block: Block,
    pub propose_hashes: Vec<Digest>,
}

#[derive(Debug, Clone, PartialEq, Eq)]
pub struct FixedPill {
    pub inner: Pill,
}

impl FixedPill {
    /// The hashes of the ordered transactions of the block.
    pub fn get_ordered_hashes(&self) -> (r: Vec<Digest>)
        ensures
            hashes_view(r@) == hashes_view(self.inner.block.ordered_tx_hashes@),
    {
        copy_hashes(&self.inner.block.ordered_tx_hashes)
    }

    /// The hashes of the proposed transactions.
    pub fn get_propose_hashes(&self) -> (r: Vec<Digest>)
        ensures
            hashes_view(r@) == hashes_view(self.inner.propose_hashes@),
    {
        copy_hashes(&self.inner.propose_hashes)
    }
}

#[derive(Debug, Clone, PartialEq, Eq)]
pub struct FixedBlock {
    pub inner: Block,
}

impl FixedBlock {
    pub fn new(inner: Block) -> (r: FixedBlock)
        ensures
            r.inner == inner,
    {
        FixedBlock { inner }
    }
}

#[derive(Debug, Clone, PartialEq, Eq)]
pub struct FixedProof {
    pub inner: Proof,
}

impl FixedProof {
    pub fn new(inner: Proof) -> (r: FixedProof)
        ensures
            r.inner == inner,
    {
        FixedProof { inner }
    }
}

#[derive(Debug, Clone, Copy, PartialEq, Eq, Structural)]
pub struct FixedHeight {
    pub inner: u64,
}

impl FixedHeight {
    pub fn new(inner: u64) -> (r: FixedHeight)
        ensures
            r.inner == inner,
    {
        FixedHeight { inner }
    }
}

/// Asks a peer for the transactions of a block.
#[derive(Debug, Clone, PartialEq, Eq)]
pub struct PullTxsRequest {
    pub height: u64,
    pub inner: Vec<Digest>,
}

impl PullTxsRequest {
    pub fn new(height: u64, inner: Vec<Digest>) -> (r: PullTxsRequest)
        ensures
            r.height == height,
            r.inner == inner,
    {
        PullTxsRequest { height, inner }
    }
}

/// Requests that consensus sends to other peers.
#[derive(Debug, Clone, PartialEq, Eq)]
pub enum ConsensusRpcRequest {
    PullBlocks(u64),
    PullTxs(PullTxsRequest),
}

/// Where a consensus message goes.
#[derive(Debug, Clone, PartialEq, Eq)]
pub enum MessageTarget {
    Broadcast,
    Specified(Vec<u8>),
}

/// What consensus knows of this node.
#[derive(Debug, Clone, PartialEq, Eq)]
pub struct NodeInfo {
    pub chain_id: Digest,
    pub self_pub_key: Vec<u8>,
    pub self_address: Vec<u8>,
}

/// The kind of answer to a consensus request, marked by the frame's last byte.
#[derive(Debug, Clone, Copy, PartialEq, Eq, Structural)]
pub enum RpcResponseKind {
    /// An encoded block, marked `a`.
    PullBlocks,
    /// Encoded signed transactions, marked `b`.
    PullTxs,
}

pub open spec fn flag_of(k: RpcResponseKind) -> u8 {
    match k {
        RpcResponseKind::PullBlocks => 97,
        RpcResponseKind::PullTxs => 98,
    }
}

/// The kind and payload of a frame, `None` for an empty frame or an unknown flag.
pub open spec fn decode_frame_spec(bytes: Seq<u8>) -> Option<(RpcResponseKind, Seq<u8>)> {
    if bytes.len() == 0 {
        None
    } else if bytes.last() == 97u8 {
        Some((RpcResponseKind::PullBlocks, bytes.drop_last()))
    } else if bytes.last() == 98u8 {
        Some((RpcResponseKind::PullTxs, bytes.drop_last()))
    } else {
        None
    }
}

/// Frames an encoded answer: the payload followed by the kind's flag byte.
pub fn encode_response_frame(kind: RpcResponseKind, payload: &Vec<u8>) -> (r: Vec<u8>)
    ensures
        r@ == payload@.push(flag_of(kind)),
{
    let mut r = copy_bytes(payload);
    let flag: u8 = match kind {
        RpcResponseKind::PullBlocks => 97,
        RpcResponseKind::PullTxs => 98,
    };
    r.push(flag);
    r
}

/// Splits a framed answer into its kind and payload. An empty frame or an
/// unknown flag is refused with `None` on purpose, so that a malformed answer
/// from a peer never panics the node.
pub fn decode_response_frame(bytes: &Vec<u8>) -> (r: Option<(RpcResponseKind, Vec<u8>)>)
    ensures
        r.is_some() == decode_frame_spec(bytes@).is_some(),
        r.is_some() ==> decode_frame_spec(bytes@) == Some((r.unwrap().0, r.unwrap().1@)),
{
    let n = bytes.len();
    if n == 0 {
        return None;
    }
    let kind = if bytes[n - 1] == 97 {
        RpcResponseKind::PullBlocks
    } else if bytes[n - 1] == 98 {
        RpcResponseKind::PullTxs
    } else {
        return None;
    };
    let mut payload: Vec<u8> = Vec::with_capacity(n - 1);
    let mut i: usize = 0;
    while i < n - 1
        invariant
            n == bytes@.len(),
            n > 0,
            i <= n - 1,
            payload@ == bytes@.subrange(0, i as int),
        decreases n - 1 - i,
    {
        payload.push(bytes[i]);
        i = i + 1;
        assert(payload@ =~= bytes@.subrange(0, i as int));
    }
    assert(payload@ =~= bytes@.drop_last());
    Some((kind, payload))
}

/// Decoding a frame gives back the kind and payload it was made from.
pub proof fn lemma_response_frame_round_trip(kind: RpcResponseKind, payload: Seq<u8>)
    ensures
        decode_frame_spec(payload.push(flag_of(kind))) == Some((kind, payload)),
{
    assert(payload.push(flag_of(kind)).drop_last() =~= payload);
}

} // verus!
