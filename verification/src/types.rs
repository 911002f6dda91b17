//! The typed vocabulary of the adapter: key hashes, node identities,
//! nodes, staleness markers, preimages, update batches and errors,
//! together with the mathematical views the contracts are stated over.

use vstd::prelude::*;

verus! {

/// Fixed-size, content-derived identifier of a logical trie key.
/// The adapter never computes it; the trie engine hands it in and the
/// adapter uses it only as a lookup key for history and preimages.
#[derive(Clone, Copy, PartialEq, Eq, Hash, Debug, Structural)]
pub struct KeyHash(pub u64);

/// Structured identity of one trie node: the version it was written at
/// and the node's path coordinates within the trie.
#[derive(Clone, Debug, PartialEq, Eq)]
pub struct NodeKey {
    pub version: u64,
    pub path: Vec<u8>,
}

/// Mathematical view of a [`NodeKey`].
#[verifier::ext_equal]
pub struct NodeKeyV {
    pub version: u64,
    pub path: Seq<u8>,
}

impl View for NodeKey {
    type V = NodeKeyV;

    open spec fn view(&self) -> NodeKeyV {
        NodeKeyV { version: self.version, path: self.path@ }
    }
}

/// A serialized trie node.  The payload bytes are opaque to the
/// adapter; only the node kind is visible, so that raw records that do
/// not carry a node can be told apart during enumeration.
#[derive(Clone, Debug, PartialEq, Eq)]
pub enum Node {
    Internal(Vec<u8>),
    Leaf(Vec<u8>),
    Null,
}

/// Mathematical view of a [`Node`].
#[verifier::ext_equal]
pub enum NodeV {
    Internal(Seq<u8>),
    Leaf(Seq<u8>),
    Null,
}

impl View for Node {
    type V = NodeV;

    open spec fn view(&self) -> NodeV {
        match self {
            Node::Internal(p) => NodeV::Internal(p@),
            Node::Leaf(p) => NodeV::Leaf(p@),
            Node::Null => NodeV::Null,
        }
    }
}

/// A node identity that has been superseded by a newer version and is
/// kept so that an external collector can remove it later.
#[derive(Clone, Debug, PartialEq, Eq)]
pub struct StaleNodeIndex {
    pub stale_since_version: u64,
    pub node_key: NodeKey,
}

/// Mathematical view of a [`StaleNodeIndex`].
#[verifier::ext_equal]
pub struct StaleNodeIndexV {
    pub stale_since_version: u64,
    pub node_key: NodeKeyV,
}

impl View for StaleNodeIndex {
    type V = StaleNodeIndexV;

    open spec fn view(&self) -> StaleNodeIndexV {
        StaleNodeIndexV { stale_since_version: self.stale_since_version, node_key: self.node_key@ }
    }
}

/// The original key bytes that hashed to a [`KeyHash`], recorded so
/// that the one-way hash can be reversed when keys are enumerated.
#[derive(Clone, Debug, PartialEq, Eq)]
pub struct Preimage(pub Vec<u8>);

impl View for Preimage {
    type V = Seq<u8>;

    open spec fn view(&self) -> Seq<u8> {
        self.0@
    }
}

/// One history append carried by a batch: the value recorded for
/// `key_hash` effective at `version`, `None` marking a deletion.
#[derive(Clone, Debug, PartialEq, Eq)]
pub struct HistoryEntry {
    pub key_hash: KeyHash,
    pub version: u64,
    pub value: Option<Vec<u8>>,
}

/// Mathematical view of a [`HistoryEntry`].
#[verifier::ext_equal]
pub struct HistoryEntryV {
    pub key_hash: KeyHash,
    pub version: u64,
    pub value: Option<Seq<u8>>,
}

impl View for HistoryEntry {
    type V = HistoryEntryV;

    open spec fn view(&self) -> HistoryEntryV {
        HistoryEntryV { key_hash: self.key_hash, version: self.version, value: opt_bytes_view(self.value) }
    }
}

/// View of an optional byte value.
pub open spec fn opt_bytes_view(v: Option<Vec<u8>>) -> Option<Seq<u8>> {
    match v {
        Some(b) => Some(b@),
        None => None,
    }
}

/// One logically atomic unit of change: node writes and tombstones,
/// newly discovered stale node identities, history appends, and new
/// preimages.  Applied all-or-nothing by the adapter.
#[derive(Clone, Debug)]
pub struct TreeUpdateBatch {
    /// `Some(node)` writes the node under the identity, `None` removes
    /// the raw record for the identity (a tombstone).
    pub node_writes: Vec<(NodeKey, Option<Node>)>,
    pub stale_nodes: Vec<StaleNodeIndex>,
    pub history: Vec<HistoryEntry>,
    pub preimages: Vec<(KeyHash, Preimage)>,
}

/// Mathematical view of a [`TreeUpdateBatch`].
#[verifier::ext_equal]
pub struct TreeUpdateBatchV {
    pub node_writes: Seq<(NodeKeyV, Option<NodeV>)>,
    pub stale_nodes: Seq<StaleNodeIndexV>,
    pub history: Seq<HistoryEntryV>,
    pub preimages: Seq<(KeyHash, Seq<u8>)>,
}

impl View for TreeUpdateBatch {
    type V = TreeUpdateBatchV;

    open spec fn view(&self) -> TreeUpdateBatchV {
        TreeUpdateBatchV {
            node_writes: node_writes_view(self.node_writes@),
            stale_nodes: stale_views(self.stale_nodes@),
            history: hist_views(self.history@),
            preimages: pre_views(self.preimages@),
        }
    }
}

/// Views of a list of node writes.
pub open spec fn node_writes_view(ws: Seq<(NodeKey, Option<Node>)>) -> Seq<
    (NodeKeyV, Option<NodeV>),
> {
    ws.map_values(|w: (NodeKey, Option<Node>)| (w.0@, opt_node_view(w.1)))
}

/// Views of a list of staleness markers.
pub open spec fn stale_views(s: Seq<StaleNodeIndex>) -> Seq<StaleNodeIndexV> {
    s.map_values(|x: StaleNodeIndex| x@)
}

/// Views of a list of history appends.
pub open spec fn hist_views(s: Seq<HistoryEntry>) -> Seq<HistoryEntryV> {
    s.map_values(|h: HistoryEntry| h@)
}

/// Views of a list of preimage recordings.
pub open spec fn pre_views(s: Seq<(KeyHash, Preimage)>) -> Seq<(KeyHash, Seq<u8>)> {
    s.map_values(|p: (KeyHash, Preimage)| (p.0, p.1@))
}

/// View of an optional node.
pub open spec fn opt_node_view(n: Option<Node>) -> Option<NodeV> {
    match n {
        Some(node) => Some(node@),
        None => None,
    }
}

impl TreeUpdateBatch {
    /// A batch that changes nothing.
    pub fn empty() -> (r: Self)
        ensures
            r@.node_writes.len() == 0,
            r@.stale_nodes.len() == 0,
            r@.history.len() == 0,
            r@.preimages.len() == 0,
    {
        TreeUpdateBatch {
            node_writes: Vec::new(),
            stale_nodes: Vec::new(),
            history: Vec::new(),
            preimages: Vec::new(),
        }
    }
}

/// Byte-wise equality of two byte vectors.
pub fn bytes_eq(a: &Vec<u8>, b: &Vec<u8>) -> (r: bool)
    ensures
        r <==> a@ == b@,
{
    if a.len() != b.len() {
        return false;
    }
    let mut i: usize = 0;
    while i < a.len()
        invariant
            i <= a@.len(),
            a@.len() == b@.len(),
            forall|j: int| 0 <= j < i ==> a@[j] == b@[j],
        decreases a@.len() - i,
    {
        if a[i] != b[i] {
            return false;
        }
        i = i + 1;
    }
    proof {
        assert(a@ =~= b@);
    }
    true
}

/// An exact copy of a byte vector.
pub fn clone_bytes(v: &Vec<u8>) -> (r: Vec<u8>)
    ensures
        r@ == v@,
{
    let mut out: Vec<u8> = Vec::new();
    let mut i: usize = 0;
    while i < v.len()
        invariant
            i <= v@.len(),
            out@ =~= v@.subrange(0, i as int),
        decreases v@.len() - i,
    {
        out.push(v[i]);
        i = i + 1;
        assert(out@ =~= v@.subrange(0, i as int));
    }
    proof {
        assert(out@ =~= v@);
    }
    out
}

/// An exact copy of an optional byte value.
pub fn clone_opt_bytes(v: &Option<Vec<u8>>) -> (r: Option<Vec<u8>>)
    ensures
        opt_bytes_view(r) == opt_bytes_view(*v),
{
    match v {
        Some(b) => Some(clone_bytes(b)),
        None => None,
    }
}

/// Equality of two node identities.
pub fn node_key_eq(a: &NodeKey, b: &NodeKey) -> (r: bool)
    ensures
        r <==> a@ == b@,
{
    if a.version != b.version {
        return false;
    }
    bytes_eq(&a.path, &b.path)
}

/// An exact copy of a node identity.
pub fn clone_node_key(k: &NodeKey) -> (r: NodeKey)
    ensures
        r@ == k@,
{
    NodeKey { version: k.version, path: clone_bytes(&k.path) }
}

/// Equality of two staleness markers.
pub fn stale_eq(a: &StaleNodeIndex, b: &StaleNodeIndex) -> (r: bool)
    ensures
        r <==> a@ == b@,
{
    if a.stale_since_version != b.stale_since_version {
        return false;
    }
    node_key_eq(&a.node_key, &b.node_key)
}

/// An exact copy of a staleness marker.
pub fn clone_stale(s: &StaleNodeIndex) -> (r: StaleNodeIndex)
    ensures
        r@ == s@,
{
    StaleNodeIndex { stale_since_version: s.stale_since_version, node_key: clone_node_key(&s.node_key) }
}

/// Why a batch was rejected.  Rejection always leaves the aggregate
/// unchanged.
#[derive(Clone, Copy, PartialEq, Eq, Debug, Structural)]
pub enum DbError {
    /// The batch is internally inconsistent: it carries both a write
    /// and a tombstone for the same node identity.
    MalformedBatch,
    /// A history append introduces a key hash that has no preimage
    /// recorded in the aggregate and none carried by the batch itself;
    /// its history could never be enumerated back to a key.
    MissingPreimage,
    /// A history append's version is not strictly greater than the
    /// last version recorded for the same key hash.
    VersionNotIncreasing,
}

} // verus!
