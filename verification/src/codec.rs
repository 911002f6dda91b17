//! The fixed serialization discipline of the adapter.
//!
//! A node identity is encoded as its version in eight big-endian bytes
//! followed by the path bytes; a node is encoded as a one-byte kind tag
//! followed by the payload.  Both encodings are canonical: decoding
//! succeeds exactly on the encodings, and every encoding round-trips to
//! the value it came from, so a node identity always maps to the same
//! raw key and a node to the same raw value.

use vstd::prelude::*;

use crate::types::{Node, NodeKey, NodeKeyV, NodeV};

verus! {

/// The eight big-endian bytes of a version counter.
pub open spec fn u64_be_bytes(v: u64) -> Seq<u8> {
    seq![
        (v >> 56) as u8,
        (v >> 48) as u8,
        (v >> 40) as u8,
        (v >> 32) as u8,
        (v >> 24) as u8,
        (v >> 16) as u8,
        (v >> 8) as u8,
        v as u8,
    ]
}

/// The version counter read back from eight big-endian bytes.
pub open spec fn u64_of_be(s: Seq<u8>) -> u64
    recommends
        s.len() == 8,
{
    ((s[0] as u64) << 56) | ((s[1] as u64) << 48) | ((s[2] as u64) << 40) | ((s[3] as u64) << 32)
        | ((s[4] as u64) << 24) | ((s[5] as u64) << 16) | ((s[6] as u64) << 8) | (s[7] as u64)
}

/// A version counter round-trips through its big-endian bytes.
pub proof fn lemma_u64_be_roundtrip(v: u64)
    ensures
        u64_of_be(u64_be_bytes(v)) == v,
{
    assert((((v >> 56) as u8 as u64) << 56) | (((v >> 48) as u8 as u64) << 48)
        | (((v >> 40) as u8 as u64) << 40) | (((v >> 32) as u8 as u64) << 32)
        | (((v >> 24) as u8 as u64) << 24) | (((v >> 16) as u8 as u64) << 16)
        | (((v >> 8) as u8 as u64) << 8) | ((v as u8) as u64) == v) by (bit_vector);
}

/// Eight bytes round-trip through the version counter they denote.
pub proof fn lemma_be_bytes_roundtrip(s: Seq<u8>)
    requires
        s.len() == 8,
    ensures
        u64_be_bytes(u64_of_be(s)) =~= s,
{
    let b0 = s[0];
    let b1 = s[1];
    let b2 = s[2];
    let b3 = s[3];
    let b4 = s[4];
    let b5 = s[5];
    let b6 = s[6];
    let b7 = s[7];
    let v = ((b0 as u64) << 56) | ((b1 as u64) << 48) | ((b2 as u64) << 40) | ((b3 as u64) << 32)
        | ((b4 as u64) << 24) | ((b5 as u64) << 16) | ((b6 as u64) << 8) | (b7 as u64);
    assert((v >> 56) as u8 == b0 && (v >> 48) as u8 == b1 && (v >> 40) as u8 == b2 && (v >> 32)
        as u8 == b3 && (v >> 24) as u8 == b4 && (v >> 16) as u8 == b5 && (v >> 8) as u8 == b6 && v
        as u8 == b7) by (bit_vector)
        requires
            v == ((b0 as u64) << 56) | ((b1 as u64) << 48) | ((b2 as u64) << 40) | ((b3
                as u64) << 32) | ((b4 as u64) << 24) | ((b5 as u64) << 16) | ((b6 as u64) << 8) | (
            b7 as u64),
    ;
}

/// Raw-key encoding of a node identity.
pub open spec fn spec_encode_node_key(k: NodeKeyV) -> Seq<u8> {
    u64_be_bytes(k.version) + k.path
}

/// Raw-key decoding: any sequence of at least eight bytes names a node
/// identity; anything shorter is not a node record.
pub open spec fn spec_decode_node_key(s: Seq<u8>) -> Option<NodeKeyV> {
    if s.len() < 8 {
        None
    } else {
        Some(NodeKeyV { version: u64_of_be(s.subrange(0, 8)), path: s.subrange(8, s.len() as int) })
    }
}

/// Raw-value encoding of a node.
pub open spec fn spec_encode_node(n: NodeV) -> Seq<u8> {
    match n {
        NodeV::Internal(p) => seq![0u8] + p,
        NodeV::Leaf(p) => seq![1u8] + p,
        NodeV::Null => seq![2u8],
    }
}

/// Raw-value decoding: the kind tag must be known, and a null node
/// carries no payload.
pub open spec fn spec_decode_node(s: Seq<u8>) -> Option<NodeV> {
    if s.len() == 0 {
        None
    } else if s[0] == 0 {
        Some(NodeV::Internal(s.subrange(1, s.len() as int)))
    } else if s[0] == 1 {
        Some(NodeV::Leaf(s.subrange(1, s.len() as int)))
    } else if s[0] == 2 && s.len() == 1 {
        Some(NodeV::Null)
    } else {
        None
    }
}

/// Every node identity decodes back from its encoding: the raw-key
/// format loses nothing.
pub proof fn lemma_node_key_roundtrip(k: NodeKeyV)
    ensures
        spec_decode_node_key(spec_encode_node_key(k)) == Some(k),
{
    let e = spec_encode_node_key(k);
    lemma_u64_be_roundtrip(k.version);
    assert(e.subrange(0, 8) =~= u64_be_bytes(k.version));
    assert(e.subrange(8, e.len() as int) =~= k.path);
    assert(spec_decode_node_key(e)->Some_0 =~= k);
}

/// Decoding accepts only the canonical encoding: a raw key that decodes
/// to a node identity is that identity's encoding.
pub proof fn lemma_node_key_canonical(s: Seq<u8>)
    requires
        spec_decode_node_key(s) is Some,
    ensures
        spec_encode_node_key(spec_decode_node_key(s)->Some_0) =~= s,
{
    let k = spec_decode_node_key(s)->Some_0;
    lemma_be_bytes_roundtrip(s.subrange(0, 8));
    assert(spec_encode_node_key(k) =~= s);
}

/// Every node decodes back from its encoding: the raw-value format
/// loses nothing.
pub proof fn lemma_node_roundtrip(n: NodeV)
    ensures
        spec_decode_node(spec_encode_node(n)) == Some(n),
{
    let e = spec_encode_node(n);
    match n {
        NodeV::Internal(p) => {
            assert(e.subrange(1, e.len() as int) =~= p);
        },
        NodeV::Leaf(p) => {
            assert(e.subrange(1, e.len() as int) =~= p);
        },
        NodeV::Null => {},
    }
}

/// Decoding accepts only the canonical encoding: a raw value that
/// decodes to a node is that node's encoding.
pub proof fn lemma_node_canonical(s: Seq<u8>)
    requires
        spec_decode_node(s) is Some,
    ensures
        spec_encode_node(spec_decode_node(s)->Some_0) =~= s,
{
    let n = spec_decode_node(s)->Some_0;
    match n {
        NodeV::Internal(p) => {
            assert(spec_encode_node(n) =~= s);
        },
        NodeV::Leaf(p) => {
            assert(spec_encode_node(n) =~= s);
        },
        NodeV::Null => {
            assert(spec_encode_node(n) =~= s);
        },
    }
}

/// Builds the raw storage key of a node identity.
pub fn encode_node_key(k: &NodeKey) -> (r: Vec<u8>)
    ensures
        r@ == spec_encode_node_key(k@),
{
    let mut out: Vec<u8> = Vec::new();
    let v = k.version;
    out.push((v >> 56) as u8);
    out.push((v >> 48) as u8);
    out.push((v >> 40) as u8);
    out.push((v >> 32) as u8);
    out.push((v >> 24) as u8);
    out.push((v >> 16) as u8);
    out.push((v >> 8) as u8);
    out.push(v as u8);
    let mut i: usize = 0;
    while i < k.path.len()
        invariant
            i <= k.path@.len(),
            out@ =~= u64_be_bytes(k.version) + k.path@.subrange(0, i as int),
        decreases k.path@.len() - i,
    {
        out.push(k.path[i]);
        i = i + 1;
        assert(out@ =~= u64_be_bytes(k.version) + k.path@.subrange(0, i as int));
    }
    assert(k.path@.subrange(0, k.path@.len() as int) =~= k.path@);
    out
}

/// Reads a node identity back from a raw storage key, or reports that
/// the bytes do not carry one.
pub fn decode_node_key(bytes: &Vec<u8>) -> (r: Option<NodeKey>)
    ensures
        match spec_decode_node_key(bytes@) {
            Some(k) => r matches Some(rk) && rk@ == k,
            None => r is None,
        },
{
    if bytes.len() < 8 {
        return None;
    }
    let version = ((bytes[0] as u64) << 56) | ((bytes[1] as u64) << 48) | ((bytes[2] as u64) << 40)
        | ((bytes[3] as u64) << 32) | ((bytes[4] as u64) << 24) | ((bytes[5] as u64) << 16) | ((
    bytes[6] as u64) << 8) | (bytes[7] as u64);
    proof {
        let pre = bytes@.subrange(0, 8);
        assert(pre[0] == bytes@[0] && pre[1] == bytes@[1] && pre[2] == bytes@[2] && pre[3]
            == bytes@[3] && pre[4] == bytes@[4] && pre[5] == bytes@[5] && pre[6] == bytes@[6]
            && pre[7] == bytes@[7]);
    }
    let mut path: Vec<u8> = Vec::new();
    let mut i: usize = 8;
    while i < bytes.len()
        invariant
            8 <= i <= bytes@.len(),
            path@ =~= bytes@.subrange(8, i as int),
        decreases bytes@.len() - i,
    {
        path.push(bytes[i]);
        i = i + 1;
        assert(path@ =~= bytes@.subrange(8, i as int));
    }
    Some(NodeKey { version, path })
}

/// Builds the raw storage value of a node.
pub fn encode_node(n: &Node) -> (r: Vec<u8>)
    ensures
        r@ == spec_encode_node(n@),
{
    let mut out: Vec<u8> = Vec::new();
    match n {
        Node::Internal(p) => {
            out.push(0u8);
            push_all(&mut out, p);
            assert(out@ =~= spec_encode_node(n@));
        },
        Node::Leaf(p) => {
            out.push(1u8);
            push_all(&mut out, p);
            assert(out@ =~= spec_encode_node(n@));
        },
        Node::Null => {
            out.push(2u8);
            assert(out@ =~= spec_encode_node(n@));
        },
    }
    out
}

/// Reads a node back from a raw storage value, or reports that the
/// bytes do not carry one.
pub fn decode_node(bytes: &Vec<u8>) -> (r: Option<Node>)
    ensures
        match spec_decode_node(bytes@) {
            Some(n) => r matches Some(rn) && rn@ == n,
            None => r is None,
        },
{
    if bytes.len() == 0 {
        return None;
    }
    let tag = bytes[0];
    if tag == 0 {
        let p = copy_tail(bytes);
        Some(Node::Internal(p))
    } else if tag == 1 {
        let p = copy_tail(bytes);
        Some(Node::Leaf(p))
    } else if tag == 2 && bytes.len() == 1 {
        Some(Node::Null)
    } else {
        None
    }
}

/// Copies everything after the kind tag.
fn copy_tail(bytes: &Vec<u8>) -> (r: Vec<u8>)
    requires
        bytes@.len() >= 1,
    ensures
        r@ == bytes@.subrange(1, bytes@.len() as int),
{
    let mut out: Vec<u8> = Vec::new();
    let mut i: usize = 1;
    while i < bytes.len()
        invariant
            1 <= i <= bytes@.len(),
            out@ =~= bytes@.subrange(1, i as int),
        decreases bytes@.len() - i,
    {
        out.push(bytes[i]);
        i = i + 1;
        assert(out@ =~= bytes@.subrange(1, i as int));
    }
    assert(out@ =~= bytes@.subrange(1, bytes@.len() as int));
    out
}

/// Appends a copy of `src` to `out`.
fn push_all(out: &mut Vec<u8>, src: &Vec<u8>)
    ensures
        final(out)@ == old(out)@ + src@,
{
    let mut i: usize = 0;
    while i < src.len()
        invariant
            i <= src@.len(),
            out@ =~= old(out)@ + src@.subrange(0, i as int),
        decreases src@.len() - i,
    {
        out.push(src[i]);
        i = i + 1;
        assert(out@ =~= old(out)@ + src@.subrange(0, i as int));
    }
    assert(out@ =~= old(out)@ + src@);
}

} // verus!
