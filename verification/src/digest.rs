//! Node digests. Every trie node has a 32-byte digest computed from a
//! domain-separated encoding of its kind: a leaf from its path and the
//! digest of its payload, a branch from its two outgoing edges and child
//! digests, the empty map from a fixed tag. An edge encoding carries the
//! edge length and its bits packed into zero-padded bytes, so edges of
//! different lengths cannot be confused.

use sha2::Digest;
use vstd::prelude::*;

use crate::bits::{bits_skip, bits_to_bytes, pack_bits, push_bytes};

verus! {

/// Number of bytes in a digest.
pub const DIGEST_BYTES: usize = 32;

/// Domain tag of the empty map.
pub const TAG_EMPTY: u8 = 0;

/// Domain tag of a leaf node.
pub const TAG_LEAF: u8 = 1;

/// Domain tag of a branch node.
pub const TAG_BRANCH: u8 = 2;

/// What SHA-256 returns for a byte string.
pub uninterp spec fn sha256_of(data: Seq<u8>) -> Seq<u8>;

/// Relies on sha2's `Sha256` (FIPS 180-4 SHA-256): the digest is a function
/// of the input bytes alone and is always 32 bytes long.
#[verifier::external_body]
pub fn sha256(data: &Vec<u8>) -> (r: Vec<u8>)
    ensures
        r@ == sha256_of(data@),
        r@.len() == DIGEST_BYTES,
{
    sha2::Sha256::digest(data.as_slice()).to_vec()
}

/// The encoding of the edge leading from a node whose path from the root has
/// `parent_len` bits to a descendant whose path from the root is `head`: the
/// edge length in bits (two bytes, least significant first) followed by the
/// edge bits packed into zero-padded bytes.
pub open spec fn encode_edge(parent_len: int, head: Seq<bool>) -> Seq<u8> {
    let e = head.skip(parent_len);
    seq![(e.len() % 256) as u8, (e.len() / 256) as u8] + pack_bits(e)
}

/// Digest of a leaf with the given full path and payload.
pub open spec fn leaf_digest(path: Seq<bool>, value: Seq<u8>) -> Seq<u8> {
    sha256_of(seq![TAG_LEAF] + pack_bits(path) + sha256_of(value))
}

/// Digest of a branch whose path from the root has `parent_len` bits, from
/// the heads and digests of its two children.
pub open spec fn branch_digest(
    parent_len: int,
    left_head: Seq<bool>,
    left_digest: Seq<u8>,
    right_head: Seq<bool>,
    right_digest: Seq<u8>,
) -> Seq<u8> {
    sha256_of(
        seq![TAG_BRANCH] + encode_edge(parent_len, left_head) + left_digest + encode_edge(
            parent_len,
            right_head,
        ) + right_digest,
    )
}

/// Digest of the empty map: a fixed, domain-separated sentinel.
pub open spec fn empty_map_digest() -> Seq<u8> {
    sha256_of(seq![TAG_EMPTY])
}

/// Computes the edge encoding of `encode_edge`.
pub fn encode_edge_bytes(parent_len: usize, head: &Vec<bool>) -> (r: Vec<u8>)
    requires
        parent_len <= head@.len(),
        head@.len() <= 65535,
    ensures
        r@ == encode_edge(parent_len as int, head@),
{
    let e = bits_skip(head, parent_len);
    let mut buf: Vec<u8> = Vec::new();
    buf.push((e.len() % 256) as u8);
    buf.push((e.len() / 256) as u8);
    let packed = bits_to_bytes(&e);
    push_bytes(&mut buf, &packed);
    proof {
        assert(buf@ =~= encode_edge(parent_len as int, head@));
    }
    buf
}

/// Computes the digest of a leaf node.
pub fn compute_leaf_digest(path: &Vec<bool>, value: &Vec<u8>) -> (r: Vec<u8>)
    requires
        path@.len() <= 65535,
    ensures
        r@ == leaf_digest(path@, value@),
        r@.len() == 32,
{
    let value_hash = sha256(value);
    let mut buf: Vec<u8> = Vec::new();
    buf.push(TAG_LEAF);
    let packed = bits_to_bytes(path);
    push_bytes(&mut buf, &packed);
    push_bytes(&mut buf, &value_hash);
    proof {
        assert(buf@ =~= seq![TAG_LEAF] + pack_bits(path@) + sha256_of(value@));
    }
    sha256(&buf)
}

/// Computes the digest of a branch node.
pub fn compute_branch_digest(
    parent_len: usize,
    left_head: &Vec<bool>,
    left_digest: &Vec<u8>,
    right_head: &Vec<bool>,
    right_digest: &Vec<u8>,
) -> (r: Vec<u8>)
    requires
        parent_len <= left_head@.len(),
        parent_len <= right_head@.len(),
        left_head@.len() <= 65535,
        right_head@.len() <= 65535,
    ensures
        r@ == branch_digest(
            parent_len as int,
            left_head@,
            left_digest@,
            right_head@,
            right_digest@,
        ),
        r@.len() == 32,
{
    let mut buf: Vec<u8> = Vec::new();
    buf.push(TAG_BRANCH);
    let left_edge = encode_edge_bytes(parent_len, left_head);
    push_bytes(&mut buf, &left_edge);
    push_bytes(&mut buf, left_digest);
    let right_edge = encode_edge_bytes(parent_len, right_head);
    push_bytes(&mut buf, &right_edge);
    push_bytes(&mut buf, right_digest);
    proof {
        assert(buf@ =~= seq![TAG_BRANCH] + encode_edge(parent_len as int, left_head@)
            + left_digest@ + encode_edge(parent_len as int, right_head@) + right_digest@);
    }
    sha256(&buf)
}

/// Computes the digest of the empty map.
pub fn compute_empty_digest() -> (r: Vec<u8>)
    ensures
        r@ == empty_map_digest(),
        r@.len() == 32,
{
    let mut buf: Vec<u8> = Vec::new();
    buf.push(TAG_EMPTY);
    proof {
        assert(buf@ =~= seq![TAG_EMPTY]);
    }
    sha256(&buf)
}

} // verus!
