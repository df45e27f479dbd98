//! Canonical byte form of proofs. The encoding is length-prefixed and
//! field-tagged: bit strings carry a two-byte little-endian bit count
//! and their bits packed into zero-padded bytes; byte strings carry an
//! eight-byte little-endian length. One proof has exactly one encoding,
//! so two serialisers given the same proof emit byte-identical output.
//! The decoder accepts exactly the canonical form: whatever it returns
//! re-encodes to the very bytes it consumed.

use vstd::prelude::*;

use vstd::arithmetic::div_mod::{
    lemma_div_denominator, lemma_fundamental_div_mod, lemma_small_mod,
};

use crate::index::{path_of, Regime};
use crate::bits::{
    bits_take, bits_to_bytes, bytes_eq, bytes_to_bits, bval, chunk_byte, is_prefix_of,
    lemma_unpack_pack, pack_bits, push_bytes,
};
use crate::map_proof::{absent_in, found_in, pf_head, pf_hash, pf_wf, shaped, MapProof, ProofNode};
use crate::trie::{
    as_map, lemma_canonical, lemma_half_maps, lemma_same_split, lemma_two_keys, wf, Node,
};

verus! {

/// Tag of an elided subtree.
pub const TAG_PRUNED: u8 = 0;

/// Tag of a shown leaf.
pub const TAG_SHOWN: u8 = 1;

/// Tag of a split branch.
pub const TAG_SPLIT: u8 = 2;

/// A length under 65536 as two bytes, least significant first.
pub open spec fn le2(n: int) -> Seq<u8> {
    seq![(n % 256) as u8, ((n / 256) % 256) as u8]
}

/// A length as eight bytes, least significant first.
pub open spec fn le8(n: int) -> Seq<u8> {
    seq![
        (n % 256) as u8,
        ((n / 256) % 256) as u8,
        ((n / 65536) % 256) as u8,
        ((n / 16777216) % 256) as u8,
        ((n / 4294967296) % 256) as u8,
        ((n / 1099511627776) % 256) as u8,
        ((n / 281474976710656) % 256) as u8,
        ((n / 72057594037927936) % 256) as u8,
    ]
}

/// A bit string: its bit count, then its bits packed into bytes.
pub open spec fn enc_bits(b: Seq<bool>) -> Seq<u8> {
    le2(b.len() as int) + pack_bits(b)
}

/// A byte string: its length, then its bytes.
pub open spec fn enc_bytes(v: Seq<u8>) -> Seq<u8> {
    le8(v.len() as int) + v
}

/// One node of a pruned view.
pub open spec fn enc_node(p: ProofNode) -> Seq<u8>
    decreases p,
{
    match p {
        ProofNode::Pruned { head, digest } => seq![TAG_PRUNED] + enc_bits(head@) + enc_bytes(
            digest@,
        ),
        ProofNode::Shown { path, value } => seq![TAG_SHOWN] + enc_bits(path@) + enc_bytes(value@),
        ProofNode::Split { prefix, left, right } => seq![TAG_SPLIT] + enc_bits(prefix@) + enc_node(
            *left,
        ) + enc_node(*right),
    }
}

/// A payload mark: an absence byte, or a presence byte and the payload.
pub open spec fn enc_opt(v: Option<Vec<u8>>) -> Seq<u8> {
    match v {
        Some(v) => seq![1u8] + enc_bytes(v@),
        None => seq![0u8],
    }
}

/// One proof entry: the key, then its payload or an absence mark.
pub open spec fn enc_entry(e: (Vec<u8>, Option<Vec<u8>>)) -> Seq<u8> {
    enc_bytes(e.0@) + enc_opt(e.1)
}

/// The entries, one after the other.
pub open spec fn enc_entries(s: Seq<(Vec<u8>, Option<Vec<u8>>)>) -> Seq<u8>
    decreases s.len(),
{
    if s.len() == 0 {
        Seq::empty()
    } else {
        enc_entries(s.drop_last()) + enc_entry(s.last())
    }
}

/// A whole proof: the pruned view (behind a presence tag), then the
/// entry count and the entries.
pub open spec fn enc_proof(pf: MapProof) -> Seq<u8> {
    (match pf.root {
        None => seq![0u8],
        Some(n) => seq![1u8] + enc_node(n),
    }) + le8(pf.entries@.len() as int) + enc_entries(pf.entries@)
}

/// Every bit string in the pruned view is short enough for its
/// two-byte length field.
pub open spec fn pf_sized(p: ProofNode) -> bool
    decreases p,
{
    match p {
        ProofNode::Pruned { head, .. } => head@.len() <= 65535,
        ProofNode::Shown { path, .. } => path@.len() <= 65535,
        ProofNode::Split { prefix, left, right } => prefix@.len() <= 65535 && pf_sized(*left)
            && pf_sized(*right),
    }
}

/// A well-formed pruned view is sized: its bit strings are paths.
pub proof fn lemma_wf_sized(p: ProofNode)
    requires
        pf_wf(p),
    ensures
        pf_sized(p),
    decreases p,
{
    match p {
        ProofNode::Pruned { .. } => {},
        ProofNode::Shown { .. } => {},
        ProofNode::Split { prefix: _, left, right } => {
            lemma_wf_sized(*left);
            lemma_wf_sized(*right);
        },
    }
}

/// Appends a two-byte little-endian length.
fn push_le2(dst: &mut Vec<u8>, n: usize)
    requires
        n <= 65535,
    ensures
        final(dst)@ == old(dst)@ + le2(n as int),
{
    dst.push((n % 256) as u8);
    dst.push(((n / 256) % 256) as u8);
    proof {
        assert(dst@ =~= old(dst)@ + le2(n as int));
    }
}

/// Appends an eight-byte little-endian length.
fn push_le8(dst: &mut Vec<u8>, n: usize)
    ensures
        final(dst)@ == old(dst)@ + le8(n as int),
{
    let l: u64 = n as u64;
    dst.push((l % 256) as u8);
    dst.push(((l / 256) % 256) as u8);
    dst.push(((l / 65536) % 256) as u8);
    dst.push(((l / 16777216) % 256) as u8);
    dst.push(((l / 4294967296) % 256) as u8);
    dst.push(((l / 1099511627776) % 256) as u8);
    dst.push(((l / 281474976710656) % 256) as u8);
    dst.push(((l / 72057594037927936) % 256) as u8);
    proof {
        assert(dst@ =~= old(dst)@ + le8(n as int));
    }
}

/// Appends an encoded bit string.
fn push_bits_field(dst: &mut Vec<u8>, b: &Vec<bool>)
    requires
        b@.len() <= 65535,
    ensures
        final(dst)@ == old(dst)@ + enc_bits(b@),
{
    push_le2(dst, b.len());
    let packed = bits_to_bytes(b);
    push_bytes(dst, &packed);
    proof {
        assert(dst@ =~= old(dst)@ + enc_bits(b@));
    }
}

/// Appends an encoded byte string.
fn push_bytes_field(dst: &mut Vec<u8>, v: &Vec<u8>)
    ensures
        final(dst)@ == old(dst)@ + enc_bytes(v@),
{
    push_le8(dst, v.len());
    push_bytes(dst, v);
    proof {
        assert(dst@ =~= old(dst)@ + enc_bytes(v@));
    }
}

/// Appends an encoded node.
fn push_node(dst: &mut Vec<u8>, p: &ProofNode)
    requires
        pf_wf(*p),
    ensures
        final(dst)@ == old(dst)@ + enc_node(*p),
    decreases *p,
{
    match p {
        ProofNode::Pruned { head, digest } => {
            dst.push(TAG_PRUNED);
            push_bits_field(dst, head);
            push_bytes_field(dst, digest);
            proof {
                assert(dst@ =~= old(dst)@ + enc_node(*p));
            }
        },
        ProofNode::Shown { path, value } => {
            dst.push(TAG_SHOWN);
            push_bits_field(dst, path);
            push_bytes_field(dst, value);
            proof {
                assert(dst@ =~= old(dst)@ + enc_node(*p));
            }
        },
        ProofNode::Split { prefix, left, right } => {
            dst.push(TAG_SPLIT);
            push_bits_field(dst, prefix);
            push_node(dst, left);
            push_node(dst, right);
            proof {
                assert(dst@ =~= old(dst)@ + enc_node(*p));
            }
        },
    }
}

/// A copy of the byte range.
fn copy_range(bytes: &Vec<u8>, from: usize, to: usize) -> (r: Vec<u8>)
    requires
        from <= to <= bytes@.len(),
    ensures
        r@ == bytes@.subrange(from as int, to as int),
{
    let mut r: Vec<u8> = Vec::new();
    let mut i: usize = from;
    while i < to
        invariant
            from <= i <= to <= bytes@.len(),
            r@ =~= bytes@.subrange(from as int, i as int),
        decreases to - i,
    {
        r.push(bytes[i]);
        i = i + 1;
        proof {
            assert(r@ =~= bytes@.subrange(from as int, i as int));
        }
    }
    r
}

/// Reads a two-byte length, accepting only its canonical form; when it
/// refuses, no admissible length is encoded here.
fn read_le2(bytes: &Vec<u8>, pos: usize) -> (r: Option<(usize, usize)>)
    ensures
        match r {
            Some((n, end)) => pos + 2 == end && end <= bytes@.len() && n <= 65535 && le2(n as int)
                == bytes@.subrange(pos as int, end as int),
            None => forall|n: int|
                0 <= n <= 65535 ==> !(pos + 2 <= bytes@.len() && bytes@.subrange(
                    pos as int,
                    pos + 2,
                ) == #[trigger] le2(n)),
        },
{
    if pos >= bytes.len() || bytes.len() - pos < 2 {
        return None;
    }
    let n: usize = bytes[pos] as usize + 256 * (bytes[pos + 1] as usize);
    let mut canon: Vec<u8> = Vec::new();
    push_le2(&mut canon, n);
    let seen = copy_range(bytes, pos, pos + 2);
    if bytes_eq(&canon, &seen) {
        Some((n, pos + 2))
    } else {
        proof {
            assert forall|m: int|
                0 <= m <= 65535 implies !(pos + 2 <= bytes@.len() && bytes@.subrange(
                pos as int,
                pos + 2,
            ) == #[trigger] le2(m)) by {
                if pos + 2 <= bytes@.len() && bytes@.subrange(pos as int, pos + 2) == le2(m) {
                    assert(seen@[0] == le2(m)[0] && seen@[1] == le2(m)[1]);
                    lemma_fundamental_div_mod(m, 256);
                    lemma_small_mod((m / 256) as nat, 256);
                    assert(n as int == m);
                    assert(canon@ =~= le2(m));
                    assert(canon@ =~= seen@);
                    assert(false);
                }
            }
        }
        None
    }
}

/// Reads an eight-byte length, accepting only its canonical form; when
/// it refuses, no length a byte string can have is encoded here.
fn read_le8(bytes: &Vec<u8>, pos: usize) -> (r: Option<(usize, usize)>)
    ensures
        match r {
            Some((n, end)) => pos + 8 == end && end <= bytes@.len() && le8(n as int)
                == bytes@.subrange(pos as int, end as int),
            None => forall|n: int|
                0 <= n <= usize::MAX ==> !(pos + 8 <= bytes@.len() && bytes@.subrange(
                    pos as int,
                    pos + 8,
                ) == #[trigger] le8(n)),
        },
{
    if pos >= bytes.len() || bytes.len() - pos < 8 {
        return None;
    }
    let l: u64 = bytes[pos] as u64 + 256 * (bytes[pos + 1] as u64) + 65536 * (bytes[pos + 2]
        as u64) + 16777216 * (bytes[pos + 3] as u64) + 4294967296 * (bytes[pos + 4] as u64)
        + 1099511627776 * (bytes[pos + 5] as u64) + 281474976710656 * (bytes[pos + 6] as u64)
        + 72057594037927936 * (bytes[pos + 7] as u64);
    proof {
        assert forall|m: int|
            0 <= m < 0x10000000000000000 && bytes@.subrange(pos as int, pos + 8) == le8(
                m,
            ) implies l as int == m by {
            assert(bytes@.subrange(pos as int, pos + 8)[0] == le8(m)[0]);
            assert(bytes@.subrange(pos as int, pos + 8)[1] == le8(m)[1]);
            assert(bytes@.subrange(pos as int, pos + 8)[2] == le8(m)[2]);
            assert(bytes@.subrange(pos as int, pos + 8)[3] == le8(m)[3]);
            assert(bytes@.subrange(pos as int, pos + 8)[4] == le8(m)[4]);
            assert(bytes@.subrange(pos as int, pos + 8)[5] == le8(m)[5]);
            assert(bytes@.subrange(pos as int, pos + 8)[6] == le8(m)[6]);
            assert(bytes@.subrange(pos as int, pos + 8)[7] == le8(m)[7]);
            lemma_le8_reconstruct(m);
        }
    }
    if l > usize::MAX as u64 {
        return None;
    }
    let n: usize = l as usize;
    let mut canon: Vec<u8> = Vec::new();
    push_le8(&mut canon, n);
    let seen = copy_range(bytes, pos, pos + 8);
    if bytes_eq(&canon, &seen) {
        Some((n, pos + 8))
    } else {
        proof {
            assert forall|m: int|
                0 <= m <= usize::MAX implies !(pos + 8 <= bytes@.len() && bytes@.subrange(
                pos as int,
                pos + 8,
            ) == #[trigger] le8(m)) by {
                if pos + 8 <= bytes@.len() && bytes@.subrange(pos as int, pos + 8) == le8(m) {
                    assert(l as int == m);
                    assert(canon@ =~= le8(m));
                    assert(canon@ =~= seen@);
                    assert(false);
                }
            }
        }
        None
    }
}

/// Reads an encoded bit string, accepting only zero padding; when it
/// refuses, no sized bit string's encoding starts here.
fn read_bits_field(bytes: &Vec<u8>, pos: usize) -> (r: Option<(Vec<bool>, usize)>)
    ensures
        match r {
            Some((v, end)) => pos < end <= bytes@.len() && v@.len() <= 65535 && enc_bits(v@)
                == bytes@.subrange(pos as int, end as int),
            None => pos <= bytes@.len() ==> forall|b: Seq<bool>, rest: Seq<u8>|
                b.len() <= 65535 ==> bytes@.skip(pos as int) != #[trigger] (enc_bits(b) + rest),
        },
{
    let ghost whole = bytes@.skip(pos as int);
    let (n, after_len) = match read_le2(bytes, pos) {
        Some(x) => x,
        None => {
            proof {
                if pos <= bytes@.len() {
                    assert forall|b: Seq<bool>, rest: Seq<u8>| b.len() <= 65535 implies bytes@.skip(
                        pos as int,
                    ) != #[trigger] (enc_bits(b) + rest) by {
                        if bytes@.skip(pos as int) == enc_bits(b) + rest {
                            assert((enc_bits(b) + rest).len() >= le2(b.len() as int).len());
                            assert(bytes@.skip(pos as int).len() == bytes@.len() - pos);
                            assert(pos + 2 <= bytes@.len());
                            assert(bytes@.subrange(pos as int, pos + 2) =~= le2(b.len() as int));
                        }
                    }
                }
            }
            return None;
        },
    };
    let nb = (n + 7) / 8;
    if bytes.len() < after_len || bytes.len() - after_len < nb {
        proof {
            assert forall|b: Seq<bool>, rest: Seq<u8>| b.len() <= 65535 implies bytes@.skip(
                pos as int,
            ) != #[trigger] (enc_bits(b) + rest) by {
                if bytes@.skip(pos as int) == enc_bits(b) + rest {
                    assert(le2(b.len() as int) =~= bytes@.subrange(pos as int, pos + 2));
                    lemma_le2_injective(b.len() as int, n as int);
                    assert((enc_bits(b) + rest).len() >= 2 + nb);
                    assert(bytes@.skip(pos as int).len() < 2 + nb);
                }
            }
        }
        return None;
    }
    let chunk = copy_range(bytes, after_len, after_len + nb);
    let all_bits = bytes_to_bits(&chunk);
    if all_bits.len() < n {
        return None;
    }
    let v = bits_take(&all_bits, n);
    let repacked = bits_to_bytes(&v);
    if !bytes_eq(&repacked, &chunk) {
        proof {
            assert forall|b: Seq<bool>, rest: Seq<u8>| b.len() <= 65535 implies bytes@.skip(
                pos as int,
            ) != #[trigger] (enc_bits(b) + rest) by {
                if bytes@.skip(pos as int) == enc_bits(b) + rest {
                    assert(le2(b.len() as int) =~= bytes@.subrange(pos as int, pos + 2));
                    lemma_le2_injective(b.len() as int, n as int);
                    assert(pack_bits(b) =~= chunk@) by {
                        assert forall|i: int| 0 <= i < nb implies pack_bits(b)[i] == chunk@[i] by {
                            assert((enc_bits(b) + rest)[2 + i] == pack_bits(b)[i]);
                            assert(bytes@.skip(pos as int)[2 + i] == bytes@[pos + 2 + i]);
                        }
                    }
                    lemma_unpack_pack(b);
                    assert(v@ == b);
                    assert(repacked@ == chunk@);
                }
            }
        }
        return None;
    }
    proof {
        assert(enc_bits(v@) =~= bytes@.subrange(pos as int, (after_len + nb) as int));
    }
    Some((v, after_len + nb))
}

/// Reads an encoded byte string; when it refuses, no byte string's
/// encoding starts here.
fn read_bytes_field(bytes: &Vec<u8>, pos: usize) -> (r: Option<(Vec<u8>, usize)>)
    ensures
        match r {
            Some((v, end)) => pos < end <= bytes@.len() && enc_bytes(v@) == bytes@.subrange(
                pos as int,
                end as int,
            ),
            None => pos <= bytes@.len() ==> forall|v: Seq<u8>, rest: Seq<u8>|
                v.len() <= usize::MAX ==> bytes@.skip(pos as int) != #[trigger] (enc_bytes(v)
                    + rest),
        },
{
    let (n, after_len) = match read_le8(bytes, pos) {
        Some(x) => x,
        None => {
            proof {
                if pos <= bytes@.len() {
                    assert forall|v: Seq<u8>, rest: Seq<u8>| v.len() <= usize::MAX implies bytes@
                        .skip(pos as int) != #[trigger] (enc_bytes(v) + rest) by {
                        if bytes@.skip(pos as int) == enc_bytes(v) + rest {
                            assert((enc_bytes(v) + rest).len() >= le8(v.len() as int).len());
                            assert(bytes@.skip(pos as int).len() == bytes@.len() - pos);
                            assert(pos + 8 <= bytes@.len());
                            assert(bytes@.subrange(pos as int, pos + 8) =~= le8(v.len() as int));
                        }
                    }
                }
            }
            return None;
        },
    };
    if bytes.len() < after_len || bytes.len() - after_len < n {
        proof {
            assert forall|v: Seq<u8>, rest: Seq<u8>| v.len() <= usize::MAX implies bytes@.skip(
                pos as int,
            ) != #[trigger] (enc_bytes(v) + rest) by {
                if bytes@.skip(pos as int) == enc_bytes(v) + rest {
                    assert(le8(v.len() as int) =~= bytes@.subrange(pos as int, pos + 8));
                    lemma_le8_injective(v.len() as int, n as int);
                    assert((enc_bytes(v) + rest).len() >= 8 + n);
                    assert(bytes@.skip(pos as int).len() < 8 + n);
                }
            }
        }
        return None;
    }
    let v = copy_range(bytes, after_len, after_len + n);
    proof {
        assert(enc_bytes(v@) =~= bytes@.subrange(pos as int, (after_len + n) as int));
    }
    Some((v, after_len + n))
}

/// An encoded node starts with its kind's tag.
proof fn lemma_enc_node_first(p: ProofNode)
    ensures
        enc_node(p).len() >= 1,
        p is Pruned <==> enc_node(p)[0] == TAG_PRUNED,
        p is Shown <==> enc_node(p)[0] == TAG_SHOWN,
        p is Split <==> enc_node(p)[0] == TAG_SPLIT,
{
    match p {
        ProofNode::Pruned { head, digest } => {
            assert(enc_node(p)[0] == TAG_PRUNED);
        },
        ProofNode::Shown { path, value } => {
            assert(enc_node(p)[0] == TAG_SHOWN);
        },
        ProofNode::Split { prefix, left, right } => {
            assert(enc_node(p)[0] == TAG_SPLIT);
        },
    }
}

/// What follows an encoded node's tag byte.
proof fn lemma_node_tail(p: ProofNode, rest: Seq<u8>, s: Seq<u8>)
    requires
        s == enc_node(p) + rest,
    ensures
        match p {
            ProofNode::Pruned { head, digest } => s.drop_first() == enc_bits(head@) + (enc_bytes(
                digest@,
            ) + rest),
            ProofNode::Shown { path, value } => s.drop_first() == enc_bits(path@) + (enc_bytes(
                value@,
            ) + rest),
            ProofNode::Split { prefix, left, right } => s.drop_first() == enc_bits(prefix@) + (
            enc_node(*left) + (enc_node(*right) + rest)),
        },
{
    match p {
        ProofNode::Pruned { head, digest } => {
            assert(s.drop_first() =~= enc_bits(head@) + (enc_bytes(digest@) + rest));
        },
        ProofNode::Shown { path, value } => {
            assert(s.drop_first() =~= enc_bits(path@) + (enc_bytes(value@) + rest));
        },
        ProofNode::Split { prefix, left, right } => {
            assert(s.drop_first() =~= enc_bits(prefix@) + (enc_node(*left) + (enc_node(*right)
                + rest)));
        },
    }
}

/// No node's encoding starts where no sized bit string's does: every
/// node kind opens with its tag and an encoded bit string.
proof fn lemma_node_nc_bits(bytes: Seq<u8>, pos: int)
    requires
        0 <= pos < bytes.len(),
        forall|b: Seq<bool>, rest: Seq<u8>|
            b.len() <= 65535 ==> bytes.skip(pos + 1) != #[trigger] (enc_bits(b) + rest),
    ensures
        forall|p: ProofNode, rest: Seq<u8>|
            pf_sized(p) ==> bytes.skip(pos) != #[trigger] (enc_node(p) + rest),
{
    assert forall|p: ProofNode, rest: Seq<u8>| pf_sized(p) implies bytes.skip(pos)
        != #[trigger] (enc_node(p) + rest) by {
        if bytes.skip(pos) == enc_node(p) + rest {
            lemma_node_tail(p, rest, bytes.skip(pos));
            assert(bytes.skip(pos + 1) =~= bytes.skip(pos).drop_first());
            match p {
                ProofNode::Pruned { head: h, digest: d } => {
                    assert(bytes.skip(pos + 1) != enc_bits(h@) + (enc_bytes(d@) + rest));
                },
                ProofNode::Shown { path: h, value: d } => {
                    assert(bytes.skip(pos + 1) != enc_bits(h@) + (enc_bytes(d@) + rest));
                },
                ProofNode::Split { prefix: q, left: l, right: t } => {
                    assert(bytes.skip(pos + 1) != enc_bits(q@) + (enc_node(*l) + (enc_node(*t)
                        + rest)));
                },
            }
        }
    }
}

/// A leaf-shaped node (tag for an elided subtree or a shown leaf) whose
/// byte-string field cannot be parsed is not encoded here.
proof fn lemma_node_nc_bytes(bytes: Seq<u8>, pos: int, first: Seq<bool>, p1: int)
    requires
        0 <= pos < bytes.len(),
        bytes[pos] == TAG_PRUNED || bytes[pos] == TAG_SHOWN,
        first.len() <= 65535,
        pos + 1 <= p1 <= bytes.len(),
        enc_bits(first) == bytes.subrange(pos + 1, p1),
        forall|v: Seq<u8>, rest: Seq<u8>|
            v.len() <= usize::MAX ==> bytes.skip(p1) != #[trigger] (enc_bytes(v) + rest),
    ensures
        forall|p: ProofNode, rest: Seq<u8>|
            pf_sized(p) ==> bytes.skip(pos) != #[trigger] (enc_node(p) + rest),
{
    assert forall|p: ProofNode, rest: Seq<u8>| pf_sized(p) implies bytes.skip(pos)
        != #[trigger] (enc_node(p) + rest) by {
        if bytes.skip(pos) == enc_node(p) + rest {
            lemma_enc_node_first(p);
            assert(bytes.skip(pos)[0] == bytes[pos]);
            assert((enc_node(p) + rest)[0] == enc_node(p)[0]);
            lemma_node_tail(p, rest, bytes.skip(pos));
            assert(bytes.skip(pos + 1) =~= bytes.skip(pos).drop_first());
            assert(bytes.skip(pos + 1) =~= enc_bits(first) + bytes.skip(p1));
            match p {
                ProofNode::Pruned { head: h, digest: d } => {
                    lemma_enc_bits_prefix(h@, enc_bytes(d@) + rest, first, bytes.skip(p1));
                    lemma_vec_len_bound(&d);
                    assert(bytes.skip(p1) != enc_bytes(d@) + rest);
                },
                ProofNode::Shown { path: h, value: d } => {
                    lemma_enc_bits_prefix(h@, enc_bytes(d@) + rest, first, bytes.skip(p1));
                    lemma_vec_len_bound(&d);
                    assert(bytes.skip(p1) != enc_bytes(d@) + rest);
                },
                ProofNode::Split { .. } => {
                    assert(false);
                },
            }
        }
    }
}

/// A split node whose left subtree cannot be parsed is not encoded here.
proof fn lemma_node_nc_left(bytes: Seq<u8>, pos: int, first: Seq<bool>, p1: int)
    requires
        0 <= pos < bytes.len(),
        bytes[pos] == TAG_SPLIT,
        first.len() <= 65535,
        pos + 1 <= p1 <= bytes.len(),
        enc_bits(first) == bytes.subrange(pos + 1, p1),
        forall|p: ProofNode, rest: Seq<u8>|
            pf_sized(p) ==> bytes.skip(p1) != #[trigger] (enc_node(p) + rest),
    ensures
        forall|p: ProofNode, rest: Seq<u8>|
            pf_sized(p) ==> bytes.skip(pos) != #[trigger] (enc_node(p) + rest),
{
    assert forall|p: ProofNode, rest: Seq<u8>| pf_sized(p) implies bytes.skip(pos)
        != #[trigger] (enc_node(p) + rest) by {
        if bytes.skip(pos) == enc_node(p) + rest {
            lemma_enc_node_first(p);
            assert(bytes.skip(pos)[0] == bytes[pos]);
            assert((enc_node(p) + rest)[0] == enc_node(p)[0]);
            lemma_node_tail(p, rest, bytes.skip(pos));
            assert(bytes.skip(pos + 1) =~= bytes.skip(pos).drop_first());
            assert(bytes.skip(pos + 1) =~= enc_bits(first) + bytes.skip(p1));
            match p {
                ProofNode::Split { prefix: q, left: l, right: t } => {
                    lemma_enc_bits_prefix(
                        q@,
                        enc_node(*l) + (enc_node(*t) + rest),
                        first,
                        bytes.skip(p1),
                    );
                    assert(bytes.skip(p1) != enc_node(*l) + (enc_node(*t) + rest));
                },
                _ => {
                    assert(false);
                },
            }
        }
    }
}

/// A split node whose right subtree cannot be parsed is not encoded
/// here.
proof fn lemma_node_nc_right(
    bytes: Seq<u8>,
    pos: int,
    first: Seq<bool>,
    p1: int,
    left: ProofNode,
    p2: int,
)
    requires
        0 <= pos < bytes.len(),
        bytes[pos] == TAG_SPLIT,
        first.len() <= 65535,
        pos + 1 <= p1 <= bytes.len(),
        enc_bits(first) == bytes.subrange(pos + 1, p1),
        pf_sized(left),
        p1 <= p2 <= bytes.len(),
        enc_node(left) == bytes.subrange(p1, p2),
        forall|p: ProofNode, rest: Seq<u8>|
            pf_sized(p) ==> bytes.skip(p2) != #[trigger] (enc_node(p) + rest),
    ensures
        forall|p: ProofNode, rest: Seq<u8>|
            pf_sized(p) ==> bytes.skip(pos) != #[trigger] (enc_node(p) + rest),
{
    assert forall|p: ProofNode, rest: Seq<u8>| pf_sized(p) implies bytes.skip(pos)
        != #[trigger] (enc_node(p) + rest) by {
        if bytes.skip(pos) == enc_node(p) + rest {
            lemma_enc_node_first(p);
            assert(bytes.skip(pos)[0] == bytes[pos]);
            assert((enc_node(p) + rest)[0] == enc_node(p)[0]);
            lemma_node_tail(p, rest, bytes.skip(pos));
            assert(bytes.skip(pos + 1) =~= bytes.skip(pos).drop_first());
            assert(bytes.skip(pos + 1) =~= enc_bits(first) + bytes.skip(p1));
            match p {
                ProofNode::Split { prefix: q, left: l, right: t } => {
                    lemma_enc_bits_prefix(
                        q@,
                        enc_node(*l) + (enc_node(*t) + rest),
                        first,
                        bytes.skip(p1),
                    );
                    assert(bytes.skip(p1) =~= enc_node(left) + bytes.skip(p2));
                    lemma_enc_node_prefix(*l, enc_node(*t) + rest, left, bytes.skip(p2));
                    assert(bytes.skip(p2) != enc_node(*t) + rest);
                },
                _ => {
                    assert(false);
                },
            }
        }
    }
}

/// No node at all is encoded here: the stream ends, or opens with no
/// node tag.
proof fn lemma_node_nc_head(bytes: Seq<u8>, pos: int)
    requires
        0 <= pos <= bytes.len(),
        pos < bytes.len() ==> bytes[pos] != TAG_PRUNED && bytes[pos] != TAG_SHOWN && bytes[pos]
            != TAG_SPLIT,
    ensures
        forall|p: ProofNode, rest: Seq<u8>|
            pf_sized(p) ==> bytes.skip(pos) != #[trigger] (enc_node(p) + rest),
{
    assert forall|p: ProofNode, rest: Seq<u8>| pf_sized(p) implies bytes.skip(pos)
        != #[trigger] (enc_node(p) + rest) by {
        if bytes.skip(pos) == enc_node(p) + rest {
            lemma_enc_node_first(p);
            if pos == bytes.len() {
                assert(bytes.skip(pos).len() == 0);
                assert((enc_node(p) + rest).len() >= 1);
            } else {
                assert(bytes.skip(pos)[0] == bytes[pos]);
                assert((enc_node(p) + rest)[0] == enc_node(p)[0]);
                match p {
                    ProofNode::Pruned { .. } => {
                        assert(false);
                    },
                    ProofNode::Shown { .. } => {
                        assert(false);
                    },
                    ProofNode::Split { .. } => {
                        assert(false);
                    },
                }
            }
        }
    }
}

/// Reads an encoded node; when it refuses, no sized node's encoding
/// starts here.
fn read_node(bytes: &Vec<u8>, pos: usize) -> (r: Option<(ProofNode, usize)>)
    ensures
        match r {
            Some((p, end)) => pos < end <= bytes@.len() && pf_sized(p) && enc_node(p)
                == bytes@.subrange(pos as int, end as int),
            None => pos <= bytes@.len() ==> forall|p: ProofNode, rest: Seq<u8>|
                pf_sized(p) ==> bytes@.skip(pos as int) != #[trigger] (enc_node(p) + rest),
        },
    decreases bytes@.len() - pos,
{
    if pos >= bytes.len() {
        proof {
            if pos <= bytes@.len() {
                lemma_node_nc_head(bytes@, pos as int);
            }
        }
        return None;
    }
    let tag = bytes[pos];
    if tag == TAG_PRUNED || tag == TAG_SHOWN {
        let (first, p1) = match read_bits_field(bytes, pos + 1) {
            Some(x) => x,
            None => {
                proof {
                    lemma_node_nc_bits(bytes@, pos as int);
                }
                return None;
            },
        };
        let (body, p2) = match read_bytes_field(bytes, p1) {
            Some(x) => x,
            None => {
                proof {
                    lemma_node_nc_bytes(bytes@, pos as int, first@, p1 as int);
                }
                return None;
            },
        };
        let node = if tag == TAG_PRUNED {
            ProofNode::Pruned { head: first, digest: body }
        } else {
            ProofNode::Shown { path: first, value: body }
        };
        proof {
            assert(enc_node(node) =~= bytes@.subrange(pos as int, p2 as int));
        }
        Some((node, p2))
    } else if tag == TAG_SPLIT {
        let (prefix, p1) = match read_bits_field(bytes, pos + 1) {
            Some(x) => x,
            None => {
                proof {
                    lemma_node_nc_bits(bytes@, pos as int);
                }
                return None;
            },
        };
        let (left, p2) = match read_node(bytes, p1) {
            Some(x) => x,
            None => {
                proof {
                    lemma_node_nc_left(bytes@, pos as int, prefix@, p1 as int);
                }
                return None;
            },
        };
        let (right, p3) = match read_node(bytes, p2) {
            Some(x) => x,
            None => {
                proof {
                    lemma_node_nc_right(
                        bytes@,
                        pos as int,
                        prefix@,
                        p1 as int,
                        left,
                        p2 as int,
                    );
                }
                return None;
            },
        };
        let node = ProofNode::Split { prefix, left: Box::new(left), right: Box::new(right) };
        proof {
            assert(enc_node(node) =~= bytes@.subrange(pos as int, p3 as int));
        }
        Some((node, p3))
    } else {
        proof {
            lemma_node_nc_head(bytes@, pos as int);
        }
        None
    }
}

/// A proof whose canonical encoding is exactly `bytes`, its pruned view
/// sized.
pub open spec fn encodes(bytes: Seq<u8>, pf: MapProof) -> bool {
    &&& bytes == enc_proof(pf)
    &&& match pf.root {
        Some(n) => pf_sized(n),
        None => true,
    }
}

/// How a proof's encoding opens: at least nine bytes, a root tag naming
/// the root's presence, and after the root part the entry count and the
/// entries, to the very end.
proof fn lemma_proof_head(bytes: Seq<u8>, pf: MapProof)
    requires
        encodes(bytes, pf),
    ensures
        bytes.len() >= 9,
        pf.root is None <==> bytes[0] == 0u8,
        pf.root is Some <==> bytes[0] == 1u8,
        pf.root is None ==> bytes.skip(1) == le8(pf.entries@.len() as int) + enc_entries(
            pf.entries@,
        ),
        pf.root is Some ==> bytes.skip(1) == enc_node(pf.root->0) + (le8(pf.entries@.len() as int)
            + enc_entries(pf.entries@)),
{
    let ta = le8(pf.entries@.len() as int) + enc_entries(pf.entries@);
    match pf.root {
        None => {
            assert(bytes =~= seq![0u8] + ta);
            assert(bytes[0] == 0u8);
            assert(bytes.skip(1) =~= ta);
        },
        Some(n) => {
            lemma_enc_node_first(n);
            assert(bytes =~= (seq![1u8] + enc_node(n)) + ta);
            assert(bytes[0] == 1u8);
            assert(bytes.skip(1) =~= enc_node(n) + ta);
        },
    }
}

/// Where a nonempty entry list is encoded, its first entry's encoding
/// starts, the remaining entries behind it.
proof fn lemma_entry_at(bytes: Seq<u8>, pos: int, es: Seq<(Vec<u8>, Option<Vec<u8>>)>)
    requires
        0 <= pos <= bytes.len(),
        es.len() > 0,
        enc_entries(es) == bytes.subrange(pos, bytes.len() as int),
    ensures
        bytes.skip(pos) == enc_bytes(es[0].0@) + (enc_opt(es[0].1) + enc_entries(
            es.drop_first(),
        )),
{
    lemma_enc_entries_front(es);
    assert(bytes.skip(pos) =~= bytes.subrange(pos, bytes.len() as int));
    assert(bytes.skip(pos) =~= enc_bytes(es[0].0@) + (enc_opt(es[0].1) + enc_entries(
        es.drop_first(),
    )));
}

/// Aligns a parsed key with the first encoded entry's key: what follows
/// the key is the entry's payload mark and the remaining entries.
proof fn lemma_enc_bytes_prefix_call(
    bytes: Seq<u8>,
    pos: int,
    p1: int,
    key: Seq<u8>,
    eg: (Vec<u8>, Option<Vec<u8>>),
    rest_entries: Seq<(Vec<u8>, Option<Vec<u8>>)>,
)
    requires
        0 <= pos <= p1 <= bytes.len(),
        key.len() < 0x10000000000000000,
        enc_bytes(key) == bytes.subrange(pos, p1),
        bytes.skip(pos) == enc_bytes(eg.0@) + (enc_opt(eg.1) + enc_entries(rest_entries)),
    ensures
        eg.0@ == key,
        bytes.skip(p1) == enc_opt(eg.1) + enc_entries(rest_entries),
{
    lemma_vec_len_bound(&eg.0);
    assert(bytes.skip(pos) =~= enc_bytes(key) + bytes.skip(p1));
    lemma_enc_bytes_prefix(eg.0@, enc_opt(eg.1) + enc_entries(rest_entries), key, bytes.skip(p1));
}

/// Entry-list parsing keeps its frame: after one parsed entry, every
/// proof encoded in `bytes` continues with the remaining entries.
proof fn lemma_entries_step(
    bytes: Seq<u8>,
    count: int,
    got: int,
    pos0: int,
    pos1: int,
    entry: (Vec<u8>, Option<Vec<u8>>),
)
    requires
        0 < got <= count,
        0 <= pos0 <= pos1 <= bytes.len(),
        enc_entry(entry) == bytes.subrange(pos0, pos1),
        forall|pfw: MapProof| #[trigger]
            encodes(bytes, pfw) ==> pfw.entries@.len() == count && enc_entries(
                pfw.entries@.skip(got - 1),
            ) == bytes.subrange(pos0, bytes.len() as int),
    ensures
        forall|pfw: MapProof| #[trigger]
            encodes(bytes, pfw) ==> pfw.entries@.len() == count && enc_entries(
                pfw.entries@.skip(got),
            ) == bytes.subrange(pos1, bytes.len() as int),
{
    assert forall|pfw: MapProof| #[trigger] encodes(bytes, pfw) implies pfw.entries@.len() == count
        && enc_entries(pfw.entries@.skip(got)) == bytes.subrange(pos1, bytes.len() as int) by {
        let es = pfw.entries@.skip(got - 1);
        lemma_entry_at(bytes, pos0, es);
        assert(bytes.skip(pos0) =~= enc_entry(es[0]) + enc_entries(es.drop_first()));
        assert(bytes.skip(pos0) =~= enc_entry(entry) + bytes.subrange(pos1, bytes.len() as int));
        lemma_enc_entry_prefix(
            es[0],
            enc_entries(es.drop_first()),
            entry,
            bytes.subrange(pos1, bytes.len() as int),
        );
        assert(es.drop_first() =~= pfw.entries@.skip(got));
    }
}

/// No proof is encoded when the next entry's key cannot be parsed.
proof fn lemma_entries_nc_key(bytes: Seq<u8>, count: int, got: int, pos: int)
    requires
        0 <= got < count,
        0 <= pos <= bytes.len(),
        forall|pfw: MapProof| #[trigger]
            encodes(bytes, pfw) ==> pfw.entries@.len() == count && enc_entries(
                pfw.entries@.skip(got),
            ) == bytes.subrange(pos, bytes.len() as int),
        forall|v: Seq<u8>, rest: Seq<u8>|
            v.len() <= usize::MAX ==> bytes.skip(pos) != #[trigger] (enc_bytes(v) + rest),
    ensures
        forall|pfw: MapProof| !encodes(bytes, pfw),
{
    assert forall|pfw: MapProof| !encodes(bytes, pfw) by {
        if encodes(bytes, pfw) {
            let es = pfw.entries@.skip(got);
            lemma_entry_at(bytes, pos, es);
            let eg = es[0];
            lemma_vec_len_bound(&eg.0);
            assert(bytes.skip(pos) != enc_bytes(eg.0@) + (enc_opt(eg.1) + enc_entries(
                es.drop_first(),
            )));
            assert(false);
        }
    }
}

/// No proof is encoded when the payload mark after a parsed key is
/// missing or names no mark.
proof fn lemma_entries_nc_mark(
    bytes: Seq<u8>,
    count: int,
    got: int,
    pos: int,
    p1: int,
    key: Seq<u8>,
)
    requires
        0 <= got < count,
        0 <= pos <= p1 <= bytes.len(),
        key.len() < 0x10000000000000000,
        enc_bytes(key) == bytes.subrange(pos, p1),
        p1 < bytes.len() ==> bytes[p1] != 0u8 && bytes[p1] != 1u8,
        forall|pfw: MapProof| #[trigger]
            encodes(bytes, pfw) ==> pfw.entries@.len() == count && enc_entries(
                pfw.entries@.skip(got),
            ) == bytes.subrange(pos, bytes.len() as int),
    ensures
        forall|pfw: MapProof| !encodes(bytes, pfw),
{
    assert forall|pfw: MapProof| !encodes(bytes, pfw) by {
        if encodes(bytes, pfw) {
            let es = pfw.entries@.skip(got);
            lemma_entry_at(bytes, pos, es);
            let eg = es[0];
            lemma_enc_bytes_prefix_call(bytes, pos, p1, key, eg, es.drop_first());
            let mark = enc_opt(eg.1) + enc_entries(es.drop_first());
            assert(mark.len() >= 1) by {
                assert(enc_opt(eg.1).len() >= 1);
            }
            assert(p1 < bytes.len());
            assert(bytes.skip(p1)[0] == bytes[p1]);
            assert(mark[0] == enc_opt(eg.1)[0]);
            match eg.1 {
                None => {
                    assert(false);
                },
                Some(_) => {
                    assert(false);
                },
            }
        }
    }
}

/// No proof is encoded when a marked payload cannot be parsed.
proof fn lemma_entries_nc_value(
    bytes: Seq<u8>,
    count: int,
    got: int,
    pos: int,
    p1: int,
    key: Seq<u8>,
)
    requires
        0 <= got < count,
        0 <= pos <= p1 < bytes.len(),
        key.len() < 0x10000000000000000,
        enc_bytes(key) == bytes.subrange(pos, p1),
        bytes[p1] == 1u8,
        forall|pfw: MapProof| #[trigger]
            encodes(bytes, pfw) ==> pfw.entries@.len() == count && enc_entries(
                pfw.entries@.skip(got),
            ) == bytes.subrange(pos, bytes.len() as int),
        forall|v: Seq<u8>, rest: Seq<u8>|
            v.len() <= usize::MAX ==> bytes.skip(p1 + 1) != #[trigger] (enc_bytes(v) + rest),
    ensures
        forall|pfw: MapProof| !encodes(bytes, pfw),
{
    assert forall|pfw: MapProof| !encodes(bytes, pfw) by {
        if encodes(bytes, pfw) {
            let es = pfw.entries@.skip(got);
            lemma_entry_at(bytes, pos, es);
            let eg = es[0];
            lemma_enc_bytes_prefix_call(bytes, pos, p1, key, eg, es.drop_first());
            let tail = enc_entries(es.drop_first());
            assert(bytes.skip(p1)[0] == bytes[p1]);
            assert((enc_opt(eg.1) + tail)[0] == enc_opt(eg.1)[0]);
            match eg.1 {
                None => {
                    assert(false);
                },
                Some(v) => {
                    assert(bytes.skip(p1) =~= seq![1u8] + (enc_bytes(v@) + tail));
                    assert(bytes.skip(p1 + 1) =~= bytes.skip(p1).drop_first());
                    assert(bytes.skip(p1 + 1) =~= enc_bytes(v@) + tail);
                    lemma_vec_len_bound(&v);
                    assert(bytes.skip(p1 + 1) != enc_bytes(v@) + tail);
                    assert(false);
                },
            }
        }
    }
}

impl MapProof {
    /// Serialises the proof to its canonical byte form. One proof has
    /// one byte form, so any two serialisations of equal proofs are
    /// byte-identical.
    pub fn to_bytes(&self) -> (r: Vec<u8>)
        requires
            match self.root {
                Some(n) => pf_wf(n),
                None => true,
            },
        ensures
            r@ == enc_proof(*self),
    {
        let mut r: Vec<u8> = Vec::new();
        match &self.root {
            None => {
                r.push(0u8);
            },
            Some(n) => {
                r.push(1u8);
                push_node(&mut r, n);
            },
        }
        push_le8(&mut r, self.entries.len());
        let ghost mid = r@;
        let mut i: usize = 0;
        while i < self.entries.len()
            invariant
                i <= self.entries@.len(),
                r@ == mid + enc_entries(self.entries@.take(i as int)),
            decreases self.entries@.len() - i,
        {
            let e = &self.entries[i];
            let ghost before = r@;
            push_bytes_field(&mut r, &e.0);
            match &e.1 {
                Some(v) => {
                    r.push(1u8);
                    push_bytes_field(&mut r, v);
                },
                None => {
                    r.push(0u8);
                },
            }
            i = i + 1;
            proof {
                let s = self.entries@.take(i as int);
                assert(s.drop_last() =~= self.entries@.take(i - 1));
                assert(s.last() == self.entries@[i - 1]);
                assert(r@ =~= before + enc_entry(self.entries@[i - 1]));
                assert(r@ =~= mid + enc_entries(s));
            }
        }
        proof {
            assert(self.entries@.take(self.entries@.len() as int) =~= self.entries@);
            assert(r@ =~= enc_proof(*self));
        }
        r
    }

    /// Parses the byte form's head: the pruned view behind its presence
    /// tag, and the entry count. When it refuses, no sized proof encodes
    /// to these bytes.
    fn read_header(bytes: &Vec<u8>) -> (r: Option<(Option<ProofNode>, usize, usize)>)
        ensures
            match r {
                Some((root, count, after_count)) => {
                    &&& 9 <= after_count <= bytes@.len()
                    &&& match root {
                        Some(n) => pf_sized(n) && bytes@.subrange(0, after_count - 8) == seq![1u8]
                            + enc_node(n),
                        None => after_count == 9 && bytes@.subrange(0, 1) == seq![0u8],
                    }
                    &&& le8(count as int) == bytes@.subrange(after_count - 8, after_count as int)
                    &&& forall|pfw: MapProof| #[trigger]
                        encodes(bytes@, pfw) ==> pfw.entries@.len() == count as int && enc_entries(
                            pfw.entries@.skip(0),
                        ) == bytes@.subrange(after_count as int, bytes@.len() as int)
                },
                None => forall|pfw: MapProof| !encodes(bytes@, pfw),
            },
    {
        if bytes.len() == 0 {
            proof {
                assert forall|pfw: MapProof| !encodes(bytes@, pfw) by {
                    if encodes(bytes@, pfw) {
                        lemma_proof_head(bytes@, pfw);
                    }
                }
            }
            return None;
        }
        let tag = bytes[0];
        let (root, after_root) = if tag == 0u8 {
            (None, 1usize)
        } else if tag == 1u8 {
            match read_node(bytes, 1) {
                Some((n, p)) => (Some(n), p),
                None => {
                    proof {
                        assert forall|pfw: MapProof| !encodes(bytes@, pfw) by {
                            if encodes(bytes@, pfw) {
                                lemma_proof_head(bytes@, pfw);
                                match pfw.root {
                                    Some(nw) => {
                                        assert(bytes@.skip(1) != enc_node(nw) + (le8(
                                            pfw.entries@.len() as int,
                                        ) + enc_entries(pfw.entries@)));
                                        assert(false);
                                    },
                                    None => {
                                        assert(false);
                                    },
                                }
                            }
                        }
                    }
                    return None;
                },
            }
        } else {
            proof {
                assert forall|pfw: MapProof| !encodes(bytes@, pfw) by {
                    if encodes(bytes@, pfw) {
                        lemma_proof_head(bytes@, pfw);
                    }
                }
            }
            return None;
        };
        proof {
            lemma_root_frame(bytes@, root, after_root as int);
        }
        let (count, after_count) = match read_le8(bytes, after_root) {
            Some(x) => x,
            None => {
                proof {
                    assert forall|pfw: MapProof| !encodes(bytes@, pfw) by {
                        if encodes(bytes@, pfw) {
                            lemma_vec_len_bound(&pfw.entries);
                            assert(false);
                        }
                    }
                }
                return None;
            },
        };
        proof {
            lemma_count_frame(bytes@, after_root as int, count as int);
            match &root {
                None => {
                    assert(bytes@.subrange(0, 1) =~= seq![0u8]);
                },
                Some(n) => {
                    assert(bytes@.subrange(0, after_count - 8) =~= seq![1u8] + enc_node(*n));
                },
            }
        }
        Some((root, count, after_count))
    }

    /// Parses a canonical byte form. Whatever this returns re-encodes,
    /// byte for byte, to the input — the byte form pins the proof down —
    /// and parsing refuses only bytes no sized proof encodes to: on a
    /// serialiser's output it always succeeds.
    pub fn from_bytes(bytes: &Vec<u8>) -> (r: Option<MapProof>)
        ensures
            match r {
                Some(pf) => encodes(bytes@, pf),
                None => true,
            },
            (exists|pf: MapProof| encodes(bytes@, pf)) ==> r is Some,
    {
        let (root, count, after_count) = match Self::read_header(bytes) {
            Some(x) => x,
            None => {
                return None;
            },
        };
        let mut entries: Vec<(Vec<u8>, Option<Vec<u8>>)> = Vec::new();
        let mut pos = after_count;
        let mut got: usize = 0;
        while got < count
            invariant
                got <= count,
                after_count <= pos <= bytes@.len(),
                entries@.len() == got,
                enc_entries(entries@) == bytes@.subrange(after_count as int, pos as int),
                forall|pfw: MapProof| #[trigger]
                    encodes(bytes@, pfw) ==> pfw.entries@.len() == count && enc_entries(
                        pfw.entries@.skip(got as int),
                    ) == bytes@.subrange(pos as int, bytes@.len() as int),
            decreases count - got,
        {
            let ghost before_entries = entries@;
            let ghost before_pos = pos as int;
            let (key, p1) = match read_bytes_field(bytes, pos) {
                Some(x) => x,
                None => {
                    proof {
                        lemma_entries_nc_key(bytes@, count as int, got as int, pos as int);
                    }
                    return None;
                },
            };
            proof {
                lemma_vec_len_bound(&key);
            }
            if p1 >= bytes.len() {
                proof {
                    lemma_entries_nc_mark(
                        bytes@,
                        count as int,
                        got as int,
                        pos as int,
                        p1 as int,
                        key@,
                    );
                }
                return None;
            }
            let flag = bytes[p1];
            let entry: (Vec<u8>, Option<Vec<u8>>);
            let next_pos: usize;
            if flag == 0u8 {
                entry = (key, None);
                next_pos = p1 + 1;
            } else if flag == 1u8 {
                let (value, p2) = match read_bytes_field(bytes, p1 + 1) {
                    Some(x) => x,
                    None => {
                        proof {
                            lemma_entries_nc_value(
                                bytes@,
                                count as int,
                                got as int,
                                pos as int,
                                p1 as int,
                                key@,
                            );
                        }
                        return None;
                    },
                };
                entry = (key, Some(value));
                next_pos = p2;
            } else {
                proof {
                    lemma_entries_nc_mark(
                        bytes@,
                        count as int,
                        got as int,
                        pos as int,
                        p1 as int,
                        key@,
                    );
                }
                return None;
            }
            proof {
                assert(enc_entry(entry) =~= bytes@.subrange(before_pos, next_pos as int));
            }
            entries.push(entry);
            pos = next_pos;
            got = got + 1;
            proof {
                assert(entries@.drop_last() =~= before_entries);
                assert(entries@.last() == entry);
                assert(enc_entries(entries@) =~= bytes@.subrange(
                    after_count as int,
                    pos as int,
                ));
                lemma_entries_step(
                    bytes@,
                    count as int,
                    got as int,
                    before_pos,
                    pos as int,
                    entry,
                );
            }
        }
        if pos != bytes.len() {
            proof {
                if exists|pf: MapProof| encodes(bytes@, pf) {
                    let pfw = choose|pf: MapProof| encodes(bytes@, pf);
                    assert(pfw.entries@.skip(count as int) =~= Seq::<
                        (Vec<u8>, Option<Vec<u8>>),
                    >::empty());
                    assert(enc_entries(pfw.entries@.skip(count as int)).len() == 0);
                    assert(false);
                }
            }
            return None;
        }
        let pf = MapProof { root, entries };
        proof {
            assert(enc_proof(pf) =~= bytes@) by {
                assert(bytes@.subrange(0, after_count - 8) =~= match pf.root {
                    None => seq![0u8],
                    Some(n) => seq![1u8] + enc_node(n),
                });
                assert(bytes@.subrange(after_count - 8, after_count as int) == le8(
                    pf.entries@.len() as int,
                ));
                assert(bytes@.subrange(after_count as int, pos as int) == enc_entries(
                    pf.entries@,
                ));
            }
        }
        Some(pf)
    }
}

/// A two-byte length names one value.
proof fn lemma_le2_injective(n1: int, n2: int)
    requires
        0 <= n1 <= 65535,
        0 <= n2 <= 65535,
        le2(n1) == le2(n2),
    ensures
        n1 == n2,
{
    lemma_fundamental_div_mod(n1, 256);
    lemma_fundamental_div_mod(n2, 256);
    lemma_small_mod((n1 / 256) as nat, 256);
    lemma_small_mod((n2 / 256) as nat, 256);
    assert(le2(n1)[0] == le2(n2)[0]);
    assert(le2(n1)[1] == le2(n2)[1]);
}

/// An eight-byte length names one value.
proof fn lemma_le8_injective(n1: int, n2: int)
    requires
        0 <= n1 < 0x10000000000000000,
        0 <= n2 < 0x10000000000000000,
        le8(n1) == le8(n2),
    ensures
        n1 == n2,
{
    assert forall|k: int| 0 <= k < 8 implies le8(n1)[k] == le8(n2)[k] by {}
    lemma_le8_reconstruct(n1);
    lemma_le8_reconstruct(n2);
}

/// A value under 2^64 is the weighted sum of its eight length digits.
proof fn lemma_le8_reconstruct(n: int)
    requires
        0 <= n < 0x10000000000000000,
    ensures
        n == (n % 256) + 256 * ((n / 256) % 256) + 65536 * ((n / 65536) % 256) + 16777216 * ((n
            / 16777216) % 256) + 4294967296 * ((n / 4294967296) % 256) + 1099511627776 * ((n
            / 1099511627776) % 256) + 281474976710656 * ((n / 281474976710656) % 256)
            + 72057594037927936 * ((n / 72057594037927936) % 256),
{
    lemma_div_denominator(n, 256, 256);
    lemma_div_denominator(n, 65536, 256);
    lemma_div_denominator(n, 16777216, 256);
    lemma_div_denominator(n, 4294967296, 256);
    lemma_div_denominator(n, 1099511627776, 256);
    lemma_div_denominator(n, 281474976710656, 256);
    lemma_fundamental_div_mod(n, 256);
    lemma_fundamental_div_mod(n / 256, 256);
    lemma_fundamental_div_mod(n / 65536, 256);
    lemma_fundamental_div_mod(n / 16777216, 256);
    lemma_fundamental_div_mod(n / 4294967296, 256);
    lemma_fundamental_div_mod(n / 1099511627776, 256);
    lemma_fundamental_div_mod(n / 281474976710656, 256);
    lemma_fundamental_div_mod(n / 72057594037927936, 256);
    assert(n / 72057594037927936 < 256);
    lemma_small_mod((n / 72057594037927936) as nat, 256);
}

/// Equal packed bytes carry equal bits, position by position.
proof fn lemma_chunk_bvals(b1: Seq<bool>, s1: int, b2: Seq<bool>, s2: int)
    requires
        chunk_byte(b1, s1) == chunk_byte(b2, s2),
    ensures
        forall|j: int| 0 <= j < 8 ==> #[trigger] bval(b1, s1 + j) == bval(b2, s2 + j),
{
    assert(bval(b1, s1) == bval(b2, s2) && bval(b1, s1 + 1) == bval(b2, s2 + 1) && bval(
        b1,
        s1 + 2,
    ) == bval(b2, s2 + 2) && bval(b1, s1 + 3) == bval(b2, s2 + 3) && bval(b1, s1 + 4) == bval(
        b2,
        s2 + 4,
    ) && bval(b1, s1 + 5) == bval(b2, s2 + 5) && bval(b1, s1 + 6) == bval(b2, s2 + 6) && bval(
        b1,
        s1 + 7,
    ) == bval(b2, s2 + 7));
    assert forall|j: int| 0 <= j < 8 implies #[trigger] bval(b1, s1 + j) == bval(b2, s2 + j) by {}
}

/// Packing is injective for bit strings of one length.
proof fn lemma_pack_injective(b1: Seq<bool>, b2: Seq<bool>)
    requires
        b1.len() == b2.len(),
        pack_bits(b1) == pack_bits(b2),
    ensures
        b1 == b2,
{
    assert forall|i: int| 0 <= i < b1.len() implies b1[i] == b2[i] by {
        let q = i / 8;
        let j = i % 8;
        lemma_fundamental_div_mod(i, 8);
        assert(i == 8 * q + j && 0 <= j < 8);
        assert(0 <= q < pack_bits(b1).len()) by {
            lemma_fundamental_div_mod(b1.len() + 7 as int, 8);
        }
        assert(pack_bits(b1)[q] == pack_bits(b2)[q]);
        assert(pack_bits(b1)[q] == chunk_byte(b1, 8 * q));
        assert(pack_bits(b2)[q] == chunk_byte(b2, 8 * q));
        lemma_chunk_bvals(b1, 8 * q, b2, 8 * q);
        assert(bval(b1, 8 * q + j) == bval(b2, 8 * q + j));
    }
    assert(b1 =~= b2);
}

/// Structural equivalence of pruned views: the same shape carrying the
/// same bit strings and bytes.
pub open spec fn pf_like(a: ProofNode, b: ProofNode) -> bool
    decreases a,
{
    match (a, b) {
        (
            ProofNode::Pruned { head: h1, digest: d1 },
            ProofNode::Pruned { head: h2, digest: d2 },
        ) => h1@ == h2@ && d1@ == d2@,
        (
            ProofNode::Shown { path: p1, value: v1 },
            ProofNode::Shown { path: p2, value: v2 },
        ) => p1@ == p2@ && v1@ == v2@,
        (
            ProofNode::Split { prefix: q1, left: l1, right: r1 },
            ProofNode::Split { prefix: q2, left: l2, right: r2 },
        ) => q1@ == q2@ && pf_like(*l1, *l2) && pf_like(*r1, *r2),
        _ => false,
    }
}

/// Equivalent pruned views agree on head, digest and shape rules.
pub(crate) proof fn lemma_pf_like_hash(a: ProofNode, b: ProofNode)
    requires
        pf_like(a, b),
    ensures
        pf_head(a) == pf_head(b),
        pf_hash(a) == pf_hash(b),
        pf_wf(a) == pf_wf(b),
    decreases a,
{
    match a {
        ProofNode::Pruned { .. } => {},
        ProofNode::Shown { .. } => {},
        ProofNode::Split { prefix: _, left: l1, right: r1 } => {
            match b {
                ProofNode::Split { prefix: _, left: l2, right: r2 } => {
                    lemma_pf_like_hash(*l1, *l2);
                    lemma_pf_like_hash(*r1, *r2);
                },
                _ => {},
            }
        },
    }
}

/// Equivalent pruned views answer every lookup alike.
proof fn lemma_pf_like_lookup(a: ProofNode, b: ProofNode, k: Seq<bool>)
    requires
        pf_like(a, b),
    ensures
        found_in(a, k) == found_in(b, k),
        absent_in(a, k) == absent_in(b, k),
    decreases a,
{
    match a {
        ProofNode::Pruned { .. } => {},
        ProofNode::Shown { .. } => {},
        ProofNode::Split { prefix: _, left: l1, right: r1 } => {
            match b {
                ProofNode::Split { prefix: _, left: l2, right: r2 } => {
                    lemma_pf_like_lookup(*l1, *l2, k);
                    lemma_pf_like_lookup(*r1, *r2, k);
                },
                _ => {},
            }
        },
    }
}

/// Equivalent pruned views encode identically.
pub(crate) proof fn lemma_pf_like_enc(a: ProofNode, b: ProofNode)
    requires
        pf_like(a, b),
    ensures
        enc_node(a) == enc_node(b),
    decreases a,
{
    match a {
        ProofNode::Pruned { .. } => {},
        ProofNode::Shown { .. } => {},
        ProofNode::Split { prefix: _, left: l1, right: r1 } => {
            match b {
                ProofNode::Split { prefix: _, left: l2, right: r2 } => {
                    lemma_pf_like_enc(*l1, *l2);
                    lemma_pf_like_enc(*r1, *r2);
                },
                _ => {},
            }
        },
    }
}

/// One map value and one requested path set have one pruned view: two
/// well-formed tries holding the same map, pruned against the same
/// paths, give equivalent views.
pub(crate) proof fn lemma_shaped_like(
    n1: Node,
    n2: Node,
    ks: Set<Seq<bool>>,
    r1: ProofNode,
    r2: ProofNode,
)
    requires
        wf(n1),
        wf(n2),
        as_map(n1) == as_map(n2),
        shaped(r1, n1, ks),
        shaped(r2, n2, ks),
    ensures
        pf_like(r1, r2),
    decreases n1,
{
    lemma_canonical(n1, n2);
    match n1 {
        Node::Leaf { path: path1, key: _, value: value1 } => {
            match n2 {
                Node::Leaf { path: path2, key: _, value: value2 } => {
                    assert(as_map(n2).contains_key(path2@));
                    assert(path2@ == path1@);
                    assert(as_map(n1)[path1@].1 == value1@);
                    assert(as_map(n2)[path2@].1 == value2@);
                },
                Node::Branch { .. } => {
                    let witnesses = lemma_two_keys(n2);
                    assert(as_map(n1).contains_key(witnesses.0));
                    assert(as_map(n1).contains_key(witnesses.1));
                    assert(false);
                },
            }
        },
        Node::Branch { prefix: prefix1, left: left1, right: right1 } => {
            match n2 {
                Node::Leaf { .. } => {
                    let witnesses = lemma_two_keys(n1);
                    assert(as_map(n2).contains_key(witnesses.0));
                    assert(as_map(n2).contains_key(witnesses.1));
                    assert(false);
                },
                Node::Branch { prefix: prefix2, left: left2, right: right2 } => {
                    assert(as_map(n1) == as_map(*left1).union_prefer_right(as_map(*right1)));
                    assert(as_map(n2) == as_map(*left2).union_prefer_right(as_map(*right2)));
                    lemma_same_split(prefix1@, *left1, *right1, prefix2@, *left2, *right2);
                    lemma_half_maps(prefix1@, *left1, *right1, *left2, *right2);
                    let kl = Set::new(
                        |q: Seq<bool>| ks.contains(q) && is_prefix_of(prefix1@.push(false), q),
                    );
                    let kr = Set::new(
                        |q: Seq<bool>| ks.contains(q) && is_prefix_of(prefix1@.push(true), q),
                    );
                    assert(Set::new(
                        |q: Seq<bool>| ks.contains(q) && is_prefix_of(prefix2@.push(false), q),
                    ) =~= kl);
                    assert(Set::new(
                        |q: Seq<bool>| ks.contains(q) && is_prefix_of(prefix2@.push(true), q),
                    ) =~= kr);
                    if !(kl == Set::<Seq<bool>>::empty() && kr == Set::<Seq<bool>>::empty()) {
                        match r1 {
                            ProofNode::Split { prefix: _, left: rl1, right: rr1 } => {
                                match r2 {
                                    ProofNode::Split { prefix: _, left: rl2, right: rr2 } => {
                                        lemma_shaped_like(*left1, *left2, kl, *rl1, *rl2);
                                        lemma_shaped_like(*right1, *right2, kr, *rr1, *rr2);
                                    },
                                    _ => {
                                        assert(false);
                                    },
                                }
                            },
                            _ => {
                                assert(false);
                            },
                        }
                    }
                },
            }
        },
    }
}

/// Equal concatenations with equally long first parts split equally.
proof fn lemma_concat_cancel(a1: Seq<u8>, r1: Seq<u8>, a2: Seq<u8>, r2: Seq<u8>)
    requires
        a1.len() == a2.len(),
        a1 + r1 == a2 + r2,
    ensures
        a1 == a2,
        r1 == r2,
{
    assert((a1 + r1).len() == a1.len() + r1.len());
    assert((a2 + r2).len() == a2.len() + r2.len());
    assert(r1.len() == r2.len());
    assert(a1 =~= a2) by {
        assert forall|i: int| 0 <= i < a1.len() implies a1[i] == a2[i] by {
            assert((a1 + r1)[i] == a1[i]);
            assert((a2 + r2)[i] == a2[i]);
        }
    }
    assert(r1 =~= r2) by {
        assert forall|i: int| 0 <= i < r1.len() implies r1[i] == r2[i] by {
            assert((a1 + r1)[a1.len() + i] == r1[i]);
            assert((a2 + r2)[a2.len() + i] == r2[i]);
        }
    }
}

/// An encoded bit string is self-delimiting: whatever bytes follow it,
/// equal streams mean equal bit strings and equal remainders.
#[verifier::rlimit(60)]
proof fn lemma_enc_bits_prefix(b1: Seq<bool>, r1: Seq<u8>, b2: Seq<bool>, r2: Seq<u8>)
    requires
        b1.len() <= 65535,
        b2.len() <= 65535,
        enc_bits(b1) + r1 == enc_bits(b2) + r2,
    ensures
        b1 == b2,
        r1 == r2,
{
    let s = enc_bits(b1) + r1;
    assert(le2(b1.len() as int) =~= le2(b2.len() as int)) by {
        assert(s[0] == le2(b1.len() as int)[0] && s[1] == le2(b1.len() as int)[1]);
        assert((enc_bits(b2) + r2)[0] == le2(b2.len() as int)[0] && (enc_bits(b2) + r2)[1] == le2(
            b2.len() as int,
        )[1]);
    }
    lemma_le2_injective(b1.len() as int, b2.len() as int);
    lemma_concat_cancel(enc_bits(b1), r1, enc_bits(b2), r2);
    lemma_concat_cancel(le2(b1.len() as int), pack_bits(b1), le2(b2.len() as int), pack_bits(b2));
    lemma_pack_injective(b1, b2);
}

/// An encoded byte string is self-delimiting in the same way.
#[verifier::rlimit(60)]
proof fn lemma_enc_bytes_prefix(v1: Seq<u8>, r1: Seq<u8>, v2: Seq<u8>, r2: Seq<u8>)
    requires
        v1.len() < 0x10000000000000000,
        v2.len() < 0x10000000000000000,
        enc_bytes(v1) + r1 == enc_bytes(v2) + r2,
    ensures
        v1 == v2,
        r1 == r2,
{
    let s = enc_bytes(v1) + r1;
    assert(le8(v1.len() as int) =~= le8(v2.len() as int)) by {
        assert forall|i: int| 0 <= i < 8 implies le8(v1.len() as int)[i] == le8(
            v2.len() as int,
        )[i] by {
            assert(s[i] == le8(v1.len() as int)[i]);
            assert((enc_bytes(v2) + r2)[i] == le8(v2.len() as int)[i]);
        }
    }
    lemma_le8_injective(v1.len() as int, v2.len() as int);
    lemma_concat_cancel(enc_bytes(v1), r1, enc_bytes(v2), r2);
    lemma_concat_cancel(le8(v1.len() as int), v1, le8(v2.len() as int), v2);
}

/// What a `Vec` holds is always shorter than 2^64.
proof fn lemma_vec_len_bound<T>(v: &Vec<T>)
    ensures
        v@.len() <= usize::MAX,
        v@.len() < 0x10000000000000000,
{
    assert(vstd::std_specs::vec::spec_vec_len(v) == v@.len());
}

/// An encoded node is self-delimiting: equal streams mean equivalent
/// nodes and equal remainders.
#[verifier::rlimit(80)]
proof fn lemma_enc_node_prefix(p1: ProofNode, r1: Seq<u8>, p2: ProofNode, r2: Seq<u8>)
    requires
        pf_sized(p1),
        pf_sized(p2),
        enc_node(p1) + r1 == enc_node(p2) + r2,
    ensures
        pf_like(p1, p2),
        r1 == r2,
    decreases p1,
{
    let s = enc_node(p1) + r1;
    assert(s[0] == enc_node(p1)[0]);
    assert((enc_node(p2) + r2)[0] == enc_node(p2)[0]);
    match p1 {
        ProofNode::Pruned { head: h1, digest: d1 } => {
            match p2 {
                ProofNode::Pruned { head: h2, digest: d2 } => {
                    lemma_vec_len_bound(&d1);
                    lemma_vec_len_bound(&d2);
                    assert(enc_bits(h1@) + (enc_bytes(d1@) + r1) =~= s.skip(1));
                    assert(enc_bits(h2@) + (enc_bytes(d2@) + r2) =~= (enc_node(p2) + r2).skip(1));
                    lemma_enc_bits_prefix(h1@, enc_bytes(d1@) + r1, h2@, enc_bytes(d2@) + r2);
                    lemma_enc_bytes_prefix(d1@, r1, d2@, r2);
                },
                ProofNode::Shown { .. } => {
                    assert(false);
                },
                ProofNode::Split { .. } => {
                    assert(false);
                },
            }
        },
        ProofNode::Shown { path: h1, value: v1 } => {
            match p2 {
                ProofNode::Pruned { .. } => {
                    assert(false);
                },
                ProofNode::Shown { path: h2, value: v2 } => {
                    lemma_vec_len_bound(&v1);
                    lemma_vec_len_bound(&v2);
                    assert(enc_bits(h1@) + (enc_bytes(v1@) + r1) =~= s.skip(1));
                    assert(enc_bits(h2@) + (enc_bytes(v2@) + r2) =~= (enc_node(p2) + r2).skip(1));
                    lemma_enc_bits_prefix(h1@, enc_bytes(v1@) + r1, h2@, enc_bytes(v2@) + r2);
                    lemma_enc_bytes_prefix(v1@, r1, v2@, r2);
                },
                ProofNode::Split { .. } => {
                    assert(false);
                },
            }
        },
        ProofNode::Split { prefix: q1, left: l1, right: t1 } => {
            match p2 {
                ProofNode::Pruned { .. } => {
                    assert(false);
                },
                ProofNode::Shown { .. } => {
                    assert(false);
                },
                ProofNode::Split { prefix: q2, left: l2, right: t2 } => {
                    assert(enc_bits(q1@) + (enc_node(*l1) + (enc_node(*t1) + r1)) =~= s.skip(1));
                    assert(enc_bits(q2@) + (enc_node(*l2) + (enc_node(*t2) + r2)) =~= (enc_node(
                        p2,
                    ) + r2).skip(1));
                    lemma_enc_bits_prefix(
                        q1@,
                        enc_node(*l1) + (enc_node(*t1) + r1),
                        q2@,
                        enc_node(*l2) + (enc_node(*t2) + r2),
                    );
                    lemma_enc_node_prefix(*l1, enc_node(*t1) + r1, *l2, enc_node(*t2) + r2);
                    lemma_enc_node_prefix(*t1, r1, *t2, r2);
                },
            }
        },
    }
}

/// Two proof entries carrying the same key and claim.
pub open spec fn entry_like(
    a: (Vec<u8>, Option<Vec<u8>>),
    b: (Vec<u8>, Option<Vec<u8>>),
) -> bool {
    a.0@ == b.0@ && (match (a.1, b.1) {
        (Some(v1), Some(v2)) => v1@ == v2@,
        (None, None) => true,
        _ => false,
    })
}

/// The entry list encodes front to back.
proof fn lemma_enc_entries_front(s: Seq<(Vec<u8>, Option<Vec<u8>>)>)
    requires
        s.len() > 0,
    ensures
        enc_entries(s) == enc_entry(s[0]) + enc_entries(s.drop_first()),
    decreases s.len(),
{
    if s.len() == 1 {
        assert(s.drop_last() =~= Seq::<(Vec<u8>, Option<Vec<u8>>)>::empty());
        assert(s.drop_first() =~= Seq::<(Vec<u8>, Option<Vec<u8>>)>::empty());
        assert(s.last() == s[0]);
        assert(enc_entries(s) =~= enc_entry(s[0]) + enc_entries(s.drop_first()));
    } else {
        lemma_enc_entries_front(s.drop_last());
        assert(s.drop_last()[0] == s[0]);
        assert(s.drop_last().drop_first() =~= s.drop_first().drop_last());
        assert(s.drop_first().last() == s.last());
        assert(enc_entries(s.drop_first()) == enc_entries(s.drop_first().drop_last())
            + enc_entry(s.drop_first().last()));
        assert(enc_entries(s) =~= enc_entry(s[0]) + enc_entries(s.drop_first()));
    }
}

/// An encoded entry is self-delimiting.
proof fn lemma_enc_entry_prefix(
    e1: (Vec<u8>, Option<Vec<u8>>),
    r1: Seq<u8>,
    e2: (Vec<u8>, Option<Vec<u8>>),
    r2: Seq<u8>,
)
    requires
        enc_entry(e1) + r1 == enc_entry(e2) + r2,
    ensures
        entry_like(e1, e2),
        r1 == r2,
{
    lemma_vec_len_bound(&e1.0);
    lemma_vec_len_bound(&e2.0);
    let t1 = enc_opt(e1.1);
    let t2 = enc_opt(e2.1);
    assert(enc_bytes(e1.0@) + (t1 + r1) =~= enc_entry(e1) + r1);
    assert(enc_bytes(e2.0@) + (t2 + r2) =~= enc_entry(e2) + r2);
    lemma_enc_bytes_prefix(e1.0@, t1 + r1, e2.0@, t2 + r2);
    assert((t1 + r1)[0] == t1[0] && (t2 + r2)[0] == t2[0]);
    match e1.1 {
        None => {
            match e2.1 {
                None => {
                    lemma_concat_cancel(t1, r1, t2, r2);
                },
                Some(_) => {
                    assert(false);
                },
            }
        },
        Some(v1) => {
            match e2.1 {
                None => {
                    assert(false);
                },
                Some(v2) => {
                    lemma_vec_len_bound(&v1);
                    lemma_vec_len_bound(&v2);
                    assert(enc_bytes(v1@) + r1 =~= (t1 + r1).drop_first());
                    assert(enc_bytes(v2@) + r2 =~= (t2 + r2).drop_first());
                    lemma_enc_bytes_prefix(v1@, r1, v2@, r2);
                },
            }
        },
    }
}

/// Equally long encoded entry lists with one byte stream hold pairwise
/// equivalent entries.
proof fn lemma_enc_entries_prefix(
    s1: Seq<(Vec<u8>, Option<Vec<u8>>)>,
    s2: Seq<(Vec<u8>, Option<Vec<u8>>)>,
)
    requires
        s1.len() == s2.len(),
        enc_entries(s1) == enc_entries(s2),
    ensures
        forall|i: int| 0 <= i < s1.len() ==> entry_like(#[trigger] s1[i], s2[i]),
    decreases s1.len(),
{
    if s1.len() > 0 {
        lemma_enc_entries_front(s1);
        lemma_enc_entries_front(s2);
        lemma_enc_entry_prefix(s1[0], enc_entries(s1.drop_first()), s2[0], enc_entries(
            s2.drop_first(),
        ));
        lemma_enc_entries_prefix(s1.drop_first(), s2.drop_first());
        assert forall|i: int| 0 <= i < s1.len() implies entry_like(#[trigger] s1[i], s2[i]) by {
            if i > 0 {
                assert(entry_like(s1.drop_first()[i - 1], s2.drop_first()[i - 1]));
            }
        }
    }
}

/// Behind a parsed root part, every proof encoded in `bytes` carries
/// its entry count and then its entries, to the very end.
proof fn lemma_root_frame(bytes: Seq<u8>, root: Option<ProofNode>, after_root: int)
    requires
        1 <= after_root <= bytes.len(),
        match root {
            None => after_root == 1 && bytes[0] == 0u8,
            Some(n) => bytes[0] == 1u8 && pf_sized(n) && enc_node(n) == bytes.subrange(
                1,
                after_root,
            ),
        },
    ensures
        forall|pfw: MapProof| #[trigger]
            encodes(bytes, pfw) ==> after_root + 8 <= bytes.len() && pfw.entries@.len()
                <= usize::MAX && le8(pfw.entries@.len() as int) == bytes.subrange(
                after_root,
                after_root + 8,
            ) && enc_entries(pfw.entries@) == bytes.subrange(after_root + 8, bytes.len() as int),
{
    assert forall|pfw: MapProof| #[trigger] encodes(bytes, pfw) implies after_root + 8
        <= bytes.len() && pfw.entries@.len() <= usize::MAX && le8(pfw.entries@.len() as int)
        == bytes.subrange(after_root, after_root + 8) && enc_entries(pfw.entries@)
        == bytes.subrange(after_root + 8, bytes.len() as int) by {
        lemma_proof_head(bytes, pfw);
        lemma_vec_len_bound(&pfw.entries);
        let ta = le8(pfw.entries@.len() as int) + enc_entries(pfw.entries@);
        assert(ta.len() >= 8);
        match pfw.root {
            None => {
                assert(bytes.skip(1) =~= ta);
                assert(bytes.len() - 1 == ta.len());
                assert(le8(pfw.entries@.len() as int) =~= bytes.subrange(
                    after_root,
                    after_root + 8,
                ));
                assert(enc_entries(pfw.entries@) =~= bytes.subrange(
                    after_root + 8,
                    bytes.len() as int,
                ));
            },
            Some(nw) => {
                let parsed = root->0;
                assert(bytes.skip(1) =~= enc_node(parsed) + bytes.skip(after_root));
                assert(bytes.skip(1) =~= enc_node(nw) + ta);
                lemma_enc_node_prefix(nw, ta, parsed, bytes.skip(after_root));
                assert(bytes.skip(after_root) == ta);
                assert(bytes.len() - after_root == ta.len());
                assert(le8(pfw.entries@.len() as int) =~= bytes.subrange(
                    after_root,
                    after_root + 8,
                ));
                assert(enc_entries(pfw.entries@) =~= bytes.subrange(
                    after_root + 8,
                    bytes.len() as int,
                ));
            },
        }
    }
}

/// With the entry count parsed, every proof encoded in `bytes` has
/// exactly that many entries, encoded from here to the very end.
proof fn lemma_count_frame(bytes: Seq<u8>, after_root: int, count: int)
    requires
        0 <= after_root,
        after_root + 8 <= bytes.len(),
        0 <= count <= usize::MAX,
        le8(count) == bytes.subrange(after_root, after_root + 8),
        forall|pfw: MapProof| #[trigger]
            encodes(bytes, pfw) ==> pfw.entries@.len() <= usize::MAX && le8(
                pfw.entries@.len() as int,
            ) == bytes.subrange(after_root, after_root + 8) && enc_entries(pfw.entries@)
                == bytes.subrange(after_root + 8, bytes.len() as int),
    ensures
        forall|pfw: MapProof| #[trigger]
            encodes(bytes, pfw) ==> pfw.entries@.len() == count && enc_entries(
                pfw.entries@.skip(0),
            ) == bytes.subrange(after_root + 8, bytes.len() as int),
{
    assert forall|pfw: MapProof| #[trigger] encodes(bytes, pfw) implies pfw.entries@.len() == count
        && enc_entries(pfw.entries@.skip(0)) == bytes.subrange(
        after_root + 8,
        bytes.len() as int,
    ) by {
        lemma_le8_injective(pfw.entries@.len() as int, count);
        assert(pfw.entries@.skip(0) =~= pfw.entries@);
    }
}

impl MapProof {
    /// The byte form pins a proof down: two proofs with one canonical
    /// encoding reconstruct the same root digest, certify the same
    /// entries, and are consistent under exactly the same regimes.
    pub proof fn lemma_encoding_injective(a: &MapProof, b: &MapProof)
        requires
            match a.root {
                Some(n) => pf_sized(n),
                None => true,
            },
            match b.root {
                Some(n) => pf_sized(n),
                None => true,
            },
            enc_proof(*a) == enc_proof(*b),
        ensures
            a.root_hash_spec() == b.root_hash_spec(),
            a.entry_list() == b.entry_list(),
            forall|regime: Regime| #[trigger] a.ok_for(regime) <==> b.ok_for(regime),
    {
        let ra = match a.root {
            None => seq![0u8],
            Some(n) => seq![1u8] + enc_node(n),
        };
        let rb = match b.root {
            None => seq![0u8],
            Some(n) => seq![1u8] + enc_node(n),
        };
        let ta = le8(a.entries@.len() as int) + enc_entries(a.entries@);
        let tb = le8(b.entries@.len() as int) + enc_entries(b.entries@);
        assert(ra + ta =~= enc_proof(*a));
        assert(rb + tb =~= enc_proof(*b));
        assert((ra + ta)[0] == ra[0] && (rb + tb)[0] == rb[0]);
        match a.root {
            None => {
                match b.root {
                    None => {
                        lemma_concat_cancel(ra, ta, rb, tb);
                    },
                    Some(_) => {
                        assert(false);
                    },
                }
            },
            Some(n1) => {
                match b.root {
                    None => {
                        assert(false);
                    },
                    Some(n2) => {
                        assert(enc_node(n1) + ta =~= (ra + ta).drop_first());
                        assert(enc_node(n2) + tb =~= (rb + tb).drop_first());
                        lemma_enc_node_prefix(n1, ta, n2, tb);
                        lemma_pf_like_hash(n1, n2);
                    },
                }
            },
        }
        assert(ta == tb);
        lemma_vec_len_bound(&a.entries);
        lemma_vec_len_bound(&b.entries);
        assert(le8(a.entries@.len() as int) =~= le8(b.entries@.len() as int)) by {
            assert forall|i: int| 0 <= i < 8 implies le8(a.entries@.len() as int)[i] == le8(
                b.entries@.len() as int,
            )[i] by {
                assert(ta[i] == le8(a.entries@.len() as int)[i]);
                assert(tb[i] == le8(b.entries@.len() as int)[i]);
            }
        }
        lemma_le8_injective(a.entries@.len() as int, b.entries@.len() as int);
        lemma_concat_cancel(
            le8(a.entries@.len() as int),
            enc_entries(a.entries@),
            le8(b.entries@.len() as int),
            enc_entries(b.entries@),
        );
        lemma_enc_entries_prefix(a.entries@, b.entries@);
        assert(a.entry_list() =~= b.entry_list()) by {
            assert forall|i: int| 0 <= i < a.entry_list().len() implies a.entry_list()[i]
                == b.entry_list()[i] by {
                assert(entry_like(a.entries@[i], b.entries@[i]));
            }
        }
        assert forall|regime: Regime| #[trigger] a.ok_for(regime) <==> b.ok_for(regime) by {
            assert forall|i: int| 0 <= i < a.entries@.len() implies (a.entry_ok(
                regime,
                a.entries@[i],
            ) <==> b.entry_ok(regime, b.entries@[i])) by {
                assert(entry_like(a.entries@[i], b.entries@[i]));
                match a.root {
                    Some(n1) => {
                        match b.root {
                            Some(n2) => {
                                lemma_pf_like_lookup(
                                    n1,
                                    n2,
                                    path_of(regime, a.entries@[i].0@),
                                );
                            },
                            None => {},
                        }
                    },
                    None => {},
                }
            }
            if a.ok_for(regime) {
                assert forall|i: int| 0 <= i < b.entries@.len() implies #[trigger] b.entry_ok(
                    regime,
                    b.entries@[i],
                ) by {
                    assert(a.entry_ok(regime, a.entries@[i]));
                }
            }
            if b.ok_for(regime) {
                assert forall|i: int| 0 <= i < a.entries@.len() implies #[trigger] a.entry_ok(
                    regime,
                    a.entries@[i],
                ) by {
                    assert(b.entry_ok(regime, b.entries@[i]));
                }
            }
        }
    }
}

} // verus!
