//! Bit strings. A path through the trie is a sequence of bits, most
//! significant bit of each byte first; a full leaf path has 256 bits.
//! This module converts byte strings to bit strings, packs bit strings
//! back into zero-padded bytes for digest input, and defines the
//! lexicographic order and common-prefix operations the trie relies on.

use vstd::arithmetic::div_mod::lemma_fundamental_div_mod;
use vstd::prelude::*;

verus! {

/// Number of bits in a full leaf path.
pub const PATH_BITS: usize = 256;

/// Number of bytes in a full path key.
pub const KEY_BYTES: usize = 32;

/// The eight bits of one byte, most significant first.
pub open spec fn byte_bits(b: u8) -> Seq<bool> {
    seq![
        b / 128 % 2 == 1,
        b / 64 % 2 == 1,
        b / 32 % 2 == 1,
        b / 16 % 2 == 1,
        b / 8 % 2 == 1,
        b / 4 % 2 == 1,
        b / 2 % 2 == 1,
        b % 2 == 1,
    ]
}

/// All bits of a byte string, most significant bit of each byte first.
pub open spec fn bits_of_bytes(bs: Seq<u8>) -> Seq<bool>
    decreases bs.len(),
{
    if bs.len() == 0 {
        Seq::empty()
    } else {
        bits_of_bytes(bs.drop_last()) + byte_bits(bs.last())
    }
}

pub proof fn lemma_bits_of_bytes_len(bs: Seq<u8>)
    ensures
        bits_of_bytes(bs).len() == 8 * bs.len(),
    decreases bs.len(),
{
    if bs.len() > 0 {
        lemma_bits_of_bytes_len(bs.drop_last());
    }
}

/// 1 if bit `i` of `bits` exists and is set, else 0.
pub open spec fn bval(bits: Seq<bool>, i: int) -> int {
    if 0 <= i < bits.len() && bits[i] {
        1
    } else {
        0
    }
}

/// The byte packing the eight bits of `bits` starting at `start`,
/// right-padded with zeros where `bits` ends.
pub open spec fn chunk_byte(bits: Seq<bool>, start: int) -> u8 {
    (bval(bits, start) * 128 + bval(bits, start + 1) * 64 + bval(bits, start + 2) * 32 + bval(
        bits,
        start + 3,
    ) * 16 + bval(bits, start + 4) * 8 + bval(bits, start + 5) * 4 + bval(bits, start + 6) * 2
        + bval(bits, start + 7)) as u8
}

/// A bit string packed into whole bytes, right-padded with zero bits.
pub open spec fn pack_bits(bits: Seq<bool>) -> Seq<u8> {
    Seq::new((((bits.len() + 7) / 8) as nat), |i: int| chunk_byte(bits, 8 * i))
}

/// `p` is a prefix of `a`.
pub open spec fn is_prefix_of(p: Seq<bool>, a: Seq<bool>) -> bool {
    p.len() <= a.len() && a.take(p.len() as int) == p
}

/// Strict lexicographic order on bit strings, false before true.
pub open spec fn bits_lt(a: Seq<bool>, b: Seq<bool>) -> bool
    decreases a.len(),
{
    if b.len() == 0 {
        false
    } else if a.len() == 0 {
        true
    } else if a[0] == b[0] {
        bits_lt(a.drop_first(), b.drop_first())
    } else {
        !a[0]
    }
}

/// Length of the longest common prefix of `a` and `b`.
pub open spec fn lcp_len(a: Seq<bool>, b: Seq<bool>) -> nat
    decreases a.len(),
{
    if a.len() == 0 || b.len() == 0 || a[0] != b[0] {
        0
    } else {
        1 + lcp_len(a.drop_first(), b.drop_first())
    }
}

pub proof fn lemma_prefix_trans(p: Seq<bool>, q: Seq<bool>, a: Seq<bool>)
    requires
        is_prefix_of(p, q),
        is_prefix_of(q, a),
    ensures
        is_prefix_of(p, a),
{
    assert(a.take(p.len() as int) =~= q.take(p.len() as int));
}

pub proof fn lemma_lcp_bounds(a: Seq<bool>, b: Seq<bool>)
    ensures
        lcp_len(a, b) <= a.len(),
        lcp_len(a, b) <= b.len(),
        a.take(lcp_len(a, b) as int) == b.take(lcp_len(a, b) as int),
        lcp_len(a, b) < a.len() && lcp_len(a, b) < b.len() ==> a[lcp_len(a, b) as int] != b[lcp_len(
            a,
            b,
        ) as int],
    decreases a.len(),
{
    if a.len() == 0 || b.len() == 0 || a[0] != b[0] {
        assert(a.take(0) =~= b.take(0));
    } else {
        lemma_lcp_bounds(a.drop_first(), b.drop_first());
        let k = lcp_len(a, b) as int;
        assert forall|i: int| 0 <= i < k implies a.take(k)[i] == b.take(k)[i] by {
            if i > 0 {
                assert(a.drop_first().take(k - 1)[i - 1] == b.drop_first().take(k - 1)[i - 1]);
            }
        }
        assert(a.take(k) =~= b.take(k));
        if k < a.len() && k < b.len() {
            assert(a.drop_first()[k - 1] != b.drop_first()[k - 1]);
        }
    }
}

/// Any common prefix of `a` and `b` is no longer than their longest one.
pub proof fn lemma_lcp_maximal(q: Seq<bool>, a: Seq<bool>, b: Seq<bool>)
    requires
        is_prefix_of(q, a),
        is_prefix_of(q, b),
    ensures
        q.len() <= lcp_len(a, b),
        is_prefix_of(q, a.take(lcp_len(a, b) as int)),
    decreases q.len(),
{
    lemma_lcp_bounds(a, b);
    if q.len() > 0 {
        assert(a[0] == q[0] && b[0] == q[0]) by {
            assert(a.take(q.len() as int)[0] == a[0]);
            assert(b.take(q.len() as int)[0] == b[0]);
        }
        assert(is_prefix_of(q.drop_first(), a.drop_first())) by {
            assert(a.drop_first().take(q.len() - 1) =~= a.take(q.len() as int).drop_first());
        }
        assert(is_prefix_of(q.drop_first(), b.drop_first())) by {
            assert(b.drop_first().take(q.len() - 1) =~= b.take(q.len() as int).drop_first());
        }
        lemma_lcp_maximal(q.drop_first(), a.drop_first(), b.drop_first());
        assert(q.len() <= lcp_len(a, b));
    }
    assert(a.take(q.len() as int) =~= a.take(lcp_len(a, b) as int).take(q.len() as int));
}

pub proof fn lemma_bits_lt_irrefl(a: Seq<bool>)
    ensures
        !bits_lt(a, a),
    decreases a.len(),
{
    if a.len() > 0 {
        lemma_bits_lt_irrefl(a.drop_first());
    }
}

pub proof fn lemma_bits_lt_asym(a: Seq<bool>, b: Seq<bool>)
    requires
        bits_lt(a, b),
    ensures
        !bits_lt(b, a),
    decreases a.len(),
{
    if a.len() > 0 && b.len() > 0 && a[0] == b[0] {
        lemma_bits_lt_asym(a.drop_first(), b.drop_first());
    }
}

pub proof fn lemma_bits_lt_trans(a: Seq<bool>, b: Seq<bool>, c: Seq<bool>)
    requires
        bits_lt(a, b),
        bits_lt(b, c),
    ensures
        bits_lt(a, c),
    decreases a.len(),
{
    if a.len() > 0 && b.len() > 0 && c.len() > 0 && a[0] == b[0] && b[0] == c[0] {
        lemma_bits_lt_trans(a.drop_first(), b.drop_first(), c.drop_first());
    }
}

/// Equal-length bit strings are totally ordered.
pub proof fn lemma_bits_lt_connex(a: Seq<bool>, b: Seq<bool>)
    requires
        a.len() == b.len(),
    ensures
        bits_lt(a, b) || bits_lt(b, a) || a == b,
    decreases a.len(),
{
    if a.len() > 0 && a[0] == b[0] {
        lemma_bits_lt_connex(a.drop_first(), b.drop_first());
        if a.drop_first() == b.drop_first() {
            assert forall|i: int| 0 <= i < a.len() implies a[i] == b[i] by {
                if i > 0 {
                    assert(a.drop_first()[i - 1] == b.drop_first()[i - 1]);
                }
            }
            assert(a =~= b);
        }
    }
}

/// Strings that agree on a common prefix and then split on one bit are
/// ordered: the one continuing with false comes first.
pub proof fn lemma_bits_lt_from_diff(a: Seq<bool>, b: Seq<bool>, i: int)
    requires
        0 <= i < a.len(),
        i < b.len(),
        a.take(i) == b.take(i),
        !a[i],
        b[i],
    ensures
        bits_lt(a, b),
    decreases i,
{
    if i == 0 {
    } else {
        assert(a[0] == b[0]) by {
            assert(a.take(i)[0] == a[0]);
            assert(b.take(i)[0] == b[0]);
        }
        assert(a.drop_first().take(i - 1) =~= a.take(i).drop_first());
        assert(b.drop_first().take(i - 1) =~= b.take(i).drop_first());
        lemma_bits_lt_from_diff(a.drop_first(), b.drop_first(), i - 1);
    }
}

/// Appends the eight bits of one byte, most significant first.
fn push_byte_bits(r: &mut Vec<bool>, b: u8)
    ensures
        final(r)@ == old(r)@ + byte_bits(b),
{
    proof {
        assert((b & 128 != 0) == (b / 128 % 2 == 1)) by (bit_vector);
        assert((b & 64 != 0) == (b / 64 % 2 == 1)) by (bit_vector);
        assert((b & 32 != 0) == (b / 32 % 2 == 1)) by (bit_vector);
        assert((b & 16 != 0) == (b / 16 % 2 == 1)) by (bit_vector);
        assert((b & 8 != 0) == (b / 8 % 2 == 1)) by (bit_vector);
        assert((b & 4 != 0) == (b / 4 % 2 == 1)) by (bit_vector);
        assert((b & 2 != 0) == (b / 2 % 2 == 1)) by (bit_vector);
        assert((b & 1 != 0) == (b % 2 == 1)) by (bit_vector);
    }
    r.push(b & 128 != 0);
    r.push(b & 64 != 0);
    r.push(b & 32 != 0);
    r.push(b & 16 != 0);
    r.push(b & 8 != 0);
    r.push(b & 4 != 0);
    r.push(b & 2 != 0);
    r.push(b & 1 != 0);
    proof {
        assert(r@ =~= old(r)@ + byte_bits(b));
    }
}

/// Converts a byte string to its bit string.
pub fn bytes_to_bits(bs: &Vec<u8>) -> (r: Vec<bool>)
    requires
        bs@.len() <= usize::MAX / 8,
    ensures
        r@ == bits_of_bytes(bs@),
        r@.len() == 8 * bs@.len(),
{
    proof {
        lemma_bits_of_bytes_len(bs@);
    }
    let mut r: Vec<bool> = Vec::new();
    let mut i: usize = 0;
    while i < bs.len()
        invariant
            i <= bs@.len(),
            bs@.len() <= usize::MAX / 8,
            r@ == bits_of_bytes(bs@.take(i as int)),
            r@.len() == 8 * i,
        decreases bs@.len() - i,
    {
        proof {
            lemma_bits_of_bytes_len(bs@.take(i as int));
        }
        let b = bs[i];
        push_byte_bits(&mut r, b);
        i = i + 1;
        proof {
            let s = bs@.take(i as int);
            assert(s.drop_last() =~= bs@.take(i - 1));
            assert(s.last() == b);
        }
    }
    proof {
        assert(bs@.take(bs@.len() as int) =~= bs@);
    }
    r
}

/// The byte packing eight bits of `bits` starting at `start`, zero-padded.
fn chunk8(bits: &Vec<bool>, start: usize) -> (r: u8)
    requires
        start + 8 <= usize::MAX,
    ensures
        r == chunk_byte(bits@, start as int),
{
    let n = bits.len();
    let mut v: u8 = 0;
    if start < n && bits[start] {
        v = v + 128;
    }
    if start + 1 < n && bits[start + 1] {
        v = v + 64;
    }
    if start + 2 < n && bits[start + 2] {
        v = v + 32;
    }
    if start + 3 < n && bits[start + 3] {
        v = v + 16;
    }
    if start + 4 < n && bits[start + 4] {
        v = v + 8;
    }
    if start + 5 < n && bits[start + 5] {
        v = v + 4;
    }
    if start + 6 < n && bits[start + 6] {
        v = v + 2;
    }
    if start + 7 < n && bits[start + 7] {
        v = v + 1;
    }
    v
}

/// Packs a bit string into whole bytes, right-padded with zero bits.
pub fn bits_to_bytes(bits: &Vec<bool>) -> (r: Vec<u8>)
    requires
        bits@.len() + 7 <= usize::MAX,
    ensures
        r@ == pack_bits(bits@),
{
    let nb = (bits.len() + 7) / 8;
    let mut r: Vec<u8> = Vec::new();
    let mut i: usize = 0;
    while i < nb
        invariant
            i <= nb,
            nb == (bits@.len() + 7) / 8,
            bits@.len() + 7 <= usize::MAX,
            r@.len() == i,
            forall|j: int| 0 <= j < i ==> r@[j] == chunk_byte(bits@, 8 * j),
        decreases nb - i,
    {
        let c = chunk8(bits, 8 * i);
        r.push(c);
        i = i + 1;
    }
    proof {
        assert(r@ =~= pack_bits(bits@));
    }
    r
}

/// True when the two bit strings are equal.
pub fn bits_eq(a: &Vec<bool>, b: &Vec<bool>) -> (r: bool)
    ensures
        r == (a@ == b@),
{
    if a.len() != b.len() {
        proof {
            assert(a@ != b@);
        }
        return false;
    }
    let mut i: usize = 0;
    while i < a.len()
        invariant
            i <= a@.len(),
            a@.len() == b@.len(),
            forall|j: int| 0 <= j < i ==> a@[j] == b@[j],
        decreases a@.len() - i,
    {
        if a[i] != b[i] {
            return false;
        }
        i = i + 1;
    }
    proof {
        assert(a@ =~= b@);
    }
    true
}

/// True when `p` is a prefix of `a`.
pub fn starts_with(a: &Vec<bool>, p: &Vec<bool>) -> (r: bool)
    ensures
        r == is_prefix_of(p@, a@),
{
    if p.len() > a.len() {
        return false;
    }
    let mut i: usize = 0;
    while i < p.len()
        invariant
            i <= p@.len(),
            p@.len() <= a@.len(),
            forall|j: int| 0 <= j < i ==> a@[j] == p@[j],
        decreases p@.len() - i,
    {
        if a[i] != p[i] {
            proof {
                assert(a@.take(p@.len() as int)[i as int] != p@[i as int]);
            }
            return false;
        }
        i = i + 1;
    }
    proof {
        assert(a@.take(p@.len() as int) =~= p@);
    }
    true
}

/// Connects the first point of disagreement to the common-prefix length.
proof fn lemma_lcp_from_diff(a: Seq<bool>, b: Seq<bool>, i: int)
    requires
        0 <= i <= a.len(),
        i <= b.len(),
        a.take(i) == b.take(i),
        i < a.len() && i < b.len() ==> a[i] != b[i],
    ensures
        lcp_len(a, b) == i,
    decreases i,
{
    if i == 0 {
    } else {
        assert(a[0] == b[0]) by {
            assert(a.take(i)[0] == a[0]);
            assert(b.take(i)[0] == b[0]);
        }
        assert(a.drop_first().take(i - 1) =~= a.take(i).drop_first());
        assert(b.drop_first().take(i - 1) =~= b.take(i).drop_first());
        lemma_lcp_from_diff(a.drop_first(), b.drop_first(), i - 1);
    }
}

/// Length of the longest common prefix of `a` and `b`.
pub fn common_prefix_len(a: &Vec<bool>, b: &Vec<bool>) -> (r: usize)
    ensures
        r == lcp_len(a@, b@),
{
    let n = if a.len() < b.len() {
        a.len()
    } else {
        b.len()
    };
    let mut i: usize = 0;
    while i < n && a[i] == b[i]
        invariant
            i <= n,
            n <= a@.len(),
            n <= b@.len(),
            n == a@.len() || n == b@.len(),
            forall|j: int| 0 <= j < i ==> a@[j] == b@[j],
        decreases n - i,
    {
        i = i + 1;
    }
    proof {
        assert(a@.take(i as int) =~= b@.take(i as int));
        lemma_lcp_from_diff(a@, b@, i as int);
    }
    i
}

/// The first `n` bits of `a`, as a new bit string.
pub fn bits_take(a: &Vec<bool>, n: usize) -> (r: Vec<bool>)
    requires
        n <= a@.len(),
    ensures
        r@ == a@.take(n as int),
{
    let mut r: Vec<bool> = Vec::new();
    let mut i: usize = 0;
    while i < n
        invariant
            i <= n,
            n <= a@.len(),
            r@ =~= a@.take(i as int),
        decreases n - i,
    {
        r.push(a[i]);
        i = i + 1;
        proof {
            assert(r@ =~= a@.take(i as int));
        }
    }
    r
}

/// The bits of `a` from position `n` on, as a new bit string.
pub fn bits_skip(a: &Vec<bool>, n: usize) -> (r: Vec<bool>)
    requires
        n <= a@.len(),
    ensures
        r@ == a@.skip(n as int),
{
    let mut r: Vec<bool> = Vec::new();
    let mut i: usize = n;
    while i < a.len()
        invariant
            n <= i <= a@.len(),
            r@ =~= a@.subrange(n as int, i as int),
        decreases a@.len() - i,
    {
        r.push(a[i]);
        i = i + 1;
        proof {
            assert(r@ =~= a@.subrange(n as int, i as int));
        }
    }
    proof {
        assert(a@.subrange(n as int, a@.len() as int) =~= a@.skip(n as int));
    }
    r
}

/// A copy of the bit string.
pub fn bits_clone(a: &Vec<bool>) -> (r: Vec<bool>)
    ensures
        r@ == a@,
{
    let mut r: Vec<bool> = Vec::new();
    let mut i: usize = 0;
    while i < a.len()
        invariant
            i <= a@.len(),
            r@ =~= a@.take(i as int),
        decreases a@.len() - i,
    {
        r.push(a[i]);
        i = i + 1;
        proof {
            assert(r@ =~= a@.take(i as int));
        }
    }
    proof {
        assert(a@.take(a@.len() as int) =~= a@);
    }
    r
}

/// A copy of the byte string.
pub fn bytes_clone(a: &Vec<u8>) -> (r: Vec<u8>)
    ensures
        r@ == a@,
{
    let mut r: Vec<u8> = Vec::new();
    let mut i: usize = 0;
    while i < a.len()
        invariant
            i <= a@.len(),
            r@ =~= a@.take(i as int),
        decreases a@.len() - i,
    {
        r.push(a[i]);
        i = i + 1;
        proof {
            assert(r@ =~= a@.take(i as int));
        }
    }
    proof {
        assert(a@.take(a@.len() as int) =~= a@);
    }
    r
}

/// True when the byte strings are equal.
pub fn bytes_eq(a: &Vec<u8>, b: &Vec<u8>) -> (r: bool)
    ensures
        r == (a@ == b@),
{
    if a.len() != b.len() {
        proof {
            assert(a@ != b@);
        }
        return false;
    }
    let mut i: usize = 0;
    while i < a.len()
        invariant
            i <= a@.len(),
            a@.len() == b@.len(),
            forall|j: int| 0 <= j < i ==> a@[j] == b@[j],
        decreases a@.len() - i,
    {
        if a[i] != b[i] {
            return false;
        }
        i = i + 1;
    }
    proof {
        assert(a@ =~= b@);
    }
    true
}

/// Appends `src` to `dst`.
pub fn push_bytes(dst: &mut Vec<u8>, src: &Vec<u8>)
    ensures
        final(dst)@ == old(dst)@ + src@,
{
    let mut i: usize = 0;
    while i < src.len()
        invariant
            i <= src@.len(),
            dst@ =~= old(dst)@ + src@.take(i as int),
        decreases src@.len() - i,
    {
        dst.push(src[i]);
        i = i + 1;
        proof {
            assert(dst@ =~= old(dst)@ + src@.take(i as int));
        }
    }
    proof {
        assert(old(dst)@ + src@.take(src@.len() as int) =~= old(dst)@ + src@);
    }
}

/// `a <= b` in the lexicographic order, for equal-length bit strings.
pub fn bits_le(a: &Vec<bool>, b: &Vec<bool>) -> (r: bool)
    requires
        a@.len() == b@.len(),
    ensures
        r == (a@ == b@ || bits_lt(a@, b@)),
{
    let mut i: usize = 0;
    while i < a.len()
        invariant
            i <= a@.len(),
            a@.len() == b@.len(),
            forall|j: int| 0 <= j < i ==> a@[j] == b@[j],
        decreases a@.len() - i,
    {
        if a[i] != b[i] {
            proof {
                assert(a@.take(i as int) =~= b@.take(i as int));
            }
            if !a[i] {
                proof {
                    lemma_bits_lt_from_diff(a@, b@, i as int);
                }
                return true;
            } else {
                proof {
                    lemma_bits_lt_from_diff(b@, a@, i as int);
                    lemma_bits_lt_asym(b@, a@);
                }
                return false;
            }
        }
        i = i + 1;
    }
    proof {
        assert(a@ =~= b@);
    }
    true
}

/// Bit `i` of a byte string's bit string is bit `i % 8` of byte `i / 8`.
pub proof fn lemma_bits_of_bytes_index(bs: Seq<u8>, i: int)
    requires
        0 <= i < 8 * bs.len(),
    ensures
        bits_of_bytes(bs)[i] == byte_bits(bs[i / 8])[i % 8],
    decreases bs.len(),
{
    lemma_bits_of_bytes_len(bs);
    lemma_bits_of_bytes_len(bs.drop_last());
    lemma_fundamental_div_mod(i, 8);
    let last = bs.len() - 1;
    if i < 8 * last {
        lemma_bits_of_bytes_index(bs.drop_last(), i);
        assert(i / 8 < last);
        assert(bs.drop_last()[i / 8] == bs[i / 8]);
    } else {
        assert(i / 8 == last && i % 8 == i - 8 * last);
        assert(bits_of_bytes(bs)[i] == byte_bits(bs.last())[i - 8 * last]);
    }
}

/// Each bit of a packed byte is the bit it packed, zero past the end.
pub proof fn lemma_chunk_bit(bits: Seq<bool>, s: int, j: int)
    requires
        0 <= j < 8,
    ensures
        byte_bits(chunk_byte(bits, s))[j] == (bval(bits, s + j) == 1),
{
    let a0 = bval(bits, s);
    let a1 = bval(bits, s + 1);
    let a2 = bval(bits, s + 2);
    let a3 = bval(bits, s + 3);
    let a4 = bval(bits, s + 4);
    let a5 = bval(bits, s + 5);
    let a6 = bval(bits, s + 6);
    let a7 = bval(bits, s + 7);
    let c = chunk_byte(bits, s);
    assert(c as int == a0 * 128 + a1 * 64 + a2 * 32 + a3 * 16 + a4 * 8 + a5 * 4 + a6 * 2 + a7);
    assert(c as int / 128 == a0) by {
        lemma_fundamental_div_mod(c as int, 128);
    }
    assert(c as int / 64 == a0 * 2 + a1) by {
        lemma_fundamental_div_mod(c as int, 64);
    }
    assert(c as int / 32 == a0 * 4 + a1 * 2 + a2) by {
        lemma_fundamental_div_mod(c as int, 32);
    }
    assert(c as int / 16 == a0 * 8 + a1 * 4 + a2 * 2 + a3) by {
        lemma_fundamental_div_mod(c as int, 16);
    }
    assert(c as int / 8 == a0 * 16 + a1 * 8 + a2 * 4 + a3 * 2 + a4) by {
        lemma_fundamental_div_mod(c as int, 8);
    }
    assert(c as int / 4 == a0 * 32 + a1 * 16 + a2 * 8 + a3 * 4 + a4 * 2 + a5) by {
        lemma_fundamental_div_mod(c as int, 4);
    }
    assert(c as int / 2 == a0 * 64 + a1 * 32 + a2 * 16 + a3 * 8 + a4 * 4 + a5 * 2 + a6) by {
        lemma_fundamental_div_mod(c as int, 2);
    }
    assert(c as int % 2 == a7) by {
        lemma_fundamental_div_mod(c as int, 2);
    }
    assert((c as int / 128) % 2 == a0) by {
        lemma_fundamental_div_mod(a0, 2);
    }
    assert((c as int / 64) % 2 == a1) by {
        lemma_fundamental_div_mod(a0 * 2 + a1, 2);
    }
    assert((c as int / 32) % 2 == a2) by {
        lemma_fundamental_div_mod(a0 * 4 + a1 * 2 + a2, 2);
    }
    assert((c as int / 16) % 2 == a3) by {
        lemma_fundamental_div_mod(a0 * 8 + a1 * 4 + a2 * 2 + a3, 2);
    }
    assert((c as int / 8) % 2 == a4) by {
        lemma_fundamental_div_mod(a0 * 16 + a1 * 8 + a2 * 4 + a3 * 2 + a4, 2);
    }
    assert((c as int / 4) % 2 == a5) by {
        lemma_fundamental_div_mod(a0 * 32 + a1 * 16 + a2 * 8 + a3 * 4 + a4 * 2 + a5, 2);
    }
    assert((c as int / 2) % 2 == a6) by {
        lemma_fundamental_div_mod(a0 * 64 + a1 * 32 + a2 * 16 + a3 * 8 + a4 * 4 + a5 * 2 + a6, 2);
    }
}

/// Unpacking a packed bit string gives the bits back, then zero padding.
pub proof fn lemma_unpack_pack(b: Seq<bool>)
    ensures
        bits_of_bytes(pack_bits(b)).take(b.len() as int) == b,
{
    let packed = pack_bits(b);
    lemma_bits_of_bytes_len(packed);
    assert(8 * packed.len() >= b.len()) by {
        lemma_fundamental_div_mod(b.len() + 7 as int, 8);
    }
    assert forall|i: int| 0 <= i < b.len() implies bits_of_bytes(packed)[i] == b[i] by {
        lemma_fundamental_div_mod(i, 8);
        let q = i / 8;
        let j = i % 8;
        assert(q < packed.len()) by {
            lemma_fundamental_div_mod(b.len() + 7 as int, 8);
        }
        lemma_bits_of_bytes_index(packed, i);
        assert(packed[q] == chunk_byte(b, 8 * q));
        lemma_chunk_bit(b, 8 * q, j);
        assert(byte_bits(chunk_byte(b, 8 * q))[j] == (bval(b, i) == 1));
    }
    assert(bits_of_bytes(packed).take(b.len() as int) =~= b);
}

} // verus!
