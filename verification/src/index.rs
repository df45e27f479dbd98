//! The authenticated map. A `ProofMapIndex` binds a key regime, fixed at
//! construction, to a trie over 256-bit paths: under the raw regime a key
//! must be exactly 32 bytes and is used verbatim as the path; under the
//! hashed regime a key of any length is hashed and the digest is the
//! path. The map abstracts to a map from paths to (key, payload) pairs,
//! and the root digest is a function of that map alone.

use vstd::prelude::*;

use crate::bits::{
    bits_eq, bits_le, bits_lt, bits_of_bytes, bytes_clone, bytes_to_bits,
    lcp_len, lemma_bits_lt_asym, lemma_bits_lt_connex, lemma_bits_lt_irrefl, lemma_bits_lt_trans,
    lemma_lcp_bounds, lemma_lcp_maximal, KEY_BYTES, PATH_BITS,
};
use crate::digest::{branch_digest, compute_empty_digest, empty_map_digest, leaf_digest, sha256, sha256_of};
use crate::codec::{enc_node, lemma_pf_like_enc, lemma_pf_like_hash, lemma_shaped_like};
use crate::map_proof::{covered, pf_hash, prune, seq_paths, shaped, MapProof, ProofNode};
use crate::trie::{
    as_map, entry_seq, head, lemma_canonical, lemma_entry_seq, lemma_has_key,
    lemma_key_has_prefix, lemma_side_bit, lemma_two_keys, compute_node_hash, node_entries,
    node_get, node_hash, node_insert, node_remove, wf, Node,
};

verus! {

/// How caller keys become 256-bit paths: used verbatim (raw, 32-byte
/// keys only) or hashed first (any length).
#[derive(Clone, Copy, PartialEq, Eq, Structural, Debug)]
pub enum Regime {
    Raw,
    Hashed,
}

/// Contract violations the map reports instead of panicking.
#[derive(Clone, Copy, PartialEq, Eq, Structural, Debug)]
pub enum MapError {
    /// A raw-regime key that is not exactly 32 bytes.
    InvalidKeyLength,
    /// A mutating call against a read-only snapshot.
    MutationOnSnapshot,
    /// A write addressed to a map that was never created.
    UnknownAddress,
}

/// The path a key addresses under a regime.
pub open spec fn path_of(regime: Regime, key: Seq<u8>) -> Seq<bool> {
    match regime {
        Regime::Raw => bits_of_bytes(key),
        Regime::Hashed => bits_of_bytes(sha256_of(key)),
    }
}

/// A key the regime accepts: raw keys must be exactly 32 bytes.
pub open spec fn key_ok(regime: Regime, key: Seq<u8>) -> bool {
    regime == Regime::Hashed || key.len() == KEY_BYTES
}

/// Normalises a key to its path, rejecting malformed raw keys.
pub fn key_path(regime: Regime, key: &Vec<u8>) -> (r: Result<Vec<bool>, MapError>)
    ensures
        match r {
            Ok(p) => key_ok(regime, key@) && p@ == path_of(regime, key@) && p@.len() == PATH_BITS,
            Err(e) => !key_ok(regime, key@) && e == MapError::InvalidKeyLength,
        },
{
    match regime {
        Regime::Raw => {
            if key.len() == KEY_BYTES {
                Ok(bytes_to_bits(key))
            } else {
                Err(MapError::InvalidKeyLength)
            }
        },
        Regime::Hashed => {
            let digest = sha256(key);
            Ok(bytes_to_bits(&digest))
        },
    }
}


/// The paths a sequence of requested keys addresses under a regime.
pub open spec fn requested_paths(regime: Regime, keys: Seq<Vec<u8>>) -> Set<Seq<bool>> {
    Set::new(
        |q: Seq<bool>| exists|j: int|
            0 <= j < keys.len() && q == path_of(regime, (#[trigger] keys[j])@),
    )
}

/// Some entry's key addresses the same path as `key` does.
pub open spec fn lists_path(
    entries: Seq<(Seq<u8>, Option<Seq<u8>>)>,
    regime: Regime,
    key: Seq<u8>,
) -> bool {
    exists|i: int|
        0 <= i < entries.len() && path_of(regime, (#[trigger] entries[i]).0) == path_of(
            regime,
            key,
        )
}

/// The key addresses the same path as one of the requested keys.
pub open spec fn key_requested(regime: Regime, keys: Seq<Vec<u8>>, key: Seq<u8>) -> bool {
    exists|j: int|
        0 <= j < keys.len() && path_of(regime, key) == path_of(regime, (#[trigger] keys[j])@)
}

/// A key requested among the first `j1` stays requested among more.
proof fn lemma_key_requested_grow(regime: Regime, keys: Seq<Vec<u8>>, j1: int, j2: int, key: Seq<u8>)
    requires
        0 <= j1 <= j2 <= keys.len(),
        key_requested(regime, keys.take(j1), key),
    ensures
        key_requested(regime, keys.take(j2), key),
{
    let j = choose|j: int|
        0 <= j < keys.take(j1).len() && path_of(regime, key) == path_of(
            regime,
            (#[trigger] keys.take(j1)[j])@,
        );
    assert(keys.take(j2)[j] == keys.take(j1)[j]);
}

/// Some listed path equals `q`.
pub open spec fn has_path(paths: Seq<Vec<bool>>, q: Seq<bool>) -> bool {
    exists|u: int| 0 <= u < paths.len() && (#[trigger] paths[u])@ == q
}

/// The rows of `s` whose path is not below `from`, in their given order.
pub open spec fn tail_from(
    s: Seq<(Seq<bool>, Seq<u8>, Seq<u8>)>,
    from: Seq<bool>,
) -> Seq<(Seq<bool>, Seq<u8>, Seq<u8>)>
    decreases s.len(),
{
    if s.len() == 0 {
        Seq::empty()
    } else if bits_lt(s.last().0, from) {
        tail_from(s.drop_last(), from)
    } else {
        tail_from(s.drop_last(), from).push(s.last())
    }
}


/// The map value after storing a sequence of (path, entry) rows into a
/// starting value, first row first. Each step is exactly what one `put`
/// ensures of the map's value.
pub open spec fn after_puts(
    m: Map<Seq<bool>, (Seq<u8>, Seq<u8>)>,
    rows: Seq<(Seq<bool>, (Seq<u8>, Seq<u8>))>,
) -> Map<Seq<bool>, (Seq<u8>, Seq<u8>)>
    decreases rows.len(),
{
    if rows.len() == 0 {
        m
    } else {
        after_puts(m, rows.drop_last()).insert(rows.last().0, rows.last().1)
    }
}

/// The row appears somewhere in the sequence.
pub open spec fn row_listed(
    rows: Seq<(Seq<bool>, (Seq<u8>, Seq<u8>))>,
    x: (Seq<bool>, (Seq<u8>, Seq<u8>)),
) -> bool {
    exists|i: int| 0 <= i < rows.len() && #[trigger] rows[i] == x
}

/// No two rows address one path.
pub open spec fn distinct_paths(rows: Seq<(Seq<bool>, (Seq<u8>, Seq<u8>))>) -> bool {
    forall|a: int, b: int|
        0 <= a < b < rows.len() ==> (#[trigger] rows[a]).0 != (#[trigger] rows[b]).0
}

/// The map value after mutating a starting value with a sequence of
/// view-level operations: a row with an entry stores it (as `put`
/// ensures), a row without one removes the path (as `remove` ensures).
pub open spec fn after_ops(
    m: Map<Seq<bool>, (Seq<u8>, Seq<u8>)>,
    ops: Seq<(Seq<bool>, Option<(Seq<u8>, Seq<u8>)>)>,
) -> Map<Seq<bool>, (Seq<u8>, Seq<u8>)>
    decreases ops.len(),
{
    if ops.len() == 0 {
        m
    } else {
        match ops.last().1 {
            Some(entry) => after_ops(m, ops.drop_last()).insert(ops.last().0, entry),
            None => after_ops(m, ops.drop_last()).remove(ops.last().0),
        }
    }
}

/// The authenticated key-value map.
pub struct ProofMapIndex {
    regime: Regime,
    root: Option<Node>,
}

impl View for ProofMapIndex {
    type V = Map<Seq<bool>, (Seq<u8>, Seq<u8>)>;

    closed spec fn view(&self) -> Map<Seq<bool>, (Seq<u8>, Seq<u8>)> {
        match self.root {
            Some(n) => as_map(n),
            None => Map::empty(),
        }
    }
}

impl ProofMapIndex {
    /// The regime fixed at construction.
    pub closed spec fn regime(&self) -> Regime {
        self.regime
    }

    /// The root digest as a function of the map's state.
    pub closed spec fn hash_spec(&self) -> Seq<u8> {
        match self.root {
            Some(n) => node_hash(n),
            None => empty_map_digest(),
        }
    }

    /// The proof's pruned view is the map's trie pruned against the
    /// requested path set — witness for witness. Since the trie is in
    /// canonical form (a function of the map's value alone), the pruned
    /// view, and so its serialisation, is a function of the map's value
    /// and the requested path set.
    pub closed spec fn pruned_view_ok(&self, r: ProofNode, ks: Set<Seq<bool>>) -> bool {
        match self.root {
            Some(n) => shaped(r, n, ks),
            None => false,
        }
    }

    /// The map's validity: the trie is well formed and every stored
    /// entry sits at the path its own key addresses. Holds of every
    /// value of the type; lemmas take it as an explicit hypothesis.
    #[verifier::type_invariant]
    pub closed spec fn inv(&self) -> bool {
        &&& match self.root {
            Some(n) => wf(n),
            None => true,
        }
        &&& forall|p: Seq<bool>| #[trigger]
            self.view().contains_key(p) ==> p == path_of(self.regime, self.view()[p].0)
                && key_ok(self.regime, self.view()[p].0)
    }

    /// Creates an empty map under the given key regime.
    pub fn new(regime: Regime) -> (r: Self)
        ensures
            r@ == Map::<Seq<bool>, (Seq<u8>, Seq<u8>)>::empty(),
            r.regime() == regime,
    {
        ProofMapIndex { regime, root: None }
    }

    /// Returns the payload stored for `key`, or `None` when the key is
    /// absent. A malformed raw key is a contract violation.
    pub fn get(&self, key: &Vec<u8>) -> (r: Result<Option<Vec<u8>>, MapError>)
        ensures
            match r {
                Ok(found) => key_ok(self.regime(), key@) && match found {
                    Some(value) => self@.contains_key(path_of(self.regime(), key@))
                        && self@[path_of(self.regime(), key@)].1 == value@,
                    None => !self@.contains_key(path_of(self.regime(), key@)),
                },
                Err(e) => !key_ok(self.regime(), key@) && e == MapError::InvalidKeyLength,
            },
    {
        proof {
            use_type_invariant(&*self);
        }
        let path = match key_path(self.regime, key) {
            Ok(p) => p,
            Err(e) => {
                return Err(e);
            },
        };
        match &self.root {
            None => Ok(None),
            Some(n) => match node_get(n, &path) {
                Some(value) => Ok(Some(bytes_clone(value))),
                None => Ok(None),
            },
        }
    }

    /// True when the map stores a payload for `key`.
    pub fn contains(&self, key: &Vec<u8>) -> (r: Result<bool, MapError>)
        ensures
            match r {
                Ok(found) => key_ok(self.regime(), key@) && found == self@.contains_key(
                    path_of(self.regime(), key@),
                ),
                Err(e) => !key_ok(self.regime(), key@) && e == MapError::InvalidKeyLength,
            },
    {
        proof {
            use_type_invariant(&*self);
        }
        let path = match key_path(self.regime, key) {
            Ok(p) => p,
            Err(e) => {
                return Err(e);
            },
        };
        match &self.root {
            None => Ok(false),
            Some(n) => Ok(node_get(n, &path).is_some()),
        }
    }

    /// Stores `value` under `key`, replacing any payload already stored
    /// at the key's path.
    pub fn put(&mut self, key: &Vec<u8>, value: &Vec<u8>) -> (r: Result<(), MapError>)
        ensures
            final(self).regime() == old(self).regime(),
            match r {
                Ok(_) => key_ok(old(self).regime(), key@) && final(self)@ == old(self)@.insert(
                    path_of(old(self).regime(), key@),
                    (key@, value@),
                ),
                Err(e) => !key_ok(old(self).regime(), key@) && e == MapError::InvalidKeyLength
                    && final(self)@ == old(self)@,
            },
    {
        proof {
            use_type_invariant(&*self);
        }
        let path = match key_path(self.regime, key) {
            Ok(p) => p,
            Err(e) => {
                return Err(e);
            },
        };
        let mut root: Option<Node> = None;
        core::mem::swap(&mut root, &mut self.root);
        let new_root = match root {
            None => Node::Leaf {
                path,
                key: bytes_clone(key),
                value: bytes_clone(value),
            },
            Some(n) => node_insert(n, &path, key, value),
        };
        proof {
            if old(self).root is None {
                assert(as_map(new_root) =~= old(self)@.insert(
                    path_of(old(self).regime(), key@),
                    (key@, value@),
                ));
            }
            assert forall|p: Seq<bool>| #[trigger] as_map(new_root).contains_key(p) implies p
                == path_of(old(self).regime(), as_map(new_root)[p].0) && key_ok(
                old(self).regime(),
                as_map(new_root)[p].0,
            ) by {
                if p != path@ {
                    assert(old(self)@.contains_key(p));
                }
            }
        }
        self.root = Some(new_root);
        Ok(())
    }

    /// Removes the payload stored under `key`; removing an absent key
    /// leaves the map unchanged.
    pub fn remove(&mut self, key: &Vec<u8>) -> (r: Result<(), MapError>)
        ensures
            final(self).regime() == old(self).regime(),
            match r {
                Ok(_) => key_ok(old(self).regime(), key@) && final(self)@ == old(self)@.remove(
                    path_of(old(self).regime(), key@),
                ),
                Err(e) => !key_ok(old(self).regime(), key@) && e == MapError::InvalidKeyLength
                    && final(self)@ == old(self)@,
            },
    {
        proof {
            use_type_invariant(&*self);
        }
        let path = match key_path(self.regime, key) {
            Ok(p) => p,
            Err(e) => {
                return Err(e);
            },
        };
        let mut root: Option<Node> = None;
        core::mem::swap(&mut root, &mut self.root);
        match root {
            None => {
                proof {
                    assert(old(self)@.remove(path_of(old(self).regime(), key@)) =~= old(
                        self,
                    )@);
                }
                Ok(())
            },
            Some(n) => {
                let new_root = node_remove(n, &path);
                proof {
                    match &new_root {
                        Some(m) => {
                            assert forall|p: Seq<bool>| #[trigger] as_map(*m).contains_key(
                                p,
                            ) implies p == path_of(old(self).regime(), as_map(*m)[p].0) && key_ok(
                                old(self).regime(),
                                as_map(*m)[p].0,
                            ) by {
                                assert(old(self)@.contains_key(p));
                            }
                        },
                        None => {},
                    }
                }
                self.root = new_root;
                Ok(())
            },
        }
    }

    /// Resets the map to the empty state.
    pub fn clear(&mut self)
        ensures
            final(self).regime() == old(self).regime(),
            final(self)@ == Map::<Seq<bool>, (Seq<u8>, Seq<u8>)>::empty(),
    {
        self.root = None;
    }

    /// The root digest: the empty-map sentinel when no leaf is stored,
    /// else the digest of the root node.
    pub fn object_hash(&self) -> (r: Vec<u8>)
        ensures
            r@ == self.hash_spec(),
            r@.len() == 32,
    {
        proof {
            use_type_invariant(&*self);
        }
        match &self.root {
            None => compute_empty_digest(),
            Some(n) => compute_node_hash(n),
        }
    }


    /// The stored (path, key, payload) rows in ascending path order.
    pub closed spec fn entries_spec(&self) -> Seq<(Seq<bool>, Seq<u8>, Seq<u8>)> {
        match self.root {
            Some(n) => entry_seq(n),
            None => Seq::empty(),
        }
    }

    /// Iteration law: the entry rows list exactly the stored map — every
    /// row is stored at its own path and carries the key that addresses
    /// it, the paths ascend strictly (so no row repeats), and every
    /// stored path appears.
    pub proof fn lemma_entries_exact(m: &ProofMapIndex)
        requires
            m.inv(),
        ensures
            forall|i: int|
                0 <= i < m.entries_spec().len() ==> m@.contains_key(
                    #[trigger] m.entries_spec()[i].0,
                ) && m@[m.entries_spec()[i].0] == (m.entries_spec()[i].1, m.entries_spec()[i].2)
                    && m.entries_spec()[i].0 == path_of(m.regime(), m.entries_spec()[i].1),
            forall|i: int, j: int|
                0 <= i < j < m.entries_spec().len() ==> bits_lt(
                    #[trigger] m.entries_spec()[i].0,
                    #[trigger] m.entries_spec()[j].0,
                ),
            forall|p: Seq<bool>| #[trigger]
                m@.contains_key(p) ==> exists|i: int|
                    0 <= i < m.entries_spec().len() && m.entries_spec()[i].0 == p,
    {
        match m.root {
            Some(n) => {
                lemma_entry_seq(n);
                assert(m.entries_spec() == entry_seq(n));
                assert forall|i: int| 0 <= i < m.entries_spec().len() implies m@.contains_key(
                    #[trigger] m.entries_spec()[i].0,
                ) && m@[m.entries_spec()[i].0] == (m.entries_spec()[i].1, m.entries_spec()[i].2)
                    && m.entries_spec()[i].0 == path_of(m.regime(), m.entries_spec()[i].1) by {
                    assert(as_map(n).contains_key(entry_seq(n)[i].0));
                }
                assert forall|p: Seq<bool>| #[trigger] m@.contains_key(p) implies exists|i: int|
                    0 <= i < m.entries_spec().len() && m.entries_spec()[i].0 == p by {
                    let i = choose|i: int|
                        0 <= i < entry_seq(n).len() && entry_seq(n)[i].0 == p;
                    assert(m.entries_spec()[i].0 == p);
                }
            },
            None => {},
        }
    }

    /// The stored (key, payload) pairs in ascending path order.
    pub fn entries(&self) -> (r: Vec<(Vec<u8>, Vec<u8>)>)
        ensures
            r@.len() == self.entries_spec().len(),
            forall|i: int|
                0 <= i < r@.len() ==> (r@[i].0@, r@[i].1@) == (
                    #[trigger] self.entries_spec()[i].1,
                    self.entries_spec()[i].2,
                ),
    {
        proof {
            use_type_invariant(&*self);
        }
        let ghost es = self.entries_spec();
        match &self.root {
            None => Vec::new(),
            Some(n) => {
                let rows = node_entries(n);
                let mut r: Vec<(Vec<u8>, Vec<u8>)> = Vec::new();
                let mut i: usize = 0;
                while i < rows.len()
                    invariant
                        i <= rows@.len(),
                        rows@.len() == es.len(),
                        es == self.entries_spec(),
                        forall|j: int|
                            0 <= j < rows@.len() ==> (rows@[j].0@, rows@[j].1@, rows@[j].2@)
                                == #[trigger] es[j],
                        r@.len() == i,
                        forall|j: int|
                            0 <= j < i ==> (r@[j].0@, r@[j].1@) == (
                                #[trigger] es[j].1,
                                es[j].2,
                            ),
                    decreases rows@.len() - i,
                {
                    let row = &rows[i];
                    r.push((bytes_clone(&row.1), bytes_clone(&row.2)));
                    i = i + 1;
                    proof {
                        assert((r@[i - 1].0@, r@[i - 1].1@) == (es[i - 1].1, es[i - 1].2));
                    }
                }
                r
            },
        }
    }

    /// The stored keys in ascending path order.
    pub fn keys(&self) -> (r: Vec<Vec<u8>>)
        ensures
            r@.len() == self.entries_spec().len(),
            forall|i: int| 0 <= i < r@.len() ==> r@[i]@ == #[trigger] self.entries_spec()[i].1,
    {
        let ghost es = self.entries_spec();
        let pairs = self.entries();
        let mut r: Vec<Vec<u8>> = Vec::new();
        let mut i: usize = 0;
        while i < pairs.len()
            invariant
                i <= pairs@.len(),
                pairs@.len() == es.len(),
                es == self.entries_spec(),
                forall|j: int|
                    0 <= j < pairs@.len() ==> (pairs@[j].0@, pairs@[j].1@) == (
                        #[trigger] es[j].1,
                        es[j].2,
                    ),
                r@.len() == i,
                forall|j: int| 0 <= j < i ==> r@[j]@ == #[trigger] es[j].1,
            decreases pairs@.len() - i,
        {
            r.push(bytes_clone(&pairs[i].0));
            i = i + 1;
            proof {
                assert(r@[i - 1]@ == es[i - 1].1);
            }
        }
        r
    }

    /// The stored payloads in ascending path order.
    pub fn values(&self) -> (r: Vec<Vec<u8>>)
        ensures
            r@.len() == self.entries_spec().len(),
            forall|i: int| 0 <= i < r@.len() ==> r@[i]@ == #[trigger] self.entries_spec()[i].2,
    {
        let ghost es = self.entries_spec();
        let pairs = self.entries();
        let mut r: Vec<Vec<u8>> = Vec::new();
        let mut i: usize = 0;
        while i < pairs.len()
            invariant
                i <= pairs@.len(),
                pairs@.len() == es.len(),
                es == self.entries_spec(),
                forall|j: int|
                    0 <= j < pairs@.len() ==> (pairs@[j].0@, pairs@[j].1@) == (
                        #[trigger] es[j].1,
                        es[j].2,
                    ),
                r@.len() == i,
                forall|j: int| 0 <= j < i ==> r@[j]@ == #[trigger] es[j].2,
            decreases pairs@.len() - i,
        {
            r.push(bytes_clone(&pairs[i].1));
            i = i + 1;
            proof {
                assert((pairs@[i - 1].0@, pairs@[i - 1].1@) == (es[i - 1].1, es[i - 1].2));
                assert(r@[i - 1]@ == es[i - 1].2);
            }
        }
        r
    }

    /// The stored (key, payload) pairs whose path is at or after the
    /// path `from` addresses, in ascending path order.
    pub fn entries_from(&self, from: &Vec<u8>) -> (r: Result<Vec<(Vec<u8>, Vec<u8>)>, MapError>)
        ensures
            match r {
                Ok(v) => {
                    let t = tail_from(self.entries_spec(), path_of(self.regime(), from@));
                    key_ok(self.regime(), from@) && v@.len() == t.len() && forall|i: int|
                        0 <= i < v@.len() ==> (v@[i].0@, v@[i].1@) == (
                            #[trigger] t[i].1,
                            t[i].2,
                        )
                },
                Err(e) => !key_ok(self.regime(), from@) && e == MapError::InvalidKeyLength,
            },
    {
        proof {
            use_type_invariant(&*self);
        }
        let from_path = match key_path(self.regime, from) {
            Ok(p) => p,
            Err(e) => {
                return Err(e);
            },
        };
        let mut r: Vec<(Vec<u8>, Vec<u8>)> = Vec::new();
        match &self.root {
            None => Ok(r),
            Some(n) => {
                let rows = node_entries(n);
                let ghost es = self.entries_spec();
                let ghost fp = from_path@;
                proof {
                    lemma_entry_seq(*n);
                    assert(es == entry_seq(*n));
                    assert forall|j: int| 0 <= j < es.len() implies #[trigger] es[j].0.len()
                        == PATH_BITS by {
                        assert(as_map(*n).contains_key(entry_seq(*n)[j].0));
                        lemma_key_has_prefix(*n, es[j].0);
                    }
                }
                let mut i: usize = 0;
                while i < rows.len()
                    invariant
                        i <= rows@.len(),
                        rows@.len() == es.len(),
                        es == self.entries_spec(),
                        fp == from_path@,
                        from_path@.len() == PATH_BITS,
                        forall|j: int|
                            0 <= j < rows@.len() ==> (rows@[j].0@, rows@[j].1@, rows@[j].2@)
                                == #[trigger] es[j],
                        forall|j: int|
                            0 <= j < es.len() ==> #[trigger] es[j].0.len() == PATH_BITS,
                        r@.len() == tail_from(es.take(i as int), fp).len(),
                        forall|j: int|
                            0 <= j < r@.len() ==> (r@[j].0@, r@[j].1@) == (
                                #[trigger] tail_from(es.take(i as int), fp)[j].1,
                                tail_from(es.take(i as int), fp)[j].2,
                            ),
                    decreases rows@.len() - i,
                {
                    let ghost tprev = tail_from(es.take(i as int), fp);
                    let row = &rows[i];
                    proof {
                        lemma_bits_lt_irrefl(fp);
                        lemma_bits_lt_connex(es[i as int].0, fp);
                        if bits_lt(fp, es[i as int].0) {
                            lemma_bits_lt_asym(fp, es[i as int].0);
                        }
                    }
                    if bits_le(&from_path, &row.0) {
                        r.push((bytes_clone(&row.1), bytes_clone(&row.2)));
                    }
                    i = i + 1;
                    proof {
                        let tcur = tail_from(es.take(i as int), fp);
                        assert(es.take(i as int).drop_last() =~= es.take(i - 1));
                        assert(es.take(i as int).last() == es[i - 1]);
                        assert(tcur == if bits_lt(es[i - 1].0, fp) {
                            tprev
                        } else {
                            tprev.push(es[i - 1])
                        });
                        assert forall|j: int| 0 <= j < r@.len() implies (r@[j].0@, r@[j].1@)
                            == (#[trigger] tcur[j].1, tcur[j].2) by {
                            if j < tprev.len() {
                                assert((r@[j].0@, r@[j].1@) == (tprev[j].1, tprev[j].2));
                                assert(tcur[j] == tprev[j]);
                            } else {
                                assert(tcur[j] == es[i - 1]);
                            }
                        }
                    }
                }
                proof {
                    assert(es.take(es.len() as int) =~= es);
                }
                Ok(r)
            },
        }
    }

    /// The stored keys whose path is at or after the path `from`
    /// addresses, in ascending path order.
    pub fn keys_from(&self, from: &Vec<u8>) -> (r: Result<Vec<Vec<u8>>, MapError>)
        ensures
            match r {
                Ok(v) => {
                    let t = tail_from(self.entries_spec(), path_of(self.regime(), from@));
                    key_ok(self.regime(), from@) && v@.len() == t.len() && forall|i: int|
                        0 <= i < v@.len() ==> v@[i]@ == #[trigger] t[i].1
                },
                Err(e) => !key_ok(self.regime(), from@) && e == MapError::InvalidKeyLength,
            },
    {
        let ghost t = tail_from(self.entries_spec(), path_of(self.regime(), from@));
        let pairs = match self.entries_from(from) {
            Ok(v) => v,
            Err(e) => {
                return Err(e);
            },
        };
        let mut r: Vec<Vec<u8>> = Vec::new();
        let mut i: usize = 0;
        while i < pairs.len()
            invariant
                i <= pairs@.len(),
                pairs@.len() == t.len(),
                forall|j: int|
                    0 <= j < pairs@.len() ==> (pairs@[j].0@, pairs@[j].1@) == (
                        #[trigger] t[j].1,
                        t[j].2,
                    ),
                r@.len() == i,
                forall|j: int| 0 <= j < i ==> r@[j]@ == #[trigger] t[j].1,
            decreases pairs@.len() - i,
        {
            r.push(bytes_clone(&pairs[i].0));
            i = i + 1;
            proof {
                assert(r@[i - 1]@ == t[i - 1].1);
            }
        }
        Ok(r)
    }

    /// The stored payloads whose path is at or after the path `from`
    /// addresses, in ascending path order.
    pub fn values_from(&self, from: &Vec<u8>) -> (r: Result<Vec<Vec<u8>>, MapError>)
        ensures
            match r {
                Ok(v) => {
                    let t = tail_from(self.entries_spec(), path_of(self.regime(), from@));
                    key_ok(self.regime(), from@) && v@.len() == t.len() && forall|i: int|
                        0 <= i < v@.len() ==> v@[i]@ == #[trigger] t[i].2
                },
                Err(e) => !key_ok(self.regime(), from@) && e == MapError::InvalidKeyLength,
            },
    {
        let ghost t = tail_from(self.entries_spec(), path_of(self.regime(), from@));
        let pairs = match self.entries_from(from) {
            Ok(v) => v,
            Err(e) => {
                return Err(e);
            },
        };
        let mut r: Vec<Vec<u8>> = Vec::new();
        let mut i: usize = 0;
        while i < pairs.len()
            invariant
                i <= pairs@.len(),
                pairs@.len() == t.len(),
                forall|j: int|
                    0 <= j < pairs@.len() ==> (pairs@[j].0@, pairs@[j].1@) == (
                        #[trigger] t[j].1,
                        t[j].2,
                    ),
                r@.len() == i,
                forall|j: int| 0 <= j < i ==> r@[j]@ == #[trigger] t[j].2,
            decreases pairs@.len() - i,
        {
            r.push(bytes_clone(&pairs[i].1));
            i = i + 1;
            proof {
                assert((pairs@[i - 1].0@, pairs@[i - 1].1@) == (t[i - 1].1, t[i - 1].2));
                assert(r@[i - 1]@ == t[i - 1].2);
            }
        }
        Ok(r)
    }


    /// A proof for one key: the pruned trie view plus one entry carrying
    /// the key's payload or asserting its absence. Checking the proof
    /// under the map's regime reconstructs exactly the map's root digest.
    pub fn get_proof(&self, key: &Vec<u8>) -> (r: Result<MapProof, MapError>)
        ensures
            match r {
                Ok(pf) => {
                    &&& key_ok(self.regime(), key@)
                    &&& pf.ok_for(self.regime())
                    &&& pf.root_hash_spec() == self.hash_spec()
                    &&& (pf.root is None <==> self@ == Map::<
                        Seq<bool>,
                        (Seq<u8>, Seq<u8>),
                    >::empty())
                    &&& (pf.root matches Some(r) ==> self.pruned_view_ok(
                        r,
                        Set::<Seq<bool>>::empty().insert(path_of(self.regime(), key@)),
                    ))
                    &&& pf.entry_list().len() == 1
                    &&& pf.entry_list()[0].0 == key@
                    &&& pf.entry_list()[0].1 == (if self@.contains_key(
                        path_of(self.regime(), key@),
                    ) {
                        Some(self@[path_of(self.regime(), key@)].1)
                    } else {
                        None::<Seq<u8>>
                    })
                },
                Err(e) => !key_ok(self.regime(), key@) && e == MapError::InvalidKeyLength,
            },
    {
        proof {
            use_type_invariant(&*self);
        }
        let path = match key_path(self.regime, key) {
            Ok(p) => p,
            Err(e) => {
                return Err(e);
            },
        };
        let value_opt: Option<Vec<u8>> = match &self.root {
            None => None,
            Some(n) => match node_get(n, &path) {
                Some(v) => Some(bytes_clone(v)),
                None => None,
            },
        };
        let root_pf: Option<ProofNode> = match &self.root {
            None => None,
            Some(n) => {
                let mut reqs: Vec<Vec<bool>> = Vec::new();
                reqs.push(path);
                let pf = prune(n, &reqs);
                proof {
                    assert(covered(pf, as_map(*n), (reqs@[0])@));
                    assert(seq_paths(reqs@) =~= Set::<Seq<bool>>::empty().insert(
                        path_of(self.regime(), key@),
                    )) by {
                        assert forall|q: Seq<bool>| seq_paths(reqs@).contains(q)
                            implies Set::<Seq<bool>>::empty().insert(
                            path_of(self.regime(), key@),
                        ).contains(q) by {
                            let u = choose|u: int|
                                0 <= u < reqs@.len() && (#[trigger] reqs@[u])@ == q;
                        }
                        assert(seq_paths(reqs@).contains((reqs@[0])@));
                    }
                }
                Some(pf)
            },
        };
        let mut entries: Vec<(Vec<u8>, Option<Vec<u8>>)> = Vec::new();
        entries.push((bytes_clone(key), value_opt));
        let pf = MapProof { root: root_pf, entries };
        proof {
            assert forall|i: int| 0 <= i < pf.entries@.len() implies #[trigger] pf.entry_ok(
                self.regime(),
                pf.entries@[i],
            ) by {
                assert(pf.entries@[i] == pf.entries@[0]);
            }
            match &self.root {
                None => {
                    assert(self@ =~= Map::<Seq<bool>, (Seq<u8>, Seq<u8>)>::empty());
                },
                Some(n) => {
                    let witness = lemma_has_key(*n);
                    assert(self@.contains_key(witness));
                    if self@ == Map::<Seq<bool>, (Seq<u8>, Seq<u8>)>::empty() {
                        assert(false);
                    }
                },
            }
            assert(pf.entry_list() =~= Seq::empty().push(
                (
                    key@,
                    (if self@.contains_key(path_of(self.regime(), key@)) {
                        Some(self@[path_of(self.regime(), key@)].1)
                    } else {
                        None::<Seq<u8>>
                    }),
                ),
            ));
        }
        Ok(pf)
    }

    /// A proof for a set of keys: the pruned trie view plus one entry
    /// per distinct requested path, in ascending path order, each
    /// carrying that key's payload or asserting its absence. Checking
    /// the proof under the map's regime reconstructs exactly the map's
    /// root digest.
    #[verifier::rlimit(100)]
    pub fn get_multiproof(&self, keys: &Vec<Vec<u8>>) -> (r: Result<MapProof, MapError>)
        ensures
            match r {
                Ok(pf) => {
                    &&& forall|j: int| 0 <= j < keys@.len() ==> key_ok(
                        self.regime(),
                        (#[trigger] keys@[j])@,
                    )
                    &&& pf.ok_for(self.regime())
                    &&& pf.root_hash_spec() == self.hash_spec()
                    &&& (pf.root is None <==> self@ == Map::<
                        Seq<bool>,
                        (Seq<u8>, Seq<u8>),
                    >::empty())
                    &&& (pf.root matches Some(r) ==> self.pruned_view_ok(
                        r,
                        requested_paths(self.regime(), keys@),
                    ))
                    &&& forall|i: int, j: int|
                        0 <= i < j < pf.entry_list().len() ==> bits_lt(
                            path_of(self.regime(), (#[trigger] pf.entry_list()[i]).0),
                            path_of(self.regime(), (#[trigger] pf.entry_list()[j]).0),
                        )
                    &&& forall|j: int|
                        0 <= j < keys@.len() ==> lists_path(
                            pf.entry_list(),
                            self.regime(),
                            (#[trigger] keys@[j])@,
                        )
                    &&& forall|i: int|
                        0 <= i < pf.entry_list().len() ==> key_requested(
                            self.regime(),
                            keys@,
                            (#[trigger] pf.entry_list()[i]).0,
                        )
                    &&& forall|i: int|
                        0 <= i < pf.entry_list().len() ==> (#[trigger] pf.entry_list()[i]).1 == (
                        if self@.contains_key(path_of(self.regime(), pf.entry_list()[i].0)) {
                            Some(self@[path_of(self.regime(), pf.entry_list()[i].0)].1)
                        } else {
                            None::<Seq<u8>>
                        })
                },
                Err(e) => e == MapError::InvalidKeyLength && exists|j: int|
                    0 <= j < keys@.len() && !key_ok(self.regime(), (#[trigger] keys@[j])@),
            },
    {
        proof {
            use_type_invariant(&*self);
        }
        let ghost rg = self.regime();
        let mut entries: Vec<(Vec<u8>, Option<Vec<u8>>)> = Vec::new();
        let mut paths: Vec<Vec<bool>> = Vec::new();
        let mut j: usize = 0;
        while j < keys.len()
            invariant
                j <= keys@.len(),
                rg == self.regime(),
                self.inv(),
                forall|t: int| 0 <= t < j ==> key_ok(rg, (#[trigger] keys@[t])@),
                entries@.len() == paths@.len(),
                forall|t: int|
                    0 <= t < paths@.len() ==> (#[trigger] paths@[t])@.len() == PATH_BITS
                        && paths@[t]@ == path_of(rg, entries@[t].0@) && key_ok(
                        rg,
                        entries@[t].0@,
                    ),
                forall|a: int, b: int|
                    0 <= a < b < paths@.len() ==> bits_lt(
                        (#[trigger] paths@[a])@,
                        (#[trigger] paths@[b])@,
                    ),
                forall|t: int|
                    0 <= t < entries@.len() ==> (match (#[trigger] entries@[t]).1 {
                        Some(v) => Some(v@),
                        None => None,
                    }) == (if self@.contains_key(path_of(rg, entries@[t].0@)) {
                        Some(self@[path_of(rg, entries@[t].0@)].1)
                    } else {
                        None::<Seq<u8>>
                    }),
                forall|t: int|
                    0 <= t < j ==> has_path(paths@, path_of(rg, (#[trigger] keys@[t])@)),
                forall|u: int|
                    0 <= u < entries@.len() ==> key_requested(
                        rg,
                        keys@.take(j as int),
                        (#[trigger] entries@[u]).0@,
                    ),
            decreases keys@.len() - j,
        {
            let key = &keys[j];
            let path = match key_path(self.regime, key) {
                Ok(p) => p,
                Err(e) => {
                    return Err(e);
                },
            };
            let value_opt: Option<Vec<u8>> = match &self.root {
                None => None,
                Some(n) => match node_get(n, &path) {
                    Some(v) => Some(bytes_clone(v)),
                    None => None,
                },
            };
            let ghost old_paths = paths@;
            let ghost old_entries = entries@;
            let mut pos: usize = 0;
            while pos < paths.len() && !bits_le(&path, &paths[pos])
                invariant
                    pos <= paths@.len(),
                    path@.len() == PATH_BITS,
                    forall|t: int|
                        0 <= t < paths@.len() ==> (#[trigger] paths@[t])@.len() == PATH_BITS,
                    forall|a: int, b: int|
                        0 <= a < b < paths@.len() ==> bits_lt(
                            (#[trigger] paths@[a])@,
                            (#[trigger] paths@[b])@,
                        ),
                    forall|a: int| 0 <= a < pos ==> bits_lt((#[trigger] paths@[a])@, path@),
                decreases paths@.len() - pos,
            {
                proof {
                    lemma_bits_lt_connex(paths@[pos as int]@, path@);
                    lemma_bits_lt_irrefl(path@);
                    if bits_lt(path@, paths@[pos as int]@) {
                        lemma_bits_lt_asym(path@, paths@[pos as int]@);
                    }
                }
                pos = pos + 1;
            }
            let duplicate = if pos < paths.len() {
                bits_eq(&path, &paths[pos])
            } else {
                false
            };
            if !duplicate {
                proof {
                    if pos < paths@.len() {
                        lemma_bits_lt_connex(path@, paths@[pos as int]@);
                    }
                }
                entries.insert(pos, (bytes_clone(key), value_opt));
                paths.insert(pos, path);
                proof {
                    assert forall|t: int| 0 <= t < paths@.len() implies (
                    #[trigger] paths@[t])@.len() == PATH_BITS && paths@[t]@ == path_of(
                        rg,
                        entries@[t].0@,
                    ) && key_ok(rg, entries@[t].0@) && (match entries@[t].1 {
                        Some(v) => Some(v@),
                        None => None,
                    }) == (if self@.contains_key(path_of(rg, entries@[t].0@)) {
                        Some(self@[path_of(rg, entries@[t].0@)].1)
                    } else {
                        None::<Seq<u8>>
                    }) by {
                        let p = pos as int;
                        if t < p {
                            assert(paths@[t] == old_paths[t]);
                            assert(entries@[t] == old_entries[t]);
                            assert((#[trigger] old_paths[t])@ == path_of(
                                rg,
                                old_entries[t].0@,
                            ));
                        } else if t > p {
                            assert(paths@[t] == old_paths[t - 1]);
                            assert(entries@[t] == old_entries[t - 1]);
                            assert((#[trigger] old_paths[t - 1])@ == path_of(
                                rg,
                                old_entries[t - 1].0@,
                            ));
                        }
                    }
                    assert forall|a: int, b: int| 0 <= a < b < paths@.len() implies bits_lt(
                        (#[trigger] paths@[a])@,
                        (#[trigger] paths@[b])@,
                    ) by {
                        let p = pos as int;
                        if a < p && b == p {
                        } else if a == p && b > p {
                            assert(paths@[b] == old_paths[b - 1]);
                            if p < old_paths.len() {
                                if b - 1 > p {
                                    assert(bits_lt(old_paths[p]@, old_paths[b - 1]@));
                                    lemma_bits_lt_trans(
                                        paths@[a]@,
                                        old_paths[p]@,
                                        old_paths[b - 1]@,
                                    );
                                }
                            }
                        } else if a < p && b > p {
                            assert(paths@[a] == old_paths[a]);
                            assert(paths@[b] == old_paths[b - 1]);
                            if b - 1 == a {
                            } else {
                                assert(bits_lt(old_paths[a]@, old_paths[b - 1]@));
                            }
                        } else if a > p && b > p {
                            assert(paths@[a] == old_paths[a - 1]);
                            assert(paths@[b] == old_paths[b - 1]);
                        } else if a < p && b < p {
                            assert(paths@[a] == old_paths[a]);
                            assert(paths@[b] == old_paths[b]);
                        }
                    }
                }
            } else {
                proof {
                    assert(paths@[pos as int]@ == path@);
                }
            }
            j = j + 1;
            proof {
                assert forall|u: int| 0 <= u < entries@.len() implies key_requested(
                    rg,
                    keys@.take(j as int),
                    (#[trigger] entries@[u]).0@,
                ) by {
                    let p = pos as int;
                    if duplicate {
                        lemma_key_requested_grow(rg, keys@, j - 1, j as int, entries@[u].0@);
                    } else if u < p {
                        assert(entries@[u] == old_entries[u]);
                        lemma_key_requested_grow(rg, keys@, j - 1, j as int, old_entries[u].0@);
                    } else if u > p {
                        assert(entries@[u] == old_entries[u - 1]);
                        lemma_key_requested_grow(
                            rg,
                            keys@,
                            j - 1,
                            j as int,
                            old_entries[u - 1].0@,
                        );
                    } else {
                        assert(entries@[u].0@ == (keys@[j - 1])@);
                        assert(keys@.take(j as int)[j - 1] == keys@[j - 1]);
                        assert(path_of(rg, entries@[u].0@) == path_of(
                            rg,
                            (keys@.take(j as int)[j - 1])@,
                        ));
                    }
                }
                assert forall|t: int| 0 <= t < j implies has_path(
                    paths@,
                    path_of(rg, (#[trigger] keys@[t])@),
                ) by {
                    if t < j - 1 {
                        let u = choose|u: int|
                            0 <= u < old_paths.len() && (#[trigger] old_paths[u])@ == path_of(
                                rg,
                                (keys@[t])@,
                            );
                        if duplicate {
                            assert(paths@[u]@ == path_of(rg, (keys@[t])@));
                        } else {
                            if u < pos {
                                assert(paths@[u] == old_paths[u]);
                                assert(paths@[u]@ == path_of(rg, (keys@[t])@));
                            } else {
                                assert(paths@[u + 1] == old_paths[u]);
                                assert(paths@[u + 1]@ == path_of(rg, (keys@[t])@));
                            }
                        }
                    } else {
                        assert(paths@[pos as int]@ == path_of(rg, (keys@[t])@));
                    }
                }
            }
        }
        let root_pf: Option<ProofNode> = match &self.root {
            None => None,
            Some(n) => {
                let pruned = prune(n, &paths);
                proof {
                    assert(seq_paths(paths@) =~= requested_paths(rg, keys@)) by {
                        assert forall|q: Seq<bool>| seq_paths(paths@).contains(q)
                            implies requested_paths(rg, keys@).contains(q) by {
                            let u = choose|u: int|
                                0 <= u < paths@.len() && (#[trigger] paths@[u])@ == q;
                            assert(key_requested(rg, keys@, entries@[u].0@));
                            let jw = choose|jw: int|
                                0 <= jw < keys@.len() && path_of(rg, entries@[u].0@) == path_of(
                                    rg,
                                    (#[trigger] keys@[jw])@,
                                );
                            assert(q == path_of(rg, (keys@[jw])@));
                        }
                        assert forall|q: Seq<bool>| requested_paths(rg, keys@).contains(q)
                            implies seq_paths(paths@).contains(q) by {
                            let jw = choose|jw: int|
                                0 <= jw < keys@.len() && q == path_of(
                                    rg,
                                    (#[trigger] keys@[jw])@,
                                );
                            assert(has_path(paths@, path_of(rg, (keys@[jw])@)));
                            let u = choose|u: int|
                                0 <= u < paths@.len() && (#[trigger] paths@[u])@ == path_of(
                                    rg,
                                    (keys@[jw])@,
                                );
                            assert((paths@[u])@ == q);
                        }
                    }
                    assert(self@ == as_map(*n));
                    assert forall|u: int| 0 <= u < paths@.len() implies #[trigger] covered(
                        pruned,
                        self@,
                        (paths@[u])@,
                    ) by {
                        assert(covered(pruned, as_map(*n), (paths@[u])@));
                    }
                }
                Some(pruned)
            },
        };
        let pf = MapProof { root: root_pf, entries };
        proof {
            match &self.root {
                None => {
                    assert(self@ =~= Map::<Seq<bool>, (Seq<u8>, Seq<u8>)>::empty());
                },
                Some(n) => {
                    let witness = lemma_has_key(*n);
                    assert(self@.contains_key(witness));
                    if self@ == Map::<Seq<bool>, (Seq<u8>, Seq<u8>)>::empty() {
                        assert(false);
                    }
                },
            }
            assert forall|i: int| 0 <= i < pf.entries@.len() implies #[trigger] pf.entry_ok(
                rg,
                pf.entries@[i],
            ) by {
                let e = pf.entries@[i];
                let q = path_of(rg, e.0@);
                assert((paths@[i])@ == q);
                assert(key_ok(rg, e.0@));
                match root_pf {
                    None => {
                        assert(!self@.contains_key(q));
                    },
                    Some(pruned) => {
                        assert(covered(pruned, self@, (paths@[i])@));
                    },
                }
            }
            assert forall|i: int| 0 <= i < pf.entry_list().len() implies (
            #[trigger] pf.entry_list()[i]).1 == (if self@.contains_key(
                path_of(rg, pf.entry_list()[i].0),
            ) {
                Some(self@[path_of(rg, pf.entry_list()[i].0)].1)
            } else {
                None::<Seq<u8>>
            }) by {
                assert(pf.entries@[i].0@ == pf.entry_list()[i].0);
            }
            assert forall|a: int, b: int| 0 <= a < b < pf.entry_list().len() implies bits_lt(
                path_of(rg, (#[trigger] pf.entry_list()[a]).0),
                path_of(rg, (#[trigger] pf.entry_list()[b]).0),
            ) by {
                assert(pf.entries@[a].0@ == pf.entry_list()[a].0);
                assert(pf.entries@[b].0@ == pf.entry_list()[b].0);
                assert((paths@[a])@ == path_of(rg, pf.entries@[a].0@));
                assert((paths@[b])@ == path_of(rg, pf.entries@[b].0@));
                assert(bits_lt((paths@[a])@, (paths@[b])@));
            }
            assert forall|i: int| 0 <= i < pf.entry_list().len() implies key_requested(
                self.regime(),
                keys@,
                (#[trigger] pf.entry_list()[i]).0,
            ) by {
                assert(pf.entries@[i].0@ == pf.entry_list()[i].0);
                assert(keys@.take(keys@.len() as int) =~= keys@);
                let jw = choose|jw: int|
                    0 <= jw < keys@.take(keys@.len() as int).len() && path_of(
                        rg,
                        pf.entries@[i].0@,
                    ) == path_of(rg, (#[trigger] keys@.take(keys@.len() as int)[jw])@);
                assert(path_of(self.regime(), pf.entry_list()[i].0) == path_of(
                    self.regime(),
                    (#[trigger] keys@[jw])@,
                ));
            }
            assert forall|j2: int| 0 <= j2 < keys@.len() implies lists_path(
                pf.entry_list(),
                self.regime(),
                (#[trigger] keys@[j2])@,
            ) by {
                assert(has_path(paths@, path_of(rg, (keys@[j2])@)));
                let u = choose|u: int|
                    0 <= u < paths@.len() && (#[trigger] paths@[u])@ == path_of(
                        rg,
                        (keys@[j2])@,
                    );
                assert(pf.entries@[u].0@ == pf.entry_list()[u].0);
                assert(0 <= u < pf.entry_list().len() && path_of(
                    self.regime(),
                    (#[trigger] pf.entry_list()[u]).0,
                ) == path_of(self.regime(), (keys@[j2])@));
            }
        }
        Ok(pf)
    }

    /// The root digest depends on the stored map alone: two maps holding
    /// the same (path, key, payload) entries have byte-identical digests,
    /// whatever order of insertions and removals built each of them.
    pub proof fn lemma_digest_extensional(m1: &ProofMapIndex, m2: &ProofMapIndex)
        requires
            m1.inv(),
            m2.inv(),
            m1@ == m2@,
        ensures
            m1.hash_spec() == m2.hash_spec(),
    {
        match m1.root {
            None => {
                match m2.root {
                    None => {},
                    Some(n2) => {
                        let k = lemma_has_key(n2);
                        assert(m1@.contains_key(k));
                        assert(false);
                    },
                }
            },
            Some(n1) => {
                match m2.root {
                    None => {
                        let k = lemma_has_key(n1);
                        assert(m2@.contains_key(k));
                        assert(false);
                    },
                    Some(n2) => {
                        lemma_canonical(n1, n2);
                    },
                }
            },
        }
    }

    /// An empty map's digest is the empty-map sentinel, and conversely a
    /// map holding any entry has a different well-formedness witness.
    pub proof fn lemma_empty_digest(m: &ProofMapIndex)
        requires
            m.inv(),
            m@ == Map::<Seq<bool>, (Seq<u8>, Seq<u8>)>::empty(),
        ensures
            m.hash_spec() == empty_map_digest(),
    {
        match m.root {
            None => {},
            Some(n) => {
                let k = lemma_has_key(n);
                assert(m@.contains_key(k));
                assert(false);
            },
        }
    }

    /// A map holding a single entry has the digest of that one leaf.
    pub proof fn lemma_single_leaf_digest(m: &ProofMapIndex, p: Seq<bool>, entry: (Seq<u8>, Seq<u8>))
        requires
            m.inv(),
            m@ == Map::<Seq<bool>, (Seq<u8>, Seq<u8>)>::empty().insert(p, entry),
        ensures
            m.hash_spec() == leaf_digest(p, entry.1),
    {
        match m.root {
            None => {
                assert(m@.contains_key(p));
                assert(false);
            },
            Some(n) => {
                match n {
                    Node::Leaf { path, key, value } => {
                        assert(as_map(n).contains_key(path@));
                        assert(path@ == p);
                        assert(as_map(n)[path@] == (key@, value@));
                        assert(node_hash(n) == leaf_digest(path@, value@));
                    },
                    Node::Branch { .. } => {
                        let ks = lemma_two_keys(n);
                        assert(m@.contains_key(ks.0));
                        assert(m@.contains_key(ks.1));
                        assert(false);
                    },
                }
            },
        }
    }

    /// Point lookup (law): after storing an entry, the path holds it,
    /// whatever the map held there before.
    pub proof fn lemma_put_get(
        m: Map<Seq<bool>, (Seq<u8>, Seq<u8>)>,
        p: Seq<bool>,
        entry: (Seq<u8>, Seq<u8>),
    )
        ensures
            m.insert(p, entry).contains_key(p),
            m.insert(p, entry)[p] == entry,
    {
    }


    /// Insertion-order independence (law): storing a finite set of rows
    /// with pairwise distinct paths into the empty map yields the map
    /// holding exactly those rows — whichever order the rows come in, the
    /// value is the same, and with it, by digest extensionality, the
    /// root digest.
    pub proof fn lemma_puts_exact(rows: Seq<(Seq<bool>, (Seq<u8>, Seq<u8>))>)
        requires
            distinct_paths(rows),
        ensures
            forall|p: Seq<bool>|
                after_puts(Map::empty(), rows).contains_key(p) <==> exists|i: int|
                    0 <= i < rows.len() && (#[trigger] rows[i]).0 == p,
            forall|i: int|
                0 <= i < rows.len() ==> after_puts(Map::empty(), rows)[(#[trigger] rows[i]).0]
                    == rows[i].1,
        decreases rows.len(),
    {
        if rows.len() > 0 {
            let head_rows = rows.drop_last();
            Self::lemma_puts_exact(head_rows);
            let m = after_puts(Map::<Seq<bool>, (Seq<u8>, Seq<u8>)>::empty(), rows);
            assert forall|p: Seq<bool>| m.contains_key(p) implies exists|i: int|
                0 <= i < rows.len() && (#[trigger] rows[i]).0 == p by {
                if p == rows.last().0 {
                    assert((rows[rows.len() - 1]).0 == p);
                } else {
                    assert(m == after_puts(Map::empty(), head_rows).insert(
                        rows.last().0,
                        rows.last().1,
                    ));
                    assert(after_puts(Map::<Seq<bool>, (Seq<u8>, Seq<u8>)>::empty(), head_rows)
                        .contains_key(p));
                    let i = choose|i: int|
                        0 <= i < head_rows.len() && (#[trigger] head_rows[i]).0 == p;
                    assert(head_rows[i] == rows[i]);
                    assert((rows[i]).0 == p);
                }
            }
            assert forall|p: Seq<bool>| (exists|i: int|
                0 <= i < rows.len() && (#[trigger] rows[i]).0 == p) implies m.contains_key(p) by {
                let i = choose|i: int| 0 <= i < rows.len() && (#[trigger] rows[i]).0 == p;
                if i < rows.len() - 1 {
                    assert(head_rows[i].0 == p);
                }
            }
            assert forall|i: int| 0 <= i < rows.len() implies m[(#[trigger] rows[i]).0]
                == rows[i].1 by {
                if i < rows.len() - 1 {
                    assert(head_rows[i].0 == rows[i].0);
                    assert(rows[i].0 != rows.last().0);
                }
            }
        }
    }

    /// Order-independence corollary: two row sequences holding the same
    /// rows, paths pairwise distinct in each, build one map value from
    /// the empty map.
    pub proof fn lemma_order_independent(
        rows1: Seq<(Seq<bool>, (Seq<u8>, Seq<u8>))>,
        rows2: Seq<(Seq<bool>, (Seq<u8>, Seq<u8>))>,
    )
        requires
            distinct_paths(rows1),
            distinct_paths(rows2),
            forall|x: (Seq<bool>, (Seq<u8>, Seq<u8>))| #[trigger] row_listed(rows1, x)
                <==> #[trigger] row_listed(rows2, x),
        ensures
            after_puts(Map::empty(), rows1) == after_puts(Map::empty(), rows2),
    {
        Self::lemma_puts_exact(rows1);
        Self::lemma_puts_exact(rows2);
        let m1 = after_puts(Map::<Seq<bool>, (Seq<u8>, Seq<u8>)>::empty(), rows1);
        let m2 = after_puts(Map::<Seq<bool>, (Seq<u8>, Seq<u8>)>::empty(), rows2);
        assert forall|p: Seq<bool>| m1.contains_key(p) implies m2.contains_key(p) && m2[p]
            == m1[p] by {
            let i = choose|i: int| 0 <= i < rows1.len() && (#[trigger] rows1[i]).0 == p;
            assert(row_listed(rows1, rows1[i]));
            assert(row_listed(rows2, rows1[i]));
            let j = choose|j: int| 0 <= j < rows2.len() && #[trigger] rows2[j] == rows1[i];
            assert(rows2[j].0 == p);
        }
        assert forall|p: Seq<bool>| m2.contains_key(p) implies m1.contains_key(p) by {
            let j = choose|j: int| 0 <= j < rows2.len() && (#[trigger] rows2[j]).0 == p;
            assert(row_listed(rows2, rows2[j]));
            assert(row_listed(rows1, rows2[j]));
            let i = choose|i: int| 0 <= i < rows1.len() && #[trigger] rows1[i] == rows2[j];
            assert(rows1[i].0 == p);
        }
        assert(m1 =~= m2);
    }

    /// Clear equals fresh (law): clearing leaves the empty map value and
    /// a fresh map starts there, and each mutation's effect is a
    /// function of the value it meets — `put` ensures one insert step,
    /// `remove` one remove step — so any one operation sequence applied
    /// after a clear and to a fresh map yields one map value, and with
    /// it, by digest extensionality, one root digest.
    pub proof fn lemma_clear_fresh(
        cleared: Map<Seq<bool>, (Seq<u8>, Seq<u8>)>,
        fresh: Map<Seq<bool>, (Seq<u8>, Seq<u8>)>,
        ops: Seq<(Seq<bool>, Option<(Seq<u8>, Seq<u8>)>)>,
    )
        requires
            cleared == Map::<Seq<bool>, (Seq<u8>, Seq<u8>)>::empty(),
            fresh == Map::<Seq<bool>, (Seq<u8>, Seq<u8>)>::empty(),
        ensures
            after_ops(cleared, ops) == after_ops(fresh, ops),
    {
    }

    /// Round trip (law): storing an entry at an absent path and removing
    /// it again restores the map, so by extensionality also the digest.
    pub proof fn lemma_put_remove_roundtrip(
        m: Map<Seq<bool>, (Seq<u8>, Seq<u8>)>,
        p: Seq<bool>,
        entry: (Seq<u8>, Seq<u8>),
    )
        requires
            !m.contains_key(p),
        ensures
            m.insert(p, entry).remove(p) == m,
    {
        assert(m.insert(p, entry).remove(p) =~= m);
    }

    /// Idempotence (law): re-inserting the entry a path already holds
    /// leaves the map, and so the digest, unchanged.
    pub proof fn lemma_reinsert_noop(
        m: Map<Seq<bool>, (Seq<u8>, Seq<u8>)>,
        p: Seq<bool>,
        entry: (Seq<u8>, Seq<u8>),
    )
        requires
            m.contains_key(p),
            m[p] == entry,
        ensures
            m.insert(p, entry) == m,
    {
        assert(m.insert(p, entry) =~= m);
    }


    /// Two leaves (law): a map holding exactly two entries has the
    /// digest of one branch over two shown leaves, split at the paths'
    /// longest common prefix, the zero-continuing path hanging left.
    /// With paths sharing all bits but their last, the branch's two
    /// edges disambiguate on that single bit.
    pub proof fn lemma_pair_digest(
        m: &ProofMapIndex,
        p1: Seq<bool>,
        e1: (Seq<u8>, Seq<u8>),
        p2: Seq<bool>,
        e2: (Seq<u8>, Seq<u8>),
    )
        requires
            m.inv(),
            p1 != p2,
            m@ == Map::<Seq<bool>, (Seq<u8>, Seq<u8>)>::empty().insert(p1, e1).insert(p2, e2),
        ensures
            ({
                let k = lcp_len(p1, p2) as int;
                m.hash_spec() == if p2[k] {
                    branch_digest(k, p1, leaf_digest(p1, e1.1), p2, leaf_digest(p2, e2.1))
                } else {
                    branch_digest(k, p2, leaf_digest(p2, e2.1), p1, leaf_digest(p1, e1.1))
                }
            }),
    {
        assert(m@.contains_key(p1));
        assert(m@.contains_key(p2));
        match m.root {
            None => {
                assert(false);
            },
            Some(n) => {
                lemma_key_has_prefix(n, p1);
                lemma_key_has_prefix(n, p2);
                match n {
                    Node::Leaf { path, .. } => {
                        assert(p1 == path@ && p2 == path@);
                        assert(false);
                    },
                    Node::Branch { prefix, left, right } => {
                        assert(as_map(n) == as_map(*left).union_prefer_right(as_map(*right)));
                        let plen = prefix@.len() as int;
                        // each subtree is a single leaf: a third key cannot fit
                        let kr = lemma_has_key(*right);
                        let kl = lemma_has_key(*left);
                        lemma_side_bit(prefix@, false, *left, kl);
                        lemma_side_bit(prefix@, true, *right, kr);
                        match *left {
                            Node::Branch { .. } => {
                                let ks = lemma_two_keys(*left);
                                lemma_side_bit(prefix@, false, *left, ks.0);
                                lemma_side_bit(prefix@, false, *left, ks.1);
                                assert(m@.contains_key(ks.0) && m@.contains_key(ks.1)
                                    && m@.contains_key(kr));
                                assert(ks.0 == p1 || ks.0 == p2);
                                assert(ks.1 == p1 || ks.1 == p2);
                                assert(kr == p1 || kr == p2);
                                assert(false);
                            },
                            Node::Leaf { .. } => {},
                        }
                        match *right {
                            Node::Branch { .. } => {
                                let ks = lemma_two_keys(*right);
                                lemma_side_bit(prefix@, true, *right, ks.0);
                                lemma_side_bit(prefix@, true, *right, ks.1);
                                assert(m@.contains_key(ks.0) && m@.contains_key(ks.1)
                                    && m@.contains_key(kl));
                                assert(ks.0 == p1 || ks.0 == p2);
                                assert(ks.1 == p1 || ks.1 == p2);
                                assert(kl == p1 || kl == p2);
                                assert(false);
                            },
                            Node::Leaf { .. } => {},
                        }
                        match *left {
                            Node::Branch { .. } => {
                                assert(false);
                            },
                            Node::Leaf { path: pa, key: ka, value: va } => {
                                match *right {
                                    Node::Branch { .. } => {
                                        assert(false);
                                    },
                                    Node::Leaf { path: pb, key: kb, value: vb } => {
                                        let a = pa@;
                                        let b = pb@;
                                        assert(as_map(*left) == Map::<
                                            Seq<bool>,
                                            (Seq<u8>, Seq<u8>),
                                        >::empty().insert(a, (ka@, va@)));
                                        assert(as_map(*right) == Map::<
                                            Seq<bool>,
                                            (Seq<u8>, Seq<u8>),
                                        >::empty().insert(b, (kb@, vb@)));
                                        assert(m@.contains_key(a) && m@.contains_key(b));
                                        assert(a == p1 || a == p2);
                                        assert(b == p1 || b == p2);
                                        assert(a[plen] == false && b[plen] == true);
                                        assert(a != b);
                                        // the branch splits exactly at the common prefix
                                        assert(p1[plen] != p2[plen]);
                                        lemma_lcp_bounds(p1, p2);
                                        let k = lcp_len(p1, p2) as int;
                                        lemma_lcp_maximal(prefix@, p1, p2);
                                        assert(plen <= k);
                                        if plen < k {
                                            assert(p1.take(k)[plen] == p2.take(k)[plen]);
                                            assert(false);
                                        }
                                        assert(k == plen);
                                        // values come from the leaves
                                        assert(m@[a] == (ka@, va@));
                                        assert(m@[b] == (kb@, vb@));
                                        assert(m@[p1] == e1 && m@[p2] == e2);
                                        assert(node_hash(*left) == leaf_digest(a, va@));
                                        assert(node_hash(*right) == leaf_digest(b, vb@));
                                        assert(head(*left) == a && head(*right) == b);
                                        assert(node_hash(n) == branch_digest(
                                            plen,
                                            a,
                                            leaf_digest(a, va@),
                                            b,
                                            leaf_digest(b, vb@),
                                        ));
                                        if p2[k] {
                                            assert(a == p1 && b == p2);
                                            assert(va@ == e1.1 && vb@ == e2.1);
                                        } else {
                                            assert(a == p2 && b == p1);
                                            assert(va@ == e2.1 && vb@ == e1.1);
                                        }
                                    },
                                }
                            },
                        }
                    },
                }
            },
        }
    }

    /// Serialiser determinism (law): one map value and one requested
    /// path set have one pruned view — two maps holding the same entries
    /// give, for the same requested paths, pruned views that encode to
    /// byte-identical form and reconstruct the same digest. With the
    /// entries pinned by the proof builders' contracts, two serialisers
    /// given the same trie and the same requested set emit identical
    /// bytes.
    pub proof fn lemma_proof_deterministic(
        m1: &ProofMapIndex,
        m2: &ProofMapIndex,
        r1: ProofNode,
        r2: ProofNode,
        ks: Set<Seq<bool>>,
    )
        requires
            m1.inv(),
            m2.inv(),
            m1@ == m2@,
            m1.pruned_view_ok(r1, ks),
            m2.pruned_view_ok(r2, ks),
        ensures
            enc_node(r1) == enc_node(r2),
            pf_hash(r1) == pf_hash(r2),
    {
        match (&m1.root, &m2.root) {
            (Some(n1), Some(n2)) => {
                lemma_shaped_like(*n1, *n2, ks, r1, r2);
                lemma_pf_like_enc(r1, r2);
                lemma_pf_like_hash(r1, r2);
            },
            _ => {},
        }
    }

    /// Hashed-regime collision (documented limitation): two raw key
    /// inputs with equal digests address the same path, so the map
    /// cannot tell them apart.
    pub proof fn lemma_collision_indistinguishable(k1: Seq<u8>, k2: Seq<u8>)
        requires
            sha256_of(k1) == sha256_of(k2),
        ensures
            path_of(Regime::Hashed, k1) == path_of(Regime::Hashed, k2),
    {
    }
}

} // verus!
