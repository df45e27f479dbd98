//! Proofs of presence and absence. A proof is a pruned view of the trie:
//! subtrees without requested keys shrink to their head and digest
//! (witnesses), leaves met on the descent are shown whole, and the
//! branches in between keep their shape. The pruned view is enough to
//! recompute the root digest and to certify, for every requested key,
//! either its payload or its absence.

use vstd::prelude::*;

use crate::bits::{
    bits_clone, bits_eq, bytes_clone, bytes_eq, is_prefix_of, starts_with, PATH_BITS,
};
use crate::digest::{
    branch_digest, compute_branch_digest, compute_leaf_digest, empty_map_digest,
    compute_empty_digest, leaf_digest,
};
use crate::index::{has_path, key_ok, key_path, path_of, Regime};
use crate::trie::{
    as_map, compute_node_hash, head, lemma_head_len, lemma_key_has_prefix, lemma_side_bit,
    node_hash, wf, Node,
};

verus! {

/// One node of a pruned trie view.
pub enum ProofNode {
    /// An elided subtree: its path from the root and its digest.
    Pruned { head: Vec<bool>, digest: Vec<u8> },
    /// A leaf met on the descent, shown whole: its path and payload
    /// (the digest rules never see the caller's key bytes).
    Shown { path: Vec<bool>, value: Vec<u8> },
    /// A branch both of whose subtrees matter to the requested keys.
    Split { prefix: Vec<bool>, left: Box<ProofNode>, right: Box<ProofNode> },
}

/// The node's path from the root.
pub open spec fn pf_head(p: ProofNode) -> Seq<bool> {
    match p {
        ProofNode::Pruned { head, .. } => head@,
        ProofNode::Shown { path, .. } => path@,
        ProofNode::Split { prefix, .. } => prefix@,
    }
}

/// Structural soundness of a pruned view, mirroring the trie's shape
/// rules; digests of elided subtrees must be digest-sized.
pub open spec fn pf_wf(p: ProofNode) -> bool
    decreases p,
{
    match p {
        ProofNode::Pruned { head, digest } => head@.len() <= PATH_BITS && digest@.len() == 32,
        ProofNode::Shown { path, .. } => path@.len() == PATH_BITS,
        ProofNode::Split { prefix, left, right } => {
            &&& prefix@.len() < PATH_BITS
            &&& is_prefix_of(prefix@.push(false), pf_head(*left))
            &&& is_prefix_of(prefix@.push(true), pf_head(*right))
            &&& pf_wf(*left)
            &&& pf_wf(*right)
        },
    }
}

/// The digest the pruned view reconstructs, by the trie's digest rules,
/// taking an elided subtree's digest on faith.
pub open spec fn pf_hash(p: ProofNode) -> Seq<u8>
    decreases p,
{
    match p {
        ProofNode::Pruned { head: _, digest } => digest@,
        ProofNode::Shown { path, value } => leaf_digest(path@, value@),
        ProofNode::Split { prefix, left, right } => branch_digest(
            prefix@.len() as int,
            pf_head(*left),
            pf_hash(*left),
            pf_head(*right),
            pf_hash(*right),
        ),
    }
}

/// The payload the pruned view shows at a path, if any.
pub open spec fn found_in(p: ProofNode, k: Seq<bool>) -> Option<Seq<u8>>
    decreases p,
{
    match p {
        ProofNode::Pruned { .. } => None,
        ProofNode::Shown { path, value } => if path@ == k {
            Some(value@)
        } else {
            None
        },
        ProofNode::Split { prefix, left, right } => {
            if !is_prefix_of(prefix@, k) || k.len() <= prefix@.len() {
                None
            } else if k[prefix@.len() as int] {
                found_in(*right, k)
            } else {
                found_in(*left, k)
            }
        },
    }
}

/// Whether the pruned view proves the path absent: the descent meets a
/// shown divergence before anything elided could hide the path.
pub open spec fn absent_in(p: ProofNode, k: Seq<bool>) -> bool
    decreases p,
{
    match p {
        ProofNode::Pruned { head, .. } => !is_prefix_of(head@, k),
        ProofNode::Shown { path, .. } => path@ != k,
        ProofNode::Split { prefix, left, right } => {
            if !is_prefix_of(prefix@, k) {
                true
            } else if k.len() <= prefix@.len() {
                false
            } else if k[prefix@.len() as int] {
                absent_in(*right, k)
            } else {
                absent_in(*left, k)
            }
        },
    }
}

/// The node's path from the root, borrowed.
fn pf_head_ref<'a>(p: &'a ProofNode) -> (r: &'a Vec<bool>)
    ensures
        r@ == pf_head(*p),
{
    match p {
        ProofNode::Pruned { head, .. } => head,
        ProofNode::Shown { path, .. } => path,
        ProofNode::Split { prefix, .. } => prefix,
    }
}

/// Checks the shape rules of a pruned view.
fn pf_check_wf(p: &ProofNode) -> (r: bool)
    ensures
        r == pf_wf(*p),
    decreases *p,
{
    match p {
        ProofNode::Pruned { head, digest } => head.len() <= PATH_BITS && digest.len() == 32,
        ProofNode::Shown { path, .. } => path.len() == PATH_BITS,
        ProofNode::Split { prefix, left, right } => {
            if prefix.len() >= PATH_BITS {
                return false;
            }
            let left_head = pf_head_ref(left);
            let right_head = pf_head_ref(right);
            let mut expect = bits_clone(prefix);
            expect.push(false);
            if !starts_with(left_head, &expect) {
                return false;
            }
            let mut expect_right = bits_clone(prefix);
            expect_right.push(true);
            if !starts_with(right_head, &expect_right) {
                return false;
            }
            if !pf_check_wf(left) {
                return false;
            }
            pf_check_wf(right)
        },
    }
}

/// The head of a well-formed pruned view is never longer than a path.
proof fn lemma_pf_head_len(p: ProofNode)
    requires
        pf_wf(p),
    ensures
        pf_head(p).len() <= PATH_BITS,
{
    match p {
        ProofNode::Pruned { .. } => {},
        ProofNode::Shown { .. } => {},
        ProofNode::Split { .. } => {},
    }
}

/// Recomputes the digest of a pruned view.
fn pf_compute_hash(p: &ProofNode) -> (r: Vec<u8>)
    requires
        pf_wf(*p),
    ensures
        r@ == pf_hash(*p),
        r@.len() == 32,
    decreases *p,
{
    match p {
        ProofNode::Pruned { head: _, digest } => bytes_clone(digest),
        ProofNode::Shown { path, value } => compute_leaf_digest(path, value),
        ProofNode::Split { prefix, left, right } => {
            let left_hash = pf_compute_hash(left);
            let right_hash = pf_compute_hash(right);
            let left_head = pf_head_ref(left);
            let right_head = pf_head_ref(right);
            proof {
                lemma_pf_head_len(**left);
                lemma_pf_head_len(**right);
            }
            compute_branch_digest(prefix.len(), left_head, &left_hash, right_head, &right_hash)
        },
    }
}

/// Looks a path up in the pruned view.
fn pf_lookup<'a>(p: &'a ProofNode, k: &Vec<bool>) -> (r: Option<&'a Vec<u8>>)
    requires
        k@.len() == PATH_BITS,
    ensures
        match r {
            Some(v) => found_in(*p, k@) == Some(v@),
            None => found_in(*p, k@) is None,
        },
    decreases *p,
{
    match p {
        ProofNode::Pruned { .. } => None,
        ProofNode::Shown { path, value } => {
            if bits_eq(path, k) {
                Some(value)
            } else {
                None
            }
        },
        ProofNode::Split { prefix, left, right } => {
            if !starts_with(k, prefix) {
                None
            } else if prefix.len() >= k.len() {
                None
            } else if k[prefix.len()] {
                pf_lookup(right, k)
            } else {
                pf_lookup(left, k)
            }
        },
    }
}

/// Decides whether the pruned view proves the path absent.
fn pf_absent(p: &ProofNode, k: &Vec<bool>) -> (r: bool)
    requires
        k@.len() == PATH_BITS,
    ensures
        r == absent_in(*p, k@),
    decreases *p,
{
    match p {
        ProofNode::Pruned { head, .. } => !starts_with(k, head),
        ProofNode::Shown { path, .. } => !bits_eq(path, k),
        ProofNode::Split { prefix, left, right } => {
            if !starts_with(k, prefix) {
                true
            } else if prefix.len() >= k.len() {
                false
            } else if k[prefix.len()] {
                pf_absent(right, k)
            } else {
                pf_absent(left, k)
            }
        },
    }
}

/// A proof for a set of requested keys: the pruned trie view (absent for
/// an empty map) and one entry per requested key, carrying its payload
/// or asserting its absence.
pub struct MapProof {
    /// The pruned trie view; absent when the map proved empty.
    pub root: Option<ProofNode>,
    /// One entry per requested key; the map's builders emit them in
    /// ascending path order.
    pub entries: Vec<(Vec<u8>, Option<Vec<u8>>)>,
}

impl MapProof {
    /// The entries as (key, payload-or-absence) pairs.
    pub open spec fn entry_list(&self) -> Seq<(Seq<u8>, Option<Seq<u8>>)> {
        Seq::new(
            self.entries@.len(),
            |i: int|
                (
                    self.entries@[i].0@,
                    match self.entries@[i].1 {
                        Some(v) => Some(v@),
                        None => None,
                    },
                ),
        )
    }

    /// The digest the proof reconstructs: the empty-map sentinel when it
    /// shows an empty map, else the pruned view's digest.
    pub open spec fn root_hash_spec(&self) -> Seq<u8> {
        match self.root {
            Some(n) => pf_hash(n),
            None => empty_map_digest(),
        }
    }

    /// Consistency under a regime: the pruned view is well formed and
    /// every entry's claim is borne out by the view — a payload entry is
    /// shown at the key's path, an absence entry is proven absent.
    pub open spec fn ok_for(&self, regime: Regime) -> bool {
        &&& match self.root {
            Some(n) => pf_wf(n),
            None => true,
        }
        &&& forall|i: int|
            0 <= i < self.entries@.len() ==> #[trigger] self.entry_ok(regime, self.entries@[i])
    }

    /// One entry's claim holds of the pruned view.
    pub open spec fn entry_ok(&self, regime: Regime, e: (Vec<u8>, Option<Vec<u8>>)) -> bool {
        &&& key_ok(regime, e.0@)
        &&& match self.root {
            None => e.1 is None,
            Some(n) => match e.1 {
                Some(v) => found_in(n, path_of(regime, e.0@)) == Some(v@),
                None => absent_in(n, path_of(regime, e.0@)),
            },
        }
    }

    /// The entries, for callers that inspect what the proof certifies.
    pub fn entries(&self) -> (r: &Vec<(Vec<u8>, Option<Vec<u8>>)>)
        ensures
            r@.len() == self.entry_list().len(),
            forall|i: int|
                0 <= i < r@.len() ==> r@[i].0@ == (#[trigger] self.entry_list()[i]).0 && (match r@[
                    i
                ].1 {
                    Some(v) => Some(v@),
                    None => None,
                }) == self.entry_list()[i].1,
    {
        &self.entries
    }

    /// Verifies the proof under a regime: checks the pruned view's shape
    /// and every entry's claim against it, and reconstructs the root
    /// digest. Returns the digest exactly when the proof is consistent.
    pub fn check(&self, regime: Regime) -> (r: Option<Vec<u8>>)
        ensures
            match r {
                Some(d) => self.ok_for(regime) && d@ == self.root_hash_spec() && d@.len() == 32,
                None => !self.ok_for(regime),
            },
    {
        match &self.root {
            None => {
                let mut i: usize = 0;
                while i < self.entries.len()
                    invariant
                        i <= self.entries@.len(),
                        self.root is None,
                        forall|j: int|
                            0 <= j < i ==> #[trigger] self.entry_ok(regime, self.entries@[j]),
                    decreases self.entries@.len() - i,
                {
                    let e = &self.entries[i];
                    let okay = match regime {
                        Regime::Raw => e.0.len() == 32,
                        Regime::Hashed => true,
                    };
                    if !okay || e.1.is_some() {
                        proof {
                            assert(!self.entry_ok(regime, self.entries@[i as int]));
                        }
                        return None;
                    }
                    i = i + 1;
                }
                Some(compute_empty_digest())
            },
            Some(node) => {
                if !pf_check_wf(node) {
                    return None;
                }
                let mut i: usize = 0;
                while i < self.entries.len()
                    invariant
                        i <= self.entries@.len(),
                        self.root == Some(*node),
                        pf_wf(*node),
                        forall|j: int|
                            0 <= j < i ==> #[trigger] self.entry_ok(regime, self.entries@[j]),
                    decreases self.entries@.len() - i,
                {
                    let e = &self.entries[i];
                    let path = match key_path(regime, &e.0) {
                        Ok(p) => p,
                        Err(_) => {
                            proof {
                                assert(!self.entry_ok(regime, self.entries@[i as int]));
                            }
                            return None;
                        },
                    };
                    match &e.1 {
                        Some(v) => {
                            match pf_lookup(node, &path) {
                                Some(shown) => {
                                    if !bytes_eq(shown, v) {
                                        proof {
                                            assert(!self.entry_ok(
                                                regime,
                                                self.entries@[i as int],
                                            ));
                                        }
                                        return None;
                                    }
                                },
                                None => {
                                    proof {
                                        assert(!self.entry_ok(
                                            regime,
                                            self.entries@[i as int],
                                        ));
                                    }
                                    return None;
                                },
                            }
                        },
                        None => {
                            if !pf_absent(node, &path) {
                                proof {
                                    assert(!self.entry_ok(regime, self.entries@[i as int]));
                                }
                                return None;
                            }
                        },
                    }
                    proof {
                        assert(self.entry_ok(regime, self.entries@[i as int]));
                    }
                    i = i + 1;
                }
                Some(pf_compute_hash(node))
            },
        }
    }
}

/// The requested paths an element of the routed list names.
pub open spec fn seq_paths(reqs: Seq<Vec<bool>>) -> Set<Seq<bool>> {
    Set::new(|q: Seq<bool>| exists|i: int| 0 <= i < reqs.len() && (#[trigger] reqs[i])@ == q)
}

/// The pruned view as a function of the subtree and the requested path
/// set: a subtree no requested path enters shrinks to its head and its
/// digest, a leaf some request enters is shown whole, and a branch keeps
/// its shape, its two subtrees pruned against the requests routed to
/// each side. Together with the trie's canonical form this makes the
/// pruned view, and hence its serialisation, a function of the map's
/// value and the requested path set alone.
pub(crate) open spec fn shaped(r: ProofNode, n: Node, ks: Set<Seq<bool>>) -> bool
    decreases n,
{
    match n {
        Node::Leaf { path, key: _, value } => {
            if ks == Set::<Seq<bool>>::empty() {
                match r {
                    ProofNode::Pruned { head, digest } => head@ == path@ && digest@ == node_hash(
                        n,
                    ),
                    _ => false,
                }
            } else {
                match r {
                    ProofNode::Shown { path: shown_path, value: shown_value } => shown_path@
                        == path@ && shown_value@ == value@,
                    _ => false,
                }
            }
        },
        Node::Branch { prefix, left, right } => {
            let kl = Set::new(
                |q: Seq<bool>| ks.contains(q) && is_prefix_of(prefix@.push(false), q),
            );
            let kr = Set::new(
                |q: Seq<bool>| ks.contains(q) && is_prefix_of(prefix@.push(true), q),
            );
            if kl == Set::<Seq<bool>>::empty() && kr == Set::<Seq<bool>>::empty() {
                match r {
                    ProofNode::Pruned { head, digest } => head@ == prefix@ && digest@ == node_hash(
                        n,
                    ),
                    _ => false,
                }
            } else {
                match r {
                    ProofNode::Split { prefix: shown_prefix, left: rl, right: rr } => shown_prefix@
                        == prefix@ && shaped(*rl, *left, kl) && shaped(*rr, *right, kr),
                    _ => false,
                }
            }
        },
    }
}

/// The pruned view settles the requested path against the map: it shows
/// the stored payload, or proves the path absent.
pub open spec fn covered(
    r: ProofNode,
    m: Map<Seq<bool>, (Seq<u8>, Seq<u8>)>,
    q: Seq<bool>,
) -> bool {
    if m.contains_key(q) {
        found_in(r, q) == Some(m[q].1)
    } else {
        absent_in(r, q)
    }
}

/// Prunes a subtree against the requested paths routed into it: a
/// subtree no requested path enters shrinks to its head and digest, a
/// leaf met by a request is shown whole, and a branch both of whose
/// subtrees are entered keeps its shape.
pub(crate) fn prune(n: &Node, reqs: &Vec<Vec<bool>>) -> (r: ProofNode)
    requires
        wf(*n),
        forall|i: int| 0 <= i < reqs@.len() ==> (#[trigger] reqs@[i])@.len() == PATH_BITS,
    ensures
        pf_wf(r),
        pf_head(r) == head(*n),
        pf_hash(r) == node_hash(*n),
        forall|k: Seq<bool>| #[trigger] absent_in(r, k) ==> !as_map(*n).contains_key(k),
        forall|k: Seq<bool>|
            (#[trigger] found_in(r, k)) is Some ==> as_map(*n).contains_key(k) && found_in(r, k)
                == Some(as_map(*n)[k].1),
        forall|i: int| 0 <= i < reqs@.len() ==> #[trigger] covered(r, as_map(*n), (reqs@[i])@),
        shaped(r, *n, seq_paths(reqs@)),
    decreases *n,
{
    proof {
        if reqs@.len() == 0 {
            assert(seq_paths(reqs@) =~= Set::<Seq<bool>>::empty());
        } else {
            assert(seq_paths(reqs@).contains((reqs@[0])@));
            if seq_paths(reqs@) == Set::<Seq<bool>>::empty() {
                assert(false);
            }
        }
    }
    match n {
        Node::Leaf { path, key: _, value } => {
            if reqs.len() == 0 {
                let digest = compute_node_hash(n);
                let r = ProofNode::Pruned { head: bits_clone(path), digest };
                proof {
                    assert(path@.take(path@.len() as int) =~= path@);
                    assert forall|k: Seq<bool>| #[trigger] absent_in(r, k) implies !as_map(
                        *n,
                    ).contains_key(k) by {
                        if as_map(*n).contains_key(k) {
                            assert(k == path@);
                            assert(is_prefix_of(path@, k));
                        }
                    }
                }
                r
            } else {
                let r = ProofNode::Shown { path: bits_clone(path), value: bytes_clone(value) };
                proof {
                    assert(as_map(*n).contains_key(path@));
                    assert(as_map(*n)[path@].1 == value@);
                    assert forall|i: int| 0 <= i < reqs@.len() implies #[trigger] covered(
                        r,
                        as_map(*n),
                        (reqs@[i])@,
                    ) by {
                        let q = (reqs@[i])@;
                        if q == path@ {
                            assert(found_in(r, q) == Some(value@));
                        } else {
                            if as_map(*n).contains_key(q) {
                                assert(q == path@);
                            }
                            assert(absent_in(r, q));
                        }
                    }
                }
                r
            }
        },
        Node::Branch { prefix, left, right } => {
            let plen = prefix.len();
            let mut reqs_left: Vec<Vec<bool>> = Vec::new();
            let mut reqs_right: Vec<Vec<bool>> = Vec::new();
            let mut i: usize = 0;
            proof {
                assert(is_prefix_of(prefix@.push(false), head(**left)));
                assert(prefix@.push(false).len() <= head(**left).len());
                lemma_head_len(**left);
            }
            while i < reqs.len()
                invariant
                    i <= reqs@.len(),
                    plen == prefix@.len() < PATH_BITS,
                    forall|j: int| 0 <= j < reqs@.len() ==> (#[trigger] reqs@[j])@.len() == PATH_BITS,
                    forall|t: int|
                        0 <= t < reqs_left@.len() ==> (#[trigger] reqs_left@[t])@.len() == PATH_BITS
                            && is_prefix_of(prefix@.push(false), (reqs_left@[t])@),
                    forall|t: int|
                        0 <= t < reqs_right@.len() ==> (#[trigger] reqs_right@[t])@.len()
                            == PATH_BITS && is_prefix_of(prefix@.push(true), (reqs_right@[t])@),
                    forall|t: int|
                        0 <= t < reqs_left@.len() ==> has_path(
                            reqs@,
                            (#[trigger] reqs_left@[t])@,
                        ),
                    forall|t: int|
                        0 <= t < reqs_right@.len() ==> has_path(
                            reqs@,
                            (#[trigger] reqs_right@[t])@,
                        ),
                    forall|j: int|
                        0 <= j < i ==> #[trigger] routed(
                            prefix@,
                            (reqs@[j])@,
                            reqs_left@,
                            reqs_right@,
                        ),
                decreases reqs@.len() - i,
            {
                let q = &reqs[i];
                let ghost before_left = reqs_left@;
                let ghost before_right = reqs_right@;
                if starts_with(q, prefix) {
                    proof {
                        assert(q@.take(plen + 1) =~= q@.take(plen as int).push(q@[plen as int]));
                    }
                    if q[plen] {
                        reqs_right.push(bits_clone(q));
                        proof {
                            assert(is_prefix_of(prefix@.push(true), (reqs_right@.last())@));
                        }
                    } else {
                        reqs_left.push(bits_clone(q));
                        proof {
                            assert(is_prefix_of(prefix@.push(false), (reqs_left@.last())@));
                        }
                    }
                }
                i = i + 1;
                proof {
                    assert forall|j: int| 0 <= j < i implies #[trigger] routed(
                        prefix@,
                        (reqs@[j])@,
                        reqs_left@,
                        reqs_right@,
                    ) by {
                        if j < i - 1 {
                            assert(routed(prefix@, (reqs@[j])@, before_left, before_right));
                            lemma_routed_grows(
                                prefix@,
                                (reqs@[j])@,
                                before_left,
                                before_right,
                                reqs_left@,
                                reqs_right@,
                            );
                        } else {
                            let qv = (reqs@[j])@;
                            if is_prefix_of(prefix@.push(false), qv) {
                                assert(qv.take(plen as int) =~= prefix@.push(false).take(
                                    plen as int,
                                ));
                                assert(qv.take(prefix@.push(false).len() as int)[
                                    plen as int
                                ] == qv[plen as int]);
                                assert(qv.take(prefix@.push(false).len() as int)[plen as int]
                                == qv[plen as int]);
                            assert(qv[plen as int] == false);
                                assert(is_prefix_of(prefix@, qv)) by {
                                    assert(qv.take(plen as int) =~= prefix@);
                                }
                                assert((reqs_left@.last())@ == qv);
                                assert(reqs_left@[reqs_left@.len() - 1] == reqs_left@.last());
                            } else if is_prefix_of(prefix@.push(true), qv) {
                                assert(qv.take(plen as int) =~= prefix@.push(true).take(
                                    plen as int,
                                ));
                                assert(qv.take(prefix@.push(true).len() as int)[
                                    plen as int
                                ] == qv[plen as int]);
                                assert(qv.take(prefix@.push(true).len() as int)[plen as int]
                                == qv[plen as int]);
                            assert(qv[plen as int] == true);
                                assert(is_prefix_of(prefix@, qv)) by {
                                    assert(qv.take(plen as int) =~= prefix@);
                                }
                                assert((reqs_right@.last())@ == qv);
                            } else {
                                if is_prefix_of(prefix@, qv) {
                                    assert(qv.take(plen + 1) =~= qv.take(plen as int).push(
                                        qv[plen as int],
                                    ));
                                    if qv[plen as int] {
                                        assert(is_prefix_of(prefix@.push(true), qv));
                                    } else {
                                        assert(is_prefix_of(prefix@.push(false), qv));
                                    }
                                    assert(false);
                                }
                            }
                        }
                    }
                }
            }
            proof {
                let ks = seq_paths(reqs@);
                let kl = Set::new(
                    |q: Seq<bool>| ks.contains(q) && is_prefix_of(prefix@.push(false), q),
                );
                let kr = Set::new(
                    |q: Seq<bool>| ks.contains(q) && is_prefix_of(prefix@.push(true), q),
                );
                assert(kl =~= seq_paths(reqs_left@)) by {
                    assert forall|q: Seq<bool>| kl.contains(q) implies seq_paths(
                        reqs_left@,
                    ).contains(q) by {
                        let j = choose|j: int| 0 <= j < reqs@.len() && (#[trigger] reqs@[j])@ == q;
                        assert(routed(prefix@, (reqs@[j])@, reqs_left@, reqs_right@));
                    }
                    assert forall|q: Seq<bool>| seq_paths(reqs_left@).contains(q) implies kl
                        .contains(q) by {
                        let t = choose|t: int|
                            0 <= t < reqs_left@.len() && (#[trigger] reqs_left@[t])@ == q;
                        assert(has_path(reqs@, q));
                        let j = choose|j: int| 0 <= j < reqs@.len() && (#[trigger] reqs@[j])@ == q;
                        assert(ks.contains(q));
                    }
                }
                assert(kr =~= seq_paths(reqs_right@)) by {
                    assert forall|q: Seq<bool>| kr.contains(q) implies seq_paths(
                        reqs_right@,
                    ).contains(q) by {
                        let j = choose|j: int| 0 <= j < reqs@.len() && (#[trigger] reqs@[j])@ == q;
                        assert(routed(prefix@, (reqs@[j])@, reqs_left@, reqs_right@));
                        if is_prefix_of(prefix@.push(false), q) {
                            assert(q.take(prefix@.push(false).len() as int)[prefix@.len() as int]
                                == q[prefix@.len() as int]);
                            assert(q.take(prefix@.push(true).len() as int)[prefix@.len() as int]
                                == q[prefix@.len() as int]);
                            assert(false);
                        }
                    }
                    assert forall|q: Seq<bool>| seq_paths(reqs_right@).contains(q) implies kr
                        .contains(q) by {
                        let t = choose|t: int|
                            0 <= t < reqs_right@.len() && (#[trigger] reqs_right@[t])@ == q;
                        assert(has_path(reqs@, q));
                        let j = choose|j: int| 0 <= j < reqs@.len() && (#[trigger] reqs@[j])@ == q;
                        assert(ks.contains(q));
                    }
                }
                if reqs_left@.len() == 0 {
                    assert(seq_paths(reqs_left@) =~= Set::<Seq<bool>>::empty());
                } else {
                    assert(seq_paths(reqs_left@).contains((reqs_left@[0])@));
                    if seq_paths(reqs_left@) == Set::<Seq<bool>>::empty() {
                        assert(false);
                    }
                }
                if reqs_right@.len() == 0 {
                    assert(seq_paths(reqs_right@) =~= Set::<Seq<bool>>::empty());
                } else {
                    assert(seq_paths(reqs_right@).contains((reqs_right@[0])@));
                    if seq_paths(reqs_right@) == Set::<Seq<bool>>::empty() {
                        assert(false);
                    }
                }
            }
            if reqs_left.len() == 0 && reqs_right.len() == 0 {
                let digest = compute_node_hash(n);
                let r = ProofNode::Pruned { head: bits_clone(prefix), digest };
                proof {
                    lemma_head_len(*n);
                    assert(shaped(r, *n, seq_paths(reqs@)));
                    assert forall|k: Seq<bool>| #[trigger] absent_in(r, k) implies !as_map(
                        *n,
                    ).contains_key(k) by {
                        if as_map(*n).contains_key(k) {
                            lemma_key_has_prefix(*n, k);
                        }
                    }
                    assert forall|j: int| 0 <= j < reqs@.len() implies #[trigger] covered(
                        r,
                        as_map(*n),
                        (reqs@[j])@,
                    ) by {
                        let qv = (reqs@[j])@;
                        assert(routed(prefix@, qv, reqs_left@, reqs_right@));
                        assert(!is_prefix_of(prefix@, qv));
                        if as_map(*n).contains_key(qv) {
                            lemma_key_has_prefix(*n, qv);
                        }
                        assert(absent_in(r, qv));
                    }
                }
                r
            } else {
                let pruned_left = prune(left, &reqs_left);
                let pruned_right = prune(right, &reqs_right);
                let r = ProofNode::Split {
                    prefix: bits_clone(prefix),
                    left: Box::new(pruned_left),
                    right: Box::new(pruned_right),
                };
                proof {
                    assert(shaped(r, *n, seq_paths(reqs@))) by {
                        assert(shaped(pruned_left, **left, seq_paths(reqs_left@)));
                        assert(shaped(pruned_right, **right, seq_paths(reqs_right@)));
                    }
                    let ml = as_map(**left);
                    let mr = as_map(**right);
                    let m = as_map(*n);
                    assert(m == ml.union_prefer_right(mr));
                    assert(pf_wf(r));
                    assert(pf_hash(r) == node_hash(*n)) by {
                        assert(node_hash(*n) == branch_digest(
                            prefix@.len() as int,
                            head(**left),
                            node_hash(**left),
                            head(**right),
                            node_hash(**right),
                        ));
                        assert(pf_hash(r) == branch_digest(
                            prefix@.len() as int,
                            pf_head(pruned_left),
                            pf_hash(pruned_left),
                            pf_head(pruned_right),
                            pf_hash(pruned_right),
                        ));
                    }
                    assert forall|k: Seq<bool>| #[trigger] absent_in(r, k) implies !m.contains_key(
                        k,
                    ) by {
                        if m.contains_key(k) {
                            lemma_key_has_prefix(*n, k);
                            assert(is_prefix_of(prefix@, k));
                            assert(k.len() == PATH_BITS);
                            if k[plen as int] {
                                assert(absent_in(pruned_right, k));
                                if mr.contains_key(k) {
                                    assert(false);
                                }
                                lemma_side_bit(prefix@, false, **left, k);
                                assert(false);
                            } else {
                                assert(absent_in(pruned_left, k));
                                if ml.contains_key(k) {
                                    assert(false);
                                }
                                lemma_side_bit(prefix@, true, **right, k);
                                assert(false);
                            }
                        }
                    }
                    assert forall|k: Seq<bool>| (#[trigger] found_in(r, k)) is Some implies m
                        .contains_key(k) && found_in(r, k) == Some(m[k].1) by {
                        assert(is_prefix_of(prefix@, k) && k.len() > plen);
                        if k[plen as int] {
                            assert(found_in(pruned_right, k) is Some);
                            assert(mr.contains_key(k));
                            assert(m[k] == mr[k]);
                        } else {
                            assert(found_in(pruned_left, k) is Some);
                            assert(ml.contains_key(k));
                            if mr.contains_key(k) {
                                lemma_side_bit(prefix@, true, **right, k);
                                assert(false);
                            }
                            assert(m[k] == ml[k]);
                        }
                    }
                    assert forall|j: int| 0 <= j < reqs@.len() implies #[trigger] covered(
                        r,
                        m,
                        (reqs@[j])@,
                    ) by {
                        let qv = (reqs@[j])@;
                        assert(routed(prefix@, qv, reqs_left@, reqs_right@));
                        if is_prefix_of(prefix@.push(false), qv) {
                            let t = choose|t: int|
                                0 <= t < reqs_left@.len() && (reqs_left@[t])@ == qv;
                            assert(covered(pruned_left, ml, qv));
                            assert(qv.take(plen as int) =~= prefix@.push(false).take(plen as int));
                            assert(is_prefix_of(prefix@, qv)) by {
                                assert(qv.take(plen as int) =~= prefix@);
                            }
                            assert(qv.take(prefix@.push(false).len() as int)[plen as int]
                                == qv[plen as int]);
                            assert(qv[plen as int] == false);
                            if mr.contains_key(qv) {
                                lemma_side_bit(prefix@, true, **right, qv);
                                assert(false);
                            }
                            if m.contains_key(qv) {
                                assert(ml.contains_key(qv));
                                assert(m[qv] == ml[qv]);
                                assert(found_in(r, qv) == found_in(pruned_left, qv));
                            } else {
                                assert(!ml.contains_key(qv));
                                assert(absent_in(pruned_left, qv));
                                assert(absent_in(r, qv));
                            }
                        } else if is_prefix_of(prefix@.push(true), qv) {
                            let t = choose|t: int|
                                0 <= t < reqs_right@.len() && (reqs_right@[t])@ == qv;
                            assert(covered(pruned_right, mr, qv));
                            assert(qv.take(plen as int) =~= prefix@.push(true).take(plen as int));
                            assert(is_prefix_of(prefix@, qv)) by {
                                assert(qv.take(plen as int) =~= prefix@);
                            }
                            assert(qv.take(prefix@.push(true).len() as int)[plen as int]
                                == qv[plen as int]);
                            assert(qv[plen as int] == true);
                            if m.contains_key(qv) {
                                if !mr.contains_key(qv) {
                                    lemma_side_bit(prefix@, false, **left, qv);
                                    assert(false);
                                }
                                assert(m[qv] == mr[qv]);
                                assert(found_in(r, qv) == found_in(pruned_right, qv));
                            } else {
                                assert(!mr.contains_key(qv));
                                assert(absent_in(pruned_right, qv));
                                assert(absent_in(r, qv));
                            }
                        } else {
                            assert(!is_prefix_of(prefix@, qv)) by {
                                if is_prefix_of(prefix@, qv) {
                                    assert(qv.take(plen + 1) =~= qv.take(plen as int).push(
                                        qv[plen as int],
                                    ));
                                    if qv[plen as int] {
                                        assert(is_prefix_of(prefix@.push(true), qv));
                                    } else {
                                        assert(is_prefix_of(prefix@.push(false), qv));
                                    }
                                }
                            }
                            if m.contains_key(qv) {
                                lemma_key_has_prefix(*n, qv);
                            }
                            assert(absent_in(r, qv));
                        }
                    }
                }
                r
            }
        },
    }
}

/// A requested path either lies behind one of the branch's two side
/// prefixes — and is then kept in that side's routed list — or it
/// diverges from the prefix itself.
pub(crate) open spec fn routed(
    prefix: Seq<bool>,
    q: Seq<bool>,
    routed_left: Seq<Vec<bool>>,
    routed_right: Seq<Vec<bool>>,
) -> bool {
    if is_prefix_of(prefix.push(false), q) {
        exists|t: int| 0 <= t < routed_left.len() && (#[trigger] routed_left[t])@ == q
    } else if is_prefix_of(prefix.push(true), q) {
        exists|t: int| 0 <= t < routed_right.len() && (#[trigger] routed_right[t])@ == q
    } else {
        !is_prefix_of(prefix, q)
    }
}

/// Routing lists only grow, so a routed path stays routed.
proof fn lemma_routed_grows(
    prefix: Seq<bool>,
    q: Seq<bool>,
    old_left: Seq<Vec<bool>>,
    old_right: Seq<Vec<bool>>,
    new_left: Seq<Vec<bool>>,
    new_right: Seq<Vec<bool>>,
)
    requires
        routed(prefix, q, old_left, old_right),
        old_left.len() <= new_left.len(),
        old_right.len() <= new_right.len(),
        forall|t: int| 0 <= t < old_left.len() ==> #[trigger] new_left[t] == old_left[t],
        forall|t: int| 0 <= t < old_right.len() ==> #[trigger] new_right[t] == old_right[t],
    ensures
        routed(prefix, q, new_left, new_right),
{
    if is_prefix_of(prefix.push(false), q) {
        let t = choose|t: int| 0 <= t < old_left.len() && (#[trigger] old_left[t])@ == q;
        assert((new_left[t])@ == q);
    } else if is_prefix_of(prefix.push(true), q) {
        let t = choose|t: int| 0 <= t < old_right.len() && (#[trigger] old_right[t])@ == q;
        assert((new_right[t])@ == q);
    }
}

} // verus!
