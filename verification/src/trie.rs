//! The authenticated trie: a binary Patricia tree over 256-bit paths.
//! Every node records its full path from the root (a leaf the whole 256
//! bits, a branch the prefix its two subtrees share); a branch's left
//! subtree holds the paths continuing with a zero bit, its right subtree
//! those continuing with a one bit. The tree abstracts to a map from
//! paths to (key, payload) pairs, and every operation is specified
//! against that map.

use vstd::prelude::*;

use crate::bits::{
    bits_clone, bits_eq, bits_lt, bits_take, bytes_clone, common_prefix_len, is_prefix_of, lcp_len,
    lemma_lcp_bounds, lemma_lcp_maximal, lemma_prefix_trans, starts_with, PATH_BITS,
};
use crate::digest::{
    branch_digest, compute_branch_digest, compute_leaf_digest, leaf_digest,
};

verus! {

/// One node of the trie. A leaf stores the full 256-bit path, the
/// caller's key bytes and the payload; a branch stores the bit prefix
/// shared by everything below it and its two subtrees.
pub(crate) enum Node {
    Leaf { path: Vec<bool>, key: Vec<u8>, value: Vec<u8> },
    Branch { prefix: Vec<bool>, left: Box<Node>, right: Box<Node> },
}

/// The node's path from the root: a leaf's full path, a branch's prefix.
pub(crate) open spec fn head(n: Node) -> Seq<bool> {
    match n {
        Node::Leaf { path, .. } => path@,
        Node::Branch { prefix, .. } => prefix@,
    }
}

/// The subtree as a map from full paths to (key, payload) pairs.
pub(crate) open spec fn as_map(n: Node) -> Map<Seq<bool>, (Seq<u8>, Seq<u8>)>
    decreases n,
{
    match n {
        Node::Leaf { path, key, value } => Map::empty().insert(path@, (key@, value@)),
        Node::Branch { prefix: _, left, right } => as_map(*left).union_prefer_right(as_map(*right)),
    }
}

/// Structural soundness: leaf paths are full length; a branch's prefix is
/// shorter than a full path and each subtree's head extends the prefix by
/// the subtree's side bit.
pub(crate) open spec fn wf(n: Node) -> bool
    decreases n,
{
    match n {
        Node::Leaf { path, .. } => path@.len() == PATH_BITS,
        Node::Branch { prefix, left, right } => {
            &&& prefix@.len() < PATH_BITS
            &&& is_prefix_of(prefix@.push(false), head(*left))
            &&& is_prefix_of(prefix@.push(true), head(*right))
            &&& wf(*left)
            &&& wf(*right)
        },
    }
}

/// Every path stored below a node extends the node's head.
pub(crate) proof fn lemma_key_has_prefix(n: Node, k: Seq<bool>)
    requires
        wf(n),
        as_map(n).contains_key(k),
    ensures
        is_prefix_of(head(n), k),
        k.len() == PATH_BITS,
    decreases n,
{
    match n {
        Node::Leaf { path, .. } => {
            assert(k == path@);
            assert(k.take(k.len() as int) =~= k);
        },
        Node::Branch { prefix, left, right } => {
            if as_map(*right).contains_key(k) {
                lemma_key_has_prefix(*right, k);
                lemma_prefix_trans(prefix@.push(true), head(*right), k);
                assert(is_prefix_of(prefix@, prefix@.push(true))) by {
                    assert(prefix@.push(true).take(prefix@.len() as int) =~= prefix@);
                }
                lemma_prefix_trans(prefix@, prefix@.push(true), k);
            } else {
                assert(as_map(*left).contains_key(k));
                lemma_key_has_prefix(*left, k);
                lemma_prefix_trans(prefix@.push(false), head(*left), k);
                assert(is_prefix_of(prefix@, prefix@.push(false))) by {
                    assert(prefix@.push(false).take(prefix@.len() as int) =~= prefix@);
                }
                lemma_prefix_trans(prefix@, prefix@.push(false), k);
            }
        },
    }
}

/// A well-formed subtree stores at least one path.
pub(crate) proof fn lemma_has_key(n: Node) -> (k: Seq<bool>)
    requires
        wf(n),
    ensures
        as_map(n).contains_key(k),
    decreases n,
{
    match n {
        Node::Leaf { path, .. } => path@,
        Node::Branch { prefix: _, left, right } => {
            let k = lemma_has_key(*right);
            k
        },
    }
}

/// The head is never longer than a full path.
pub(crate) proof fn lemma_head_len(n: Node)
    requires
        wf(n),
    ensures
        head(n).len() <= PATH_BITS,
{
    match n {
        Node::Leaf { .. } => {},
        Node::Branch { .. } => {},
    }
}

/// The bit a stored path carries just after a branch's prefix tells its
/// side: zero bits go left, one bits go right.
pub(crate) proof fn lemma_side_bit(prefix: Seq<bool>, side: bool, child: Node, k: Seq<bool>)
    requires
        wf(child),
        is_prefix_of(prefix.push(side), head(child)),
        as_map(child).contains_key(k),
    ensures
        k.len() > prefix.len(),
        k[prefix.len() as int] == side,
        is_prefix_of(prefix, k),
{
    lemma_key_has_prefix(child, k);
    lemma_prefix_trans(prefix.push(side), head(child), k);
    let q = prefix.push(side);
    assert(k.take(q.len() as int)[prefix.len() as int] == side);
    assert(is_prefix_of(prefix, q)) by {
        assert(q.take(prefix.len() as int) =~= prefix);
    }
    lemma_prefix_trans(prefix, q, k);
}

/// Looks a path up in the subtree.
pub(crate) fn node_get<'a>(n: &'a Node, path: &Vec<bool>) -> (r: Option<&'a Vec<u8>>)
    requires
        wf(*n),
        path@.len() == PATH_BITS,
    ensures
        match r {
            Some(v) => as_map(*n).contains_key(path@) && as_map(*n)[path@].1 == v@,
            None => !as_map(*n).contains_key(path@),
        },
    decreases *n,
{
    match n {
        Node::Leaf { path: leaf_path, key: _, value } => {
            if bits_eq(leaf_path, path) {
                Some(value)
            } else {
                None
            }
        },
        Node::Branch { prefix, left, right } => {
            if !starts_with(path, prefix) {
                proof {
                    if as_map(*n).contains_key(path@) {
                        lemma_key_has_prefix(*n, path@);
                    }
                }
                None
            } else {
                let bit = path[prefix.len()];
                proof {
                    if bit {
                        if as_map(**left).contains_key(path@) {
                            lemma_side_bit(prefix@, false, **left, path@);
                        }
                    } else {
                        if as_map(**right).contains_key(path@) {
                            lemma_side_bit(prefix@, true, **right, path@);
                        }
                    }
                }
                if bit {
                    node_get(right, path)
                } else {
                    node_get(left, path)
                }
            }
        },
    }
}

/// Inserts a path with its key and payload, replacing any previous
/// payload stored at that path. Splits an edge where the new path leaves
/// it; the result's head extends every common prefix of the old head and
/// the inserted path.
pub(crate) fn node_insert(n: Node, path: &Vec<bool>, key: &Vec<u8>, value: &Vec<u8>) -> (r: Node)
    requires
        wf(n),
        path@.len() == PATH_BITS,
    ensures
        wf(r),
        as_map(r) == as_map(n).insert(path@, (key@, value@)),
        forall|q: Seq<bool>|
            is_prefix_of(q, head(n)) && is_prefix_of(q, path@) ==> #[trigger] is_prefix_of(
                q,
                head(r),
            ),
    decreases n,
{
    match n {
        Node::Leaf { path: leaf_path, key: leaf_key, value: leaf_value } => {
            if bits_eq(&leaf_path, path) {
                let r = Node::Leaf {
                    path: leaf_path,
                    key: bytes_clone(key),
                    value: bytes_clone(value),
                };
                proof {
                    assert(as_map(r) =~= as_map(
                        Node::Leaf { path: leaf_path, key: leaf_key, value: leaf_value },
                    ).insert(path@, (key@, value@)));
                }
                r
            } else {
                let k = common_prefix_len(&leaf_path, path);
                proof {
                    lemma_lcp_bounds(leaf_path@, path@);
                    if k == path@.len() {
                        assert(leaf_path@.take(k as int) =~= leaf_path@);
                        assert(path@.take(k as int) =~= path@);
                        assert(false);
                    }
                }
                let old_leaf = Node::Leaf { path: leaf_path, key: leaf_key, value: leaf_value };
                let new_leaf = Node::Leaf {
                    path: bits_clone(path),
                    key: bytes_clone(key),
                    value: bytes_clone(value),
                };
                let split_prefix = bits_take(path, k);
                let bit = path[k];
                proof {
                    assert(head(old_leaf).take(k as int) == path@.take(k as int));
                    assert(is_prefix_of(split_prefix@.push(bit), path@)) by {
                        assert(path@.take(k + 1) =~= path@.take(k as int).push(path@[k as int]));
                    }
                    assert(is_prefix_of(split_prefix@.push(!bit), head(old_leaf))) by {
                        assert(head(old_leaf).take(k + 1) =~= head(old_leaf).take(
                            k as int,
                        ).push(head(old_leaf)[k as int]));
                        assert(head(old_leaf)[k as int] == !bit);
                    }
                }
                let r = if bit {
                    let joined = Node::Branch {
                        prefix: split_prefix,
                        left: Box::new(old_leaf),
                        right: Box::new(new_leaf),
                    };
                    proof {
                        assert(as_map(joined) == as_map(old_leaf).union_prefer_right(
                            as_map(new_leaf),
                        ));
                        assert(wf(old_leaf));
                        assert(wf(new_leaf));
                        assert(wf(joined));
                    }
                    joined
                } else {
                    let joined = Node::Branch {
                        prefix: split_prefix,
                        left: Box::new(new_leaf),
                        right: Box::new(old_leaf),
                    };
                    proof {
                        assert(as_map(joined) == as_map(new_leaf).union_prefer_right(
                            as_map(old_leaf),
                        ));
                        assert(wf(old_leaf));
                        assert(wf(new_leaf));
                        assert(wf(joined));
                    }
                    joined
                };
                proof {
                    assert(as_map(r) =~= as_map(old_leaf).insert(path@, (key@, value@)));
                    assert forall|q: Seq<bool>|
                        is_prefix_of(q, head(old_leaf)) && is_prefix_of(q, path@)
                            implies #[trigger] is_prefix_of(q, head(r)) by {
                        lemma_lcp_maximal(q, path@, head(old_leaf));
                        assert(path@.take(lcp_len(path@, head(old_leaf)) as int) == head(r))
                            by {
                            lemma_lcp_from_both_sides(path@, head(old_leaf), k as int);
                        }
                    }
                }
                r
            }
        },
        Node::Branch { prefix, left, right } => {
            let k = common_prefix_len(&prefix, path);
            proof {
                lemma_lcp_bounds(prefix@, path@);
            }
            if k == prefix.len() {
                // the path continues below this branch
                let bit = path[k];
                proof {
                    assert(is_prefix_of(prefix@.push(bit), path@)) by {
                        assert(path@.take(k + 1) =~= path@.take(k as int).push(path@[k as int]));
                        assert(path@.take(k as int) =~= prefix@);
                    }
                }
                let r = if bit {
                    let new_right = node_insert(*right, path, key, value);
                    proof {
                        assert(is_prefix_of(prefix@.push(true), head(new_right)));
                        if as_map(*left).contains_key(path@) {
                            lemma_side_bit(prefix@, false, *left, path@);
                            assert(path@[prefix@.len() as int] == false);
                        }
                    }
                    Node::Branch { prefix, left, right: Box::new(new_right) }
                } else {
                    let new_left = node_insert(*left, path, key, value);
                    proof {
                        assert(is_prefix_of(prefix@.push(false), head(new_left)));
                        if as_map(*right).contains_key(path@) {
                            lemma_side_bit(prefix@, true, *right, path@);
                            assert(path@[prefix@.len() as int] == true);
                        }
                    }
                    Node::Branch { prefix, left: Box::new(new_left), right }
                };
                proof {
                    assert(as_map(r) =~= as_map(n).insert(path@, (key@, value@)));
                }
                r
            } else {
                // the path leaves this branch's prefix: split the edge above it
                let new_leaf = Node::Leaf {
                    path: bits_clone(path),
                    key: bytes_clone(key),
                    value: bytes_clone(value),
                };
                let split_prefix = bits_take(path, k);
                let bit = path[k];
                let old_branch = Node::Branch { prefix, left, right };
                proof {
                    assert(head(old_branch).take(k as int) == path@.take(k as int));
                    assert(head(old_branch)[k as int] != path@[k as int]);
                    assert(is_prefix_of(split_prefix@.push(bit), path@)) by {
                        assert(path@.take(k + 1) =~= path@.take(k as int).push(path@[k as int]));
                    }
                    assert(is_prefix_of(split_prefix@.push(!bit), head(old_branch))) by {
                        assert(head(old_branch).take(k + 1) =~= head(old_branch).take(
                            k as int,
                        ).push(head(old_branch)[k as int]));
                    }
                    if as_map(old_branch).contains_key(path@) {
                        lemma_key_has_prefix(old_branch, path@);
                        assert(path@.take(head(old_branch).len() as int)[k as int] == path@[
                            k as int
                        ]);
                        assert(false);
                    }
                    assert(!as_map(old_branch).contains_key(path@));
                }
                let r = if bit {
                    let joined = Node::Branch {
                        prefix: split_prefix,
                        left: Box::new(old_branch),
                        right: Box::new(new_leaf),
                    };
                    proof {
                        assert(as_map(joined) == as_map(old_branch).union_prefer_right(
                            as_map(new_leaf),
                        ));
                        assert(wf(old_branch));
                        assert(wf(new_leaf));
                        assert(wf(joined));
                    }
                    joined
                } else {
                    let joined = Node::Branch {
                        prefix: split_prefix,
                        left: Box::new(new_leaf),
                        right: Box::new(old_branch),
                    };
                    proof {
                        assert(as_map(joined) == as_map(new_leaf).union_prefer_right(
                            as_map(old_branch),
                        ));
                        assert(wf(old_branch));
                        assert(wf(new_leaf));
                        assert(wf(joined));
                    }
                    joined
                };
                proof {
                    assert(as_map(r) =~= as_map(old_branch).insert(path@, (key@, value@)));
                    assert forall|q: Seq<bool>|
                        is_prefix_of(q, head(old_branch)) && is_prefix_of(q, path@)
                            implies #[trigger] is_prefix_of(q, head(r)) by {
                        lemma_lcp_maximal(q, path@, head(old_branch));
                        assert(path@.take(lcp_len(path@, head(old_branch)) as int) == head(r))
                            by {
                            lemma_lcp_from_both_sides(path@, head(old_branch), k as int);
                        }
                    }
                }
                r
            }
        },
    }
}

/// Removes a path from the subtree. Returns `None` when the subtree is
/// left empty; a branch left with a single subtree collapses into it.
pub(crate) fn node_remove(n: Node, path: &Vec<bool>) -> (r: Option<Node>)
    requires
        wf(n),
        path@.len() == PATH_BITS,
    ensures
        match r {
            Some(m) => wf(m) && as_map(m) == as_map(n).remove(path@) && is_prefix_of(
                head(n),
                head(m),
            ),
            None => as_map(n).remove(path@) == Map::<Seq<bool>, (Seq<u8>, Seq<u8>)>::empty(),
        },
    decreases n,
{
    match n {
        Node::Leaf { path: leaf_path, key: leaf_key, value: leaf_value } => {
            if bits_eq(&leaf_path, path) {
                proof {
                    assert(as_map(n).remove(path@) =~= Map::<
                        Seq<bool>,
                        (Seq<u8>, Seq<u8>),
                    >::empty());
                }
                None
            } else {
                let kept = Node::Leaf { path: leaf_path, key: leaf_key, value: leaf_value };
                proof {
                    assert(as_map(kept) =~= as_map(n).remove(path@));
                    assert(head(n).take(head(n).len() as int) =~= head(n));
                }
                Some(kept)
            }
        },
        Node::Branch { prefix, left, right } => {
            if !starts_with(path, &prefix) {
                let kept = Node::Branch { prefix, left, right };
                proof {
                    if as_map(kept).contains_key(path@) {
                        lemma_key_has_prefix(kept, path@);
                        assert(false);
                    }
                    assert(as_map(kept) == as_map(*left).union_prefer_right(as_map(*right)));
                    assert(as_map(kept) =~= as_map(kept).remove(path@));
                    assert(head(kept).take(head(kept).len() as int) =~= head(kept));
                }
                Some(kept)
            } else {
                let bit = path[prefix.len()];
                proof {
                    assert(is_prefix_of(prefix@, prefix@.push(true))) by {
                        assert(prefix@.push(true).take(prefix@.len() as int) =~= prefix@);
                    }
                    assert(is_prefix_of(prefix@, prefix@.push(false))) by {
                        assert(prefix@.push(false).take(prefix@.len() as int) =~= prefix@);
                    }
                    assert(head(n).take(head(n).len() as int) =~= head(n));
                }
                if bit {
                    proof {
                        if as_map(*left).contains_key(path@) {
                            lemma_side_bit(prefix@, false, *left, path@);
                            assert(false);
                        }
                    }
                    match node_remove(*right, path) {
                        None => {
                            proof {
                                assert forall|k: Seq<bool>| #[trigger]
                                    as_map(*right).contains_key(k) implies k == path@ by {
                                    if k != path@ {
                                        assert(as_map(*right).remove(path@).contains_key(k));
                                    }
                                }
                                assert(as_map(*left) =~= as_map(n).remove(path@));
                                lemma_prefix_trans(
                                    prefix@,
                                    prefix@.push(false),
                                    head(*left),
                                );
                            }
                            Some(*left)
                        },
                        Some(m) => {
                            let kept = Node::Branch { prefix, left, right: Box::new(m) };
                            proof {
                                lemma_prefix_trans(prefix@.push(true), head(*right), head(m));
                                assert(as_map(kept) == as_map(*left).union_prefer_right(
                                    as_map(m),
                                ));
                                assert(wf(kept));
                                assert(as_map(kept) =~= as_map(n).remove(path@));
                            }
                            Some(kept)
                        },
                    }
                } else {
                    proof {
                        if as_map(*right).contains_key(path@) {
                            lemma_side_bit(prefix@, true, *right, path@);
                            assert(false);
                        }
                    }
                    match node_remove(*left, path) {
                        None => {
                            proof {
                                assert forall|k: Seq<bool>| #[trigger]
                                    as_map(*left).contains_key(k) implies k == path@ by {
                                    if k != path@ {
                                        assert(as_map(*left).remove(path@).contains_key(k));
                                    }
                                }
                                assert(as_map(*right) =~= as_map(n).remove(path@));
                                lemma_prefix_trans(
                                    prefix@,
                                    prefix@.push(true),
                                    head(*right),
                                );
                            }
                            Some(*right)
                        },
                        Some(m) => {
                            let kept = Node::Branch { prefix, left: Box::new(m), right };
                            proof {
                                lemma_prefix_trans(prefix@.push(false), head(*left), head(m));
                                assert(as_map(kept) == as_map(m).union_prefer_right(
                                    as_map(*right),
                                ));
                                assert(wf(kept));
                                assert(as_map(kept) =~= as_map(n).remove(path@));
                            }
                            Some(kept)
                        },
                    }
                }
            }
        },
    }
}

/// Digest of a subtree, bottom-up from the digest rules.
pub(crate) open spec fn node_hash(n: Node) -> Seq<u8>
    decreases n,
{
    match n {
        Node::Leaf { path, key: _, value } => leaf_digest(path@, value@),
        Node::Branch { prefix, left, right } => branch_digest(
            prefix@.len() as int,
            head(*left),
            node_hash(*left),
            head(*right),
            node_hash(*right),
        ),
    }
}

/// The node's path from the root, borrowed.
pub(crate) fn node_head_ref<'a>(n: &'a Node) -> (r: &'a Vec<bool>)
    ensures
        r@ == head(*n),
{
    match n {
        Node::Leaf { path, .. } => path,
        Node::Branch { prefix, .. } => prefix,
    }
}

/// Computes the subtree's digest.
pub(crate) fn compute_node_hash(n: &Node) -> (r: Vec<u8>)
    requires
        wf(*n),
    ensures
        r@ == node_hash(*n),
        r@.len() == 32,
    decreases *n,
{
    match n {
        Node::Leaf { path, key: _, value } => compute_leaf_digest(path, value),
        Node::Branch { prefix, left, right } => {
            let left_hash = compute_node_hash(left);
            let right_hash = compute_node_hash(right);
            let left_head = node_head_ref(left);
            let right_head = node_head_ref(right);
            proof {
                lemma_head_len(**left);
                lemma_head_len(**right);
            }
            compute_branch_digest(prefix.len(), left_head, &left_hash, right_head, &right_hash)
        },
    }
}


/// Canonical form: two well-formed trees holding the same map have the
/// same head and the same digest, whatever sequence of operations built
/// each of them.
pub(crate) proof fn lemma_canonical(n1: Node, n2: Node)
    requires
        wf(n1),
        wf(n2),
        as_map(n1) == as_map(n2),
    ensures
        head(n1) == head(n2),
        node_hash(n1) == node_hash(n2),
    decreases n1,
{
    match n1 {
        Node::Leaf { path: path1, key: key1, value: value1 } => {
            match n2 {
                Node::Leaf { path: path2, key: key2, value: value2 } => {
                    assert(as_map(n2).contains_key(path2@));
                    assert(path2@ == path1@);
                    assert(as_map(n1)[path1@] == (key1@, value1@));
                    assert(as_map(n2)[path2@] == (key2@, value2@));
                    assert(node_hash(n1) == leaf_digest(path1@, value1@));
                    assert(node_hash(n2) == leaf_digest(path2@, value2@));
                },
                Node::Branch { .. } => {
                    let ks = lemma_two_keys(n2);
                    assert(as_map(n1).contains_key(ks.0));
                    assert(as_map(n1).contains_key(ks.1));
                    assert(false);
                },
            }
        },
        Node::Branch { prefix: prefix1, left: left1, right: right1 } => {
            match n2 {
                Node::Leaf { .. } => {
                    let ks = lemma_two_keys(n1);
                    assert(as_map(n2).contains_key(ks.0));
                    assert(as_map(n2).contains_key(ks.1));
                    assert(false);
                },
                Node::Branch { prefix: prefix2, left: left2, right: right2 } => {
                    assert(as_map(n1) == as_map(*left1).union_prefer_right(as_map(*right1)));
                    assert(as_map(n2) == as_map(*left2).union_prefer_right(as_map(*right2)));
                    lemma_same_split(prefix1@, *left1, *right1, prefix2@, *left2, *right2);
                    lemma_half_maps(prefix1@, *left1, *right1, *left2, *right2);
                    lemma_canonical(*left1, *left2);
                    lemma_canonical(*right1, *right2);
                    assert(node_hash(n1) == branch_digest(
                        prefix1@.len() as int,
                        head(*left1),
                        node_hash(*left1),
                        head(*right1),
                        node_hash(*right1),
                    ));
                    assert(node_hash(n2) == branch_digest(
                        prefix2@.len() as int,
                        head(*left2),
                        node_hash(*left2),
                        head(*right2),
                        node_hash(*right2),
                    ));
                },
            }
        },
    }
}

/// A branch holds two distinct paths.
pub(crate) proof fn lemma_two_keys(n: Node) -> (ks: (Seq<bool>, Seq<bool>))
    requires
        wf(n),
        n is Branch,
    ensures
        as_map(n).contains_key(ks.0),
        as_map(n).contains_key(ks.1),
        ks.0 != ks.1,
{
    match n {
        Node::Leaf { .. } => (Seq::empty(), Seq::empty()),
        Node::Branch { prefix, left, right } => {
            let kl = lemma_has_key(*left);
            let kr = lemma_has_key(*right);
            lemma_side_bit(prefix@, false, *left, kl);
            lemma_side_bit(prefix@, true, *right, kr);
            (kl, kr)
        },
    }
}

/// Two well-formed branch splits of one map share their prefix.
pub(crate) proof fn lemma_same_split(p1: Seq<bool>, l1: Node, r1: Node, p2: Seq<bool>, l2: Node, r2: Node)
    requires
        wf(l1),
        wf(r1),
        wf(l2),
        wf(r2),
        is_prefix_of(p1.push(false), head(l1)),
        is_prefix_of(p1.push(true), head(r1)),
        is_prefix_of(p2.push(false), head(l2)),
        is_prefix_of(p2.push(true), head(r2)),
        as_map(l1).union_prefer_right(as_map(r1)) == as_map(l2).union_prefer_right(as_map(r2)),
    ensures
        p1 == p2,
{
    let kl1 = lemma_has_key(l1);
    let kr1 = lemma_has_key(r1);
    let kl2 = lemma_has_key(l2);
    let kr2 = lemma_has_key(r2);
    lemma_side_bit(p1, false, l1, kl1);
    lemma_side_bit(p1, true, r1, kr1);
    lemma_side_bit(p2, false, l2, kl2);
    lemma_side_bit(p2, true, r2, kr2);
    assert(as_map(l2).union_prefer_right(as_map(r2)).contains_key(kl1));
    assert(as_map(l2).union_prefer_right(as_map(r2)).contains_key(kr1));
    assert(as_map(l1).union_prefer_right(as_map(r1)).contains_key(kl2));
    assert(as_map(l1).union_prefer_right(as_map(r1)).contains_key(kr2));
    assert(is_prefix_of(p2, kl1)) by {
        if as_map(l2).contains_key(kl1) {
            lemma_side_bit(p2, false, l2, kl1);
        } else {
            lemma_side_bit(p2, true, r2, kl1);
        }
    }
    assert(is_prefix_of(p2, kr1)) by {
        if as_map(l2).contains_key(kr1) {
            lemma_side_bit(p2, false, l2, kr1);
        } else {
            lemma_side_bit(p2, true, r2, kr1);
        }
    }
    assert(is_prefix_of(p1, kl2)) by {
        if as_map(l1).contains_key(kl2) {
            lemma_side_bit(p1, false, l1, kl2);
        } else {
            lemma_side_bit(p1, true, r1, kl2);
        }
    }
    assert(is_prefix_of(p1, kr2)) by {
        if as_map(l1).contains_key(kr2) {
            lemma_side_bit(p1, false, l1, kr2);
        } else {
            lemma_side_bit(p1, true, r1, kr2);
        }
    }
    if p1.len() < p2.len() {
        assert(kl1.take(p2.len() as int)[p1.len() as int] == p2[p1.len() as int]);
        assert(kr1.take(p2.len() as int)[p1.len() as int] == p2[p1.len() as int]);
        assert(false);
    }
    if p2.len() < p1.len() {
        assert(kl2.take(p1.len() as int)[p2.len() as int] == p1[p2.len() as int]);
        assert(kr2.take(p1.len() as int)[p2.len() as int] == p1[p2.len() as int]);
        assert(false);
    }
    assert(kl1.take(p1.len() as int) == p1);
    assert(kl1.take(p2.len() as int) == p2);
}

/// With equal prefixes, the two halves of equal branch maps are equal.
pub(crate) proof fn lemma_half_maps(p: Seq<bool>, l1: Node, r1: Node, l2: Node, r2: Node)
    requires
        wf(l1),
        wf(r1),
        wf(l2),
        wf(r2),
        is_prefix_of(p.push(false), head(l1)),
        is_prefix_of(p.push(true), head(r1)),
        is_prefix_of(p.push(false), head(l2)),
        is_prefix_of(p.push(true), head(r2)),
        as_map(l1).union_prefer_right(as_map(r1)) == as_map(l2).union_prefer_right(as_map(r2)),
    ensures
        as_map(l1) == as_map(l2),
        as_map(r1) == as_map(r2),
{
    let m = as_map(l1).union_prefer_right(as_map(r1));
    assert forall|k: Seq<bool>| #[trigger] as_map(l1).contains_key(k) implies as_map(
        l2,
    ).contains_key(k) && as_map(l2)[k] == as_map(l1)[k] by {
        lemma_side_bit(p, false, l1, k);
        if as_map(r1).contains_key(k) {
            lemma_side_bit(p, true, r1, k);
            assert(false);
        }
        assert(m.contains_key(k) && m[k] == as_map(l1)[k]);
        if as_map(r2).contains_key(k) {
            lemma_side_bit(p, true, r2, k);
            assert(false);
        }
        assert(as_map(l2).contains_key(k) && as_map(l2)[k] == m[k]);
    }
    assert forall|k: Seq<bool>| #[trigger] as_map(l2).contains_key(k) implies as_map(
        l1,
    ).contains_key(k) by {
        lemma_side_bit(p, false, l2, k);
        if as_map(r2).contains_key(k) {
            lemma_side_bit(p, true, r2, k);
            assert(false);
        }
        if as_map(r1).contains_key(k) {
            lemma_side_bit(p, true, r1, k);
            assert(false);
        }
        assert(m.contains_key(k));
    }
    assert(as_map(l1) =~= as_map(l2));
    assert forall|k: Seq<bool>| #[trigger] as_map(r1).contains_key(k) implies as_map(
        r2,
    ).contains_key(k) && as_map(r2)[k] == as_map(r1)[k] by {
        lemma_side_bit(p, true, r1, k);
        if as_map(l2).contains_key(k) {
            lemma_side_bit(p, false, l2, k);
            assert(false);
        }
        assert(m.contains_key(k) && m[k] == as_map(r1)[k]);
        assert(as_map(r2).contains_key(k) && as_map(r2)[k] == m[k]);
    }
    assert forall|k: Seq<bool>| #[trigger] as_map(r2).contains_key(k) implies as_map(
        r1,
    ).contains_key(k) by {
        lemma_side_bit(p, true, r2, k);
        if as_map(l1).contains_key(k) {
            lemma_side_bit(p, false, l1, k);
            assert(false);
        }
        assert(m.contains_key(k));
    }
    assert(as_map(r1) =~= as_map(r2));
}

/// The stored entries in ascending path order: a leaf is one entry, a
/// branch lists its left subtree before its right one.
pub(crate) open spec fn entry_seq(n: Node) -> Seq<(Seq<bool>, Seq<u8>, Seq<u8>)>
    decreases n,
{
    match n {
        Node::Leaf { path, key, value } => seq![(path@, key@, value@)],
        Node::Branch { prefix: _, left, right } => entry_seq(*left) + entry_seq(*right),
    }
}

/// The entry sequence lists exactly the stored map, in strictly
/// ascending path order.
pub(crate) proof fn lemma_entry_seq(n: Node)
    requires
        wf(n),
    ensures
        forall|i: int|
            0 <= i < entry_seq(n).len() ==> as_map(n).contains_key(#[trigger] entry_seq(n)[i].0)
                && as_map(n)[entry_seq(n)[i].0] == (entry_seq(n)[i].1, entry_seq(n)[i].2),
        forall|i: int, j: int|
            0 <= i < j < entry_seq(n).len() ==> bits_lt(
                #[trigger] entry_seq(n)[i].0,
                #[trigger] entry_seq(n)[j].0,
            ),
        forall|p: Seq<bool>| #[trigger]
            as_map(n).contains_key(p) ==> exists|i: int|
                0 <= i < entry_seq(n).len() && entry_seq(n)[i].0 == p,
    decreases n,
{
    match n {
        Node::Leaf { path, key, value } => {
            assert forall|p: Seq<bool>| #[trigger] as_map(n).contains_key(p) implies exists|
                i: int,
            | 0 <= i < entry_seq(n).len() && entry_seq(n)[i].0 == p by {
                assert(entry_seq(n)[0].0 == p);
            }
        },
        Node::Branch { prefix, left, right } => {
            lemma_entry_seq(*left);
            lemma_entry_seq(*right);
            let es = entry_seq(n);
            let el = entry_seq(*left);
            let er = entry_seq(*right);
            let nl = el.len() as int;
            assert(as_map(n) == as_map(*left).union_prefer_right(as_map(*right)));
            assert forall|i: int| 0 <= i < es.len() implies as_map(n).contains_key(
                #[trigger] es[i].0,
            ) && as_map(n)[es[i].0] == (es[i].1, es[i].2) by {
                if i < nl {
                    assert(es[i] == el[i]);
                    assert(as_map(*left).contains_key(el[i].0));
                    lemma_side_bit(prefix@, false, *left, el[i].0);
                    if as_map(*right).contains_key(el[i].0) {
                        lemma_side_bit(prefix@, true, *right, el[i].0);
                        assert(false);
                    }
                } else {
                    assert(es[i] == er[i - nl]);
                    assert(as_map(*right).contains_key(er[i - nl].0));
                }
            }
            assert forall|i: int, j: int| 0 <= i < j < es.len() implies bits_lt(
                #[trigger] es[i].0,
                #[trigger] es[j].0,
            ) by {
                if i < nl && j >= nl {
                    let a = el[i].0;
                    let b = er[j - nl].0;
                    assert(as_map(*left).contains_key(a));
                    assert(as_map(*right).contains_key(b));
                    lemma_side_bit(prefix@, false, *left, a);
                    lemma_side_bit(prefix@, true, *right, b);
                    let m = prefix@.len() as int;
                    assert(a.take(m) == prefix@);
                    assert(b.take(m) == prefix@);
                    crate::bits::lemma_bits_lt_from_diff(a, b, m);
                }
            }
            assert forall|p: Seq<bool>| #[trigger] as_map(n).contains_key(p) implies exists|
                i: int,
            | 0 <= i < es.len() && es[i].0 == p by {
                if as_map(*left).contains_key(p) {
                    let i = choose|i: int| 0 <= i < el.len() && el[i].0 == p;
                    assert(es[i].0 == p);
                } else {
                    assert(as_map(*right).contains_key(p));
                    let i = choose|i: int| 0 <= i < er.len() && er[i].0 == p;
                    assert(es[nl + i].0 == p);
                }
            }
        },
    }
}

/// Collects the stored entries, in ascending path order, as
/// (path, key, payload) rows.
pub(crate) fn node_entries(n: &Node) -> (r: Vec<(Vec<bool>, Vec<u8>, Vec<u8>)>)
    requires
        wf(*n),
    ensures
        r@.len() == entry_seq(*n).len(),
        forall|i: int|
            0 <= i < r@.len() ==> (#[trigger] r@[i].0@, r@[i].1@, r@[i].2@) == entry_seq(*n)[i],
    decreases *n,
{
    match n {
        Node::Leaf { path, key, value } => {
            let mut r: Vec<(Vec<bool>, Vec<u8>, Vec<u8>)> = Vec::new();
            r.push((bits_clone(path), bytes_clone(key), bytes_clone(value)));
            r
        },
        Node::Branch { prefix: _, left, right } => {
            let mut r = node_entries(left);
            let tail = node_entries(right);
            let mut j: usize = 0;
            while j < tail.len()
                invariant
                    j <= tail@.len(),
                    r@.len() == entry_seq(**left).len() + j,
                    entry_seq(*n) == entry_seq(**left) + entry_seq(**right),
                    tail@.len() == entry_seq(**right).len(),
                    forall|i: int|
                        0 <= i < tail@.len() ==> (
                        #[trigger] tail@[i].0@,
                        tail@[i].1@,
                        tail@[i].2@,
                        ) == entry_seq(**right)[i],
                    forall|i: int|
                        0 <= i < r@.len() ==> (#[trigger] r@[i].0@, r@[i].1@, r@[i].2@)
                            == entry_seq(*n)[i],
                decreases tail@.len() - j,
            {
                let row = &tail[j];
                r.push((bits_clone(&row.0), bytes_clone(&row.1), bytes_clone(&row.2)));
                j = j + 1;
            }
            r
        },
    }
}

/// The common-prefix length is symmetric in its arguments.
proof fn lemma_lcp_from_both_sides(a: Seq<bool>, b: Seq<bool>, k: int)
    requires
        lcp_len(b, a) == k,
    ensures
        lcp_len(a, b) == k,
        a.take(k) == a.take(lcp_len(a, b) as int),
    decreases a.len(),
{
    if a.len() == 0 || b.len() == 0 || a[0] != b[0] {
    } else {
        lemma_lcp_from_both_sides(a.drop_first(), b.drop_first(), k - 1);
    }
}

} // verus!
