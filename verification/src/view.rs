//! Storage views. A view holds the maps of a store, each bound to an
//! address (a name, and an optional sub-identifier for grouped
//! families). A fork accepts reads and writes; a snapshot is the same
//! store frozen read-only, and any mutating call against it is a
//! contract violation reported as an error. Reading an address no map
//! was created under behaves as reading an empty map.

use vstd::prelude::*;

use crate::digest::{compute_empty_digest, empty_map_digest};
use crate::index::{key_ok, path_of, tail_from, MapError, ProofMapIndex, Regime};
use crate::bits::bytes_eq;

verus! {

/// The address of a map within a view.
pub struct Address {
    /// The map's name.
    pub name: String,
    /// An optional byte string distinguishing instances in a family.
    pub sub_id: Option<Vec<u8>>,
}

/// The address as a plain value.
pub open spec fn addr_key(a: Address) -> (Seq<char>, Option<Seq<u8>>) {
    (
        a.name@,
        match a.sub_id {
            Some(s) => Some(s@),
            None => None,
        },
    )
}

/// True when the two addresses name the same map.
pub fn addr_eq(a: &Address, b: &Address) -> (r: bool)
    ensures
        r == (addr_key(*a) == addr_key(*b)),
{
    if !(a.name == b.name) {
        return false;
    }
    match (&a.sub_id, &b.sub_id) {
        (None, None) => true,
        (Some(x), Some(y)) => bytes_eq(x, y),
        _ => false,
    }
}

/// The index of the first map bound to the addressed name, or -1.
pub open spec fn find_map(
    s: Seq<(Address, ProofMapIndex)>,
    k: (Seq<char>, Option<Seq<u8>>),
) -> int
    decreases s.len(),
{
    if s.len() == 0 {
        -1
    } else if addr_key(s[0].0) == k {
        0
    } else if find_map(s.drop_first(), k) == -1 {
        -1
    } else {
        1 + find_map(s.drop_first(), k)
    }
}

/// `find_map` names the first match, and -1 only without a match.
proof fn lemma_find_map(s: Seq<(Address, ProofMapIndex)>, k: (Seq<char>, Option<Seq<u8>>))
    ensures
        find_map(s, k) == -1 ==> forall|t: int|
            0 <= t < s.len() ==> addr_key((#[trigger] s[t]).0) != k,
        find_map(s, k) != -1 ==> 0 <= find_map(s, k) < s.len() && addr_key(
            s[find_map(s, k)].0,
        ) == k && forall|t: int| 0 <= t < find_map(s, k) ==> addr_key((#[trigger] s[t]).0) != k,
    decreases s.len(),
{
    if s.len() > 0 {
        lemma_find_map(s.drop_first(), k);
        if addr_key(s[0].0) != k {
            assert forall|t: int| 1 <= t < s.len() implies s.drop_first()[t - 1] == s[t] by {}
        }
    }
}

/// A store of maps, read-only or accepting writes.
pub enum StorageView {
    /// A consistent, read-only view.
    Snapshot { maps: Vec<(Address, ProofMapIndex)> },
    /// A mutable view accumulating writes.
    Fork { maps: Vec<(Address, ProofMapIndex)> },
}

impl StorageView {
    /// The maps the view holds, with their addresses.
    pub open spec fn maps(self) -> Seq<(Address, ProofMapIndex)> {
        match self {
            StorageView::Snapshot { maps } => maps@,
            StorageView::Fork { maps } => maps@,
        }
    }

    /// Whether the view accepts writes.
    pub open spec fn is_fork(self) -> bool {
        self is Fork
    }

    /// A fresh, empty mutable view.
    pub fn new_fork() -> (r: StorageView)
        ensures
            r.is_fork(),
            r.maps() == Seq::<(Address, ProofMapIndex)>::empty(),
    {
        StorageView::Fork { maps: Vec::new() }
    }

    /// Freezes the view: the same maps, read-only. This stands for the
    /// commit the surrounding storage layer performs.
    pub fn freeze(self) -> (r: StorageView)
        ensures
            !r.is_fork(),
            r.maps() == self.maps(),
    {
        match self {
            StorageView::Snapshot { maps } => StorageView::Snapshot { maps },
            StorageView::Fork { maps } => StorageView::Snapshot { maps },
        }
    }

    /// The position of the addressed map, if one was created.
    fn find(&self, addr: &Address) -> (r: Option<usize>)
        ensures
            match r {
                Some(i) => i < self.maps().len() && find_map(self.maps(), addr_key(*addr))
                    == i as int,
                None => find_map(self.maps(), addr_key(*addr)) == -1,
            },
    {
        let maps = match self {
            StorageView::Snapshot { maps } => maps,
            StorageView::Fork { maps } => maps,
        };
        proof {
            lemma_find_map(maps@, addr_key(*addr));
        }
        let mut i: usize = 0;
        while i < maps.len()
            invariant
                i <= maps@.len(),
                maps@ == self.maps(),
                forall|t: int| 0 <= t < i ==> addr_key((#[trigger] maps@[t]).0) != addr_key(*addr),
            decreases maps@.len() - i,
        {
            if addr_eq(&maps[i].0, addr) {
                proof {
                    lemma_find_map(maps@, addr_key(*addr));
                }
                return Some(i);
            }
            i = i + 1;
        }
        proof {
            lemma_find_map(maps@, addr_key(*addr));
        }
        None
    }

    /// Creates an empty map under the address and regime. An address
    /// already bound keeps its map; a snapshot refuses the write.
    pub fn create_map(&mut self, addr: Address, regime: Regime) -> (r: Result<(), MapError>)
        ensures
            match r {
                Ok(_) => old(self).is_fork() && final(self).is_fork() && {
                    if find_map(old(self).maps(), addr_key(addr)) == -1 {
                        &&& final(self).maps().len() == old(self).maps().len() + 1
                        &&& (forall|t: int|
                            0 <= t < old(self).maps().len() ==> final(self).maps()[t] == old(
                                self,
                            ).maps()[t])
                        &&& addr_key(final(self).maps().last().0) == addr_key(addr)
                        &&& final(self).maps().last().1@ == Map::<
                            Seq<bool>,
                            (Seq<u8>, Seq<u8>),
                        >::empty()
                        &&& final(self).maps().last().1.regime() == regime
                    } else {
                        final(self).maps() == old(self).maps()
                    }
                },
                Err(e) => !old(self).is_fork() && e == MapError::MutationOnSnapshot
                    && final(self).maps() == old(self).maps() && !final(self).is_fork(),
            },
    {
        let present = self.find(&addr).is_some();
        match self {
            StorageView::Snapshot { .. } => Err(MapError::MutationOnSnapshot),
            StorageView::Fork { maps } => {
                if !present {
                    maps.push((addr, ProofMapIndex::new(regime)));
                }
                Ok(())
            },
        }
    }

    /// Reads the payload stored for `key` in the addressed map; an
    /// address without a map reads as an empty map.
    pub fn get(&self, addr: &Address, key: &Vec<u8>) -> (r: Result<Option<Vec<u8>>, MapError>)
        ensures
            ({
                let f = find_map(self.maps(), addr_key(*addr));
                if f == -1 {
                    r == Ok::<Option<Vec<u8>>, MapError>(None)
                } else {
                    let m = self.maps()[f].1;
                    match r {
                        Ok(found) => key_ok(m.regime(), key@) && match found {
                            Some(value) => m@.contains_key(path_of(m.regime(), key@)) && m@[
                                path_of(m.regime(), key@)
                            ].1 == value@,
                            None => !m@.contains_key(path_of(m.regime(), key@)),
                        },
                        Err(e) => !key_ok(m.regime(), key@) && e == MapError::InvalidKeyLength,
                    }
                }
            }),
    {
        match self.find(addr) {
            None => Ok(None),
            Some(i) => {
                let maps = match self {
                    StorageView::Snapshot { maps } => maps,
                    StorageView::Fork { maps } => maps,
                };
                maps[i].1.get(key)
            },
        }
    }

    /// Stores `value` under `key` in the addressed map. A snapshot
    /// refuses the write; an address without a map is the caller's
    /// error.
    pub fn put(&mut self, addr: &Address, key: &Vec<u8>, value: &Vec<u8>) -> (r: Result<
        (),
        MapError,
    >)
        ensures
            final(self).is_fork() == old(self).is_fork(),
            ({
                let f = find_map(old(self).maps(), addr_key(*addr));
                match r {
                    Ok(_) => {
                        &&& old(self).is_fork()
                        &&& f != -1
                        &&& ({
                            let m = old(self).maps()[f].1;
                            &&& key_ok(m.regime(), key@)
                            &&& final(self).maps().len() == old(self).maps().len()
                            &&& (forall|t: int|
                                0 <= t < old(self).maps().len() && t != f
                                    ==> final(self).maps()[t] == old(self).maps()[t])
                            &&& final(self).maps()[f].0 == old(self).maps()[f].0
                            &&& final(self).maps()[f].1.regime() == m.regime()
                            &&& final(self).maps()[f].1@ == m@.insert(
                                path_of(m.regime(), key@),
                                (key@, value@),
                            )
                        })
                    },
                    Err(e) => {
                        &&& final(self).maps().len() == old(self).maps().len()
                        &&& (forall|t: int|
                            0 <= t < old(self).maps().len() && t != f
                                ==> final(self).maps()[t] == old(self).maps()[t])
                        &&& (f != -1 ==> final(self).maps()[f].0 == old(self).maps()[f].0
                            && final(self).maps()[f].1@ == old(self).maps()[f].1@
                            && final(self).maps()[f].1.regime() == old(
                            self,
                        ).maps()[f].1.regime())
                        &&& if !old(self).is_fork() {
                            e == MapError::MutationOnSnapshot
                        } else if f == -1 {
                            e == MapError::UnknownAddress
                        } else {
                            e == MapError::InvalidKeyLength && !key_ok(
                                old(self).maps()[f].1.regime(),
                                key@,
                            )
                        }
                    },
                }
            }),
    {
        let found = self.find(addr);
        match self {
            StorageView::Snapshot { .. } => Err(MapError::MutationOnSnapshot),
            StorageView::Fork { maps } => {
                match found {
                    None => Err(MapError::UnknownAddress),
                    Some(i) => {
                        let mut entry = maps.remove(i);
                        let res = entry.1.put(key, value);
                        maps.insert(i, entry);
                        proof {
                            assert(maps@ =~= old(self).maps().update(
                                i as int,
                                (old(self).maps()[i as int].0, maps@[i as int].1),
                            ));
                        }
                        res
                    },
                }
            },
        }
    }

    /// Removes the payload stored under `key` in the addressed map. A
    /// snapshot refuses the write; an address without a map is the
    /// caller's error.
    pub fn remove(&mut self, addr: &Address, key: &Vec<u8>) -> (r: Result<(), MapError>)
        ensures
            final(self).is_fork() == old(self).is_fork(),
            ({
                let f = find_map(old(self).maps(), addr_key(*addr));
                match r {
                    Ok(_) => {
                        &&& old(self).is_fork()
                        &&& f != -1
                        &&& ({
                            let m = old(self).maps()[f].1;
                            &&& key_ok(m.regime(), key@)
                            &&& final(self).maps().len() == old(self).maps().len()
                            &&& (forall|t: int|
                                0 <= t < old(self).maps().len() && t != f
                                    ==> final(self).maps()[t] == old(self).maps()[t])
                            &&& final(self).maps()[f].0 == old(self).maps()[f].0
                            &&& final(self).maps()[f].1.regime() == m.regime()
                            &&& final(self).maps()[f].1@ == m@.remove(path_of(m.regime(), key@))
                        })
                    },
                    Err(e) => {
                        &&& final(self).maps().len() == old(self).maps().len()
                        &&& (forall|t: int|
                            0 <= t < old(self).maps().len() && t != f
                                ==> final(self).maps()[t] == old(self).maps()[t])
                        &&& (f != -1 ==> final(self).maps()[f].0 == old(self).maps()[f].0
                            && final(self).maps()[f].1@ == old(self).maps()[f].1@
                            && final(self).maps()[f].1.regime() == old(
                            self,
                        ).maps()[f].1.regime())
                        &&& if !old(self).is_fork() {
                            e == MapError::MutationOnSnapshot
                        } else if f == -1 {
                            e == MapError::UnknownAddress
                        } else {
                            e == MapError::InvalidKeyLength && !key_ok(
                                old(self).maps()[f].1.regime(),
                                key@,
                            )
                        }
                    },
                }
            }),
    {
        let found = self.find(addr);
        match self {
            StorageView::Snapshot { .. } => Err(MapError::MutationOnSnapshot),
            StorageView::Fork { maps } => {
                match found {
                    None => Err(MapError::UnknownAddress),
                    Some(i) => {
                        let mut entry = maps.remove(i);
                        let res = entry.1.remove(key);
                        maps.insert(i, entry);
                        proof {
                            assert(maps@ =~= old(self).maps().update(
                                i as int,
                                (old(self).maps()[i as int].0, maps@[i as int].1),
                            ));
                        }
                        res
                    },
                }
            },
        }
    }

    /// Resets the addressed map to the empty state. A snapshot refuses
    /// the write; an address without a map is the caller's error.
    pub fn clear(&mut self, addr: &Address) -> (r: Result<(), MapError>)
        ensures
            final(self).is_fork() == old(self).is_fork(),
            ({
                let f = find_map(old(self).maps(), addr_key(*addr));
                match r {
                    Ok(_) => {
                        &&& old(self).is_fork()
                        &&& f != -1
                        &&& final(self).maps().len() == old(self).maps().len()
                        &&& (forall|t: int|
                            0 <= t < old(self).maps().len() && t != f
                                ==> final(self).maps()[t] == old(self).maps()[t])
                        &&& final(self).maps()[f].0 == old(self).maps()[f].0
                        &&& final(self).maps()[f].1.regime() == old(self).maps()[f].1.regime()
                        &&& final(self).maps()[f].1@ == Map::<
                            Seq<bool>,
                            (Seq<u8>, Seq<u8>),
                        >::empty()
                    },
                    Err(e) => final(self).maps() == old(self).maps() && {
                        if !old(self).is_fork() {
                            e == MapError::MutationOnSnapshot
                        } else {
                            f == -1 && e == MapError::UnknownAddress
                        }
                    },
                }
            }),
    {
        let found = self.find(addr);
        match self {
            StorageView::Snapshot { .. } => Err(MapError::MutationOnSnapshot),
            StorageView::Fork { maps } => {
                match found {
                    None => Err(MapError::UnknownAddress),
                    Some(i) => {
                        let mut entry = maps.remove(i);
                        entry.1.clear();
                        maps.insert(i, entry);
                        proof {
                            assert(maps@ =~= old(self).maps().update(
                                i as int,
                                (old(self).maps()[i as int].0, maps@[i as int].1),
                            ));
                        }
                        Ok(())
                    },
                }
            },
        }
    }

    /// The root digest of the addressed map; an address without a map
    /// reads as an empty map and yields the empty-map sentinel.
    pub fn object_hash(&self, addr: &Address) -> (r: Vec<u8>)
        ensures
            ({
                let f = find_map(self.maps(), addr_key(*addr));
                if f == -1 {
                    r@ == empty_map_digest()
                } else {
                    r@ == self.maps()[f].1.hash_spec()
                }
            }),
            r@.len() == 32,
    {
        match self.find(addr) {
            None => compute_empty_digest(),
            Some(i) => {
                let maps = match self {
                    StorageView::Snapshot { maps } => maps,
                    StorageView::Fork { maps } => maps,
                };
                maps[i].1.object_hash()
            },
        }
    }

    /// The stored (key, payload) pairs of the addressed map, in
    /// ascending path order; an address without a map reads as empty.
    pub fn entries(&self, addr: &Address) -> (r: Vec<(Vec<u8>, Vec<u8>)>)
        ensures
            ({
                let f = find_map(self.maps(), addr_key(*addr));
                if f == -1 {
                    r@.len() == 0
                } else {
                    let m = self.maps()[f].1;
                    r@.len() == m.entries_spec().len() && forall|i: int|
                        0 <= i < r@.len() ==> (r@[i].0@, r@[i].1@) == (
                            #[trigger] m.entries_spec()[i].1,
                            m.entries_spec()[i].2,
                        )
                }
            }),
    {
        match self.find(addr) {
            None => Vec::new(),
            Some(i) => {
                let maps = match self {
                    StorageView::Snapshot { maps } => maps,
                    StorageView::Fork { maps } => maps,
                };
                maps[i].1.entries()
            },
        }
    }

    /// The stored (key, payload) pairs of the addressed map whose path
    /// is at or after the path `from` addresses, in ascending path
    /// order; an address without a map reads as empty.
    pub fn entries_from(&self, addr: &Address, from: &Vec<u8>) -> (r: Result<
        Vec<(Vec<u8>, Vec<u8>)>,
        MapError,
    >)
        ensures
            ({
                let f = find_map(self.maps(), addr_key(*addr));
                if f == -1 {
                    match r {
                        Ok(v) => v@.len() == 0,
                        Err(_) => false,
                    }
                } else {
                    let m = self.maps()[f].1;
                    match r {
                        Ok(v) => {
                            let t = tail_from(m.entries_spec(), path_of(m.regime(), from@));
                            key_ok(m.regime(), from@) && v@.len() == t.len() && forall|i: int|
                                0 <= i < v@.len() ==> (v@[i].0@, v@[i].1@) == (
                                    #[trigger] t[i].1,
                                    t[i].2,
                                )
                        },
                        Err(e) => !key_ok(m.regime(), from@) && e == MapError::InvalidKeyLength,
                    }
                }
            }),
    {
        match self.find(addr) {
            None => Ok(Vec::new()),
            Some(i) => {
                let maps = match self {
                    StorageView::Snapshot { maps } => maps,
                    StorageView::Fork { maps } => maps,
                };
                maps[i].1.entries_from(from)
            },
        }
    }
}

} // verus!
