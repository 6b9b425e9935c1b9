//! The tree handle: owns the optional root node and the live-entry count,
//! and exposes the public map-like operations.

use vstd::prelude::*;

use super::entry::KeyValue;
use super::key::KeyProbe;
use super::node::{
    opt_lookup, recursive_find, recursive_insert, recursive_mut_find, recursive_remove,
    RadixNode,
};

verus! {

/// A compressed prefix tree mapping byte-sequence keys to values.  Owns
/// the optional root subtree and the count of live entries.
pub struct RadixTree<V> {
    size: usize,
    root: Option<Box<RadixNode<V>>>,
}

impl<V> RadixTree<V> {
    /// The finite map from whole keys to values that the tree encodes.
    pub closed spec fn as_map(self) -> Map<Seq<u8>, V> {
        match self.root {
            Some(r) => Map::new(
                |k: Seq<u8>| (*r).lookup(k) is Some,
                |k: Seq<u8>| (*r).lookup(k)->0,
            ),
            None => Map::empty(),
        }
    }

    /// The tree's invariant: the root subtree is well-formed and the entry
    /// count equals the number of keys stored.
    pub closed spec fn wf(self) -> bool {
        &&& (self.root matches Some(r) ==> (*r).wf())
        &&& self.as_map().dom().finite()
        &&& self.size == self.as_map().len()
    }

    pub fn new() -> (r: Self)
        ensures
            r.wf(),
            r@ == Map::<Seq<u8>, V>::empty(),
    {
        let r = RadixTree { size: 0, root: None };
        proof {
            assert(r.as_map().dom() =~= Set::<Seq<u8>>::empty());
        }
        r
    }

    pub fn len(&self) -> (r: usize)
        requires
            self.wf(),
        ensures
            r == self@.len(),
    {
        self.size
    }

    pub fn is_empty(&self) -> (r: bool)
        requires
            self.wf(),
        ensures
            r == (self@.len() == 0),
    {
        self.size == 0
    }

    /// Resets to an empty tree, dropping the root and the entry count.
    pub fn clear(&mut self)
        ensures
            final(self).wf(),
            final(self)@ == Map::<Seq<u8>, V>::empty(),
    {
        self.root = None;
        self.size = 0;
        proof {
            assert(self.as_map().dom() =~= Set::<Seq<u8>>::empty());
        }
    }

    pub fn get(&self, key: &[u8]) -> (r: Option<&V>)
        requires
            self.wf(),
        ensures
            (r is Some) == self@.contains_key(key@),
            (r matches Some(v) ==> self@[key@] == *v),
    {
        match &self.root {
            Some(root) => {
                let probe = KeyProbe::new(key);
                let r = recursive_find(root, probe);
                proof {
                    assert(self@.contains_key(key@) == ((**root).lookup(key@) is Some));
                }
                r
            }
            None => None,
        }
    }

    pub fn contains_key(&self, key: &[u8]) -> (r: bool)
        requires
            self.wf(),
        ensures
            r == self@.contains_key(key@),
    {
        self.get(key).is_some()
    }

    pub fn get_mut(&mut self, key: &[u8]) -> (r: Option<&mut V>)
        requires
            old(self).wf(),
        ensures
            final(self).wf(),
            (r is Some) == old(self)@.contains_key(key@),
            r is Some ==> old(self)@[key@] == *r.unwrap() && final(self)@ == old(self)@.insert(
                key@,
                *final(r.unwrap()),
            ),
            r is None ==> final(self)@ == old(self)@,
    {
        let ghost old_tree = *self;
        match self.root.as_mut() {
            Some(root) => {
                let ghost old_root = **root;
                let probe = KeyProbe::new(key);
                let r = recursive_mut_find(root, probe);
                proof {
                    let fin = after_borrow(*self);
                    assert(fin.size == old_tree.size);
                    assert(fin.root is Some);
                    assert(*fin.root.unwrap() == *after_borrow(*root));
                    if r is Some {
                        assert(fin.as_map() =~= old_tree.as_map().insert(
                            key@,
                            *final(r.unwrap()),
                        ));
                        assert(fin.as_map().dom() =~= old_tree.as_map().dom());
                        assert(fin.wf());
                    } else {
                        assert(fin.as_map() =~= old_tree.as_map());
                        assert(fin.wf());
                    }
                }
                r
            }
            None => None,
        }
    }

    /// Stores `value` under `key`, handing back the value previously
    /// stored there, if any.
    pub fn insert(&mut self, key: Vec<u8>, value: V) -> (r: Option<V>)
        requires
            old(self).wf(),
            old(self)@.len() < usize::MAX,
        ensures
            final(self).wf(),
            final(self)@ == old(self)@.insert(key@, value),
            r == (if old(self)@.contains_key(key@) {
                Some(old(self)@[key@])
            } else {
                None::<V>
            }),
    {
        let ghost key_view = key@;
        let ghost old_tree = *self;
        let old_entry = match self.root.take() {
            Some(old_root) => {
                let probe = KeyProbe::new(key.as_slice());
                let new_entry = KeyValue::new(key, value);
                let (updated, old_entry) = recursive_insert(old_root, probe, new_entry);
                self.root = Some(updated);
                old_entry
            }
            None => {
                let leaf = RadixNode::new_leaf(key, value);
                self.root = Some(Box::new(leaf));
                None
            }
        };
        proof {
            assert(self.as_map() =~= old_tree.as_map().insert(key_view, value));
            assert(self.as_map().dom() =~= old_tree.as_map().dom().insert(key_view));
            assert(old_entry == (if old_tree.as_map().contains_key(key_view) {
                Some(old_tree.as_map()[key_view])
            } else {
                None::<V>
            }));
        }
        if old_entry.is_none() {
            self.size = self.size + 1;
        }
        old_entry
    }

    /// Deletes `key`'s entry, handing back the value it held, if any.
    pub fn remove(&mut self, key: &[u8]) -> (r: Option<V>)
        requires
            old(self).wf(),
        ensures
            final(self).wf(),
            final(self)@ == old(self)@.remove(key@),
            r == (if old(self)@.contains_key(key@) {
                Some(old(self)@[key@])
            } else {
                None::<V>
            }),
    {
        let ghost old_tree = *self;
        let old_entry = match self.root.take() {
            Some(old_root) => {
                let probe = KeyProbe::new(key);
                let (updated, old_entry) = recursive_remove(old_root, probe);
                self.root = updated;
                old_entry
            }
            None => None,
        };
        proof {
            assert(self.as_map() =~= old_tree.as_map().remove(key@)) by {
                assert forall|k: Seq<u8>|
                    #![trigger self.as_map().dom().contains(k)]
                    #![trigger old_tree.as_map().dom().contains(k)]
                    self.as_map().contains_key(k) == old_tree.as_map().remove(
                        key@,
                    ).contains_key(k) && (self.as_map().contains_key(k)
                    ==> self.as_map()[k] == old_tree.as_map().remove(key@)[k]) by {
                    assert(opt_lookup(self.root, k) == (if k == key@ {
                        None::<V>
                    } else {
                        opt_lookup(old_tree.root, k)
                    }));
                }
            }
            assert(self.as_map().dom() =~= old_tree.as_map().dom().remove(key@));
            if old_entry is Some {
                assert(old_tree.as_map().dom().remove(key@).len() == old_tree.as_map().len()
                    - 1);
            }
        }
        if old_entry.is_some() {
            self.size = self.size - 1;
        }
        old_entry
    }
}

/// The map obtained by inserting a list of key/value pairs, in order,
/// into the empty map.  By `insert`'s contract this is the view of a tree
/// built by those insertions.
pub open spec fn map_of_entries<V>(entries: Seq<(Seq<u8>, V)>) -> Map<Seq<u8>, V>
    decreases entries.len(),
{
    if entries.len() == 0 {
        Map::empty()
    } else {
        map_of_entries(entries.drop_last()).insert(entries.last().0, entries.last().1)
    }
}

/// Round trip: after inserting entries with pairwise distinct keys, every
/// key is mapped to exactly the value that was inserted with it.
pub proof fn lemma_round_trip<V>(entries: Seq<(Seq<u8>, V)>, i: int)
    requires
        0 <= i < entries.len(),
        forall|p: int, q: int|
            0 <= p < q < entries.len() ==> (#[trigger] entries[p]).0 != (
            #[trigger] entries[q]).0,
    ensures
        map_of_entries(entries).contains_key(entries[i].0),
        map_of_entries(entries)[entries[i].0] == entries[i].1,
    decreases entries.len(),
{
    if i == entries.len() - 1 {
    } else {
        lemma_round_trip(entries.drop_last(), i);
        assert(entries.drop_last()[i] == entries[i]);
        assert(entries[i].0 != entries.last().0);
    }
}

/// Overwrite: inserting under the same key twice leaves the map as if
/// only the second insertion had happened; the intermediate map holds the
/// first value under the key (which `insert` hands back on the second
/// call), and the second insertion does not change the number of keys.
pub proof fn lemma_overwrite<V>(m: Map<Seq<u8>, V>, key: Seq<u8>, v1: V, v2: V)
    requires
        m.dom().finite(),
    ensures
        m.insert(key, v1).insert(key, v2) == m.insert(key, v2),
        m.insert(key, v1).contains_key(key),
        m.insert(key, v1)[key] == v1,
        m.insert(key, v1).insert(key, v2).len() == m.insert(key, v1).len(),
{
    assert(m.insert(key, v1).insert(key, v2) =~= m.insert(key, v2));
    assert(m.insert(key, v1).insert(key, v2).dom() =~= m.insert(key, v1).dom());
}

/// Size: insertion grows the key count exactly when the key is new, and
/// removal shrinks it exactly when the key was present.  Together with
/// the tree invariant that `len()` equals the view's size, this pins the
/// entry count after any sequence of insert and remove calls.
pub proof fn lemma_size_tracks_entries<V>(m: Map<Seq<u8>, V>, key: Seq<u8>, value: V)
    requires
        m.dom().finite(),
    ensures
        m.insert(key, value).dom().finite(),
        m.insert(key, value).len() == m.len() + (if m.contains_key(key) {
            0int
        } else {
            1
        }),
        m.remove(key).dom().finite(),
        m.remove(key).len() == m.len() - (if m.contains_key(key) {
            1int
        } else {
            0
        }),
{
    assert(m.insert(key, value).dom() =~= m.dom().insert(key));
    assert(m.remove(key).dom() =~= m.dom().remove(key));
}

/// Independence: deleting one key never disturbs the entry stored under
/// any other key.
pub proof fn lemma_remove_preserves_others<V>(
    m: Map<Seq<u8>, V>,
    removed: Seq<u8>,
    other: Seq<u8>,
)
    requires
        other != removed,
    ensures
        m.remove(removed).contains_key(other) == m.contains_key(other),
        m.contains_key(other) ==> m.remove(removed)[other] == m[other],
{
}

impl<V> View for RadixTree<V> {
    type V = Map<Seq<u8>, V>;

    closed spec fn view(&self) -> Map<Seq<u8>, V> {
        self.as_map()
    }
}

} // verus!
