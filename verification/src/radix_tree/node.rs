//! Tree nodes and the recursive insert/find/remove operations that walk
//! and reshape them while preserving the keys-to-values map they encode.

use vstd::prelude::*;
use vstd::pervasive::unreached;

use super::entry::KeyValue;
use super::key::{is_prefix_of, KeyMatchResult, KeyPrefix, KeyProbe};

verus! {

/// The children of an interior node: an association list from a branching
/// byte to the child reached through it, kept strictly sorted by byte, plus
/// one reserved slot for the child whose branch key is "no further bytes".
pub struct NodeChildren<V> {
    children: Vec<(u8, Box<RadixNode<V>>)>,
    empty_child: Option<Box<RadixNode<V>>>,
}

/// An interior node: a byte run shared by every key passing through it,
/// and the children branching off after it.
pub struct RadixInteriorNode<V> {
    prefix: KeyPrefix,
    children: NodeChildren<V>,
}

/// A leaf node: one entry together with the suffix of its key not yet
/// represented by the path down to this leaf.
pub struct RadixLeafNode<V> {
    entry: Box<KeyValue<V>>,
    remaining_key: KeyPrefix,
}

impl<V> RadixLeafNode<V> {
    /// The suffix of the entry's key not yet represented by the path down
    /// to this leaf.
    pub closed spec fn spec_remaining_key(self) -> Seq<u8> {
        self.remaining_key@
    }

    /// The entry this leaf holds.
    pub closed spec fn spec_entry(self) -> KeyValue<V> {
        *self.entry
    }

    pub fn remaining_key(&self) -> (r: &KeyPrefix)
        ensures
            r@ == self.spec_remaining_key(),
    {
        &self.remaining_key
    }

    pub fn entry(&self) -> (r: &KeyValue<V>)
        ensures
            *r == self.spec_entry(),
    {
        &self.entry
    }
}

/// A subtree: either a leaf holding one entry, or an interior node holding
/// a shared prefix and a child per branching byte.
pub enum RadixNode<V> {
    Leaf(RadixLeafNode<V>),
    Interior(RadixInteriorNode<V>),
}

impl<V> NodeChildren<V> {
    /// True when some slot carries the branching byte `b`.
    pub closed spec fn has_branch(self, b: u8) -> bool {
        exists|i: int| 0 <= i < self.children@.len() && self.children@[i].0 == b
    }

    /// The position of the slot carrying the branching byte `b`.
    pub closed spec fn branch_index(self, b: u8) -> int {
        choose|i: int| 0 <= i < self.children@.len() && self.children@[i].0 == b
    }

    /// The child under the given branch key, if any; `None` as the branch
    /// key selects the reserved empty slot.
    pub closed spec fn spec_child(self, p: Option<u8>) -> Option<RadixNode<V>> {
        match p {
            Some(b) => if self.has_branch(b) {
                Some(*self.children@[self.branch_index(b)].1)
            } else {
                None
            },
            None => match self.empty_child {
                Some(c) => Some(*c),
                None => None,
            },
        }
    }

    /// The slots are strictly ordered by branching byte.
    pub closed spec fn sorted(self) -> bool {
        forall|i: int, j: int|
            0 <= i < j < self.children@.len()
                ==> (#[trigger] self.children@[i].0) < (#[trigger] self.children@[j].0)
    }

    /// In a sorted slot list, a slot carrying byte `b` is the one that
    /// `branch_index` picks.
    proof fn lemma_branch_index_of(self, b: u8, j: int)
        requires
            self.sorted(),
            0 <= j < self.children@.len(),
            self.children@[j].0 == b,
        ensures
            self.has_branch(b),
            self.branch_index(b) == j,
    {
        assert(self.has_branch(b));
        let i = self.branch_index(b);
        assert(0 <= i < self.children@.len() && self.children@[i].0 == b);
        if i < j {
            assert(self.children@[i].0 < self.children@[j].0);
        }
        if j < i {
            assert(self.children@[j].0 < self.children@[i].0);
        }
    }

    /// Basic facts about `branch_index` whenever `has_branch` holds.
    proof fn lemma_branch_index(self, b: u8)
        requires
            self.has_branch(b),
        ensures
            0 <= self.branch_index(b) < self.children@.len(),
            self.children@[self.branch_index(b)].0 == b,
    {
    }

    /// Two slot lists with the same bytes in the same order, equal except
    /// possibly at position `i`, agree on every branch other than the byte
    /// at `i`.
    proof fn lemma_same_slots_except(self, new_c: NodeChildren<V>, i: int)
        requires
            self.sorted(),
            new_c.children@.len() == self.children@.len(),
            forall|j: int|
                0 <= j < self.children@.len()
                    ==> (#[trigger] new_c.children@[j]).0 == self.children@[j].0,
            forall|j: int|
                0 <= j < self.children@.len() && j != i
                    ==> #[trigger] new_c.children@[j] == self.children@[j],
        ensures
            new_c.sorted(),
            forall|b2: u8|
                !(0 <= i < self.children@.len() && self.children@[i].0 == b2)
                    ==> #[trigger] new_c.spec_child(Some(b2)) == self.spec_child(Some(b2)),
    {
        assert forall|b2: u8|
            !(0 <= i < self.children@.len() && self.children@[i].0 == b2)
                implies #[trigger] new_c.spec_child(Some(b2)) == self.spec_child(Some(b2)) by {
            if self.has_branch(b2) {
                let j = self.branch_index(b2);
                self.lemma_branch_index(b2);
                new_c.lemma_branch_index_of(b2, j);
            } else {
                if new_c.has_branch(b2) {
                    let j = new_c.branch_index(b2);
                    new_c.lemma_branch_index(b2);
                    assert(self.children@[j].0 == b2);
                }
            }
        }
    }

    /// Inserting a slot for a byte between its sorted neighbours keeps the
    /// list sorted, installs exactly that branch, and leaves every other
    /// branch as it was.
    proof fn lemma_insert_slot(self, new_c: NodeChildren<V>, i: int, b: u8, child: Box<RadixNode<V>>)
        requires
            self.sorted(),
            0 <= i <= self.children@.len(),
            forall|j: int| 0 <= j < i ==> (#[trigger] self.children@[j]).0 < b,
            forall|j: int|
                i <= j < self.children@.len() ==> (#[trigger] self.children@[j]).0 > b,
            new_c.children@ == self.children@.insert(i, (b, child)),
        ensures
            new_c.sorted(),
            new_c.spec_child(Some(b)) == Some(*child),
            forall|b2: u8|
                b2 != b ==> #[trigger] new_c.spec_child(Some(b2)) == self.spec_child(Some(b2)),
    {
        self.children@.insert_ensures(i, (b, child));
        assert(forall|j: int|
            0 <= j < i ==> #[trigger] new_c.children@[j] == self.children@[j]);
        assert(forall|j: int|
            i < j < new_c.children@.len()
                ==> #[trigger] new_c.children@[j] == self.children@[j - 1]);
        assert(new_c.children@[i] == (b, child));
        assert(new_c.sorted());
        new_c.lemma_branch_index_of(b, i);
        assert(new_c.spec_child(Some(b)) == Some(*child));
        assert forall|b2: u8|
            b2 != b implies #[trigger] new_c.spec_child(Some(b2)) == self.spec_child(Some(b2)) by {
            if self.has_branch(b2) {
                let j = self.branch_index(b2);
                self.lemma_branch_index(b2);
                if j < i {
                    new_c.lemma_branch_index_of(b2, j);
                } else {
                    new_c.lemma_branch_index_of(b2, j + 1);
                }
            } else {
                if new_c.has_branch(b2) {
                    let j = new_c.branch_index(b2);
                    new_c.lemma_branch_index(b2);
                    if j < i {
                        assert(self.children@[j].0 == b2);
                    } else if j == i {
                        assert(b2 == b);
                    } else {
                        assert(self.children@[j - 1].0 == b2);
                    }
                }
            }
        }
    }

    /// Removing the slot at position `i` keeps the list sorted, clears
    /// exactly that branch, and leaves every other branch as it was.
    proof fn lemma_remove_slot(self, new_c: NodeChildren<V>, i: int)
        requires
            self.sorted(),
            0 <= i < self.children@.len(),
            new_c.children@ == self.children@.remove(i),
        ensures
            new_c.sorted(),
            new_c.spec_child(Some(self.children@[i].0)) is None,
            forall|b2: u8|
                b2 != self.children@[i].0
                    ==> #[trigger] new_c.spec_child(Some(b2)) == self.spec_child(Some(b2)),
    {
        let b = self.children@[i].0;
        self.children@.remove_ensures(i);
        assert(forall|j: int|
            0 <= j < i ==> #[trigger] new_c.children@[j] == self.children@[j]);
        assert(forall|j: int|
            i <= j < new_c.children@.len()
                ==> #[trigger] new_c.children@[j] == self.children@[j + 1]);
        assert(new_c.sorted());
        if new_c.has_branch(b) {
            let j = new_c.branch_index(b);
            new_c.lemma_branch_index(b);
            if j < i {
                assert(self.children@[j].0 == b);
                assert(self.children@[j].0 < self.children@[i].0);
            } else {
                assert(self.children@[j + 1].0 == b);
                assert(self.children@[i].0 < self.children@[j + 1].0);
            }
        }
        assert forall|b2: u8|
            b2 != b implies #[trigger] new_c.spec_child(Some(b2)) == self.spec_child(Some(b2)) by {
            if self.has_branch(b2) {
                let j = self.branch_index(b2);
                self.lemma_branch_index(b2);
                assert(j != i);
                if j < i {
                    new_c.lemma_branch_index_of(b2, j);
                } else {
                    new_c.lemma_branch_index_of(b2, j - 1);
                }
            } else {
                if new_c.has_branch(b2) {
                    let j = new_c.branch_index(b2);
                    new_c.lemma_branch_index(b2);
                    if j < i {
                        assert(self.children@[j].0 == b2);
                    } else {
                        assert(self.children@[j + 1].0 == b2);
                    }
                }
            }
        }
    }

    /// Every child named by `spec_child` sits below the slot list itself.
    proof fn lemma_child_decreases(self, p: Option<u8>)
        requires
            self.spec_child(p) is Some,
        ensures
            decreases_to!(self => self.spec_child(p)->0),
    {
        match p {
            Some(b) => {
                let i = self.branch_index(b);
                assert(decreases_to!(self => self.children));
                assert(decreases_to!(self.children => self.children@));
                assert(decreases_to!(self.children@ => self.children@[i]));
                assert(decreases_to!(self.children@[i] => self.children@[i].1));
            }
            None => {
                let c = self.empty_child->0;
                assert(decreases_to!(self => self.empty_child));
                assert(decreases_to!(self.empty_child => self.empty_child->0));
            }
        }
    }
}

impl<V> NodeChildren<V> {
    pub fn new() -> (r: Self)
        ensures
            r.sorted(),
            forall|p: Option<u8>| (#[trigger] r.spec_child(p)) is None,
    {
        let r = NodeChildren { children: Vec::new(), empty_child: None };
        proof {
            assert forall|p: Option<u8>| (#[trigger] r.spec_child(p)) is None by {
                match p {
                    Some(b) => {
                        assert(!r.has_branch(b));
                    }
                    None => {}
                }
            }
        }
        r
    }

    /// Finds the position of the slot carrying byte `b`, if any.
    fn find_index(&self, b: u8) -> (r: Option<usize>)
        ensures
            match r {
                Some(i) => 0 <= i < self.children@.len() && self.children@[i as int].0 == b,
                None => !self.has_branch(b),
            },
    {
        let n = self.children.len();
        let mut i: usize = 0;
        while i < n
            invariant
                0 <= i <= n,
                n == self.children@.len(),
                forall|j: int| 0 <= j < i ==> (#[trigger] self.children@[j]).0 != b,
            decreases n - i,
        {
            if self.children[i].0 == b {
                return Some(i);
            }
            i += 1;
        }
        None
    }

    /// First position whose branching byte is at least `b`; the slot count
    /// when every byte is smaller.
    fn lower_bound(&self, b: u8) -> (r: usize)
        ensures
            0 <= r <= self.children@.len(),
            forall|j: int| 0 <= j < r ==> (#[trigger] self.children@[j]).0 < b,
            r < self.children@.len() ==> self.children@[r as int].0 >= b,
    {
        let n = self.children.len();
        let mut i: usize = 0;
        while i < n && self.children[i].0 < b
            invariant
                0 <= i <= n,
                n == self.children@.len(),
                forall|j: int| 0 <= j < i ==> (#[trigger] self.children@[j]).0 < b,
            decreases n - i,
        {
            i += 1;
        }
        i
    }

    /// True when some slot carries the branching byte `prefix`.
    pub fn contains_child(&self, prefix: u8) -> (r: bool)
        ensures
            r == self.has_branch(prefix),
    {
        match self.find_index(prefix) {
            Some(_) => {
                proof {
                    assert(self.has_branch(prefix));
                }
                true
            }
            None => false,
        }
    }

    /// True when the reserved empty slot is occupied.
    pub fn contains_empty(&self) -> (r: bool)
        ensures
            r == (self.spec_child(None) is Some),
    {
        self.empty_child.is_some()
    }

    pub fn get_child(&self, possible_prefix: Option<u8>) -> (r: Option<&Box<RadixNode<V>>>)
        requires
            self.sorted(),
        ensures
            match r {
                Some(c) => self.spec_child(possible_prefix) == Some(**c),
                None => self.spec_child(possible_prefix) is None,
            },
    {
        match possible_prefix {
            Some(prefix) => match self.find_index(prefix) {
                Some(i) => {
                    proof {
                        self.lemma_branch_index_of(prefix, i as int);
                    }
                    let pair = &self.children[i];
                    Some(&pair.1)
                }
                None => None,
            },
            None => match &self.empty_child {
                Some(child) => Some(child),
                None => None,
            },
        }
    }

    pub fn get_child_mut(&mut self, possible_prefix: Option<u8>) -> (r: Option<
        &mut Box<RadixNode<V>>,
    >)
        requires
            old(self).sorted(),
        ensures
            match r {
                None => old(self).spec_child(possible_prefix) is None && *final(self) == *old(
                    self,
                ),
                Some(c) => {
                    &&& old(self).spec_child(possible_prefix) == Some(**c)
                    &&& final(self).sorted()
                    &&& final(self).spec_child(possible_prefix) == Some(**final(c))
                    &&& forall|q: Option<u8>|
                        q != possible_prefix ==> #[trigger] final(self).spec_child(q) == old(
                            self,
                        ).spec_child(q)
                }
            },
    {
        match possible_prefix {
            Some(prefix) => match self.find_index(prefix) {
                Some(i) => {
                    proof {
                        self.lemma_branch_index_of(prefix, i as int);
                    }
                    let pair = &mut self.children[i];
                    let c = &mut pair.1;
                    proof {
                        let fin = after_borrow(*self);
                        assert(fin.children@ == old(self).children@.update(
                            i as int,
                            (prefix, *final(c)),
                        ));
                        old(self).lemma_same_slots_except(fin, i as int);
                        fin.lemma_branch_index_of(prefix, i as int);
                        assert forall|q: Option<u8>|
                            q != possible_prefix implies #[trigger] fin.spec_child(q) == old(
                            self,
                        ).spec_child(q) by {
                            match q {
                                Some(b2) => {}
                                None => {
                                    assert(fin.empty_child == old(self).empty_child);
                                }
                            }
                        }
                    }
                    Some(c)
                }
                None => None,
            },
            None => match &mut self.empty_child {
                Some(child) => {
                    proof {
                        let fin = after_borrow(*self);
                        assert(fin.empty_child == Some(*final(child)));
                        assert(fin.children@ == old(self).children@);
                        old(self).lemma_same_slots_except(fin, -1);
                    }
                    Some(child)
                }
                None => None,
            },
        }
    }

    /// Installs `new_child` under the given branch key, handing back the
    /// child previously there, if any.  Every other branch is untouched.
    pub fn insert_child(&mut self, possible_prefix: Option<u8>, new_child: Box<RadixNode<V>>) -> (r:
        Option<Box<RadixNode<V>>>)
        requires
            old(self).sorted(),
        ensures
            final(self).sorted(),
            final(self).spec_child(possible_prefix) == Some(*new_child),
            forall|q: Option<u8>|
                q != possible_prefix ==> #[trigger] final(self).spec_child(q) == old(
                    self,
                ).spec_child(q),
            (r is Some <==> old(self).spec_child(possible_prefix) is Some),
            (r matches Some(c) ==> Some(*c) == old(self).spec_child(possible_prefix)),
    {
        match possible_prefix {
            None => {
                let old_child = self.empty_child.take();
                self.empty_child = Some(new_child);
                proof {
                    old(self).lemma_same_slots_except(*self, -1);
                }
                old_child
            }
            Some(b) => {
                let ghost new_slot: (u8, Box<RadixNode<V>>) = (b, new_child);
                let i = self.lower_bound(b);
                if i < self.children.len() && self.children[i].0 == b {
                    let ghost old_children = *self;
                    proof {
                        self.lemma_branch_index_of(b, i as int);
                    }
                    let old_pair = self.children.remove(i);
                    self.children.insert(i, (b, new_child));
                    proof {
                        lemma_remove_insert_is_update(old_children.children@, i as int);
                        assert(self.children@ == old_children.children@.update(
                            i as int,
                            new_slot,
                        ));
                        old_children.lemma_same_slots_except(*self, i as int);
                        self.lemma_branch_index_of(b, i as int);
                    }
                    Some(old_pair.1)
                } else {
                    let ghost old_children = *self;
                    self.children.insert(i, (b, new_child));
                    proof {
                        assert forall|j: int|
                            i <= j < old_children.children@.len() implies (
                        #[trigger] old_children.children@[j]).0 > b by {
                            if j > i {
                                assert(old_children.children@[i as int].0
                                    < old_children.children@[j].0);
                            }
                        }
                        old_children.lemma_insert_slot(*self, i as int, b, new_slot.1);
                        if old_children.has_branch(b) {
                            old_children.lemma_branch_index(b);
                        }
                    }
                    None
                }
            }
        }
    }

    /// Deletes the slot under the given branch key, handing back the child
    /// it held, if any.  Every other branch is untouched.
    pub fn remove_child(&mut self, possible_prefix: Option<u8>) -> (r: Option<Box<RadixNode<V>>>)
        requires
            old(self).sorted(),
        ensures
            final(self).sorted(),
            final(self).spec_child(possible_prefix) is None,
            forall|q: Option<u8>|
                q != possible_prefix ==> #[trigger] final(self).spec_child(q) == old(
                    self,
                ).spec_child(q),
            (r is Some <==> old(self).spec_child(possible_prefix) is Some),
            (r matches Some(c) ==> Some(*c) == old(self).spec_child(possible_prefix)),
    {
        match possible_prefix {
            None => {
                let old_child = self.empty_child.take();
                proof {
                    old(self).lemma_same_slots_except(*self, -1);
                }
                old_child
            }
            Some(b) => {
                match self.find_index(b) {
                    Some(i) => {
                        let ghost old_children = *self;
                        proof {
                            self.lemma_branch_index_of(b, i as int);
                        }
                        let pair = self.children.remove(i);
                        proof {
                            old_children.lemma_remove_slot(*self, i as int);
                        }
                        Some(pair.1)
                    }
                    None => {
                        proof {
                            old(self).lemma_same_slots_except(*self, -1);
                        }
                        None
                    }
                }
            }
        }
    }
}

/// Removing an element and inserting another at the same position is a
/// pointwise update.
proof fn lemma_remove_insert_is_update<A>(s: Seq<A>, i: int)
    requires
        0 <= i < s.len(),
    ensures
        forall|b: A| #[trigger] s.remove(i).insert(i, b) == s.update(i, b),
{
    assert forall|b: A| #[trigger] s.remove(i).insert(i, b) == s.update(i, b) by {
        s.remove_ensures(i);
        s.remove(i).insert_ensures(i, b);
        assert(s.remove(i).insert(i, b) =~= s.update(i, b));
    }
}

impl<V> RadixNode<V> {
    /// The value this subtree maps the key suffix `k` to, if any.  A leaf
    /// holds exactly its remaining key; an interior node holds the keys
    /// that extend its prefix and continue into one of its children, with
    /// the byte after the prefix consumed as the branch key.
    pub closed spec fn lookup(self, k: Seq<u8>) -> Option<V>
        decreases self,
        via Self::lookup_decreases
    {
        match self {
            RadixNode::Leaf(leaf) => if k == leaf.remaining_key@ {
                Some(leaf.entry.spec_value())
            } else {
                None
            },
            RadixNode::Interior(node) => if super::key::is_prefix_of(node.prefix@, k) {
                let rest = k.skip(node.prefix@.len() as int);
                if rest.len() == 0 {
                    match node.children.spec_child(None) {
                        Some(c) => c.lookup(rest),
                        None => None,
                    }
                } else {
                    match node.children.spec_child(Some(rest[0])) {
                        Some(c) => c.lookup(rest.skip(1)),
                        None => None,
                    }
                }
            } else {
                None
            },
        }
    }

    #[via_fn]
    proof fn lookup_decreases(self, k: Seq<u8>) {
        match self {
            RadixNode::Leaf(_) => {}
            RadixNode::Interior(node) => {
                let rest = k.skip(node.prefix@.len() as int);
                if node.children.spec_child(None) is Some {
                    node.children.lemma_child_decreases(None);
                    assert(decreases_to!(self => node.children));
                }
                if rest.len() > 0 && node.children.spec_child(Some(rest[0])) is Some {
                    node.children.lemma_child_decreases(Some(rest[0]));
                    assert(decreases_to!(self => node.children));
                }
            }
        }
    }

    /// Structural well-formedness: every interior node keeps its slots
    /// strictly sorted by branching byte, every child is well-formed, and
    /// the reserved empty slot, once occupied, holds a leaf whose remaining
    /// key is empty.
    pub closed spec fn wf(self) -> bool
        decreases self,
        via Self::wf_decreases
    {
        match self {
            RadixNode::Leaf(_) => true,
            RadixNode::Interior(node) => {
                &&& node.children.sorted()
                &&& forall|b: u8|
                    (#[trigger] node.children.spec_child(Some(b))) matches Some(c) ==> c.wf()
                &&& match node.children.spec_child(None) {
                    Some(c) => c.wf() && (c matches RadixNode::Leaf(leaf)
                        && leaf.remaining_key@ == Seq::<u8>::empty()),
                    None => true,
                }
            }
        }
    }

    #[via_fn]
    proof fn wf_decreases(self) {
        match self {
            RadixNode::Leaf(_) => {}
            RadixNode::Interior(node) => {
                assert forall|b: u8| node.children.spec_child(Some(b)) is Some
                    implies decreases_to!(self => node.children.spec_child(Some(b))->0) by {
                    node.children.lemma_child_decreases(Some(b));
                    assert(decreases_to!(self => node.children));
                }
                if node.children.spec_child(None) is Some {
                    node.children.lemma_child_decreases(None);
                    assert(decreases_to!(self => node.children));
                }
            }
        }
    }
}

impl<V> RadixNode<V> {
    /// Builds a fresh leaf standing alone: it maps exactly `key` to
    /// `value`, with the whole key still to be matched.
    pub fn new_leaf(key: Vec<u8>, value: V) -> (r: Self)
        ensures
            r.wf(),
            r is Leaf,
            forall|k: Seq<u8>|
                #[trigger] r.lookup(k) == (if k == key@ {
                    Some(value)
                } else {
                    None::<V>
                }),
    {
        let remaining_key = KeyPrefix::new(key.as_slice());
        RadixNode::Leaf(RadixLeafNode { entry: Box::new(KeyValue::new(key, value)), remaining_key })
    }

    pub fn is_leaf(&self) -> (b: bool)
        ensures
            b == (self is Leaf),
    {
        match self {
            RadixNode::Leaf(_) => true,
            RadixNode::Interior(_) => false,
        }
    }

    pub fn get_leaf(&self) -> (r: &RadixLeafNode<V>)
        requires
            self is Leaf,
        ensures
            *self == RadixNode::Leaf(*r),
    {
        match self {
            RadixNode::Leaf(node) => node,
            RadixNode::Interior(_) => unreached(),
        }
    }

    pub fn get_leaf_mut(&mut self) -> (r: &mut RadixLeafNode<V>)
        requires
            (*old(self)) is Leaf,
        ensures
            *old(self) == RadixNode::Leaf(*r),
            *final(self) == RadixNode::Leaf(*final(r)),
    {
        match self {
            RadixNode::Leaf(node) => node,
            RadixNode::Interior(_) => unreached(),
        }
    }

    pub fn unwrap_leaf(self) -> (r: RadixLeafNode<V>)
        requires
            self is Leaf,
        ensures
            self == RadixNode::Leaf(r),
    {
        match self {
            RadixNode::Leaf(node) => node,
            RadixNode::Interior(_) => unreached(),
        }
    }

    pub fn is_interior(&self) -> (b: bool)
        ensures
            b == (self is Interior),
    {
        match self {
            RadixNode::Leaf(_) => false,
            RadixNode::Interior(_) => true,
        }
    }

    pub fn get_interior(&self) -> (r: &RadixInteriorNode<V>)
        requires
            self is Interior,
        ensures
            *self == RadixNode::Interior(*r),
    {
        match self {
            RadixNode::Leaf(_) => unreached(),
            RadixNode::Interior(node) => node,
        }
    }

    pub fn get_interior_mut(&mut self) -> (r: &mut RadixInteriorNode<V>)
        requires
            (*old(self)) is Interior,
        ensures
            *old(self) == RadixNode::Interior(*r),
            *final(self) == RadixNode::Interior(*final(r)),
    {
        match self {
            RadixNode::Leaf(_) => unreached(),
            RadixNode::Interior(node) => node,
        }
    }

    pub fn unwrap_interior(self) -> (r: RadixInteriorNode<V>)
        requires
            self is Interior,
        ensures
            self == RadixNode::Interior(r),
    {
        match self {
            RadixNode::Leaf(_) => unreached(),
            RadixNode::Interior(node) => node,
        }
    }
}

/// Walks the subtree along `probe` and hands back a reference to the value
/// stored under it, if any.
pub fn recursive_find<'v, V>(current: &'v Box<RadixNode<V>>, probe: KeyProbe) -> (r: Option<&'v V>)
    requires
        (**current).wf(),
    ensures
        (r is Some) == ((**current).lookup(probe@) is Some),
        (r matches Some(v) ==> (**current).lookup(probe@) == Some(*v)),
    decreases probe@.len(),
{
    let ghost probe_view = probe@;
    match &**current {
        RadixNode::Interior(node) => {
            let ghost plen = node.prefix@.len() as int;
            match node.prefix.match_with(probe) {
                KeyMatchResult::Complete => {
                    proof {
                        assert(is_prefix_of(node.prefix@, probe_view)) by {
                            assert(probe_view.subrange(0, plen) =~= node.prefix@);
                        }
                        assert(probe_view.skip(plen).len() == 0);
                    }
                    if node.children.contains_empty() {
                        let child = node.children.get_child(None).unwrap();
                        proof {
                            let c = node.children.spec_child(None)->0;
                            assert(c.wf() && (c matches RadixNode::Leaf(leaf)
                                && leaf.remaining_key@ == Seq::<u8>::empty()));
                            assert(probe_view.skip(plen) =~= Seq::<u8>::empty());
                        }
                        let leaf = child.get_leaf();
                        proof {
                            assert(**current == RadixNode::Interior(*node));
                            assert(node.children.spec_child(None) == Some(**child));
                            assert(**child == RadixNode::Leaf(*leaf));
                            let rest = probe_view.skip(node.prefix@.len() as int);
                            assert(rest == leaf.remaining_key@);
                            assert((**child).lookup(rest) == Some(leaf.entry.spec_value()));
                            assert((**current).lookup(probe_view) == Some(leaf.entry.spec_value()));
                        }
                        Some(leaf.entry.value())
                    } else {
                        None
                    }
                }
                KeyMatchResult::Partial(mut remaining_probe) => {
                    proof {
                        assert(probe_view.skip(plen).len() > 0);
                    }
                    let next_char = remaining_probe.pop().unwrap();
                    proof {
                        assert(probe_view.skip(plen)[0] == next_char);
                        assert(remaining_probe@ == probe_view.skip(plen).skip(1));
                    }
                    if node.children.contains_child(next_char) {
                        let child = node.children.get_child(Some(next_char)).unwrap();
                        proof {
                            assert(node.children.spec_child(Some(next_char)) matches Some(c)
                                && c.wf());
                        }
                        recursive_find(child, remaining_probe)
                    } else {
                        None
                    }
                }
                KeyMatchResult::LongerPrefix(_) => {
                    None
                }
                KeyMatchResult::Incomplete(i, _) => {
                    proof {
                        if is_prefix_of(node.prefix@, probe_view) {
                            assert(probe_view.subrange(0, plen)[i as int] == probe_view[i as int]);
                        }
                    }
                    None
                }
            }
        }
        RadixNode::Leaf(node) => {
            match node.remaining_key.match_with(probe) {
                KeyMatchResult::Complete => {
                    proof {
                        assert(probe_view == node.remaining_key@);
                        assert(**current == RadixNode::Leaf(*node));
                        assert((**current).lookup(probe_view) == Some(node.entry.spec_value()));
                    }
                    Some(node.entry.value())
                }
                KeyMatchResult::Partial(_) => None,
                KeyMatchResult::LongerPrefix(_) => None,
                KeyMatchResult::Incomplete(_, _) => None,
            }
        }
    }
}

/// A key equals `q` exactly when it extends `pre` (a strict prefix of `q`)
/// with `q`'s next byte and then `q`'s tail.
proof fn lemma_key_decompose(pre: Seq<u8>, k: Seq<u8>, q: Seq<u8>)
    requires
        is_prefix_of(pre, q),
        q.len() > pre.len(),
    ensures
        (k == q) <==> (is_prefix_of(pre, k) && k.skip(pre.len() as int).len() > 0
            && k.skip(pre.len() as int)[0] == q[pre.len() as int]
            && k.skip(pre.len() as int).skip(1) == q.skip(pre.len() as int + 1)),
{
    let n = pre.len() as int;
    if k == q {
        assert(k.skip(n)[0] == k[n]);
        super::key::lemma_skip_skip(k, n, 1);
    } else {
        if is_prefix_of(pre, k) && k.skip(n).len() > 0 && k.skip(n)[0] == q[n] && k.skip(n).skip(1)
            == q.skip(n + 1) {
            super::key::lemma_skip_skip(k, n, 1);
            super::key::lemma_skip_skip(q, n, 1);
            assert(k.skip(n).len() == k.len() - n);
            assert(k.skip(n + 1).len() == k.len() - n - 1);
            assert(q.skip(n).len() == q.len() - n);
            assert(k.skip(n) =~= q.skip(n)) by {
                assert forall|i: int| 0 <= i < k.skip(n).len() implies k.skip(n)[i] == q.skip(
                    n,
                )[i] by {
                    if i == 0 {
                        assert(k.skip(n)[0] == k[n]);
                        assert(q.skip(n)[0] == q[n]);
                    } else {
                        assert(k.skip(n)[i] == k[n + i]);
                        assert(q.skip(n)[i] == q[n + i]);
                        assert(k.skip(n + 1)[i - 1] == k[n + i]);
                        assert(q.skip(n + 1)[i - 1] == q[n + i]);
                    }
                }
            }
            super::key::lemma_eq_beyond_prefix(pre, k, q);
        }
    }
}

/// With the first `si` bytes of `p` and the byte `p[si]` already matched
/// against `k`, matching the rest of `p` is matching `p.skip(si + 1)`
/// against `k.skip(si + 1)`.
proof fn lemma_split_prefix(p: Seq<u8>, si: int, k: Seq<u8>)
    requires
        0 <= si < p.len(),
        is_prefix_of(p.subrange(0, si), k),
        k.skip(si).len() > 0,
        k.skip(si)[0] == p[si],
    ensures
        is_prefix_of(p, k) <==> is_prefix_of(p.skip(si + 1), k.skip(si + 1)),
        k.skip(si + 1).len() == k.len() - si - 1,
        is_prefix_of(p, k) ==> k.skip(p.len() as int) == k.skip(si + 1).skip(
            p.len() - si - 1,
        ),
{
    let pl = p.len() as int;
    assert(k.skip(si)[0] == k[si]);
    assert(k.len() > si);
    if is_prefix_of(p, k) {
        assert(k.skip(si + 1).subrange(0, pl - si - 1) =~= p.skip(si + 1)) by {
            assert forall|i: int| #![trigger p.skip(si + 1)[i]]
                0 <= i < pl - si - 1 implies k.skip(si + 1).subrange(0, pl - si - 1)[i]
                == p.skip(si + 1)[i] by {
                assert(k.skip(si + 1).subrange(0, pl - si - 1)[i] == k.skip(si + 1)[i]);
                assert(k.skip(si + 1)[i] == k[si + 1 + i]);
                assert(p.skip(si + 1)[i] == p[si + 1 + i]);
                assert(k.subrange(0, pl)[si + 1 + i] == k[si + 1 + i]);
            }
        }
        super::key::lemma_skip_skip(k, si + 1, pl - si - 1);
    }
    if is_prefix_of(p.skip(si + 1), k.skip(si + 1)) {
        assert(k.skip(si + 1).len() >= pl - si - 1);
        assert(k.subrange(0, pl) =~= p) by {
            assert forall|i: int| #![trigger k.subrange(0, pl)[i]]
                0 <= i < pl implies k.subrange(0, pl)[i] == p[i] by {
                assert(k.subrange(0, pl)[i] == k[i]);
                if i < si {
                    assert(k.subrange(0, si)[i] == k[i]);
                    assert(p.subrange(0, si)[i] == p[i]);
                } else if i == si {
                } else {
                    assert(k.skip(si + 1)[i - si - 1] == k[i]);
                    assert(p.skip(si + 1)[i - si - 1] == p[i]);
                    assert(k.skip(si + 1).subrange(0, pl - si - 1)[i - si - 1] == k.skip(
                        si + 1,
                    )[i - si - 1]);
                }
            }
        }
    }
}

/// Grows the subtree with `new_entry` reachable along `probe`, reshaping
/// the node as the match between its stored prefix and the probe demands.
/// Hands back the replacement subtree and the value previously stored
/// under the probe, if any.
#[verifier::rlimit(100)]
pub fn recursive_insert<V>(
    current: Box<RadixNode<V>>,
    probe: KeyProbe,
    new_entry: KeyValue<V>,
) -> (r: (Box<RadixNode<V>>, Option<V>))
    requires
        (*current).wf(),
    ensures
        (*r.0).wf(),
        forall|k: Seq<u8>|
            #[trigger] (*r.0).lookup(k) == (if k == probe@ {
                Some(new_entry.spec_value())
            } else {
                (*current).lookup(k)
            }),
        r.1 == (*current).lookup(probe@),
        ((*current) matches RadixNode::Leaf(l) && l.spec_remaining_key() == probe@) ==> ((*r.0)
            matches RadixNode::Leaf(l2) && l2.spec_remaining_key() == probe@),
    decreases probe@.len(), *current,
{
    let ghost old_node = *current;
    let ghost probe_view = probe@;
    let ghost new_value = new_entry.spec_value();
    match *current {
        RadixNode::Leaf(node) => {
            let ghost rem_view = node.remaining_key@;
            let ghost old_value = node.entry.spec_value();
            match node.remaining_key.match_with(probe) {
                KeyMatchResult::Complete => {
                    let RadixLeafNode { mut entry, remaining_key } = node;
                    let old_val = (&mut *entry).swap_value(new_entry.take_value());
                    let r0 = Box::new(RadixNode::Leaf(RadixLeafNode { entry, remaining_key }));
                    proof {
                        assert forall|k: Seq<u8>|
                            #[trigger] (*r0).lookup(k) == (if k == probe_view {
                                Some(new_value)
                            } else {
                                old_node.lookup(k)
                            }) by {}
                    }
                    (r0, Some(old_val))
                }
                KeyMatchResult::Partial(mut remaining_probe) => {
                    let RadixLeafNode { entry, remaining_key } = node;
                    let mut children = NodeChildren::new();
                    children.insert_child(
                        None,
                        Box::new(
                            RadixNode::Leaf(
                                RadixLeafNode { entry, remaining_key: KeyPrefix::empty() },
                            ),
                        ),
                    );
                    let next_char_new = remaining_probe.pop().unwrap();
                    let new_leaf = RadixNode::Leaf(
                        RadixLeafNode {
                            remaining_key: KeyPrefix::from_probe(remaining_probe),
                            entry: Box::new(new_entry),
                        },
                    );
                    children.insert_child(Some(next_char_new), Box::new(new_leaf));
                    let r0 = Box::new(
                        RadixNode::Interior(
                            RadixInteriorNode { prefix: remaining_key, children },
                        ),
                    );
                    proof {
                        let n = rem_view.len() as int;
                        super::key::lemma_skip_skip(probe_view, n, 1);
                        assert(probe_view.skip(n)[0] == probe_view[n]);
                        lemma_key_decompose(rem_view, probe_view, probe_view);
                        assert forall|k: Seq<u8>|
                            #[trigger] (*r0).lookup(k) == (if k == probe_view {
                                Some(new_value)
                            } else {
                                old_node.lookup(k)
                            }) by {
                            reveal_with_fuel(RadixNode::lookup, 3);
                            lemma_key_decompose(rem_view, k, probe_view);
                            if is_prefix_of(rem_view, k) {
                                if k.skip(n).len() == 0 {
                                    super::key::lemma_prefix_equal_len(rem_view, k);
                                    assert(k.skip(n) =~= Seq::<u8>::empty());
                                }
                            } else {
                                super::key::lemma_prefix_reflexive(rem_view);
                            }
                        }
                        assert((*r0).wf()) by {
                            reveal_with_fuel(RadixNode::wf, 3);
                            assert forall|b: u8|
                                (#[trigger] (*r0)->Interior_0.children.spec_child(
                                    Some(b),
                                )) is Some implies ((*r0)->Interior_0.children.spec_child(
                                Some(b),
                            )->0).wf() by {
                                reveal_with_fuel(RadixNode::wf, 3);
                            }
                        }
                    }
                    (r0, None)
                }
                KeyMatchResult::LongerPrefix(split_index) => {
                    let RadixLeafNode { entry, remaining_key } = node;
                    let (common, mut difference) = remaining_key.split_at(split_index);
                    let mut children = NodeChildren::new();
                    let new_leaf = RadixNode::Leaf(
                        RadixLeafNode {
                            remaining_key: KeyPrefix::empty(),
                            entry: Box::new(new_entry),
                        },
                    );
                    children.insert_child(None, Box::new(new_leaf));
                    let next_char = difference.pop().unwrap();
                    children.insert_child(
                        Some(next_char),
                        Box::new(RadixNode::Leaf(RadixLeafNode { entry, remaining_key: difference })),
                    );
                    let r0 = Box::new(
                        RadixNode::Interior(RadixInteriorNode { prefix: common, children }),
                    );
                    proof {
                        let si = split_index as int;
                        assert(common@ =~= probe_view) by {
                            assert(forall|i: int|
                                0 <= i < si
                                    ==> rem_view.subrange(0, si)[i] == #[trigger] rem_view[i]);
                            assert(forall|i: int|
                                0 <= i < si
                                    ==> rem_view.subrange(0, probe_view.len() as int)[i]
                                    == #[trigger] rem_view[i]);
                        }
                        assert(rem_view.skip(si)[0] == rem_view[si]);
                        super::key::lemma_skip_skip(rem_view, si, 1);
                        assert(is_prefix_of(probe_view, rem_view));
                        assert forall|k: Seq<u8>|
                            #[trigger] (*r0).lookup(k) == (if k == probe_view {
                                Some(new_value)
                            } else {
                                old_node.lookup(k)
                            }) by {
                            reveal_with_fuel(RadixNode::lookup, 3);
                            lemma_key_decompose(probe_view, k, rem_view);
                            if is_prefix_of(probe_view, k) {
                                if k.skip(si).len() == 0 {
                                    super::key::lemma_prefix_equal_len(probe_view, k);
                                    assert(k.skip(si) =~= Seq::<u8>::empty());
                                }
                            } else {
                                super::key::lemma_prefix_reflexive(probe_view);
                            }
                        }
                        assert((*r0).wf()) by {
                            reveal_with_fuel(RadixNode::wf, 3);
                            assert forall|b: u8|
                                (#[trigger] (*r0)->Interior_0.children.spec_child(
                                    Some(b),
                                )) is Some implies ((*r0)->Interior_0.children.spec_child(
                                Some(b),
                            )->0).wf() by {
                                reveal_with_fuel(RadixNode::wf, 3);
                            }
                        }
                    }
                    (r0, None)
                }
                KeyMatchResult::Incomplete(split_index, mut remaining_probe) => {
                    let RadixLeafNode { entry, remaining_key } = node;
                    let (common, mut difference) = remaining_key.split_at(split_index);
                    let mut children = NodeChildren::new();
                    let next_char_old = difference.pop().unwrap();
                    let next_char_new = remaining_probe.pop().unwrap();
                    children.insert_child(
                        Some(next_char_old),
                        Box::new(RadixNode::Leaf(RadixLeafNode { entry, remaining_key: difference })),
                    );
                    let new_leaf = RadixLeafNode {
                        remaining_key: KeyPrefix::from_probe(remaining_probe),
                        entry: Box::new(new_entry),
                    };
                    children.insert_child(Some(next_char_new), Box::new(RadixNode::Leaf(new_leaf)));
                    let r0 = Box::new(
                        RadixNode::Interior(RadixInteriorNode { prefix: common, children }),
                    );
                    proof {
                        let si = split_index as int;
                        let com = rem_view.subrange(0, si);
                        assert(com == probe_view.subrange(0, si));
                        assert(rem_view.skip(si)[0] == rem_view[si]);
                        assert(probe_view.skip(si)[0] == probe_view[si]);
                        super::key::lemma_skip_skip(rem_view, si, 1);
                        super::key::lemma_skip_skip(probe_view, si, 1);
                        assert(is_prefix_of(com, rem_view)) by {
                            assert(rem_view.subrange(0, si) =~= com);
                        }
                        assert(is_prefix_of(com, probe_view)) by {
                            assert(probe_view.subrange(0, si) =~= com);
                        }
                        assert forall|k: Seq<u8>|
                            #[trigger] (*r0).lookup(k) == (if k == probe_view {
                                Some(new_value)
                            } else {
                                old_node.lookup(k)
                            }) by {
                            reveal_with_fuel(RadixNode::lookup, 3);
                            lemma_key_decompose(com, k, rem_view);
                            lemma_key_decompose(com, k, probe_view);
                        }
                        assert((*r0).wf()) by {
                            reveal_with_fuel(RadixNode::wf, 3);
                            assert forall|b: u8|
                                (#[trigger] (*r0)->Interior_0.children.spec_child(
                                    Some(b),
                                )) is Some implies ((*r0)->Interior_0.children.spec_child(
                                Some(b),
                            )->0).wf() by {
                                reveal_with_fuel(RadixNode::wf, 3);
                            }
                        }
                    }
                    (r0, None)
                }
            }
        }
        RadixNode::Interior(mut node) => {
            let ghost prefix_view = node.prefix@;
            let ghost old_children = node.children;
            match node.prefix.match_with(probe) {
                KeyMatchResult::Complete => {
                    proof {
                        super::key::lemma_prefix_reflexive(prefix_view);
                        assert(probe_view.skip(prefix_view.len() as int) =~= Seq::<u8>::empty());
                    }
                    if node.children.contains_empty() {
                        let old_child = node.children.remove_child(None).unwrap();
                        proof {
                            assert(old_children.spec_child(None) == Some(*old_child));
                            if probe_view.len() == 0 {
                                assert(decreases_to!(old_node => old_node->Interior_0));
                                assert(decreases_to!(old_node->Interior_0 => old_node->Interior_0.children));
                                assert(decreases_to!(old_node->Interior_0.children => old_node->Interior_0.children.empty_child));
                                assert(decreases_to!(old_node->Interior_0.children.empty_child => old_node->Interior_0.children.empty_child->0));
                                assert(old_node->Interior_0.children.empty_child->0 == *old_child);
                            }
                        }
                        let (updated, replaced_value) = recursive_insert(
                            old_child,
                            KeyProbe::empty(),
                            new_entry,
                        );
                        node.children.insert_child(None, updated);
                        let r0 = Box::new(RadixNode::Interior(node));
                        proof {
                            assert forall|k: Seq<u8>|
                                #[trigger] (*r0).lookup(k) == (if k == probe_view {
                                    Some(new_value)
                                } else {
                                    old_node.lookup(k)
                                }) by {
                                reveal_with_fuel(RadixNode::lookup, 3);
                                if is_prefix_of(prefix_view, k) {
                                    let rest = k.skip(prefix_view.len() as int);
                                    if rest.len() == 0 {
                                        super::key::lemma_prefix_equal_len(prefix_view, k);
                                        assert(rest =~= Seq::<u8>::empty());
                                        assert((*r0)->Interior_0.children.spec_child(None)
                                            == Some(*updated));
                                        assert((*updated).lookup(rest) == Some(new_value));
                                        assert((*r0).lookup(k) == Some(new_value));
                                        assert(k == probe_view);
                                    } else {
                                        assert((*r0)->Interior_0.children.spec_child(
                                            Some(rest[0]),
                                        ) == old_children.spec_child(Some(rest[0])));
                                        assert(k != probe_view);
                                        assert((*r0).lookup(k) == old_node.lookup(k));
                                    }
                                } else {
                                    assert((*r0).lookup(k) is None);
                                    assert(old_node.lookup(k) is None);
                                    assert(k != probe_view);
                                }
                            }
                            assert((*r0).wf()) by {
                                reveal_with_fuel(RadixNode::wf, 3);
                                assert forall|b: u8|
                                    (#[trigger] (*r0)->Interior_0.children.spec_child(
                                        Some(b),
                                    )) is Some implies ((*r0)->Interior_0.children.spec_child(
                                    Some(b),
                                )->0).wf() by {
                                    reveal_with_fuel(RadixNode::wf, 3);
                                }
                            }
                        }
                        (r0, replaced_value)
                    } else {
                        let new_leaf = RadixNode::Leaf(
                            RadixLeafNode {
                                remaining_key: KeyPrefix::empty(),
                                entry: Box::new(new_entry),
                            },
                        );
                        node.children.insert_child(None, Box::new(new_leaf));
                        let r0 = Box::new(RadixNode::Interior(node));
                        proof {
                            assert forall|k: Seq<u8>|
                                #[trigger] (*r0).lookup(k) == (if k == probe_view {
                                    Some(new_value)
                                } else {
                                    old_node.lookup(k)
                                }) by {
                                reveal_with_fuel(RadixNode::lookup, 3);
                                if is_prefix_of(prefix_view, k) {
                                    let rest = k.skip(prefix_view.len() as int);
                                    if rest.len() == 0 {
                                        super::key::lemma_prefix_equal_len(prefix_view, k);
                                        assert(rest =~= Seq::<u8>::empty());
                                    }
                                }
                            }
                            assert((*r0).wf()) by {
                                reveal_with_fuel(RadixNode::wf, 3);
                                assert forall|b: u8|
                                    (#[trigger] (*r0)->Interior_0.children.spec_child(
                                        Some(b),
                                    )) is Some implies ((*r0)->Interior_0.children.spec_child(
                                    Some(b),
                                )->0).wf() by {
                                    reveal_with_fuel(RadixNode::wf, 3);
                                }
                            }
                        }
                        (r0, None)
                    }
                }
                KeyMatchResult::Partial(mut remaining_probe) => {
                    let next_char = remaining_probe.pop().unwrap();
                    let ghost plen = prefix_view.len() as int;
                    proof {
                        assert(probe_view.skip(plen)[0] == next_char);
                        super::key::lemma_skip_skip(probe_view, plen, 1);
                        lemma_key_decompose(prefix_view, probe_view, probe_view);
                    }
                    if node.children.contains_child(next_char) {
                        let old_child = node.children.remove_child(Some(next_char)).unwrap();
                        let ghost old_child_view = *old_child;
                        proof {
                            assert(old_children.spec_child(Some(next_char)) == Some(*old_child));
                        }
                        let ghost rem2 = remaining_probe@;
                        let (updated, replaced_value) = recursive_insert(
                            old_child,
                            remaining_probe,
                            new_entry,
                        );
                        node.children.insert_child(Some(next_char), updated);
                        let r0 = Box::new(RadixNode::Interior(node));
                        proof {
                            assert(old_node.lookup(probe_view) == old_child_view.lookup(rem2));
                            assert forall|k: Seq<u8>|
                                #[trigger] (*r0).lookup(k) == (if k == probe_view {
                                    Some(new_value)
                                } else {
                                    old_node.lookup(k)
                                }) by {
                                reveal_with_fuel(RadixNode::lookup, 3);
                                lemma_key_decompose(prefix_view, k, probe_view);
                                if is_prefix_of(prefix_view, k) {
                                    let rest = k.skip(plen);
                                    if rest.len() == 0 {
                                        super::key::lemma_prefix_equal_len(prefix_view, k);
                                        assert((*r0)->Interior_0.children.spec_child(None)
                                            == old_children.spec_child(None));
                                        assert(k != probe_view);
                                    } else if rest[0] == next_char {
                                        assert((*r0)->Interior_0.children.spec_child(
                                            Some(next_char),
                                        ) == Some(*updated));
                                        assert((*r0).lookup(k) == (*updated).lookup(
                                            rest.skip(1),
                                        ));
                                        assert(old_node.lookup(k) == old_child_view.lookup(
                                            rest.skip(1),
                                        ));
                                        assert((k == probe_view) <==> (rest.skip(1) == rem2));
                                    } else {
                                        assert((*r0)->Interior_0.children.spec_child(
                                            Some(rest[0]),
                                        ) == old_children.spec_child(Some(rest[0])));
                                        assert(k != probe_view);
                                    }
                                } else {
                                    assert(k != probe_view);
                                    assert((*r0).lookup(k) is None);
                                    assert(old_node.lookup(k) is None);
                                }
                            }
                            assert((*r0).wf()) by {
                                reveal_with_fuel(RadixNode::wf, 3);
                                assert forall|b: u8|
                                    (#[trigger] (*r0)->Interior_0.children.spec_child(
                                        Some(b),
                                    )) is Some implies ((*r0)->Interior_0.children.spec_child(
                                    Some(b),
                                )->0).wf() by {
                                    reveal_with_fuel(RadixNode::wf, 3);
                                }
                            }
                        }
                        (r0, replaced_value)
                    } else {
                        let new_leaf = RadixNode::Leaf(
                            RadixLeafNode {
                                remaining_key: KeyPrefix::from_probe(remaining_probe),
                                entry: Box::new(new_entry),
                            },
                        );
                        node.children.insert_child(Some(next_char), Box::new(new_leaf));
                        let r0 = Box::new(RadixNode::Interior(node));
                        proof {
                            assert forall|k: Seq<u8>|
                                #[trigger] (*r0).lookup(k) == (if k == probe_view {
                                    Some(new_value)
                                } else {
                                    old_node.lookup(k)
                                }) by {
                                reveal_with_fuel(RadixNode::lookup, 3);
                                lemma_key_decompose(prefix_view, k, probe_view);
                                if is_prefix_of(prefix_view, k) {
                                    let rest = k.skip(plen);
                                    if rest.len() == 0 {
                                        super::key::lemma_prefix_equal_len(prefix_view, k);
                                    } else {
                                        super::key::lemma_skip_skip(k, plen, 1);
                                    }
                                }
                            }
                            assert((*r0).wf()) by {
                                reveal_with_fuel(RadixNode::wf, 3);
                                assert forall|b: u8|
                                    (#[trigger] (*r0)->Interior_0.children.spec_child(
                                        Some(b),
                                    )) is Some implies ((*r0)->Interior_0.children.spec_child(
                                    Some(b),
                                )->0).wf() by {
                                    reveal_with_fuel(RadixNode::wf, 3);
                                }
                            }
                        }
                        (r0, None)
                    }
                }
                KeyMatchResult::LongerPrefix(split_index) => {
                    let RadixInteriorNode { prefix, children } = node;
                    let (common, mut difference) = prefix.split_at(split_index);
                    let mut new_children = NodeChildren::new();
                    let new_leaf = RadixNode::Leaf(
                        RadixLeafNode {
                            entry: Box::new(new_entry),
                            remaining_key: KeyPrefix::empty(),
                        },
                    );
                    let ghost nl = new_leaf;
                    new_children.insert_child(None, Box::new(new_leaf));
                    let next_char = difference.pop().unwrap();
                    let old_interior = RadixNode::Interior(
                        RadixInteriorNode { prefix: difference, children },
                    );
                    let ghost oi = old_interior;
                    new_children.insert_child(Some(next_char), Box::new(old_interior));
                    let r0 = Box::new(
                        RadixNode::Interior(
                            RadixInteriorNode { prefix: common, children: new_children },
                        ),
                    );
                    proof {
                        let si = split_index as int;
                        assert(common@ =~= probe_view) by {
                            assert(forall|i: int|
                                0 <= i < si
                                    ==> prefix_view.subrange(0, si)[i] == #[trigger] prefix_view[i]);
                            assert(forall|i: int|
                                0 <= i < si
                                    ==> prefix_view.subrange(0, probe_view.len() as int)[i]
                                    == #[trigger] prefix_view[i]);
                        }
                        assert(prefix_view.skip(si)[0] == prefix_view[si]);
                        super::key::lemma_skip_skip(prefix_view, si, 1);
                        assert(oi.wf()) by {
                            reveal_with_fuel(RadixNode::wf, 2);
                        }
                        assert forall|k: Seq<u8>|
                            #[trigger] (*r0).lookup(k) == (if k == probe_view {
                                Some(new_value)
                            } else {
                                old_node.lookup(k)
                            }) by {
                            reveal_with_fuel(RadixNode::lookup, 3);
                            if is_prefix_of(probe_view, k) {
                                let rest = k.skip(si);
                                if rest.len() == 0 {
                                    super::key::lemma_prefix_equal_len(probe_view, k);
                                    assert(rest =~= Seq::<u8>::empty());
                                    assert((*r0).lookup(k) == Some(new_value));
                                } else if rest[0] == prefix_view[si] {
                                    lemma_split_prefix(prefix_view, si, k);
                                    super::key::lemma_skip_skip(k, si, 1);
                                    assert((*r0)->Interior_0.children.spec_child(
                                        Some(next_char),
                                    ) == Some(oi));
                                    assert((*r0).lookup(k) == oi.lookup(k.skip(si + 1)));
                                    assert(k != probe_view);
                                    if is_prefix_of(prefix_view, k) {
                                        assert(k.skip(prefix_view.len() as int) == k.skip(
                                            si + 1,
                                        ).skip(prefix_view.len() - si - 1));
                                        assert(oi.lookup(k.skip(si + 1)) == old_node.lookup(k));
                                    } else {
                                        assert(oi.lookup(k.skip(si + 1)) is None);
                                        assert(old_node.lookup(k) is None);
                                    }
                                } else {
                                    assert(k != probe_view);
                                    assert((*r0)->Interior_0.children.spec_child(
                                        Some(rest[0]),
                                    ) is None);
                                    if is_prefix_of(prefix_view, k) {
                                        assert(k.subrange(0, prefix_view.len() as int)[si]
                                            == k[si]);
                                        assert(rest[0] == k[si]);
                                    }
                                }
                            } else {
                                super::key::lemma_prefix_reflexive(probe_view);
                                if is_prefix_of(prefix_view, k) {
                                    super::key::lemma_prefix_transitive(
                                        probe_view,
                                        prefix_view,
                                        k,
                                    );
                                }
                            }
                        }
                        assert((*r0).wf()) by {
                            reveal_with_fuel(RadixNode::wf, 3);
                            assert forall|b: u8|
                                (#[trigger] (*r0)->Interior_0.children.spec_child(
                                    Some(b),
                                )) is Some implies ((*r0)->Interior_0.children.spec_child(
                                Some(b),
                            )->0).wf() by {
                                reveal_with_fuel(RadixNode::wf, 3);
                            }
                            assert((*r0)->Interior_0.children.spec_child(None) == Some(nl));
                            assert(nl.wf()) by {
                                reveal_with_fuel(RadixNode::wf, 3);
                            }
                        }
                    }
                    (r0, None)
                }
                KeyMatchResult::Incomplete(split_index, mut remaining_probe) => {
                    let RadixInteriorNode { prefix, children } = node;
                    let (common, mut difference) = prefix.split_at(split_index);
                    let next_char_old = difference.pop().unwrap();
                    let next_char_new = remaining_probe.pop().unwrap();
                    let mut new_children = NodeChildren::new();
                    let new_leaf = RadixNode::Leaf(
                        RadixLeafNode {
                            remaining_key: KeyPrefix::from_probe(remaining_probe),
                            entry: Box::new(new_entry),
                        },
                    );
                    let ghost nl = new_leaf;
                    let old_interior = RadixNode::Interior(
                        RadixInteriorNode { prefix: difference, children },
                    );
                    let ghost oi = old_interior;
                    new_children.insert_child(Some(next_char_old), Box::new(old_interior));
                    new_children.insert_child(Some(next_char_new), Box::new(new_leaf));
                    let r0 = Box::new(
                        RadixNode::Interior(
                            RadixInteriorNode { prefix: common, children: new_children },
                        ),
                    );
                    proof {
                        let si = split_index as int;
                        let com = prefix_view.subrange(0, si);
                        assert(com == probe_view.subrange(0, si));
                        assert(prefix_view.skip(si)[0] == prefix_view[si]);
                        assert(probe_view.skip(si)[0] == probe_view[si]);
                        super::key::lemma_skip_skip(prefix_view, si, 1);
                        super::key::lemma_skip_skip(probe_view, si, 1);
                        assert(is_prefix_of(com, probe_view)) by {
                            assert(probe_view.subrange(0, si) =~= com);
                        }
                        assert(is_prefix_of(com, prefix_view)) by {
                            assert(prefix_view.subrange(0, si) =~= com);
                        }
                        assert forall|k: Seq<u8>|
                            #[trigger] (*r0).lookup(k) == (if k == probe_view {
                                Some(new_value)
                            } else {
                                old_node.lookup(k)
                            }) by {
                            reveal_with_fuel(RadixNode::lookup, 3);
                            lemma_key_decompose(com, k, probe_view);
                            if is_prefix_of(com, k) {
                                let rest = k.skip(si);
                                if rest.len() == 0 {
                                    super::key::lemma_prefix_equal_len(com, k);
                                    if is_prefix_of(prefix_view, k) {
                                        assert(false);
                                    }
                                    assert(k != probe_view);
                                    assert((*r0).lookup(k) is None);
                                    assert(old_node.lookup(k) is None);
                                } else if rest[0] == prefix_view[si] {
                                    lemma_split_prefix(prefix_view, si, k);
                                    super::key::lemma_skip_skip(k, si, 1);
                                    assert((*r0)->Interior_0.children.spec_child(
                                        Some(next_char_old),
                                    ) == Some(oi));
                                    assert((*r0).lookup(k) == oi.lookup(k.skip(si + 1)));
                                    assert(k != probe_view);
                                    if is_prefix_of(prefix_view, k) {
                                        assert(k.skip(prefix_view.len() as int) == k.skip(
                                            si + 1,
                                        ).skip(prefix_view.len() - si - 1));
                                        assert(oi.lookup(k.skip(si + 1)) == old_node.lookup(k));
                                    } else {
                                        assert(oi.lookup(k.skip(si + 1)) is None);
                                        assert(old_node.lookup(k) is None);
                                    }
                                } else if rest[0] == probe_view[si] {
                                    super::key::lemma_skip_skip(k, si, 1);
                                    assert((*r0)->Interior_0.children.spec_child(
                                        Some(next_char_new),
                                    ) == Some(nl));
                                    assert((*r0).lookup(k) == nl.lookup(k.skip(si + 1)));
                                    assert((k == probe_view) <==> (k.skip(si).skip(1)
                                        == probe_view.skip(si + 1)));
                                    if is_prefix_of(prefix_view, k) {
                                        assert(k.subrange(0, prefix_view.len() as int)[si]
                                            == k[si]);
                                        assert(rest[0] == k[si]);
                                        assert(false);
                                    }
                                    assert(old_node.lookup(k) is None);
                                } else {
                                    assert(k != probe_view);
                                    assert((*r0)->Interior_0.children.spec_child(
                                        Some(rest[0]),
                                    ) is None);
                                    assert((*r0).lookup(k) is None);
                                    if is_prefix_of(prefix_view, k) {
                                        assert(k.subrange(0, prefix_view.len() as int)[si]
                                            == k[si]);
                                        assert(rest[0] == k[si]);
                                    }
                                    assert(old_node.lookup(k) is None);
                                }
                            } else {
                                assert(k != probe_view);
                                if is_prefix_of(prefix_view, k) {
                                    super::key::lemma_prefix_transitive(com, prefix_view, k);
                                }
                                assert((*r0).lookup(k) is None);
                                assert(old_node.lookup(k) is None);
                            }
                        }
                        assert(old_node.lookup(probe_view) is None) by {
                            if is_prefix_of(prefix_view, probe_view) {
                                assert(probe_view.subrange(0, prefix_view.len() as int)[si]
                                    == probe_view[si]);
                            }
                        }
                        assert(oi.wf()) by {
                            reveal_with_fuel(RadixNode::wf, 3);
                        }
                        assert((*r0).wf()) by {
                            reveal_with_fuel(RadixNode::wf, 3);
                            assert forall|b: u8|
                                (#[trigger] (*r0)->Interior_0.children.spec_child(
                                    Some(b),
                                )) is Some implies ((*r0)->Interior_0.children.spec_child(
                                Some(b),
                            )->0).wf() by {
                                reveal_with_fuel(RadixNode::wf, 3);
                            }
                        }
                    }
                    (r0, None)
                }
            }
        }
    }
}

/// The value a possibly absent subtree maps the key suffix `k` to.
pub open spec fn opt_lookup<V>(n: Option<Box<RadixNode<V>>>, k: Seq<u8>) -> Option<V> {
    match n {
        Some(node) => node.lookup(k),
        None => None,
    }
}

/// The value a possibly absent plain subtree maps the key suffix `k` to.
spec fn plain_opt_lookup<V>(n: Option<RadixNode<V>>, k: Seq<u8>) -> Option<V> {
    match n {
        Some(node) => node.lookup(k),
        None => None,
    }
}

/// After removal recursed into the reserved empty slot of an interior node
/// whose prefix the probe matched completely, the node maps every key as
/// before except the probe itself.
proof fn lemma_remove_complete_case<V>(
    old_node: RadixNode<V>,
    new_node: RadixNode<V>,
    old_children: NodeChildren<V>,
    upd: Option<RadixNode<V>>,
    child_view: RadixNode<V>,
    probe_view: Seq<u8>,
)
    requires
        old_node.wf(),
        old_node is Interior,
        old_node->Interior_0.children == old_children,
        new_node is Interior,
        new_node->Interior_0.prefix@ == old_node->Interior_0.prefix@,
        probe_view == old_node->Interior_0.prefix@,
        old_children.spec_child(None) == Some(child_view),
        new_node->Interior_0.children.sorted(),
        match upd {
            Some(u) => new_node->Interior_0.children.spec_child(None) == Some(u) && u.wf() && u
                == child_view,
            None => new_node->Interior_0.children.spec_child(None) is None,
        },
        forall|b: u8|
            #[trigger] new_node->Interior_0.children.spec_child(Some(b))
                == old_children.spec_child(Some(b)),
        forall|k: Seq<u8>|
            #[trigger] plain_opt_lookup(upd, k) == (if k == Seq::<u8>::empty() {
                None::<V>
            } else {
                child_view.lookup(k)
            }),
    ensures
        new_node.wf(),
        forall|k: Seq<u8>|
            #[trigger] new_node.lookup(k) == (if k == probe_view {
                None::<V>
            } else {
                old_node.lookup(k)
            }),
{
    let plen = probe_view.len() as int;
    super::key::lemma_prefix_reflexive(probe_view);
    assert forall|k: Seq<u8>|
        #[trigger] new_node.lookup(k) == (if k == probe_view {
            None::<V>
        } else {
            old_node.lookup(k)
        }) by {
        reveal_with_fuel(RadixNode::lookup, 3);
        if is_prefix_of(probe_view, k) {
            let rest = k.skip(plen);
            if rest.len() == 0 {
                super::key::lemma_prefix_equal_len(probe_view, k);
                assert(rest =~= Seq::<u8>::empty());
                assert(plain_opt_lookup(upd, rest) is None);
            } else {
                assert(k != probe_view);
                assert(new_node->Interior_0.children.spec_child(Some(rest[0]))
                    == old_children.spec_child(Some(rest[0])));
            }
        } else {
            assert(k != probe_view);
        }
    }
    assert(new_node.wf()) by {
        reveal_with_fuel(RadixNode::wf, 3);
        assert forall|b: u8|
            (#[trigger] new_node->Interior_0.children.spec_child(Some(b))) is Some
            implies (new_node->Interior_0.children.spec_child(Some(b))->0).wf() by {
            reveal_with_fuel(RadixNode::wf, 3);
        }
    }
}

/// After removal recursed into the branch child under `b` of an interior
/// node whose prefix is a strict prefix of the probe, the node maps every
/// key as before except the probe itself.
proof fn lemma_remove_partial_case<V>(
    old_node: RadixNode<V>,
    new_node: RadixNode<V>,
    old_children: NodeChildren<V>,
    upd: Option<RadixNode<V>>,
    child_view: RadixNode<V>,
    probe_view: Seq<u8>,
    b: u8,
)
    requires
        old_node.wf(),
        old_node is Interior,
        old_node->Interior_0.children == old_children,
        new_node is Interior,
        new_node->Interior_0.prefix@ == old_node->Interior_0.prefix@,
        is_prefix_of(old_node->Interior_0.prefix@, probe_view),
        probe_view.len() > old_node->Interior_0.prefix@.len(),
        probe_view[old_node->Interior_0.prefix@.len() as int] == b,
        old_children.spec_child(Some(b)) == Some(child_view),
        new_node->Interior_0.children.sorted(),
        new_node->Interior_0.children.spec_child(None) == old_children.spec_child(None),
        match upd {
            Some(u) => new_node->Interior_0.children.spec_child(Some(b)) == Some(u) && u.wf(),
            None => new_node->Interior_0.children.spec_child(Some(b)) is None,
        },
        forall|b2: u8|
            b2 != b ==> #[trigger] new_node->Interior_0.children.spec_child(Some(b2))
                == old_children.spec_child(Some(b2)),
        forall|k: Seq<u8>|
            #[trigger] plain_opt_lookup(upd, k) == (if k == probe_view.skip(
                old_node->Interior_0.prefix@.len() as int + 1,
            ) {
                None::<V>
            } else {
                child_view.lookup(k)
            }),
    ensures
        new_node.wf(),
        forall|k: Seq<u8>|
            #[trigger] new_node.lookup(k) == (if k == probe_view {
                None::<V>
            } else {
                old_node.lookup(k)
            }),
        old_node.lookup(probe_view) == child_view.lookup(
            probe_view.skip(old_node->Interior_0.prefix@.len() as int + 1),
        ),
{
    let prefix_view = old_node->Interior_0.prefix@;
    let plen = prefix_view.len() as int;
    super::key::lemma_skip_skip(probe_view, plen, 1);
    assert(probe_view.skip(plen)[0] == probe_view[plen]);
    lemma_key_decompose(prefix_view, probe_view, probe_view);
    assert(old_node.lookup(probe_view) == child_view.lookup(probe_view.skip(plen + 1))) by {
        reveal_with_fuel(RadixNode::lookup, 3);
    }
    assert forall|k: Seq<u8>|
        #[trigger] new_node.lookup(k) == (if k == probe_view {
            None::<V>
        } else {
            old_node.lookup(k)
        }) by {
        reveal_with_fuel(RadixNode::lookup, 3);
        lemma_key_decompose(prefix_view, k, probe_view);
        if is_prefix_of(prefix_view, k) {
            let rest = k.skip(plen);
            if rest.len() == 0 {
                super::key::lemma_prefix_equal_len(prefix_view, k);
                assert(k != probe_view);
            } else if rest[0] == b {
                assert((k == probe_view) <==> (rest.skip(1) == probe_view.skip(plen + 1)));
                assert(plain_opt_lookup(upd, rest.skip(1)) == (if rest.skip(1)
                    == probe_view.skip(plen + 1) {
                    None::<V>
                } else {
                    child_view.lookup(rest.skip(1))
                }));
            } else {
                assert(k != probe_view);
                assert(new_node->Interior_0.children.spec_child(Some(rest[0]))
                    == old_children.spec_child(Some(rest[0])));
            }
        } else {
            assert(k != probe_view);
        }
    }
    assert(new_node.wf()) by {
        reveal_with_fuel(RadixNode::wf, 3);
        assert forall|b2: u8|
            (#[trigger] new_node->Interior_0.children.spec_child(Some(b2))) is Some
            implies (new_node->Interior_0.children.spec_child(Some(b2))->0).wf() by {
            reveal_with_fuel(RadixNode::wf, 3);
        }
    }
}

/// Deletes the entry stored under `probe`, if any.  Hands back the
/// replacement subtree (`None` when the subtree became empty) and the
/// removed value.  Interior nodes are kept even when they lose their last
/// child; only the slot that pointed at a removed leaf is deleted.
#[verifier::rlimit(100)]
pub fn recursive_remove<V>(current: Box<RadixNode<V>>, probe: KeyProbe) -> (r: (
    Option<Box<RadixNode<V>>>,
    Option<V>,
))
    requires
        (*current).wf(),
    ensures
        (r.0 matches Some(n) ==> (*n).wf()),
        forall|k: Seq<u8>|
            #[trigger] opt_lookup(r.0, k) == (if k == probe@ {
                None::<V>
            } else {
                (*current).lookup(k)
            }),
        r.1 == (*current).lookup(probe@),
        (*current) is Leaf ==> (r.0 is None || r.0 == Some(current)),
    decreases probe@.len(), *current,
{
    let ghost old_node = *current;
    let ghost probe_view = probe@;
    match *current {
        RadixNode::Leaf(node) => {
            match node.remaining_key.match_with(probe) {
                KeyMatchResult::Complete => {
                    let value = node.entry.take_value();
                    (None, Some(value))
                }
                KeyMatchResult::Partial(_) => (Some(Box::new(RadixNode::Leaf(node))), None),
                KeyMatchResult::LongerPrefix(_) => (Some(Box::new(RadixNode::Leaf(node))), None),
                KeyMatchResult::Incomplete(_, _) => (Some(Box::new(RadixNode::Leaf(node))), None),
            }
        }
        RadixNode::Interior(mut node) => {
            let ghost prefix_view = node.prefix@;
            let ghost old_children = node.children;
            let ghost plen = prefix_view.len() as int;
            match node.prefix.match_with(probe) {
                KeyMatchResult::Complete => {
                    proof {
                        super::key::lemma_prefix_reflexive(prefix_view);
                        assert(probe_view.skip(plen) =~= Seq::<u8>::empty());
                    }
                    if node.children.contains_empty() {
                        let empty_child = node.children.remove_child(None).unwrap();
                        let ghost child_view = *empty_child;
                        proof {
                            assert(old_children.spec_child(None) == Some(*empty_child));
                            if probe_view.len() == 0 {
                                assert(decreases_to!(old_node => old_node->Interior_0));
                                assert(decreases_to!(old_node->Interior_0 => old_node->Interior_0.children));
                                assert(decreases_to!(old_node->Interior_0.children => old_node->Interior_0.children.empty_child));
                                assert(decreases_to!(old_node->Interior_0.children.empty_child => old_node->Interior_0.children.empty_child->0));
                                assert(old_node->Interior_0.children.empty_child->0
                                    == *empty_child);
                            }
                        }
                        let (updated_empty, removed_value) = recursive_remove(
                            empty_child,
                            KeyProbe::empty(),
                        );
                        let ghost upd_g = updated_empty;
                        match updated_empty {
                            Some(updated_empty) => {
                                let ghost uv = *updated_empty;
                                node.children.insert_child(None, updated_empty);
                                let r0 = Box::new(RadixNode::Interior(node));
                                proof {
                                    assert forall|k: Seq<u8>|
                                        #[trigger] plain_opt_lookup(Some(uv), k) == (if k
                                        == Seq::<u8>::empty() {
                                        None::<V>
                                    } else {
                                        child_view.lookup(k)
                                    }) by {
                                        assert(opt_lookup(upd_g, k) == (if k
                                            == Seq::<u8>::empty() {
                                            None::<V>
                                        } else {
                                            child_view.lookup(k)
                                        }));
                                    }
                                    lemma_remove_complete_case(
                                        old_node,
                                        *r0,
                                        old_children,
                                        Some(uv),
                                        child_view,
                                        probe_view,
                                    );
                                }
                                (Some(r0), removed_value)
                            }
                            None => {
                                let r0 = Box::new(RadixNode::Interior(node));
                                proof {
                                    assert forall|k: Seq<u8>|
                                        #[trigger] plain_opt_lookup(None::<RadixNode<V>>, k)
                                        == (if k == Seq::<u8>::empty() {
                                        None::<V>
                                    } else {
                                        child_view.lookup(k)
                                    }) by {
                                        assert(opt_lookup(upd_g, k) == (if k
                                            == Seq::<u8>::empty() {
                                            None::<V>
                                        } else {
                                            child_view.lookup(k)
                                        }));
                                    }
                                    lemma_remove_complete_case(
                                        old_node,
                                        *r0,
                                        old_children,
                                        None,
                                        child_view,
                                        probe_view,
                                    );
                                }
                                (Some(r0), removed_value)
                            }
                        }
                    } else {
                        let r0 = Box::new(RadixNode::Interior(node));
                        proof {
                            assert forall|k: Seq<u8>|
                                #[trigger] opt_lookup(Some(r0), k) == (if k == probe_view {
                                    None::<V>
                                } else {
                                    old_node.lookup(k)
                                }) by {
                                reveal_with_fuel(RadixNode::lookup, 3);
                                if is_prefix_of(prefix_view, k) {
                                    let rest = k.skip(plen);
                                    if rest.len() == 0 {
                                        super::key::lemma_prefix_equal_len(prefix_view, k);
                                        assert(rest =~= Seq::<u8>::empty());
                                    }
                                }
                            }
                        }
                        (Some(r0), None)
                    }
                }
                KeyMatchResult::Partial(mut remaining_probe) => {
                    let next_char = remaining_probe.pop().unwrap();
                    proof {
                        assert(probe_view.skip(plen)[0] == next_char);
                        super::key::lemma_skip_skip(probe_view, plen, 1);
                        lemma_key_decompose(prefix_view, probe_view, probe_view);
                    }
                    if node.children.contains_child(next_char) {
                        let child = node.children.remove_child(Some(next_char)).unwrap();
                        let ghost child_view = *child;
                        let ghost rem2 = remaining_probe@;
                        proof {
                            assert(old_children.spec_child(Some(next_char)) == Some(*child));
                        }
                        let (updated_child, removed_value) = recursive_remove(
                            child,
                            remaining_probe,
                        );
                        let ghost upd_g = updated_child;
                        match updated_child {
                            Some(updated_child) => {
                                let ghost uv = *updated_child;
                                node.children.insert_child(Some(next_char), updated_child);
                                let r0 = Box::new(RadixNode::Interior(node));
                                proof {
                                    assert forall|k: Seq<u8>|
                                        #[trigger] plain_opt_lookup(Some(uv), k) == (if k
                                        == rem2 {
                                        None::<V>
                                    } else {
                                        child_view.lookup(k)
                                    }) by {
                                        assert(opt_lookup(upd_g, k) == (if k == rem2 {
                                            None::<V>
                                        } else {
                                            child_view.lookup(k)
                                        }));
                                    }
                                    lemma_remove_partial_case(
                                        old_node,
                                        *r0,
                                        old_children,
                                        Some(uv),
                                        child_view,
                                        probe_view,
                                        next_char,
                                    );
                                }
                                (Some(r0), removed_value)
                            }
                            None => {
                                let r0 = Box::new(RadixNode::Interior(node));
                                proof {
                                    assert forall|k: Seq<u8>|
                                        #[trigger] plain_opt_lookup(None::<RadixNode<V>>, k)
                                        == (if k == rem2 {
                                        None::<V>
                                    } else {
                                        child_view.lookup(k)
                                    }) by {
                                        assert(opt_lookup(upd_g, k) == (if k == rem2 {
                                            None::<V>
                                        } else {
                                            child_view.lookup(k)
                                        }));
                                    }
                                    lemma_remove_partial_case(
                                        old_node,
                                        *r0,
                                        old_children,
                                        None,
                                        child_view,
                                        probe_view,
                                        next_char,
                                    );
                                }
                                (Some(r0), removed_value)
                            }
                        }
                    } else {
                        let r0 = Box::new(RadixNode::Interior(node));
                        proof {
                            assert forall|k: Seq<u8>|
                                #[trigger] opt_lookup(Some(r0), k) == (if k == probe_view {
                                    None::<V>
                                } else {
                                    old_node.lookup(k)
                                }) by {
                                reveal_with_fuel(RadixNode::lookup, 3);
                                lemma_key_decompose(prefix_view, k, probe_view);
                                if is_prefix_of(prefix_view, k) {
                                    let rest = k.skip(plen);
                                    if rest.len() == 0 {
                                        super::key::lemma_prefix_equal_len(prefix_view, k);
                                    }
                                }
                            }
                            assert(old_node.lookup(probe_view) is None) by {
                                reveal_with_fuel(RadixNode::lookup, 3);
                            }
                        }
                        (Some(r0), None)
                    }
                }
                KeyMatchResult::LongerPrefix(_) => {
                    let r0 = Box::new(RadixNode::Interior(node));
                    proof {
                        assert(old_node.lookup(probe_view) is None);
                    }
                    (Some(r0), None)
                }
                KeyMatchResult::Incomplete(split_index, _) => {
                    let r0 = Box::new(RadixNode::Interior(node));
                    proof {
                        let si = split_index as int;
                        assert(old_node.lookup(probe_view) is None) by {
                            if is_prefix_of(prefix_view, probe_view) {
                                assert(probe_view.subrange(0, plen)[si] == probe_view[si]);
                            }
                        }
                    }
                    (Some(r0), None)
                }
            }
        }
    }
}

/// Walks the subtree along `probe` and hands back a mutable reference to
/// the value stored under it, if any.  The subtree afterwards maps every
/// key as before, except that the probe's entry holds whatever the caller
/// leaves in the returned reference.
#[verifier::rlimit(100)]
pub fn recursive_mut_find<'v, V>(current: &'v mut Box<RadixNode<V>>, probe: KeyProbe) -> (r:
    Option<&'v mut V>)
    requires
        (**old(current)).wf(),
    ensures
        (r is Some) == ((**old(current)).lookup(probe@) is Some),
        (**final(current)).wf(),
        r is Some ==> (**old(current)).lookup(probe@) == Some(*r.unwrap()),
        forall|k: Seq<u8>|
            #[trigger] (**final(current)).lookup(k) == (if r is Some && k == probe@ {
                Some(*final(r.unwrap()))
            } else {
                (**old(current)).lookup(k)
            }),
    decreases probe@.len(),
{
    let ghost probe_view = probe@;
    let ghost old_node = **current;
    match &mut **current {
        RadixNode::Leaf(node) => {
            let ghost old_leaf = *node;
            match node.remaining_key.match_with(probe) {
                KeyMatchResult::Complete => {
                    let vref = (&mut *node.entry).value_mut();
                    proof {
                        let fin = after_borrow(*current);
                        assert(*fin == RadixNode::Leaf(after_borrow(*node)));
                        assert(after_borrow(*node).remaining_key@ == old_leaf.remaining_key@);
                        assert(after_borrow(*node).entry.spec_value() == *final(vref));
                        assert(old_node.lookup(probe_view) == Some(old_leaf.entry.spec_value()));
                        assert(*vref == old_leaf.entry.spec_value());
                        assert forall|k: Seq<u8>|
                            #[trigger] (*fin).lookup(k) == (if k == probe_view {
                                Some(*final(vref))
                            } else {
                                old_node.lookup(k)
                            }) by {}
                    }
                    Some(vref)
                }
                KeyMatchResult::Partial(_) => None,
                KeyMatchResult::LongerPrefix(_) => None,
                KeyMatchResult::Incomplete(_, _) => None,
            }
        }
        RadixNode::Interior(node) => {
            let ghost old_int = *node;
            let ghost prefix_view = old_int.prefix@;
            let ghost old_children = old_int.children;
            let ghost plen = prefix_view.len() as int;
            match node.prefix.match_with(probe) {
                KeyMatchResult::Complete => {
                    proof {
                        super::key::lemma_prefix_reflexive(prefix_view);
                        assert(probe_view.skip(plen) =~= Seq::<u8>::empty());
                    }
                    if node.children.contains_empty() {
                        let child = node.children.get_child_mut(None).unwrap();
                        proof {
                            assert(old_children.spec_child(None) == Some(**child));
                        }
                        let leaf = (&mut **child).get_leaf_mut();
                        let vref = (&mut *leaf.entry).value_mut();
                        proof {
                            let fin = after_borrow(*current);
                            assert(*fin == RadixNode::Interior(after_borrow(*node)));
                            assert(after_borrow(*node).prefix@ == prefix_view);
                            assert(after_borrow(*child) == Box::new(RadixNode::Leaf(after_borrow(*leaf))));
                            assert(after_borrow(*leaf).remaining_key@ == Seq::<u8>::empty());
                            assert(after_borrow(*leaf).entry.spec_value() == *final(vref));
                            assert(after_borrow(*node).children.spec_child(None) == Some(
                                *after_borrow(*child),
                            ));
                            assert(old_node.lookup(probe_view) is Some) by {
                                reveal_with_fuel(RadixNode::lookup, 3);
                                assert(probe_view.skip(plen) == Seq::<u8>::empty());
                            }
                            assert(old_node.lookup(probe_view) == Some(*vref)) by {
                                reveal_with_fuel(RadixNode::lookup, 3);
                            }
                            assert forall|k: Seq<u8>|
                                #[trigger] (*fin).lookup(k) == (if k == probe_view {
                                    Some(*final(vref))
                                } else {
                                    old_node.lookup(k)
                                }) by {
                                reveal_with_fuel(RadixNode::lookup, 3);
                                if is_prefix_of(prefix_view, k) {
                                    let rest = k.skip(plen);
                                    if rest.len() == 0 {
                                        super::key::lemma_prefix_equal_len(prefix_view, k);
                                        assert(rest =~= Seq::<u8>::empty());
                                    } else {
                                        assert(k != probe_view);
                                        assert(after_borrow(*node).children.spec_child(
                                            Some(rest[0]),
                                        ) == old_children.spec_child(Some(rest[0])));
                                    }
                                } else {
                                    assert(k != probe_view);
                                }
                            }
                            assert((*fin).wf()) by {
                                reveal_with_fuel(RadixNode::wf, 3);
                                assert forall|b: u8|
                                    (#[trigger] after_borrow(*node).children.spec_child(
                                        Some(b),
                                    )) is Some implies (after_borrow(*node).children.spec_child(
                                    Some(b),
                                )->0).wf() by {
                                    reveal_with_fuel(RadixNode::wf, 3);
                                }
                            }
                        }
                        Some(vref)
                    } else {
                        None
                    }
                }
                KeyMatchResult::Partial(mut remaining_probe) => {
                    let next_char = remaining_probe.pop().unwrap();
                    proof {
                        assert(probe_view.skip(plen)[0] == next_char);
                        super::key::lemma_skip_skip(probe_view, plen, 1);
                        lemma_key_decompose(prefix_view, probe_view, probe_view);
                    }
                    if node.children.contains_child(next_char) {
                        let child = node.children.get_child_mut(Some(next_char)).unwrap();
                        let ghost old_child = **child;
                        let ghost rem2 = remaining_probe@;
                        proof {
                            assert(old_children.spec_child(Some(next_char)) == Some(
                                old_child,
                            ));
                        }
                        let r = recursive_mut_find(child, remaining_probe);
                        proof {
                            let fin = after_borrow(*current);
                            assert(*fin == RadixNode::Interior(after_borrow(*node)));
                            assert(after_borrow(*node).prefix@ == prefix_view);
                            assert(after_borrow(*node).children.spec_child(Some(next_char)) == Some(
                                *after_borrow(*child),
                            ));
                            assert(old_node.lookup(probe_view) == old_child.lookup(rem2)) by {
                                reveal_with_fuel(RadixNode::lookup, 3);
                            }
                            assert((r is Some) == (old_node.lookup(probe_view) is Some));
                            assert(r is Some ==> old_node.lookup(probe_view) == Some(
                                *r.unwrap(),
                            ));
                            assert forall|k: Seq<u8>|
                                #[trigger] (*fin).lookup(k) == (if r is Some && k == probe_view {
                                    Some(*final(r.unwrap()))
                                } else {
                                    old_node.lookup(k)
                                }) by {
                                reveal_with_fuel(RadixNode::lookup, 3);
                                lemma_key_decompose(prefix_view, k, probe_view);
                                if is_prefix_of(prefix_view, k) {
                                    let rest = k.skip(plen);
                                    if rest.len() == 0 {
                                        super::key::lemma_prefix_equal_len(prefix_view, k);
                                        assert(k != probe_view);
                                        assert(after_borrow(*node).children.spec_child(None)
                                            == old_children.spec_child(None));
                                    } else if rest[0] == next_char {
                                        assert((k == probe_view) <==> (rest.skip(1) == rem2));
                                        assert((*after_borrow(*child)).lookup(rest.skip(1)) == (if r
                                            is Some && rest.skip(1) == rem2 {
                                            Some(*final(r.unwrap()))
                                        } else {
                                            old_child.lookup(rest.skip(1))
                                        }));
                                    } else {
                                        assert(k != probe_view);
                                        assert(after_borrow(*node).children.spec_child(
                                            Some(rest[0]),
                                        ) == old_children.spec_child(Some(rest[0])));
                                    }
                                } else {
                                    assert(k != probe_view);
                                }
                            }
                            assert((*fin).wf()) by {
                                reveal_with_fuel(RadixNode::wf, 3);
                                assert forall|b: u8|
                                    (#[trigger] after_borrow(*node).children.spec_child(
                                        Some(b),
                                    )) is Some implies (after_borrow(*node).children.spec_child(
                                    Some(b),
                                )->0).wf() by {
                                    reveal_with_fuel(RadixNode::wf, 3);
                                }
                            }
                        }
                        r
                    } else {
                        None
                    }
                }
                KeyMatchResult::LongerPrefix(_) => None,
                KeyMatchResult::Incomplete(split_index, _) => {
                    proof {
                        let si = split_index as int;
                        if is_prefix_of(prefix_view, probe_view) {
                            assert(probe_view.subrange(0, plen)[si] == probe_view[si]);
                        }
                    }
                    None
                }
            }
        }
    }
}

} // verus!
