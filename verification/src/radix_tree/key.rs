//! Byte-sequence keys: the owned `KeyPrefix` stored in tree nodes, the
//! `KeyProbe` holding the unmatched remainder of an incoming key, and the
//! key-matching state machine that classifies a stored prefix against a
//! probe as `KeyMatchResult`.

use vstd::prelude::*;
use vstd::slice::{slice_index_get, slice_subrange, slice_to_vec};

verus! {

/// True when `p` is a (not necessarily strict) byte-prefix of `q`.
pub open spec fn is_prefix_of(p: Seq<u8>, q: Seq<u8>) -> bool {
    p.len() <= q.len() && q.subrange(0, p.len() as int) == p
}

/// Two sequences sharing a prefix `p` and agreeing on everything after it
/// are equal.
pub proof fn lemma_eq_beyond_prefix(p: Seq<u8>, k1: Seq<u8>, k2: Seq<u8>)
    requires
        is_prefix_of(p, k1),
        is_prefix_of(p, k2),
        k1.skip(p.len() as int) == k2.skip(p.len() as int),
    ensures
        k1 == k2,
{
    let n = p.len() as int;
    assert(k1.skip(n).len() == k1.len() - n);
    assert(k2.skip(n).len() == k2.len() - n);
    assert forall|i: int| 0 <= i < k1.len() implies k1[i] == k2[i] by {
        if i < n {
            assert(k1.subrange(0, n)[i] == k1[i]);
            assert(k2.subrange(0, n)[i] == k2[i]);
        } else {
            assert(k1.skip(n)[i - n] == k1[i]);
            assert(k2.skip(n)[i - n] == k2[i]);
        }
    }
    assert(k1 =~= k2);
}

/// Every byte sequence is a prefix of itself.
pub proof fn lemma_prefix_reflexive(p: Seq<u8>)
    ensures
        is_prefix_of(p, p),
{
    assert(p.subrange(0, p.len() as int) =~= p);
}

/// A prefix of a prefix is a prefix.
pub proof fn lemma_prefix_transitive(a: Seq<u8>, b: Seq<u8>, c: Seq<u8>)
    requires
        is_prefix_of(a, b),
        is_prefix_of(b, c),
    ensures
        is_prefix_of(a, c),
{
    assert(c.subrange(0, a.len() as int) =~= a) by {
        assert(forall|i: int|
            0 <= i < a.len() ==> c.subrange(0, b.len() as int)[i] == #[trigger] c[i]);
        assert(forall|i: int|
            0 <= i < a.len() ==> b.subrange(0, a.len() as int)[i] == #[trigger] b[i]);
        assert(forall|i: int|
            0 <= i < a.len() ==> c.subrange(0, a.len() as int)[i] == #[trigger] c[i]);
    }
}

/// A prefix as long as the whole sequence is the whole sequence.
pub proof fn lemma_prefix_equal_len(p: Seq<u8>, k: Seq<u8>)
    requires
        is_prefix_of(p, k),
        k.len() == p.len(),
    ensures
        k == p,
{
    assert(k =~= k.subrange(0, p.len() as int));
}

/// Skipping in two steps is the same as skipping once.
pub proof fn lemma_skip_skip(s: Seq<u8>, a: int, b: int)
    requires
        0 <= a,
        0 <= b,
        a + b <= s.len(),
    ensures
        s.skip(a).skip(b) == s.skip(a + b),
{
    assert(s.skip(a).skip(b) =~= s.skip(a + b));
}

/// An owned byte buffer representing bytes already consumed by the path
/// from the root of the tree down to a node.
#[derive(Debug, Clone)]
pub struct KeyPrefix {
    prefix: Vec<u8>,
}

impl View for KeyPrefix {
    type V = Seq<u8>;

    closed spec fn view(&self) -> Seq<u8> {
        self.prefix@
    }
}

/// A byte buffer holding the portion of an incoming key not yet matched
/// against stored prefixes; consumed left-to-right as matching proceeds.
#[derive(Debug, Clone)]
pub struct KeyProbe {
    key_portion: Vec<u8>,
}

impl View for KeyProbe {
    type V = Seq<u8>;

    closed spec fn view(&self) -> Seq<u8> {
        self.key_portion@
    }
}

/// The outcome of matching a stored prefix against a probe.
#[derive(Debug)]
pub enum KeyMatchResult {
    /// The prefix is a strict byte-prefix of the probe; holds the unmatched
    /// suffix of the probe, which is never empty.
    Partial(KeyProbe),
    /// The prefix and the probe hold the same bytes.
    Complete,
    /// The probe is a strict byte-prefix of the prefix; holds the index in
    /// the stored prefix where the probe ends, that is the probe's length.
    LongerPrefix(usize),
    /// The two diverge: holds the first index at which the bytes differ and
    /// the portion of the probe from that index on, which is never empty.
    Incomplete(usize, KeyProbe),
}

/// True when `pre@` is a byte-prefix of `hay@`.
fn starts_with(hay: &[u8], pre: &[u8]) -> (r: bool)
    ensures
        r == is_prefix_of(pre@, hay@),
{
    if pre.len() > hay.len() {
        return false;
    }
    let n = pre.len();
    let mut i: usize = 0;
    while i < n
        invariant
            0 <= i <= n,
            n == pre@.len() <= hay@.len(),
            forall|j: int| 0 <= j < i ==> pre@[j] == hay@[j],
        decreases n - i,
    {
        if *slice_index_get(pre, i) != *slice_index_get(hay, i) {
            assert(!is_prefix_of(pre@, hay@)) by {
                assert(hay@.subrange(0, pre@.len() as int)[i as int] == hay@[i as int]);
            }
            return false;
        }
        i += 1;
    }
    assert(hay@.subrange(0, pre@.len() as int) =~= pre@);
    true
}

impl KeyPrefix {
    pub fn new(key_bytes: &[u8]) -> (r: KeyPrefix)
        ensures
            r@ == key_bytes@,
    {
        KeyPrefix { prefix: slice_to_vec(key_bytes) }
    }

    pub fn empty() -> (r: KeyPrefix)
        ensures
            r@ == Seq::<u8>::empty(),
    {
        KeyPrefix { prefix: Vec::new() }
    }

    /// Builds a prefix holding the bytes of a probe.
    pub fn from_probe(probe: KeyProbe) -> (r: KeyPrefix)
        ensures
            r@ == probe@,
    {
        KeyPrefix { prefix: probe.key_portion }
    }

    pub fn len(&self) -> (r: usize)
        ensures
            r == self@.len(),
    {
        self.prefix.len()
    }

    pub fn is_empty(&self) -> (r: bool)
        ensures
            r == (self@.len() == 0),
    {
        self.prefix.len() == 0
    }

    pub fn bytes(&self) -> (r: &[u8])
        ensures
            r@ == self@,
    {
        self.prefix.as_slice()
    }

    /// Splits into the bytes before `idx` and the bytes from `idx` on.
    pub fn split_at(self, idx: usize) -> (r: (KeyPrefix, KeyPrefix))
        requires
            idx <= self@.len(),
        ensures
            r.0@ == self@.subrange(0, idx as int),
            r.1@ == self@.skip(idx as int),
    {
        let left = slice_to_vec(slice_subrange(self.prefix.as_slice(), 0, idx));
        let right = slice_to_vec(
            slice_subrange(self.prefix.as_slice(), idx, self.prefix.len()),
        );
        (KeyPrefix { prefix: left }, KeyPrefix { prefix: right })
    }

    /// Removes and returns the first byte, if any.
    pub fn pop(&mut self) -> (r: Option<u8>)
        ensures
            old(self)@.len() == 0 ==> r is None && final(self)@ == old(self)@,
            old(self)@.len() > 0 ==> r == Some(old(self)@[0]) && final(self)@ == old(self)@.skip(1),
    {
        if self.prefix.len() > 0 {
            let b = self.prefix.remove(0);
            proof {
                assert(self.prefix@ =~= old(self)@.skip(1));
            }
            Some(b)
        } else {
            None
        }
    }

    /// Classifies this stored prefix against a probe.  Exactly one of the
    /// four outcomes applies: `Complete` when the bytes are equal, `Partial`
    /// when this prefix is a strict prefix of the probe, `LongerPrefix` when
    /// the probe is a strict prefix of this prefix, and `Incomplete` when
    /// the two diverge at some index.
    pub fn match_with(&self, probe: KeyProbe) -> (r: KeyMatchResult)
        ensures
            (r is Complete) <==> probe@ == self@,
            (r is Partial) <==> (is_prefix_of(self@, probe@) && probe@.len() > self@.len()),
            (r matches KeyMatchResult::Partial(rem) ==> rem@ == probe@.skip(self@.len() as int)),
            (r is LongerPrefix) <==> (is_prefix_of(probe@, self@) && probe@.len() < self@.len()),
            (r matches KeyMatchResult::LongerPrefix(i) ==> i == probe@.len()),
            (r matches KeyMatchResult::Incomplete(i, rem) ==> {
                &&& i < self@.len()
                &&& i < probe@.len()
                &&& self@.subrange(0, i as int) == probe@.subrange(0, i as int)
                &&& self@[i as int] != probe@[i as int]
                &&& rem@ == probe@.skip(i as int)
            }),
    {
        let my_len = self.prefix.len();
        let is_prefix = starts_with(probe.bytes(), self.prefix.as_slice());
        if is_prefix {
            if probe.len() > my_len {
                let (_, right) = probe.split_at(my_len);
                KeyMatchResult::Partial(right)
            } else {
                proof {
                    assert(probe@ =~= self@) by {
                        assert(probe@.subrange(0, self@.len() as int) == self@);
                    }
                }
                KeyMatchResult::Complete
            }
        } else if probe.len() < my_len && starts_with(self.prefix.as_slice(), probe.bytes()) {
            KeyMatchResult::LongerPrefix(probe.len())
        } else {
            proof {
                lemma_mismatch_exists(self@, probe@);
            }
            let diff_index = self.diff_index(&probe);
            let (_, right) = probe.split_at(diff_index);
            KeyMatchResult::Incomplete(diff_index, right)
        }
    }

    /// Finds the first index at which this prefix and the probe disagree.
    fn diff_index(&self, probe: &KeyProbe) -> (r: usize)
        requires
            exists|i: int|
                0 <= i < self@.len() && i < probe@.len() && self@[i] != probe@[i],
        ensures
            r < self@.len(),
            r < probe@.len(),
            self@[r as int] != probe@[r as int],
            self@.subrange(0, r as int) == probe@.subrange(0, r as int),
    {
        let n = if self.prefix.len() < probe.key_portion.len() {
            self.prefix.len()
        } else {
            probe.key_portion.len()
        };
        let mut idx: usize = 0;
        while idx < n
            invariant
                0 <= idx <= n,
                n <= self@.len(),
                n <= probe@.len(),
                n == self@.len() || n == probe@.len(),
                exists|i: int|
                    0 <= i < self@.len() && i < probe@.len() && self@[i] != probe@[i],
                forall|j: int| 0 <= j < idx ==> self@[j] == probe@[j],
            decreases n - idx,
        {
            if self.prefix[idx] != probe.key_portion[idx] {
                proof {
                    assert(self@.subrange(0, idx as int) =~= probe@.subrange(0, idx as int));
                }
                return idx;
            }
            idx += 1;
        }
        proof {
            let i = choose|i: int|
                0 <= i < self@.len() && i < probe@.len() && self@[i] != probe@[i];
            assert(i < n);
            assert(false);
        }
        0
    }
}

/// When neither byte buffer is a prefix of the other, some index within
/// both holds differing bytes.
proof fn lemma_mismatch_exists(p: Seq<u8>, q: Seq<u8>)
    requires
        !is_prefix_of(p, q),
        !(is_prefix_of(q, p) && q.len() < p.len()),
    ensures
        exists|i: int| 0 <= i < p.len() && i < q.len() && p[i] != q[i],
{
    if q.len() < p.len() {
        // q is not a prefix of p, so they differ within q's length.
        assert(q.subrange(0, q.len() as int) =~= q);
        if forall|i: int| 0 <= i < q.len() ==> p[i] == #[trigger] q[i] {
            assert(p.subrange(0, q.len() as int) =~= q);
            assert(false);
        }
    } else {
        // p is not a prefix of q, so they differ within p's length.
        if forall|i: int| 0 <= i < p.len() ==> #[trigger] p[i] == q[i] {
            assert(q.subrange(0, p.len() as int) =~= p);
            assert(false);
        }
    }
}

impl KeyProbe {
    pub fn new(key: &[u8]) -> (r: KeyProbe)
        ensures
            r@ == key@,
    {
        KeyProbe { key_portion: slice_to_vec(key) }
    }

    pub fn empty() -> (r: KeyProbe)
        ensures
            r@ == Seq::<u8>::empty(),
    {
        KeyProbe { key_portion: Vec::new() }
    }

    pub fn len(&self) -> (r: usize)
        ensures
            r == self@.len(),
    {
        self.key_portion.len()
    }

    pub fn is_empty(&self) -> (r: bool)
        ensures
            r == (self@.len() == 0),
    {
        self.key_portion.len() == 0
    }

    pub fn bytes(&self) -> (r: &[u8])
        ensures
            r@ == self@,
    {
        self.key_portion.as_slice()
    }

    /// Splits into the bytes before `idx` and the bytes from `idx` on.
    pub fn split_at(self, idx: usize) -> (r: (KeyProbe, KeyProbe))
        requires
            idx <= self@.len(),
        ensures
            r.0@ == self@.subrange(0, idx as int),
            r.1@ == self@.skip(idx as int),
    {
        let left = slice_to_vec(slice_subrange(self.key_portion.as_slice(), 0, idx));
        let right = slice_to_vec(
            slice_subrange(self.key_portion.as_slice(), idx, self.key_portion.len()),
        );
        (KeyProbe { key_portion: left }, KeyProbe { key_portion: right })
    }

    /// Removes and returns the first byte, if any.
    pub fn pop(&mut self) -> (r: Option<u8>)
        ensures
            old(self)@.len() == 0 ==> r is None && final(self)@ == old(self)@,
            old(self)@.len() > 0 ==> r == Some(old(self)@[0]) && final(self)@ == old(self)@.skip(1),
    {
        if self.key_portion.len() > 0 {
            let b = self.key_portion.remove(0);
            proof {
                assert(self.key_portion@ =~= old(self)@.skip(1));
            }
            Some(b)
        } else {
            None
        }
    }
}

impl PartialEq for KeyPrefix {
    fn eq(&self, other: &KeyPrefix) -> (r: bool) {
        let r = self.prefix == other.prefix;
        proof {
            if r {
                assert(self.prefix@ =~= other.prefix@);
            }
        }
        r
    }
}

impl vstd::std_specs::cmp::PartialEqSpecImpl for KeyPrefix {
    open spec fn obeys_eq_spec() -> bool {
        true
    }

    open spec fn eq_spec(&self, other: &KeyPrefix) -> bool {
        self@ == other@
    }
}

impl Eq for KeyPrefix {}

impl PartialEq for KeyProbe {
    fn eq(&self, other: &KeyProbe) -> (r: bool) {
        let r = self.key_portion == other.key_portion;
        proof {
            if r {
                assert(self.key_portion@ =~= other.key_portion@);
            }
        }
        r
    }
}

impl vstd::std_specs::cmp::PartialEqSpecImpl for KeyProbe {
    open spec fn obeys_eq_spec() -> bool {
        true
    }

    open spec fn eq_spec(&self, other: &KeyProbe) -> bool {
        self@ == other@
    }
}

impl Eq for KeyProbe {}

impl PartialEq for KeyMatchResult {
    fn eq(&self, other: &KeyMatchResult) -> (r: bool) {
        match (self, other) {
            (KeyMatchResult::Complete, KeyMatchResult::Complete) => true,
            (KeyMatchResult::Partial(a), KeyMatchResult::Partial(b)) => a == b,
            (KeyMatchResult::LongerPrefix(a), KeyMatchResult::LongerPrefix(b)) => a == b,
            (KeyMatchResult::Incomplete(i, p), KeyMatchResult::Incomplete(j, q)) => {
                *i == *j && p == q
            }
            _ => false,
        }
    }
}

impl vstd::std_specs::cmp::PartialEqSpecImpl for KeyMatchResult {
    open spec fn obeys_eq_spec() -> bool {
        true
    }

    open spec fn eq_spec(&self, other: &KeyMatchResult) -> bool {
        match (self, other) {
            (KeyMatchResult::Complete, KeyMatchResult::Complete) => true,
            (KeyMatchResult::Partial(a), KeyMatchResult::Partial(b)) => a@ == b@,
            (KeyMatchResult::LongerPrefix(a), KeyMatchResult::LongerPrefix(b)) => a == b,
            (KeyMatchResult::Incomplete(i, p), KeyMatchResult::Incomplete(j, q)) => {
                i == j && p@ == q@
            }
            _ => false,
        }
    }
}

impl Eq for KeyMatchResult {}

} // verus!
