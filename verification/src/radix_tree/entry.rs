//! The key/value entry stored in a leaf: the original full key alongside
//! the mapped value.

use vstd::prelude::*;

verus! {

/// An owned pair of the original full key and its value.  The full key is
/// retained independently of any prefix bookkeeping.
pub struct KeyValue<V> {
    key: Vec<u8>,
    value: V,
}

impl<V> KeyValue<V> {
    /// The full original key.
    pub closed spec fn spec_key(self) -> Seq<u8> {
        self.key@
    }

    /// The mapped value.
    pub closed spec fn spec_value(self) -> V {
        self.value
    }

    pub fn new(key: Vec<u8>, value: V) -> (r: Self)
        ensures
            r.spec_key() == key@,
            r.spec_value() == value,
    {
        KeyValue { key, value }
    }

    pub fn key(&self) -> (r: &Vec<u8>)
        ensures
            r@ == self.spec_key(),
    {
        &self.key
    }

    pub fn key_mut(&mut self) -> (r: &mut Vec<u8>)
        ensures
            r@ == old(self).spec_key(),
            final(self).spec_key() == final(r)@,
            final(self).spec_value() == old(self).spec_value(),
    {
        &mut self.key
    }

    pub fn take_key(self) -> (r: Vec<u8>)
        ensures
            r@ == self.spec_key(),
    {
        self.key
    }

    pub fn value(&self) -> (r: &V)
        ensures
            *r == self.spec_value(),
    {
        &self.value
    }

    pub fn value_mut(&mut self) -> (r: &mut V)
        ensures
            *r == old(self).spec_value(),
            final(self).spec_value() == *final(r),
            final(self).spec_key() == old(self).spec_key(),
    {
        &mut self.value
    }

    pub fn take_value(self) -> (r: V)
        ensures
            r == self.spec_value(),
    {
        self.value
    }

    /// Installs `new_value` and hands back the value previously held.
    pub fn swap_value(&mut self, new_value: V) -> (r: V)
        ensures
            r == old(self).spec_value(),
            final(self).spec_value() == new_value,
            final(self).spec_key() == old(self).spec_key(),
    {
        let mut new_value = new_value;
        core::mem::swap(&mut self.value, &mut new_value);
        new_value
    }
}

} // verus!
