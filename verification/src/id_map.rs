//! A `hashbrown` hash map from numbers to numbers.

use vstd::prelude::*;

verus! {

/// What a map holds.
pub type IdValues = Map<usize, u64>;

/// A `hashbrown::HashMap` from `usize` to `u64`.
#[verifier::external_body]
pub struct IdMap {
    map: hashbrown::HashMap<usize, u64>,
}

/// What a map holds.
pub uninterp spec fn id_values(map: IdMap) -> IdValues;

impl View for IdMap {
    type V = IdValues;

    open spec fn view(&self) -> IdValues {
        id_values(*self)
    }
}

impl IdMap {
    /// `HashMap::new`: a map that holds nothing.
    #[verifier::external_body]
    pub(crate) fn new() -> (map: IdMap)
        ensures
            id_values(map) == IdValues::empty(),
    {
        IdMap { map: hashbrown::HashMap::new() }
    }

    /// `HashMap::insert`: the key then has the value, whatever it had before, and
    /// all other keys are as they were. What it had before is not handed out.
    #[verifier::external_body]
    pub(crate) fn insert(&mut self, key: usize, value: u64)
        ensures
            id_values(*final(self)) == id_values(*old(self)).insert(key, value),
    {
        self.map.insert(key, value);
    }

    /// `HashMap::get`: the value of the key, if it has one.
    #[verifier::external_body]
    pub(crate) fn get(&self, key: usize) -> (value: Option<u64>)
        ensures
            value is Some == id_values(*self).dom().contains(key),
            value is Some ==> value->0 == id_values(*self)[key],
    {
        self.map.get(&key).copied()
    }

    /// `HashMap::remove`: the key then has no value, and all other keys are as
    /// they were. What it had before is not handed out.
    #[verifier::external_body]
    pub(crate) fn remove(&mut self, key: usize)
        ensures
            id_values(*final(self)) == id_values(*old(self)).remove(key),
    {
        self.map.remove(&key);
    }

    /// `HashMap::clear`: the map then holds nothing.
    #[verifier::external_body]
    pub(crate) fn clear(&mut self)
        ensures
            id_values(*final(self)) == IdValues::empty(),
    {
        self.map.clear();
    }

    /// `HashMap::capacity`: how many keys the map can hold without more storage,
    /// which is at least as many as it holds.
    #[verifier::external_body]
    pub(crate) fn capacity(&self) -> (capacity: usize)
        ensures
            capacity >= id_values(*self).dom().len(),
    {
        self.map.capacity()
    }

    /// `HashMap::keys`: every key once, in storage that is handed over empty. Their
    /// order is not stated.
    #[verifier::external_body]
    pub(crate) fn keys_into(&self, keys: &mut Vec<usize>)
        requires
            old(keys)@.len() == 0,
        ensures
            final(keys)@.no_duplicates(),
            final(keys)@.to_set() == id_values(*self).dom(),
    {
        keys.extend(self.map.keys().copied());
    }
}

} // verus!
