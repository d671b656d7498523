//! A hash table from numbers to numbers.
//!
//! The timing wheel keeps the token of every live timer in one, by timer
//! id; the role table keeps the position of every role in one, by role id.

use vstd::prelude::*;

verus! {

/// Numbers by number, stored in a `hashbrown::HashMap`.
///
/// The map's declaration is bounded by an allocator trait that `hashbrown`
/// does not re-export, so the map is held opaquely and everything known
/// about it is what the methods below state.
#[verifier::external_body]
pub struct LookupTable {
    map: hashbrown::HashMap<u64, u64>,
}

/// The mapping that a table holds.
pub uninterp spec fn lookup_entries(t: LookupTable) -> Map<u64, u64>;

/// The mapping without entries.
pub open spec fn no_entries() -> Map<u64, u64> {
    Map::empty()
}

impl LookupTable {
    /// `hashbrown::HashMap::new`: a map without entries.
    #[verifier::external_body]
    pub(crate) fn new() -> (t: LookupTable)
        ensures
            lookup_entries(t) == no_entries(),
    {
        LookupTable { map: hashbrown::HashMap::new() }
    }

    /// `hashbrown::HashMap::get`: the value stored under `id`, if there is
    /// one; the map is not changed.
    #[verifier::external_body]
    pub(crate) fn get(&self, id: &u64) -> (r: Option<&u64>)
        ensures
            r == (if lookup_entries(*self).contains_key(*id) {
                Some(&lookup_entries(*self)[*id])
            } else {
                None
            }),
    {
        self.map.get(id)
    }

    /// `hashbrown::HashMap::insert`: afterwards `id` maps to `token` and all
    /// other keys are as before; the value that `id` mapped to before, if
    /// any, is returned.
    #[verifier::external_body]
    pub(crate) fn insert(&mut self, id: u64, token: u64) -> (r: Option<u64>)
        ensures
            lookup_entries(*final(self)) == lookup_entries(*old(self)).insert(id, token),
            r == (if lookup_entries(*old(self)).contains_key(id) {
                Some(lookup_entries(*old(self))[id])
            } else {
                None
            }),
    {
        self.map.insert(id, token)
    }

    /// `hashbrown::HashMap::remove_entry`: afterwards `id` is not a key and
    /// all other keys are as before; the key and the value that it mapped
    /// to, if it was a key, are returned.
    #[verifier::external_body]
    pub(crate) fn remove_entry(&mut self, id: &u64) -> (r: Option<(u64, u64)>)
        ensures
            lookup_entries(*final(self)) == lookup_entries(*old(self)).remove(*id),
            r == (if lookup_entries(*old(self)).contains_key(*id) {
                Some((*id, lookup_entries(*old(self))[*id]))
            } else {
                None
            }),
    {
        self.map.remove_entry(id)
    }

    /// `hashbrown::HashMap::is_empty`: whether the map has no entries.
    #[verifier::external_body]
    pub(crate) fn is_empty(&self) -> (r: bool)
        ensures
            r == (lookup_entries(*self) == no_entries()),
    {
        self.map.is_empty()
    }
}

} // verus!
