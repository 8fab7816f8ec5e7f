use vstd::prelude::*;

verus! {

/// Key-to-slot index table, backed by a `hashbrown::HashMap`.
#[verifier::external_body]
pub struct KeyTable {
    map: hashbrown::HashMap<u64, usize>,
}

/// What a key table maps each present key to.
pub uninterp spec fn key_table_contents(t: KeyTable) -> Map<u64, usize>;

impl KeyTable {
    /// Relies on hashbrown::HashMap::new: the new map holds no entry.
    #[verifier::external_body]
    pub(crate) fn new() -> (r: KeyTable)
        ensures
            key_table_contents(r) =~= Map::empty(),
    {
        KeyTable { map: hashbrown::HashMap::new() }
    }

    /// Relies on hashbrown::HashMap::get: the value stored under `k`, if any.
    #[verifier::external_body]
    pub(crate) fn get(&self, k: u64) -> (r: Option<usize>)
        ensures
            r == (if key_table_contents(*self).contains_key(k) {
                Some(key_table_contents(*self)[k])
            } else {
                None
            }),
    {
        self.map.get(&k).copied()
    }

    /// Relies on hashbrown::HashMap::insert: `k` now maps to `v`; the value it
    /// mapped to before, if any, is returned.
    #[verifier::external_body]
    pub(crate) fn insert(&mut self, k: u64, v: usize) -> (r: Option<usize>)
        ensures
            key_table_contents(*final(self)) == key_table_contents(*old(self)).insert(k, v),
            r == (if key_table_contents(*old(self)).contains_key(k) {
                Some(key_table_contents(*old(self))[k])
            } else {
                None
            }),
    {
        self.map.insert(k, v)
    }

    /// Relies on hashbrown::HashMap::remove: `k` no longer maps to anything;
    /// the value it mapped to before, if any, is returned.
    #[verifier::external_body]
    pub(crate) fn remove(&mut self, k: u64) -> (r: Option<usize>)
        ensures
            key_table_contents(*final(self)) == key_table_contents(*old(self)).remove(k),
            r == (if key_table_contents(*old(self)).contains_key(k) {
                Some(key_table_contents(*old(self))[k])
            } else {
                None
            }),
    {
        self.map.remove(&k)
    }
}

} // verus!
