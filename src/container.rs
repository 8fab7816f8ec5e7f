use vstd::prelude::*;
use std::collections::VecDeque;
use crate::elem::{AtlasElem, AtlasMemParam, has_key, id_of_key, slot_has_key};
use crate::key_table::{KeyTable, key_table_contents};

verus! {

/// Slot table with reverse lookup: entries live at stable integer ids, freed
/// ids are reused oldest first, and a key table maps each key to its id.
pub struct AtlasElemMem<T> {
    mem: Vec<Option<AtlasElem<T>>>,
    uu_mem: VecDeque<usize>,
    table: KeyTable,
}

impl<T> AtlasElemMem<T> {
    /// The slots, indexed by id; `None` is a free id.
    pub closed spec fn slots(&self) -> Seq<Option<AtlasElem<T>>> {
        self.mem@
    }

    /// Freed ids waiting for reuse, oldest first.
    pub closed spec fn free_ids(&self) -> Seq<usize> {
        self.uu_mem@
    }

    pub closed spec fn wf(&self) -> bool {
        let t = key_table_contents(self.table);
        &&& forall|i: int|
            0 <= i < self.mem@.len() && #[trigger] self.mem@[i] is Some ==> {
                &&& t.contains_key(self.mem@[i]->Some_0.key)
                &&& t[self.mem@[i]->Some_0.key] == i
            }
        &&& forall|k: u64|
            #[trigger] t.contains_key(k) ==> {
                &&& t[k] < self.mem@.len()
                &&& slot_has_key(self.mem@[t[k] as int], k)
            }
        &&& forall|j: int|
            0 <= j < self.uu_mem@.len() ==> {
                &&& #[trigger] self.uu_mem@[j] < self.mem@.len()
                &&& self.mem@[self.uu_mem@[j] as int] is None
            }
        &&& self.uu_mem@.no_duplicates()
    }

    /// The id that the next successful insertion takes.
    pub open spec fn next_id(&self) -> int {
        if self.free_ids().len() > 0 {
            self.free_ids()[0] as int
        } else {
            self.slots().len() as int
        }
    }

    /// The id under which key `k` is stored, if any.
    pub open spec fn id_of(&self, k: u64) -> Option<usize> {
        id_of_key(self.slots(), k)
    }

    /// The oldest freed id names an empty slot.
    pub proof fn lemma_free_slot(&self)
        requires
            self.wf(),
        ensures
            self.free_ids().len() > 0 ==> self.free_ids()[0] < self.slots().len()
                && self.slots()[self.free_ids()[0] as int] is None,
    {
    }

    /// Under well-formedness, `id_of` names the one slot that holds `k`.
    pub proof fn lemma_id_of(&self, k: u64, i: int)
        requires
            self.wf(),
            0 <= i < self.slots().len(),
            slot_has_key(self.slots()[i], k),
        ensures
            self.id_of(k) == Some(i as usize),
    {
        let j = self.id_of(k)->Some_0;
        assert(slot_has_key(self.slots()[j as int], k));
    }

    pub fn new() -> (r: Self)
        ensures
            r.wf(),
            r.slots() == Seq::<Option<AtlasElem<T>>>::empty(),
            r.free_ids() == Seq::<usize>::empty(),
    {
        let r = AtlasElemMem { mem: Vec::new(), uu_mem: VecDeque::new(), table: KeyTable::new() };
        assert(r.mem@ =~= Seq::<Option<AtlasElem<T>>>::empty());
        r
    }

    /// Number of ids handed out so far, free or not.
    pub fn len_ids(&self) -> (r: usize)
        ensures
            r == self.slots().len(),
    {
        self.mem.len()
    }

    pub fn get_id(&self, key: u64) -> (r: Option<usize>)
        requires
            self.wf(),
        ensures
            r == self.id_of(key),
            r matches Some(i) ==> i < self.slots().len() && slot_has_key(self.slots()[i as int], key),
    {
        let r = self.table.get(key);
        if let Some(i) = r {
            proof {
                self.lemma_id_of(key, i as int);
            }
        } else {
            assert(!has_key(self.slots(), key));
        }
        r
    }

    /// Stores a new entry under `key`, at the oldest freed id if there is one,
    /// else at a fresh id past the end. A key already present is refused and
    /// the parts are handed back.
    pub fn insert(&mut self, memp: Option<AtlasMemParam>, ud: T, key: u64) -> (r: Result<
        usize,
        (Option<AtlasMemParam>, T),
    >)
        requires
            old(self).wf(),
        ensures
            final(self).wf(),
            r matches Ok(id) ==> id as int == old(self).next_id(),
            has_key(old(self).slots(), key) ==> {
                &&& r == Err::<usize, (Option<AtlasMemParam>, T)>((memp, ud))
                &&& final(self).slots() == old(self).slots()
                &&& final(self).free_ids() == old(self).free_ids()
            },
            !has_key(old(self).slots(), key) ==> {
                let e = Some(AtlasElem { memp, ud, key });
                &&& r == Ok::<usize, (Option<AtlasMemParam>, T)>(old(self).next_id() as usize)
                &&& if old(self).free_ids().len() > 0 {
                    &&& final(self).slots() == old(self).slots().update(old(self).next_id(), e)
                    &&& final(self).free_ids() == old(self).free_ids().drop_first()
                } else {
                    &&& final(self).slots() == old(self).slots().push(e)
                    &&& final(self).free_ids() == old(self).free_ids()
                }
            },
    {
        if let Some(_) = self.table.get(key) {
            return Err((memp, ud));
        }
        assert(!has_key(self.slots(), key)) by {
            if has_key(self.slots(), key) {
                let i = choose|i: int| 0 <= i < self.slots().len() && slot_has_key(self.slots()[i], key);
                assert(self.mem@[i] is Some);
            }
        }
        let ghost old_mem = self.mem@;
        let ghost old_uu = self.uu_mem@;
        let idx = match self.uu_mem.pop_front() {
            Some(uu) => {
                assert(old_uu[0] == uu);
                self.mem.set(uu, Some(AtlasElem { memp, ud, key }));
                uu
            },
            None => {
                let id = self.mem.len();
                self.mem.push(Some(AtlasElem { memp, ud, key }));
                id
            },
        };
        self.table.insert(key, idx);
        proof {
            let t = key_table_contents(self.table);
            assert forall|j: int| 0 <= j < self.uu_mem@.len() implies {
                &&& #[trigger] self.uu_mem@[j] < self.mem@.len()
                &&& self.mem@[self.uu_mem@[j] as int] is None
            } by {
                if old_uu.len() > 0 {
                    assert(self.uu_mem@[j] == old_uu[j + 1]);
                    assert(old_uu[j + 1] != old_uu[0]);
                }
            }
            assert forall|i: int|
                0 <= i < self.mem@.len() && #[trigger] self.mem@[i] is Some implies {
                &&& t.contains_key(self.mem@[i]->Some_0.key)
                &&& t[self.mem@[i]->Some_0.key] == i
            } by {
                if i != idx {
                    assert(old_mem[i] is Some);
                    assert(old_mem[i]->Some_0.key != key);
                }
            }
            assert(self.uu_mem@.no_duplicates()) by {
                if old_uu.len() > 0 {
                    assert forall|a: int, b: int|
                        0 <= a < self.uu_mem@.len() && 0 <= b < self.uu_mem@.len() && a != b implies
                        self.uu_mem@[a] != self.uu_mem@[b] by {
                        assert(self.uu_mem@[a] == old_uu[a + 1]);
                        assert(self.uu_mem@[b] == old_uu[b + 1]);
                    }
                }
            }
        }
        Ok(idx)
    }

    /// Takes out the entry at `idx` and frees the id; `None` if the id holds
    /// no entry.
    pub fn remove(&mut self, idx: usize) -> (r: Option<(Option<AtlasMemParam>, T, u64)>)
        requires
            old(self).wf(),
        ensures
            final(self).wf(),
            match r {
                Some((memp, ud, key)) => {
                    &&& idx < old(self).slots().len()
                    &&& old(self).slots()[idx as int] == Some(AtlasElem { memp, ud, key })
                    &&& final(self).slots() == old(self).slots().update(idx as int, None)
                    &&& final(self).free_ids() == old(self).free_ids().push(idx)
                },
                None => {
                    &&& !(idx < old(self).slots().len() && old(self).slots()[idx as int] is Some)
                    &&& final(self).slots() == old(self).slots()
                    &&& final(self).free_ids() == old(self).free_ids()
                },
            },
    {
        if idx >= self.mem.len() {
            return None;
        }
        if self.mem[idx].is_none() {
            return None;
        }
        let ghost old_mem = self.mem@;
        let ghost old_uu = self.uu_mem@;
        let e = self.mem[idx].take();
        let e = match e {
            Some(e) => e,
            None => { return None; },
        };
        self.uu_mem.push_back(idx);
        self.table.remove(e.key);
        proof {
            let t = key_table_contents(self.table);
            assert(self.mem@ == old_mem.update(idx as int, None));
            assert forall|i: int|
                0 <= i < self.mem@.len() && #[trigger] self.mem@[i] is Some implies {
                &&& t.contains_key(self.mem@[i]->Some_0.key)
                &&& t[self.mem@[i]->Some_0.key] == i
            } by {
                assert(old_mem[i] is Some);
                assert(old_mem[i]->Some_0.key != e.key);
            }
            assert forall|j: int| 0 <= j < self.uu_mem@.len() implies {
                &&& #[trigger] self.uu_mem@[j] < self.mem@.len()
                &&& self.mem@[self.uu_mem@[j] as int] is None
            } by {
                if j < old_uu.len() {
                    assert(self.uu_mem@[j] == old_uu[j]);
                }
            }
            assert(self.uu_mem@.no_duplicates()) by {
                assert forall|a: int, b: int|
                    0 <= a < self.uu_mem@.len() && 0 <= b < self.uu_mem@.len() && a != b implies
                    self.uu_mem@[a] != self.uu_mem@[b] by {
                    if a < old_uu.len() {
                        assert(old_mem[old_uu[a] as int] is None);
                    }
                    if b < old_uu.len() {
                        assert(old_mem[old_uu[b] as int] is None);
                    }
                }
            }
        }
        Some((e.memp, e.ud, e.key))
    }

    /// Takes out the entry stored under `key`, with the id it had.
    pub fn remove_by_name(&mut self, key: u64) -> (r: Option<(usize, (Option<AtlasMemParam>, T, u64))>)
        requires
            old(self).wf(),
        ensures
            final(self).wf(),
            match r {
                Some((idx, (memp, ud, k))) => {
                    &&& old(self).id_of(key) == Some(idx)
                    &&& k == key
                    &&& old(self).slots()[idx as int] == Some(AtlasElem { memp, ud, key })
                    &&& final(self).slots() == old(self).slots().update(idx as int, None)
                    &&& final(self).free_ids() == old(self).free_ids().push(idx)
                },
                None => {
                    &&& old(self).id_of(key) is None
                    &&& final(self).slots() == old(self).slots()
                    &&& final(self).free_ids() == old(self).free_ids()
                },
            },
    {
        match self.get_id(key) {
            Some(idx) => {
                match self.remove(idx) {
                    Some(e) => Some((idx, e)),
                    None => None,
                }
            },
            None => None,
        }
    }

    /// The entry at `idx`: its placement, payload and key.
    pub fn get(&self, idx: usize) -> (r: Option<(Option<AtlasMemParam>, &T, u64)>)
        ensures
            match r {
                Some((memp, ud, key)) => {
                    &&& idx < self.slots().len()
                    &&& self.slots()[idx as int] == Some(AtlasElem { memp, ud: *ud, key })
                },
                None => !(idx < self.slots().len() && self.slots()[idx as int] is Some),
            },
    {
        if idx >= self.mem.len() {
            return None;
        }
        match &self.mem[idx] {
            Some(e) => Some((e.memp, &e.ud, e.key)),
            None => None,
        }
    }

    /// The entry at `idx`, with its payload open for change.
    pub fn get_mut(&mut self, idx: usize) -> (r: Option<(Option<AtlasMemParam>, &mut T, u64)>)
        requires
            old(self).wf(),
        ensures
            match r {
                Some((memp, ud, key)) => {
                    &&& idx < old(self).slots().len()
                    &&& old(self).slots()[idx as int] == Some(AtlasElem { memp, ud: *ud, key })
                    &&& final(self).wf()
                    &&& final(self).free_ids() == old(self).free_ids()
                    &&& final(self).slots() == old(self).slots().update(
                        idx as int,
                        Some(AtlasElem { memp, ud: *final(ud), key }),
                    )
                },
                None => {
                    &&& !(idx < old(self).slots().len() && old(self).slots()[idx as int] is Some)
                    &&& *final(self) == *old(self)
                },
            },
    {
        if idx >= self.mem.len() {
            return None;
        }
        if self.mem[idx].is_none() {
            return None;
        }
        match &mut self.mem[idx] {
            Some(e) => Some((e.memp, &mut e.ud, e.key)),
            None => None,
        }
    }

    /// The entry stored under `key`, found through the key table.
    pub fn get_by_name(&self, key: u64) -> (r: Option<(Option<AtlasMemParam>, &T, u64)>)
        requires
            self.wf(),
        ensures
            match self.id_of(key) {
                Some(i) => r matches Some((memp, ud, k)) && k == key && self.slots()[i as int]
                    == Some(AtlasElem { memp, ud: *ud, key }),
                None => r is None,
            },
    {
        match self.get_id(key) {
            Some(i) => self.get(i),
            None => None,
        }
    }

    /// The entry stored under `key`, with its payload open for change.
    pub fn get_by_name_mut(&mut self, key: u64) -> (r: Option<(Option<AtlasMemParam>, &mut T, u64)>)
        requires
            old(self).wf(),
        ensures
            match old(self).id_of(key) {
                Some(i) => match r {
                    Some((memp, ud, k)) => {
                        &&& k == key
                        &&& old(self).slots()[i as int] == Some(AtlasElem { memp, ud: *ud, key })
                        &&& final(self).wf()
                        &&& final(self).free_ids() == old(self).free_ids()
                        &&& final(self).slots() == old(self).slots().update(
                            i as int,
                            Some(AtlasElem { memp, ud: *final(ud), key }),
                        )
                    },
                    None => false,
                },
                None => r is None && *final(self) == *old(self),
            },
    {
        match self.get_id(key) {
            Some(i) => self.get_mut(i),
            None => None,
        }
    }

    /// Every occupied slot in id order, as (id, placement, payload, key).
    pub fn iter(&self) -> (r: Vec<(usize, Option<AtlasMemParam>, &T, u64)>)
        ensures
            forall|j: int| 0 <= j < r@.len() ==> {
                let (i, memp, ud, key) = #[trigger] r@[j];
                &&& i < self.slots().len()
                &&& self.slots()[i as int] == Some(AtlasElem { memp, ud: *ud, key })
            },
            forall|j: int, k: int| 0 <= j < k < r@.len() ==> (#[trigger] r@[j]).0 < (#[trigger] r@[k]).0,
            forall|i: int| 0 <= i < self.slots().len() && #[trigger] self.slots()[i] is Some
                ==> exists|j: int| 0 <= j < r@.len() && (#[trigger] r@[j]).0 == i,
    {
        let mut r: Vec<(usize, Option<AtlasMemParam>, &T, u64)> = Vec::new();
        let mut i: usize = 0;
        while i < self.mem.len()
            invariant
                i <= self.mem@.len(),
                forall|j: int| 0 <= j < r@.len() ==> {
                    let (i, memp, ud, key) = #[trigger] r@[j];
                    &&& i < self.slots().len()
                    &&& self.slots()[i as int] == Some(AtlasElem { memp, ud: *ud, key })
                },
                forall|j: int| 0 <= j < r@.len() ==> (#[trigger] r@[j]).0 < i,
                forall|j: int, k: int| 0 <= j < k < r@.len() ==> (#[trigger] r@[j]).0 < (#[trigger] r@[k]).0,
                forall|a: int| 0 <= a < i && #[trigger] self.slots()[a] is Some
                    ==> exists|j: int| 0 <= j < r@.len() && (#[trigger] r@[j]).0 == a,
            decreases self.mem@.len() - i,
        {
            let ghost old_r = r@;
            if let Some(e) = &self.mem[i] {
                r.push((i, e.memp, &e.ud, e.key));
                assert(r@[r@.len() - 1].0 == i);
            }
            assert forall|a: int| 0 <= a < i + 1 && #[trigger] self.slots()[a] is Some
                implies exists|j: int| 0 <= j < r@.len() && (#[trigger] r@[j]).0 == a by {
                if a < i {
                    let j = choose|j: int| 0 <= j < old_r.len() && (#[trigger] old_r[j]).0 == a;
                    assert(r@[j] == old_r[j]);
                } else {
                    assert(r@[r@.len() - 1].0 == a);
                }
            }
            i = i + 1;
        }
        r
    }
}

} // verus!
