use vstd::prelude::*;
use crate::bl::{BLInserter, BLInserterInitializer, BLInsertError, BLRemoveError, fits, has_room, is_bl_spot};
use crate::container::AtlasElemMem;
use crate::elem::{AtlasElem, AtlasMemParam, has_key, id_of_key, slot_has_key};
use crate::memory::{AtlasMem, local_index};
use crate::types::{SqPos, SqSize};

verus! {

/// The placement of a slot: `None` for a free slot or an entry without one.
pub open spec fn placement<T>(s: Option<AtlasElem<T>>) -> Option<AtlasMemParam> {
    match s {
        Some(e) => e.memp,
        None => None,
    }
}

/// Every placement held by some slot.
pub open spec fn live_rects<T>(slots: Seq<Option<AtlasElem<T>>>) -> Set<AtlasMemParam> {
    Set::new(
        |r: AtlasMemParam|
            exists|i: int| 0 <= i < slots.len() && #[trigger] placement(slots[i]) == Some(r),
    )
}

/// No two slots hold overlapping placements.
pub open spec fn slots_apart<T>(slots: Seq<Option<AtlasElem<T>>>) -> bool {
    forall|i: int, j: int|
        0 <= i < slots.len() && 0 <= j < slots.len() && i != j && #[trigger] placement(slots[i]) is Some
            && #[trigger] placement(slots[j]) is Some ==> !placement(slots[i])->Some_0.overlaps(
            placement(slots[j])->Some_0,
        )
}

/// Every placement lies inside an atlas of the given size.
pub open spec fn slots_within<T>(slots: Seq<Option<AtlasElem<T>>>, area: SqSize) -> bool {
    forall|i: int|
        0 <= i < slots.len() && #[trigger] placement(slots[i]) is Some ==> placement(
            slots[i],
        )->Some_0.within(area)
}

proof fn lemma_live_fill<T>(slots: Seq<Option<AtlasElem<T>>>, i: int, e: AtlasElem<T>)
    requires
        0 <= i < slots.len(),
        slots[i] is None,
    ensures
        live_rects(slots.update(i, Some(e))) == (match e.memp {
            Some(m) => live_rects(slots).insert(m),
            None => live_rects(slots),
        }),
{
    let ns = slots.update(i, Some(e));
    let target = match e.memp {
        Some(m) => live_rects(slots).insert(m),
        None => live_rects(slots),
    };
    assert forall|r: AtlasMemParam| live_rects(ns).contains(r) <==> target.contains(r) by {
        if live_rects(ns).contains(r) {
            let j = choose|j: int| 0 <= j < ns.len() && #[trigger] placement(ns[j]) == Some(r);
            if j != i {
                assert(placement(slots[j]) == Some(r));
            }
        }
        if live_rects(slots).contains(r) {
            let j = choose|j: int| 0 <= j < slots.len() && #[trigger] placement(slots[j]) == Some(r);
            assert(j != i);
            assert(placement(ns[j]) == Some(r));
        }
        if e.memp == Some(r) {
            assert(placement(ns[i]) == Some(r));
        }
    }
    assert(live_rects(ns) =~= target);
}

proof fn lemma_live_push<T>(slots: Seq<Option<AtlasElem<T>>>, e: AtlasElem<T>)
    ensures
        live_rects(slots.push(Some(e))) == (match e.memp {
            Some(m) => live_rects(slots).insert(m),
            None => live_rects(slots),
        }),
{
    let ns = slots.push(Some(e));
    let target = match e.memp {
        Some(m) => live_rects(slots).insert(m),
        None => live_rects(slots),
    };
    assert forall|r: AtlasMemParam| live_rects(ns).contains(r) <==> target.contains(r) by {
        if live_rects(ns).contains(r) {
            let j = choose|j: int| 0 <= j < ns.len() && #[trigger] placement(ns[j]) == Some(r);
            if j < slots.len() {
                assert(placement(slots[j]) == Some(r));
            }
        }
        if live_rects(slots).contains(r) {
            let j = choose|j: int| 0 <= j < slots.len() && #[trigger] placement(slots[j]) == Some(r);
            assert(placement(ns[j]) == Some(r));
        }
        if e.memp == Some(r) {
            assert(placement(ns[slots.len() as int]) == Some(r));
        }
    }
    assert(live_rects(ns) =~= target);
}

proof fn lemma_live_clear<T>(slots: Seq<Option<AtlasElem<T>>>, i: int, area: SqSize)
    requires
        0 <= i < slots.len(),
        slots_apart(slots),
        slots_within(slots, area),
    ensures
        live_rects(slots.update(i, None)) == (match placement(slots[i]) {
            Some(m) => live_rects(slots).remove(m),
            None => live_rects(slots),
        }),
{
    let ns = slots.update(i, None);
    let target = match placement(slots[i]) {
        Some(m) => live_rects(slots).remove(m),
        None => live_rects(slots),
    };
    assert forall|r: AtlasMemParam| live_rects(ns).contains(r) <==> target.contains(r) by {
        if live_rects(ns).contains(r) {
            let j = choose|j: int| 0 <= j < ns.len() && #[trigger] placement(ns[j]) == Some(r);
            assert(j != i);
            assert(placement(slots[j]) == Some(r));
            if placement(slots[i]) == Some(r) {
                assert(r.within(area));
                assert(r.overlaps(r));
            }
        }
        if target.contains(r) {
            let j = choose|j: int| 0 <= j < slots.len() && #[trigger] placement(slots[j]) == Some(r);
            assert(j != i);
            assert(placement(ns[j]) == Some(r));
        }
    }
    assert(live_rects(ns) =~= target);
}

/// Changing a payload leaves placements, and the predicates over them, as
/// they were.
proof fn lemma_payload_free<T>(slots: Seq<Option<AtlasElem<T>>>, i: int, memp: Option<AtlasMemParam>, key: u64)
    requires
        0 <= i < slots.len(),
        placement(slots[i]) == memp,
    ensures
        forall|u: T|
            #[trigger] live_rects(slots.update(i, Some(AtlasElem { memp, ud: u, key }))) == live_rects(slots)
            && (slots_apart(slots) ==> slots_apart(slots.update(i, Some(AtlasElem { memp, ud: u, key })))),
{
    assert forall|u: T| #[trigger] live_rects(slots.update(i, Some(AtlasElem { memp, ud: u, key })))
        == live_rects(slots) && (slots_apart(slots) ==> slots_apart(
        slots.update(i, Some(AtlasElem { memp, ud: u, key })),
    )) by {
        let ns = slots.update(i, Some(AtlasElem { memp, ud: u, key }));
        assert forall|j: int| 0 <= j < slots.len() implies #[trigger] placement(ns[j]) == placement(
            slots[j],
        ) by {}
        assert(live_rects(ns) =~= live_rects(slots)) by {
            assert forall|r: AtlasMemParam| live_rects(ns).contains(r) <==> live_rects(slots).contains(r) by {
                if live_rects(ns).contains(r) {
                    let j = choose|j: int| 0 <= j < ns.len() && #[trigger] placement(ns[j]) == Some(r);
                    assert(placement(slots[j]) == Some(r));
                }
                if live_rects(slots).contains(r) {
                    let j = choose|j: int| 0 <= j < slots.len() && #[trigger] placement(slots[j]) == Some(r);
                    assert(placement(ns[j]) == Some(r));
                }
            }
        }
    }
}

/// Texture atlas: packs rectangles into one pixel buffer by the
/// Bottom-Left rule and keeps each under a key and a stable id.
pub struct Atlas<const BL: usize, P, T> {
    memory: AtlasMem<BL, P>,
    elem: AtlasElemMem<T>,
    inserter: BLInserter,
    modified: bool,
}

impl<const BL: usize, P: Copy, T> Atlas<BL, P, T> {
    /// The slots, indexed by id; `None` is a free id.
    pub closed spec fn slots(&self) -> Seq<Option<AtlasElem<T>>> {
        self.elem.slots()
    }

    /// Freed ids waiting for reuse, oldest first.
    pub closed spec fn free_ids(&self) -> Seq<usize> {
        self.elem.free_ids()
    }

    /// The atlas size in cells.
    pub closed spec fn size_spec(&self) -> SqSize {
        self.memory.size
    }

    /// The pixel buffer: `BL` values per cell, row-major.
    pub closed spec fn pixels(&self) -> Seq<P> {
        self.memory.tex@
    }

    /// Pixels changed since the flag was last cleared.
    pub closed spec fn modified_spec(&self) -> bool {
        self.modified
    }

    pub closed spec fn wf(&self) -> bool {
        &&& self.memory.wf()
        &&& self.elem.wf()
        &&& self.inserter.inv(self.memory.size)
        &&& self.inserter.rects() == live_rects(self.elem.slots())
        &&& slots_apart(self.elem.slots())
    }

    /// Every placement currently held.
    pub open spec fn rects(&self) -> Set<AtlasMemParam> {
        live_rects(self.slots())
    }

    /// The id that the next successful insertion takes.
    pub open spec fn next_id(&self) -> int {
        if self.free_ids().len() > 0 {
            self.free_ids()[0] as int
        } else {
            self.slots().len() as int
        }
    }

    /// The slots once `e` is stored at the next id.
    pub open spec fn slots_after_insert(&self, e: AtlasElem<T>) -> Seq<Option<AtlasElem<T>>> {
        if self.free_ids().len() > 0 {
            self.slots().update(self.next_id(), Some(e))
        } else {
            self.slots().push(Some(e))
        }
    }

    /// The free ids once the next id is taken.
    pub open spec fn free_after_insert(&self) -> Seq<usize> {
        if self.free_ids().len() > 0 {
            self.free_ids().drop_first()
        } else {
            self.free_ids()
        }
    }

    /// Offset of the first value of cell `(x, y)` in the pixel buffer.
    pub open spec fn offset(&self, x: int, y: int) -> int {
        (y * self.size_spec().w + x) * BL
    }

    /// The `BL` values of cell `(x, y)`.
    pub open spec fn cell(&self, x: int, y: int) -> Seq<P> {
        self.pixels().subrange(self.offset(x, y), self.offset(x, y) + BL)
    }

    /// The requested size exceeds the atlas on either side.
    pub open spec fn oversized(&self, size: Option<SqSize>) -> bool {
        size matches Some(s) && (s.w > self.size_spec().w || s.h > self.size_spec().h)
    }

    /// What a well-formed atlas guarantees of its parts: a valid size, a
    /// pixel buffer of `BL` values per cell, placements inside the atlas,
    /// and a next id that names an empty slot or the end of the slots.
    pub proof fn lemma_wf_facts(&self)
        requires
            self.wf(),
        ensures
            self.size_spec().wf(),
            BL > 0,
            self.size_spec().w * self.size_spec().h * BL <= usize::MAX,
            self.pixels().len() == self.size_spec().w * self.size_spec().h * BL,
            slots_within(self.slots(), self.size_spec()),
            self.next_id() == self.slots().len() || (0 <= self.next_id() < self.slots().len()
                && self.slots()[self.next_id()] is None),
            self.free_ids().len() > 0 ==> self.free_ids()[0] < self.slots().len()
                && self.slots()[self.free_ids()[0] as int] is None,
    {
        self.inserter.lemma_rects_apart(self.memory.size);
        self.elem.lemma_free_slot();
        assert forall|i: int|
            0 <= i < self.slots().len() && #[trigger] placement(self.slots()[i]) is Some implies placement(
            self.slots()[i],
        )->Some_0.within(self.size_spec()) by {
            assert(self.inserter.rects().contains(placement(self.slots()[i])->Some_0));
        }
    }

    /// An empty atlas of the given size, every value set to `pixel`.
    pub fn new(size: SqSize, inserter_initializer: BLInserterInitializer, pixel: P) -> (r: Self)
        requires
            size.wf(),
            BL > 0,
            size.w * size.h * BL <= usize::MAX,
        ensures
            r.wf(),
            r.size_spec() == size,
            r.slots() == Seq::<Option<AtlasElem<T>>>::empty(),
            r.free_ids() == Seq::<usize>::empty(),
            r.pixels().len() == size.w * size.h * BL,
            forall|i: int| 0 <= i < r.pixels().len() ==> r.pixels()[i] == pixel,
            !r.modified_spec(),
    {
        proof {
            assert(size.w * size.h <= size.w * size.h * BL) by (nonlinear_arith)
                requires
                    size.wf(),
                    BL > 0,
            ;
        }
        let memory = AtlasMem::new(size, pixel);
        let elem = AtlasElemMem::new();
        let inserter = inserter_initializer.initialize(size);
        let r = Atlas { memory, elem, inserter, modified: false };
        assert(live_rects(r.elem.slots()) =~= Set::<AtlasMemParam>::empty());
        r
    }

    /// The whole pixel buffer, ready for upload.
    pub fn raw(&self) -> (r: &[P])
        ensures
            r@ == self.pixels(),
    {
        self.memory.raw()
    }

    pub fn size(&self) -> (r: SqSize)
        ensures
            r == self.size_spec(),
    {
        self.memory.size
    }

    /// Whether pixels changed since the flag was last cleared.
    pub fn is_modified(&self) -> (r: bool)
        ensures
            r == self.modified_spec(),
    {
        self.modified
    }

    /// Marks the current pixels as taken up by the consumer.
    pub fn clear_modified(&mut self)
        requires
            old(self).wf(),
        ensures
            final(self).wf(),
            !final(self).modified_spec(),
            final(self).slots() == old(self).slots(),
            final(self).free_ids() == old(self).free_ids(),
            final(self).size_spec() == old(self).size_spec(),
            final(self).pixels() == old(self).pixels(),
    {
        self.modified = false;
    }

    /// Every entry in id order, as (id, placement, payload, key).
    pub fn iter(&self) -> (r: Vec<(usize, Option<AtlasMemParam>, &T, u64)>)
        ensures
            forall|j: int| 0 <= j < r@.len() ==> {
                let (i, memp, ud, key) = #[trigger] r@[j];
                &&& i < self.slots().len()
                &&& self.slots()[i as int] == Some(AtlasElem { memp, ud: *ud, key })
            },
            forall|j: int, k: int| 0 <= j < k < r@.len() ==> (#[trigger] r@[j]).0 < (#[trigger] r@[k]).0,
            forall|i: int| 0 <= i < self.slots().len() && #[trigger] self.slots()[i] is Some
                ==> exists|j: int| 0 <= j < r@.len() && (#[trigger] r@[j]).0 == i,
    {
        self.elem.iter()
    }

    /// The id under which `key` is stored.
    pub fn get_id(&self, key: u64) -> (r: Option<usize>)
        requires
            self.wf(),
        ensures
            r == id_of_key(self.slots(), key),
            r matches Some(i) ==> i < self.slots().len() && slot_has_key(self.slots()[i as int], key),
    {
        self.elem.get_id(key)
    }

    /// The placement of the entry at `id`; `None` if there is no entry or
    /// it has no placement.
    pub fn get_amp(&self, id: usize) -> (r: Option<AtlasMemParam>)
        ensures
            r == (if id < self.slots().len() { placement(self.slots()[id as int]) } else { None }),
    {
        match self.elem.get(id) {
            Some((memp, _, _)) => memp,
            None => None,
        }
    }

    /// The placement of the entry stored under `key`.
    pub fn get_amp_by_name(&self, key: u64) -> (r: Option<AtlasMemParam>)
        requires
            self.wf(),
        ensures
            r == (match id_of_key(self.slots(), key) {
                Some(i) => placement(self.slots()[i as int]),
                None => None,
            }),
    {
        match self.get_id(key) {
            Some(id) => self.get_amp(id),
            None => None,
        }
    }

    /// The entry at `id`: its placement, payload and key.
    pub fn get(&self, id: usize) -> (r: Option<(Option<AtlasMemParam>, &T, u64)>)
        ensures
            match r {
                Some((memp, ud, key)) => {
                    &&& id < self.slots().len()
                    &&& self.slots()[id as int] == Some(AtlasElem { memp, ud: *ud, key })
                },
                None => !(id < self.slots().len() && self.slots()[id as int] is Some),
            },
    {
        self.elem.get(id)
    }

    /// The entry stored under `key`.
    pub fn get_by_name(&self, key: u64) -> (r: Option<(Option<AtlasMemParam>, &T, u64)>)
        requires
            self.wf(),
        ensures
            match id_of_key(self.slots(), key) {
                Some(i) => r matches Some((memp, ud, k)) && k == key && self.slots()[i as int]
                    == Some(AtlasElem { memp, ud: *ud, key }),
                None => r is None,
            },
    {
        self.elem.get_by_name(key)
    }

    /// The entry at `id`, with its payload open for change.
    pub fn get_mut(&mut self, id: usize) -> (r: Option<(Option<AtlasMemParam>, &mut T, u64)>)
        requires
            old(self).wf(),
        ensures
            final(self).size_spec() == old(self).size_spec(),
            final(self).pixels() == old(self).pixels(),
            final(self).modified_spec() == old(self).modified_spec(),
            match r {
                Some((memp, ud, key)) => {
                    &&& id < old(self).slots().len()
                    &&& old(self).slots()[id as int] == Some(AtlasElem { memp, ud: *ud, key })
                    &&& final(self).wf()
                    &&& final(self).free_ids() == old(self).free_ids()
                    &&& final(self).slots() == old(self).slots().update(
                        id as int,
                        Some(AtlasElem { memp, ud: *final(ud), key }),
                    )
                },
                None => {
                    &&& !(id < old(self).slots().len() && old(self).slots()[id as int] is Some)
                    &&& final(self).wf()
                    &&& final(self).slots() == old(self).slots()
                    &&& final(self).free_ids() == old(self).free_ids()
                },
            },
    {
        proof {
            if id < self.slots().len() && self.slots()[id as int] is Some {
                let e = self.slots()[id as int]->Some_0;
                lemma_payload_free(self.slots(), id as int, e.memp, e.key);
            }
        }
        self.elem.get_mut(id)
    }

    /// Stores `ud` under `key`. With a size, the entry gets the Bottom-Left
    /// spot for a rectangle of that size; without one it takes no pixels.
    /// Returns the new id and the placement. Fails, changing nothing, with
    /// `InsDataIsTooLarge` when the size exceeds the atlas on either side,
    /// else with `KeyDuplicate` when the key is present, else with
    /// `InsNotEnoughSpace` when no spot is free.
    pub fn insert(&mut self, key: u64, ud: T, size: Option<SqSize>) -> (r: Result<
        (usize, Option<AtlasMemParam>),
        BLInsertError,
    >)
        requires
            old(self).wf(),
            size matches Some(s) ==> s.wf(),
        ensures
            final(self).wf(),
            final(self).size_spec() == old(self).size_spec(),
            final(self).pixels() == old(self).pixels(),
            final(self).modified_spec() == old(self).modified_spec(),
            r is Err ==> *final(self) == *old(self),
            old(self).oversized(size) ==> r == Err::<(usize, Option<AtlasMemParam>), BLInsertError>(
                BLInsertError::InsDataIsTooLarge,
            ),
            has_key(old(self).slots(), key) && !old(self).oversized(size) ==> r == Err::<
                (usize, Option<AtlasMemParam>),
                BLInsertError,
            >(BLInsertError::KeyDuplicate),
            r matches Ok((id, _)) ==> {
                &&& id as int == old(self).next_id()
                &&& id == old(self).slots().len() || old(self).slots()[id as int] is None
            },
            !has_key(old(self).slots(), key) && !old(self).oversized(size) ==> match size {
                None => {
                    &&& r == Ok::<(usize, Option<AtlasMemParam>), BLInsertError>(
                        (old(self).next_id() as usize, None),
                    )
                    &&& final(self).slots() == old(self).slots_after_insert(
                        AtlasElem { memp: None, ud, key },
                    )
                    &&& final(self).free_ids() == old(self).free_after_insert()
                    &&& final(self).rects() == old(self).rects()
                },
                Some(s) => if !has_room(old(self).rects(), old(self).size_spec(), s) {
                    r == Err::<(usize, Option<AtlasMemParam>), BLInsertError>(
                        BLInsertError::InsNotEnoughSpace,
                    )
                } else {
                    exists|m: AtlasMemParam|
                        {
                            &&& r == Ok::<(usize, Option<AtlasMemParam>), BLInsertError>(
                                (old(self).next_id() as usize, Some(m)),
                            )
                            &&& m.size == s
                            &&& #[trigger] is_bl_spot(old(self).rects(), old(self).size_spec(), m)
                            &&& final(self).slots() == old(self).slots_after_insert(
                                AtlasElem { memp: Some(m), ud, key },
                            )
                            &&& final(self).free_ids() == old(self).free_after_insert()
                            &&& final(self).rects() == old(self).rects().insert(m)
                        }
                },
            },
    {
        if let Some(s) = size {
            if self.memory.size.w < s.w || self.memory.size.h < s.h {
                return Err(BLInsertError::InsDataIsTooLarge);
            }
        }
        if self.elem.get_id(key).is_some() {
            return Err(BLInsertError::KeyDuplicate);
        }
        proof {
            self.lemma_wf_facts();
        }
        let memp = match size {
            Some(s) => {
                let m = self.inserter.insert(self.memory.size, s)?;
                Some(m)
            },
            None => None,
        };
        let ghost slots0 = self.elem.slots();
        let ghost free0 = self.elem.free_ids();
        let ghost rects0 = live_rects(slots0);
        let res = self.elem.insert(memp, ud, key);
        match res {
            Ok(id) => {
                proof {
                    let e = AtlasElem { memp, ud, key };
                    if free0.len() > 0 {
                        lemma_live_fill(slots0, id as int, e);
                    } else {
                        lemma_live_push(slots0, e);
                    }
                    let ns = self.elem.slots();
                    assert(ns[id as int] == Some(e));
                    assert forall|i: int, j: int|
                        0 <= i < ns.len() && 0 <= j < ns.len() && i != j && #[trigger] placement(ns[i]) is Some
                            && #[trigger] placement(ns[j]) is Some implies !placement(ns[i])->Some_0.overlaps(
                        placement(ns[j])->Some_0,
                    ) by {
                        if i != id && j != id {
                            assert(placement(slots0[i]) == placement(ns[i]));
                            assert(placement(slots0[j]) == placement(ns[j]));
                        } else if i == id {
                            assert(placement(slots0[j]) == placement(ns[j]));
                            assert(rects0.contains(placement(ns[j])->Some_0));
                        } else {
                            assert(placement(slots0[i]) == placement(ns[i]));
                            assert(rects0.contains(placement(ns[i])->Some_0));
                        }
                    }
                }
                Ok((id, memp))
            },
            Err(_) => {
                proof {
                    assert(false);
                }
                Err(BLInsertError::KeyDuplicate)
            },
        }
    }

    /// Takes out the entry at `id`, frees its cells and its id, and hands
    /// back its payload, key and former placement. `EntryNotExist`, with
    /// nothing changed, when the id holds no entry.
    pub fn remove(&mut self, id: usize) -> (r: Result<(T, u64, Option<AtlasMemParam>), BLRemoveError>)
        requires
            old(self).wf(),
        ensures
            final(self).wf(),
            final(self).size_spec() == old(self).size_spec(),
            final(self).pixels() == old(self).pixels(),
            final(self).modified_spec() == old(self).modified_spec(),
            match r {
                Ok((ud, key, memp)) => {
                    &&& id < old(self).slots().len()
                    &&& old(self).slots()[id as int] == Some(AtlasElem { memp, ud, key })
                    &&& final(self).slots() == old(self).slots().update(id as int, None)
                    &&& final(self).free_ids() == old(self).free_ids().push(id)
                    &&& final(self).rects() == match memp {
                        Some(m) => old(self).rects().remove(m),
                        None => old(self).rects(),
                    }
                },
                Err(e) => {
                    &&& e == BLRemoveError::EntryNotExist
                    &&& !(id < old(self).slots().len() && old(self).slots()[id as int] is Some)
                    &&& *final(self) == *old(self)
                },
            },
    {
        proof {
            self.lemma_wf_facts();
        }
        let ghost slots0 = self.elem.slots();
        if id >= self.elem.len_ids() {
            return Err(BLRemoveError::EntryNotExist);
        }
        if self.elem.get(id).is_none() {
            return Err(BLRemoveError::EntryNotExist);
        }
        let taken = self.elem.remove(id);
        match taken {
            Some((memp, ud, key)) => {
                proof {
                    lemma_live_clear(slots0, id as int, self.memory.size);
                    let ns = self.elem.slots();
                    assert forall|i: int, j: int|
                        0 <= i < ns.len() && 0 <= j < ns.len() && i != j && #[trigger] placement(ns[i]) is Some
                            && #[trigger] placement(ns[j]) is Some implies !placement(ns[i])->Some_0.overlaps(
                        placement(ns[j])->Some_0,
                    ) by {
                        assert(placement(slots0[i]) == placement(ns[i]));
                        assert(placement(slots0[j]) == placement(ns[j]));
                    }
                }
                if let Some(m) = memp {
                    proof {
                        assert(placement(slots0[id as int]) == Some(m));
                        assert(self.inserter.rects().contains(m));
                    }
                    self.inserter.remove(self.memory.size, m);
                }
                Ok((ud, key, memp))
            },
            None => Err(BLRemoveError::EntryNotExist),
        }
    }

    /// Removes the entry stored under `key`; `None` when the key is absent.
    pub fn remove_by_name(&mut self, key: u64) -> (r: Option<
        Result<(T, u64, Option<AtlasMemParam>), BLRemoveError>,
    >)
        requires
            old(self).wf(),
        ensures
            final(self).wf(),
            final(self).size_spec() == old(self).size_spec(),
            final(self).pixels() == old(self).pixels(),
            final(self).modified_spec() == old(self).modified_spec(),
            match id_of_key(old(self).slots(), key) {
                Some(id) => r matches Some(Ok((ud, k, memp))) && {
                    &&& k == key
                    &&& old(self).slots()[id as int] == Some(AtlasElem { memp, ud, key })
                    &&& final(self).slots() == old(self).slots().update(id as int, None)
                    &&& final(self).free_ids() == old(self).free_ids().push(id)
                },
                None => r is None && *final(self) == *old(self),
            },
    {
        match self.get_id(key) {
            Some(id) => Some(self.remove(id)),
            None => None,
        }
    }

    /// The entry stored under `key`, with its payload open for change.
    pub fn get_by_name_mut(&mut self, key: u64) -> (r: Option<(Option<AtlasMemParam>, &mut T, u64)>)
        requires
            old(self).wf(),
        ensures
            final(self).size_spec() == old(self).size_spec(),
            final(self).pixels() == old(self).pixels(),
            final(self).modified_spec() == old(self).modified_spec(),
            final(self).wf(),
            final(self).free_ids() == old(self).free_ids(),
            match id_of_key(old(self).slots(), key) {
                Some(i) => match r {
                    Some((memp, ud, k)) => {
                        &&& k == key
                        &&& old(self).slots()[i as int] == Some(AtlasElem { memp, ud: *ud, key })
                        &&& final(self).slots() == old(self).slots().update(
                            i as int,
                            Some(AtlasElem { memp, ud: *final(ud), key }),
                        )
                    },
                    None => false,
                },
                None => r is None && final(self).slots() == old(self).slots(),
            },
    {
        match self.get_id(key) {
            Some(id) => self.get_mut(id),
            None => None,
        }
    }

    /// The `BL` values of the cell at `pos`, which must lie inside.
    pub fn pixel(&self, pos: SqPos) -> (r: Vec<P>)
        requires
            self.wf(),
            pos.x < self.size_spec().w,
            pos.y < self.size_spec().h,
        ensures
            r@ == self.pixels().subrange(
                self.offset(pos.x as int, pos.y as int),
                self.offset(pos.x as int, pos.y as int) + BL,
            ),
    {
        self.memory.get(pos)
    }

    /// Writes the `BL` values of `pixel` into the cell at `pos`, and marks
    /// the atlas as modified.
    pub fn write_pixel(&mut self, pos: SqPos, pixel: &[P])
        requires
            old(self).wf(),
            pos.x < old(self).size_spec().w,
            pos.y < old(self).size_spec().h,
            pixel@.len() == BL,
        ensures
            final(self).wf(),
            final(self).modified_spec(),
            final(self).slots() == old(self).slots(),
            final(self).free_ids() == old(self).free_ids(),
            final(self).size_spec() == old(self).size_spec(),
            final(self).pixels().len() == old(self).pixels().len(),
            forall|i: int|
                0 <= i < old(self).pixels().len() ==> #[trigger] final(self).pixels()[i]
                    == if old(self).offset(pos.x as int, pos.y as int) <= i
                    < old(self).offset(pos.x as int, pos.y as int) + BL {
                    pixel@[i - old(self).offset(pos.x as int, pos.y as int)]
                } else {
                    old(self).pixels()[i]
                },
    {
        self.memory.set(pos, pixel);
        self.modified = true;
    }

    /// The cells of `obj` in row-major order within it, each with its index
    /// `y * w + x` inside the rectangle.
    pub fn get_obj(&self, obj: &AtlasMemParam) -> (r: Vec<(usize, Vec<P>)>)
        requires
            self.wf(),
            obj.within(self.size_spec()),
        ensures
            r@.len() == obj.size.w * obj.size.h,
            forall|lx: int, ly: int|
                0 <= lx < obj.size.w && 0 <= ly < obj.size.h ==> {
                    let e = #[trigger] r@[local_index(obj.size.w, lx, ly)];
                    &&& e.0 == local_index(obj.size.w, lx, ly)
                    &&& e.1@ == self.cell(obj.pos.x + lx, obj.pos.y + ly)
                },
    {
        self.memory.get_obj(obj)
    }

    /// Fills every cell of `obj` with the values `pixels` holds for it at
    /// its index inside the rectangle, and marks the atlas as modified.
    pub fn write_obj(&mut self, obj: &AtlasMemParam, pixels: &Vec<Vec<P>>)
        requires
            old(self).wf(),
            obj.within(old(self).size_spec()),
            pixels@.len() == obj.size.w * obj.size.h,
            forall|i: int| 0 <= i < pixels@.len() ==> (#[trigger] pixels@[i])@.len() == BL,
        ensures
            final(self).wf(),
            final(self).modified_spec(),
            final(self).slots() == old(self).slots(),
            final(self).free_ids() == old(self).free_ids(),
            final(self).size_spec() == old(self).size_spec(),
            final(self).pixels().len() == old(self).pixels().len(),
            forall|x: int, y: int|
                0 <= x < old(self).size_spec().w && 0 <= y < old(self).size_spec().h
                    ==> #[trigger] final(self).cell(x, y) == if obj.covers(x, y) {
                    pixels@[local_index(obj.size.w, x - obj.pos.x, y - obj.pos.y)]@
                } else {
                    old(self).cell(x, y)
                },
    {
        self.memory.write_obj(obj, pixels);
        self.modified = true;
        proof {
            assert forall|x: int, y: int|
                0 <= x < old(self).size_spec().w && 0 <= y < old(self).size_spec().h
                    implies #[trigger] self.cell(x, y) == if obj.covers(x, y) {
                    pixels@[local_index(obj.size.w, x - obj.pos.x, y - obj.pos.y)]@
                } else {
                    old(self).cell(x, y)
                } by {
                assert(self.memory.cell(x, y) == self.cell(x, y));
                assert(old(self).memory.cell(x, y) == old(self).cell(x, y));
            }
        }
    }

    /// No two entries share a cell, and every entry lies inside the atlas.
    /// Every operation keeps the atlas well-formed, so this holds after any
    /// sequence of insertions and removals.
    pub proof fn lemma_placements_apart(&self)
        requires
            self.wf(),
        ensures
            slots_apart(self.slots()),
            slots_within(self.slots(), self.size_spec()),
    {
        self.lemma_wf_facts();
    }

    /// A lookup by key finds the one entry stored under that key.
    pub proof fn lemma_lookup_finds(&self, i: int)
        requires
            self.wf(),
            0 <= i < self.slots().len(),
            self.slots()[i] is Some,
        ensures
            id_of_key(self.slots(), self.slots()[i]->Some_0.key) == Some(i as usize),
    {
        self.elem.lemma_id_of(self.slots()[i]->Some_0.key, i);
    }

    /// An entry just inserted is found under its key, at the id the insertion
    /// returned, with the payload and placement it was given.
    pub proof fn lemma_insert_then_lookup(a: &Self, b: &Self, e: AtlasElem<T>)
        requires
            a.wf(),
            b.wf(),
            !has_key(a.slots(), e.key),
            b.slots() == a.slots_after_insert(e),
        ensures
            id_of_key(b.slots(), e.key) == Some(a.next_id() as usize),
            b.slots()[a.next_id()] == Some(e),
    {
        a.lemma_wf_facts();
        a.elem.lemma_free_slot();
        b.lemma_lookup_finds(a.next_id());
    }

    /// An entry stays found under its key, with its payload and placement,
    /// when another key is inserted.
    pub proof fn lemma_kept_by_insert(a: &Self, b: &Self, e: AtlasElem<T>, i: int)
        requires
            a.wf(),
            b.wf(),
            !has_key(a.slots(), e.key),
            b.slots() == a.slots_after_insert(e),
            0 <= i < a.slots().len(),
            a.slots()[i] is Some,
        ensures
            b.slots()[i] == a.slots()[i],
            id_of_key(b.slots(), a.slots()[i]->Some_0.key) == Some(i as usize),
    {
        a.lemma_wf_facts();
        assert(b.slots()[i] == a.slots()[i]);
        b.lemma_lookup_finds(i);
    }

    /// An entry stays found under its key, with its payload and placement,
    /// when another entry is removed.
    pub proof fn lemma_kept_by_remove(a: &Self, b: &Self, j: int, i: int)
        requires
            a.wf(),
            b.wf(),
            0 <= j < a.slots().len(),
            b.slots() == a.slots().update(j, None),
            0 <= i < a.slots().len(),
            i != j,
            a.slots()[i] is Some,
        ensures
            b.slots()[i] == a.slots()[i],
            id_of_key(b.slots(), a.slots()[i]->Some_0.key) == Some(i as usize),
    {
        b.lemma_lookup_finds(i);
    }

    /// Once the entry at `i`, placed at `m`, is removed, a rectangle no wider
    /// and no taller than `m` fits where `m` was: inserting it cannot run
    /// out of space.
    pub proof fn lemma_reuse_after_remove(a: &Self, b: &Self, i: int, size: SqSize)
        requires
            a.wf(),
            0 <= i < a.slots().len(),
            placement(a.slots()[i]) is Some,
            b.rects() == a.rects().remove(placement(a.slots()[i])->Some_0),
            b.size_spec() == a.size_spec(),
            size.wf(),
            size.w <= placement(a.slots()[i])->Some_0.size.w,
            size.h <= placement(a.slots()[i])->Some_0.size.h,
        ensures
            has_room(b.rects(), b.size_spec(), size),
            fits(
                b.rects(),
                b.size_spec(),
                crate::bl::rect_at(
                    placement(a.slots()[i])->Some_0.pos.x,
                    placement(a.slots()[i])->Some_0.pos.y,
                    size,
                ),
            ),
    {
        a.lemma_wf_facts();
        let m = placement(a.slots()[i])->Some_0;
        let n = crate::bl::rect_at(m.pos.x, m.pos.y, size);
        assert forall|r: AtlasMemParam| #[trigger] b.rects().contains(r) implies !r.overlaps(n) by {
            let j = choose|j: int| 0 <= j < a.slots().len() && #[trigger] placement(a.slots()[j]) == Some(r);
            assert(r != m);
            assert(j != i);
            assert(!r.overlaps(m));
        }
        assert(fits(b.rects(), b.size_spec(), n));
    }

    /// An entry inserted without a size holds no placement and takes no
    /// space: the placements are as before, so every later question of room
    /// and of Bottom-Left spot has the same answer as without it.
    pub proof fn lemma_zero_footprint(a: &Self, b: &Self, e: AtlasElem<T>)
        requires
            a.wf(),
            e.memp is None,
            b.slots() == a.slots_after_insert(e),
            b.size_spec() == a.size_spec(),
        ensures
            b.rects() == a.rects(),
            placement(b.slots()[a.next_id()]) is None,
            forall|s: SqSize| #[trigger] has_room(b.rects(), b.size_spec(), s) == has_room(a.rects(), a.size_spec(), s),
            forall|m: AtlasMemParam| #[trigger] is_bl_spot(b.rects(), b.size_spec(), m) == is_bl_spot(
                a.rects(),
                a.size_spec(),
                m,
            ),
    {
        a.lemma_wf_facts();
        if a.free_ids().len() > 0 {
            lemma_live_fill(a.slots(), a.next_id(), e);
        } else {
            lemma_live_push(a.slots(), e);
        }
    }

    /// In an atlas with no room left for a single cell, removing an entry of
    /// one cell leaves exactly that cell free: the next one-cell insertion
    /// lands there, and after it the atlas is full again.
    pub proof fn lemma_refill_after_exhaustion(a: &Self, b: &Self, i: int)
        requires
            a.wf(),
            0 <= i < a.slots().len(),
            placement(a.slots()[i]) matches Some(m) && m.size == (SqSize { w: 1, h: 1 }),
            !has_room(a.rects(), a.size_spec(), SqSize { w: 1, h: 1 }),
            b.rects() == a.rects().remove(placement(a.slots()[i])->Some_0),
            b.size_spec() == a.size_spec(),
        ensures
            is_bl_spot(b.rects(), b.size_spec(), placement(a.slots()[i])->Some_0),
            forall|x: u32, y: u32|
                #[trigger] fits(b.rects(), b.size_spec(), crate::bl::rect_at(x, y, SqSize { w: 1, h: 1 }))
                    ==> x == placement(a.slots()[i])->Some_0.pos.x && y == placement(
                    a.slots()[i],
                )->Some_0.pos.y,
            b.rects().insert(placement(a.slots()[i])->Some_0) == a.rects(),
            !has_room(b.rects().insert(placement(a.slots()[i])->Some_0), b.size_spec(), SqSize { w: 1, h: 1 }),
    {
        let unit = SqSize { w: 1, h: 1 };
        let m = placement(a.slots()[i])->Some_0;
        Self::lemma_reuse_after_remove(a, b, i, unit);
        assert(crate::bl::rect_at(m.pos.x, m.pos.y, unit) == m);
        assert(a.rects().contains(m));
        assert(b.rects().insert(m) =~= a.rects());
        assert forall|x: u32, y: u32|
            #[trigger] fits(b.rects(), b.size_spec(), crate::bl::rect_at(x, y, unit)) implies x == m.pos.x
            && y == m.pos.y by {
            let n = crate::bl::rect_at(x, y, unit);
            if !(x == m.pos.x && y == m.pos.y) {
                assert(!fits(a.rects(), a.size_spec(), n));
                let r = choose|r: AtlasMemParam| #[trigger] a.rects().contains(r) && r.overlaps(n);
                if r == m {
                } else {
                    assert(b.rects().contains(r));
                }
            }
        }
    }
}

} // verus!
