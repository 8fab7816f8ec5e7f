use vstd::prelude::*;
use crate::types::{SqPos, SqSize};

verus! {

/// The rectangle that one atlas entry occupies, in atlas pixels.
#[derive(Debug, Clone, Copy, PartialEq, Eq, Structural)]
pub struct AtlasMemParam {
    pub pos: SqPos,
    pub size: SqSize,
}

impl AtlasMemParam {
    /// The cell `(x, y)` lies inside the rectangle.
    pub open spec fn covers(self, x: int, y: int) -> bool {
        &&& self.pos.x <= x < self.pos.x + self.size.w
        &&& self.pos.y <= y < self.pos.y + self.size.h
    }

    /// The row just above the rectangle: where an object stacked on it would sit.
    pub open spec fn top(self) -> int {
        self.pos.y + self.size.h
    }

    /// The two rectangles share at least one cell.
    pub open spec fn overlaps(self, o: AtlasMemParam) -> bool {
        &&& self.pos.x < o.pos.x + o.size.w
        &&& o.pos.x < self.pos.x + self.size.w
        &&& self.pos.y < o.pos.y + o.size.h
        &&& o.pos.y < self.pos.y + self.size.h
    }

    /// The rectangle is non-empty and lies inside a grid of the given size.
    pub open spec fn within(self, area: SqSize) -> bool {
        &&& self.size.wf()
        &&& self.pos.x + self.size.w <= area.w
        &&& self.pos.y + self.size.h <= area.h
    }
}

/// One entry of the slot table: its placement (none for an entry without
/// a visual footprint), the caller's payload, and its key.
pub struct AtlasElem<T> {
    pub memp: Option<AtlasMemParam>,
    pub ud: T,
    pub key: u64,
}

/// The slot holds an entry under key `k`.
pub open spec fn slot_has_key<T>(s: Option<AtlasElem<T>>, k: u64) -> bool {
    s matches Some(e) && e.key == k
}

/// Some slot holds an entry under key `k`.
pub open spec fn has_key<T>(slots: Seq<Option<AtlasElem<T>>>, k: u64) -> bool {
    exists|i: int| 0 <= i < slots.len() && slot_has_key(#[trigger] slots[i], k)
}

/// The id under which key `k` is stored, if any.
pub open spec fn id_of_key<T>(slots: Seq<Option<AtlasElem<T>>>, k: u64) -> Option<usize> {
    if has_key(slots, k) {
        Some(choose|i: usize| i < slots.len() && slot_has_key(slots[i as int], k))
    } else {
        None
    }
}

} // verus!
