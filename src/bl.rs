//! Bottom-Left placement: a rectangle goes to the lowest row, then the
//! leftmost column, where it touches no placed rectangle.
use vstd::prelude::*;
use std::collections::BTreeMap;
use crate::elem::AtlasMemParam;
use crate::types::{SqPos, SqSize};

verus! {

broadcast use vstd::std_specs::btree::group_btree_axioms;

/// Why an insertion failed.
#[derive(Debug, Clone, Copy, PartialEq, Eq, Structural)]
pub enum BLInsertError {
    /// The key is already present.
    KeyDuplicate,
    /// No free spot is large enough at the moment.
    InsNotEnoughSpace,
    /// The rectangle is wider or taller than the atlas itself.
    InsDataIsTooLarge,
}

/// Why a removal failed.
#[derive(Debug, Clone, Copy, PartialEq, Eq, Structural)]
pub enum BLRemoveError {
    /// No entry stands under that id.
    EntryNotExist,
}

/// A rectangle of the given size whose lower-left corner is `(x, y)`.
pub open spec fn rect_at(x: u32, y: u32, size: SqSize) -> AtlasMemParam {
    AtlasMemParam { pos: SqPos { x, y }, size }
}

/// Some rectangle of `rs` covers the cell `(x, y)`.
pub open spec fn cell_taken(rs: Set<AtlasMemParam>, x: int, y: int) -> bool {
    exists|r: AtlasMemParam| #[trigger] rs.contains(r) && r.covers(x, y)
}

/// `m` lies inside the atlas and shares no cell with any rectangle of `rs`.
pub open spec fn fits(rs: Set<AtlasMemParam>, area: SqSize, m: AtlasMemParam) -> bool {
    &&& m.within(area)
    &&& forall|r: AtlasMemParam| #[trigger] rs.contains(r) ==> !r.overlaps(m)
}

/// `a` comes before `b` in Bottom-Left order: lower, or as low and further left.
pub open spec fn bl_before(a: SqPos, b: SqPos) -> bool {
    a.y < b.y || (a.y == b.y && a.x < b.x)
}

/// `m` fits, and no spot before it in Bottom-Left order fits a rectangle of
/// its size.
pub open spec fn is_bl_spot(rs: Set<AtlasMemParam>, area: SqSize, m: AtlasMemParam) -> bool {
    &&& fits(rs, area, m)
    &&& forall|x: u32, y: u32|
        bl_before(SqPos { x, y }, m.pos) ==> !#[trigger] fits(rs, area, rect_at(x, y, m.size))
}

/// Somewhere in the atlas a rectangle of this size fits.
pub open spec fn has_room(rs: Set<AtlasMemParam>, area: SqSize, size: SqSize) -> bool {
    exists|x: u32, y: u32| #[trigger] fits(rs, area, rect_at(x, y, size))
}

/// No two distinct rectangles of `rs` share a cell.
pub open spec fn pairwise_disjoint(rs: Set<AtlasMemParam>) -> bool {
    forall|a: AtlasMemParam, b: AtlasMemParam|
        #[trigger] rs.contains(a) && #[trigger] rs.contains(b) && a != b ==> !a.overlaps(b)
}

/// A rectangle `w` wide at column `x` shares columns with the span.
pub open spec fn in_window(span: (u32, u32), x: u32, w: u32) -> bool {
    span.0 < x + w && x < span.0 + span.1
}

/// The entries of a baseline row are in increasing order of their start column.
pub open spec fn row_sorted(v: Seq<(u32, u32)>) -> bool {
    forall|i: int, j: int| 0 <= i < j < v.len() ==> (#[trigger] v[i]).0 <= (#[trigger] v[j]).0
}

proof fn lemma_cell_index(w: int, h: int, x: int, y: int)
    requires
        0 <= x < w,
        0 <= y < h,
    ensures
        0 <= y * w + x < w * h,
{
    assert(0 <= y * w + x < w * h) by (nonlinear_arith)
        requires
            0 <= x < w,
            0 <= y < h,
    ;
}

proof fn lemma_cell_index_inj(w: int, x1: int, y1: int, x2: int, y2: int)
    requires
        0 <= x1 < w,
        0 <= x2 < w,
        0 <= y1,
        0 <= y2,
        y1 * w + x1 == y2 * w + x2,
    ensures
        x1 == x2,
        y1 == y2,
{
    if y1 < y2 {
        assert(y1 * w + x1 < y2 * w + x2) by (nonlinear_arith)
            requires
                0 <= x1 < w,
                0 <= x2,
                y1 < y2,
        ;
    } else if y2 < y1 {
        assert(y2 * w + x2 < y1 * w + x1) by (nonlinear_arith)
            requires
                0 <= x2 < w,
                0 <= x1,
                y2 < y1,
        ;
    }
}

/// A taken cell inside `m` keeps `m` from fitting.
proof fn lemma_taken_blocks(rs: Set<AtlasMemParam>, area: SqSize, m: AtlasMemParam, x: int, y: int)
    requires
        cell_taken(rs, x, y),
        m.covers(x, y),
    ensures
        !fits(rs, area, m),
{
    let r = choose|r: AtlasMemParam| #[trigger] rs.contains(r) && r.covers(x, y);
    assert(r.overlaps(m));
}

/// A rectangle inside the atlas whose cells are all free fits.
proof fn lemma_free_fits(rs: Set<AtlasMemParam>, area: SqSize, m: AtlasMemParam)
    requires
        m.within(area),
        forall|r: AtlasMemParam| #[trigger] rs.contains(r) ==> r.size.wf(),
        forall|x: int, y: int| #[trigger] m.covers(x, y) ==> !cell_taken(rs, x, y),
    ensures
        fits(rs, area, m),
{
    assert forall|r: AtlasMemParam| #[trigger] rs.contains(r) implies !r.overlaps(m) by {
        if r.overlaps(m) {
            let x = if r.pos.x > m.pos.x { r.pos.x as int } else { m.pos.x as int };
            let y = if r.pos.y > m.pos.y { r.pos.y as int } else { m.pos.y as int };
            assert(r.covers(x, y));
            assert(m.covers(x, y));
        }
    }
}

/// The (start column, width) span that `r` leaves on the row above it.
pub open spec fn span_of(r: AtlasMemParam) -> (u32, u32) {
    (r.pos.x, r.size.w)
}

spec fn flag_at(flags: Seq<u8>, w: u32, x: int, y: int) -> u8 {
    flags[y * w + x]
}

/// The mask has a cell per atlas cell, non-zero exactly where `rs` covers it.
spec fn flags_ok(flags: Seq<u8>, area: SqSize, rs: Set<AtlasMemParam>) -> bool {
    &&& flags.len() == area.w * area.h
    &&& forall|x: int, y: int|
        0 <= x < area.w && 0 <= y < area.h ==> #[trigger] cell_taken(rs, x, y) == (flag_at(
            flags,
            area.w,
            x,
            y,
        ) != 0)
}

/// The rectangles are non-empty, inside the atlas, and apart.
spec fn rects_ok(rs: Set<AtlasMemParam>, area: SqSize) -> bool {
    &&& forall|r: AtlasMemParam| #[trigger] rs.contains(r) ==> r.within(area)
    &&& pairwise_disjoint(rs)
}

/// Row 0 is a baseline; the row above each rectangle is a baseline listing
/// its span; each listed span belongs to a rectangle ending below that row;
/// each row's list is sorted and free of repeats.
spec fn rows_ok(rows: Map<u32, Vec<(u32, u32)>>, rs: Set<AtlasMemParam>) -> bool {
    &&& rows.contains_key(0)
    &&& forall|r: AtlasMemParam| #[trigger]
        rs.contains(r) ==> {
            &&& rows.contains_key(r.top() as u32)
            &&& rows[r.top() as u32]@.contains(span_of(r))
        }
    &&& forall|k: u32, e: (u32, u32)|
        rows.contains_key(k) && #[trigger] rows[k]@.contains(e) ==> exists|r: AtlasMemParam|
            #[trigger] rs.contains(r) && r.top() == k && span_of(r) == e
    &&& forall|k: u32| #[trigger]
        rows.contains_key(k) ==> rows[k]@.no_duplicates() && row_sorted(rows[k]@)
}


/// Inserting `e` at the first position whose start column exceeds its own
/// keeps a sorted, repeat-free row so.
proof fn lemma_row_insert(ov: Seq<(u32, u32)>, i: int, e: (u32, u32))
    requires
        0 <= i <= ov.len(),
        ov.no_duplicates(),
        row_sorted(ov),
        !ov.contains(e),
        forall|j: int| 0 <= j < i ==> (#[trigger] ov[j]).0 <= e.0,
        i < ov.len() ==> ov[i].0 > e.0,
    ensures
        ov.insert(i, e).no_duplicates(),
        row_sorted(ov.insert(i, e)),
        ov.insert(i, e).contains(e),
        forall|a: (u32, u32)| #[trigger] ov.insert(i, e).contains(a) <==> (a == e || ov.contains(a)),
{
    let nv = ov.insert(i, e);
    assert(nv[i] == e);
    assert forall|a: int, b: int| 0 <= a < nv.len() && 0 <= b < nv.len() && a != b implies nv[a]
        != nv[b] by {
        if a != i {
            let a0 = if a < i { a } else { a - 1 };
            assert(nv[a] == ov[a0]);
        }
        if b != i {
            let b0 = if b < i { b } else { b - 1 };
            assert(nv[b] == ov[b0]);
        }
    }
    assert forall|a: int, b: int| 0 <= a < b < nv.len() implies (#[trigger] nv[a]).0 <= (
    #[trigger] nv[b]).0 by {
        if a != i {
            let a0 = if a < i { a } else { a - 1 };
            assert(nv[a] == ov[a0]);
        }
        if b != i {
            let b0 = if b < i { b } else { b - 1 };
            assert(nv[b] == ov[b0]);
        }
        if b > i && a == i {
            assert(ov[i].0 <= ov[b - 1].0);
        }
    }
    assert forall|a: (u32, u32)| #[trigger] nv.contains(a) <==> (a == e || ov.contains(a)) by {
        if nv.contains(a) {
            let j = choose|j: int| 0 <= j < nv.len() && nv[j] == a;
            if j != i {
                let j0 = if j < i { j } else { j - 1 };
                assert(nv[j] == ov[j0]);
            }
        }
        if ov.contains(a) {
            let j = choose|j: int| 0 <= j < ov.len() && ov[j] == a;
            if j < i {
                assert(nv[j] == ov[j]);
            } else {
                assert(nv[j + 1] == ov[j]);
            }
        }
    }
}

/// Taking one entry out of a sorted, repeat-free row keeps it so, and
/// removes that entry only.
proof fn lemma_row_remove(ov: Seq<(u32, u32)>, i: int)
    requires
        0 <= i < ov.len(),
        ov.no_duplicates(),
        row_sorted(ov),
    ensures
        ov.remove(i).no_duplicates(),
        row_sorted(ov.remove(i)),
        forall|a: (u32, u32)| #[trigger] ov.remove(i).contains(a) <==> (a != ov[i] && ov.contains(a)),
{
    let nv = ov.remove(i);
    assert forall|a: int| 0 <= a < nv.len() implies #[trigger] nv[a] == ov[if a < i { a } else { a + 1 }] by {
    }
    assert forall|a: int, b: int| 0 <= a < nv.len() && 0 <= b < nv.len() && a != b implies nv[a]
        != nv[b] by {
        assert(nv[a] == ov[if a < i { a } else { a + 1 }]);
        assert(nv[b] == ov[if b < i { b } else { b + 1 }]);
    }
    assert forall|a: int, b: int| 0 <= a < b < nv.len() implies (#[trigger] nv[a]).0 <= (
    #[trigger] nv[b]).0 by {
        assert(nv[a] == ov[if a < i { a } else { a + 1 }]);
        assert(nv[b] == ov[if b < i { b } else { b + 1 }]);
    }
    assert forall|a: (u32, u32)| #[trigger] nv.contains(a) <==> (a != ov[i] && ov.contains(a)) by {
        if nv.contains(a) {
            let j = choose|j: int| 0 <= j < nv.len() && nv[j] == a;
            assert(nv[j] == ov[if j < i { j } else { j + 1 }]);
        }
        if a != ov[i] && ov.contains(a) {
            let j = choose|j: int| 0 <= j < ov.len() && ov[j] == a;
            if j < i {
                assert(nv[j] == ov[j]);
            } else {
                assert(nv[j - 1] == ov[j]);
            }
        }
    }
}

/// Two distinct rectangles of `rs` never leave the same span on the same row.
proof fn lemma_span_unique(rs: Set<AtlasMemParam>, area: SqSize, a: AtlasMemParam, b: AtlasMemParam)
    requires
        rects_ok(rs, area),
        rs.contains(a),
        rs.contains(b),
        a.top() == b.top(),
        span_of(a) == span_of(b),
    ensures
        a == b,
{
    assert(a.within(area));
    assert(b.within(area));
    if a != b {
        assert(a.overlaps(b));
    }
}

/// Sets every cell of `m` to a non-zero mark (`mark`) or to zero (`!mark`);
/// other cells keep their value.
fn fill_cells(flags: &mut Vec<u8>, area: SqSize, m: AtlasMemParam, mark: bool)
    requires
        old(flags)@.len() == area.w * area.h,
        area.wf(),
        area.w * area.h <= usize::MAX,
        m.within(area),
    ensures
        final(flags)@.len() == area.w * area.h,
        forall|x: int, y: int|
            0 <= x < area.w && 0 <= y < area.h ==> if m.covers(x, y) {
                (#[trigger] flag_at(final(flags)@, area.w, x, y) != 0) == mark
            } else {
                flag_at(final(flags)@, area.w, x, y) == flag_at(old(flags)@, area.w, x, y)
            },
{
    let ghost old_flags = flags@;
    let w = area.w;
    let mut ry: u32 = 0;
    while ry < m.size.h
        invariant
            w == area.w,
            area.wf(),
            area.w * area.h <= usize::MAX,
            m.within(area),
            old_flags.len() == area.w * area.h,
            ry <= m.size.h,
            flags@.len() == area.w * area.h,
            forall|x: int, y: int|
                0 <= x < area.w && 0 <= y < area.h ==> if m.covers(x, y) && y < m.pos.y + ry {
                    (#[trigger] flag_at(flags@, area.w, x, y) != 0) == mark
                } else {
                    flag_at(flags@, area.w, x, y) == flag_at(old_flags, area.w, x, y)
                },
        decreases m.size.h - ry,
    {
        let y: u32 = m.pos.y + ry;
        let mut cx: u32 = 0;
        while cx < m.size.w
            invariant
                w == area.w,
                area.wf(),
                area.w * area.h <= usize::MAX,
                m.within(area),
                old_flags.len() == area.w * area.h,
                ry < m.size.h,
                y == m.pos.y + ry,
                cx <= m.size.w,
                flags@.len() == area.w * area.h,
                forall|x: int, yy: int|
                    0 <= x < area.w && 0 <= yy < area.h ==> if m.covers(x, yy) && (yy < y || (yy == y
                        && x < m.pos.x + cx)) {
                        (#[trigger] flag_at(flags@, area.w, x, yy) != 0) == mark
                    } else {
                        flag_at(flags@, area.w, x, yy) == flag_at(old_flags, area.w, x, yy)
                    },
            decreases m.size.w - cx,
        {
            let x: u32 = m.pos.x + cx;
            proof {
                lemma_cell_index(area.w as int, area.h as int, x as int, y as int);
            }
            let i = y as usize * w as usize + x as usize;
            let v: u8 = if !mark {
                0
            } else if cx < 255 {
                (cx + 1) as u8
            } else {
                255
            };
            let ghost before = flags@;
            flags.set(i, v);
            proof {
                assert forall|x2: int, y2: int|
                    0 <= x2 < area.w && 0 <= y2 < area.h implies if m.covers(x2, y2) && (y2 < y || (y2
                        == y && x2 < m.pos.x + cx + 1)) {
                        (#[trigger] flag_at(flags@, area.w, x2, y2) != 0) == mark
                    } else {
                        flag_at(flags@, area.w, x2, y2) == flag_at(old_flags, area.w, x2, y2)
                    } by {
                    lemma_cell_index(area.w as int, area.h as int, x2, y2);
                    assert(flag_at(before, area.w, x2, y2) == before[y2 * area.w + x2]);
                    if y2 * area.w + x2 == i {
                        lemma_cell_index_inj(area.w as int, x2, y2, x as int, y as int);
                    } else {
                        assert(flags@[y2 * area.w + x2] == before[y2 * area.w + x2]);
                    }
                }
            }
            cx = cx + 1;
        }
        ry = ry + 1;
    }
}

/// Lists the span of a newly placed `m` on the row just above it.
fn add_span(
    rows: &mut BTreeMap<u32, Vec<(u32, u32)>>,
    Ghost(rs): Ghost<Set<AtlasMemParam>>,
    area: SqSize,
    m: AtlasMemParam,
)
    requires
        rows_ok(old(rows)@, rs),
        rects_ok(rs, area),
        fits(rs, area, m),
    ensures
        rows_ok(final(rows)@, rs.insert(m)),
{
    let ghost rs2 = rs.insert(m);
    let ghost old_rows = rows@;
    let top: u32 = m.pos.y + m.size.h;
    let entry: (u32, u32) = (m.pos.x, m.size.w);
    let mut v = match rows.remove(&top) {
        Some(v) => v,
        None => Vec::new(),
    };
    let ghost ov = v@;
    assert(old_rows.contains_key(top) ==> ov == old_rows[top]@);
    assert(!old_rows.contains_key(top) ==> ov.len() == 0);
    assert(ov.no_duplicates() && row_sorted(ov));
    assert(!ov.contains(entry)) by {
        if ov.contains(entry) {
            assert(old_rows[top]@.contains(entry));
            let r = choose|r: AtlasMemParam| #[trigger] rs.contains(r) && r.top() == top && span_of(r) == entry;
            assert(r.within(area));
            assert(r.overlaps(m));
        }
    }
    let mut i: usize = 0;
    while i < v.len() && v[i].0 <= m.pos.x
        invariant
            v@ == ov,
            i <= v@.len(),
            forall|j: int| 0 <= j < i ==> (#[trigger] v@[j]).0 <= m.pos.x,
        decreases v@.len() - i,
    {
        i = i + 1;
    }
    proof {
        lemma_row_insert(ov, i as int, entry);
    }
    v.insert(i, entry);
    rows.insert(top, v);
    proof {
        let nrows = rows@;
        assert(nrows[top]@ == ov.insert(i as int, entry));
        assert forall|r: AtlasMemParam| #[trigger] rs2.contains(r) implies {
            &&& nrows.contains_key(r.top() as u32)
            &&& nrows[r.top() as u32]@.contains(span_of(r))
        } by {
            if r != m && r.top() != top {
                assert(rs.contains(r));
                assert(nrows[r.top() as u32] == old_rows[r.top() as u32]);
            } else if r != m {
                assert(rs.contains(r));
            }
        }
        assert forall|k: u32, e: (u32, u32)|
            nrows.contains_key(k) && #[trigger] nrows[k]@.contains(e) implies exists|r: AtlasMemParam|
            #[trigger] rs2.contains(r) && r.top() == k && span_of(r) == e by {
            if k == top {
                if e == entry {
                    assert(rs2.contains(m));
                } else {
                    assert(old_rows[k]@.contains(e));
                    let r = choose|r: AtlasMemParam| #[trigger] rs.contains(r) && r.top() == k && span_of(r) == e;
                    assert(rs2.contains(r));
                }
            } else {
                assert(nrows[k] == old_rows[k]);
                let r = choose|r: AtlasMemParam| #[trigger] rs.contains(r) && r.top() == k && span_of(r) == e;
                assert(rs2.contains(r));
            }
        }
        assert forall|k: u32| #[trigger] nrows.contains_key(k) implies nrows[k]@.no_duplicates()
            && row_sorted(nrows[k]@) by {
            if k != top {
                assert(nrows[k] == old_rows[k]);
            }
        }
    }
}

/// Takes the span of the removed `m` off the row just above it, and drops
/// the row once nothing ends there.
fn remove_span(
    rows: &mut BTreeMap<u32, Vec<(u32, u32)>>,
    Ghost(rs): Ghost<Set<AtlasMemParam>>,
    area: SqSize,
    m: AtlasMemParam,
)
    requires
        rows_ok(old(rows)@, rs),
        rects_ok(rs, area),
        rs.contains(m),
    ensures
        rows_ok(final(rows)@, rs.remove(m)),
{
    let ghost rs2 = rs.remove(m);
    let ghost old_rows = rows@;
    let top: u32 = m.pos.y + m.size.h;
    let entry: (u32, u32) = (m.pos.x, m.size.w);
    assert(m.within(area));
    assert(old_rows.contains_key(top));
    let mut v = match rows.remove(&top) {
        Some(v) => v,
        None => Vec::new(),
    };
    let ghost ov = v@;
    assert(ov == old_rows[top]@);
    assert(ov.contains(entry));
    let n = v.len();
    let mut i: usize = 0;
    while !(v[i].0 == entry.0 && v[i].1 == entry.1)
        invariant
            v@ == ov,
            n == ov.len(),
            ov.contains(entry),
            i < v@.len(),
            forall|j: int| 0 <= j < i ==> v@[j] != entry,
        decreases v@.len() - i,
    {
        proof {
            let j = choose|j: int| 0 <= j < ov.len() && ov[j] == entry;
            assert(j > i);
        }
        i = i + 1;
    }
    proof {
        lemma_row_remove(ov, i as int);
    }
    v.remove(i);
    let ghost nv = v@;
    let keep = v.len() > 0;
    if keep {
        rows.insert(top, v);
    }
    proof {
        let nrows = rows@;
        assert(top != 0);
        assert forall|r: AtlasMemParam| #[trigger] rs2.contains(r) implies {
            &&& nrows.contains_key(r.top() as u32)
            &&& nrows[r.top() as u32]@.contains(span_of(r))
        } by {
            assert(rs.contains(r));
            if r.top() != top {
                assert(nrows[r.top() as u32] == old_rows[r.top() as u32]);
            } else {
                if span_of(r) == entry {
                    lemma_span_unique(rs, area, r, m);
                }
                assert(nv.contains(span_of(r)));
            }
        }
        assert forall|k: u32, e: (u32, u32)|
            nrows.contains_key(k) && #[trigger] nrows[k]@.contains(e) implies exists|r: AtlasMemParam|
            #[trigger] rs2.contains(r) && r.top() == k && span_of(r) == e by {
            if k != top {
                assert(nrows[k] == old_rows[k]);
            } else {
                assert(nrows[k]@ == nv);
            }
            assert(old_rows[k]@.contains(e));
            let r = choose|r: AtlasMemParam| #[trigger] rs.contains(r) && r.top() == k && span_of(r) == e;
            assert(r != m);
            assert(rs2.contains(r));
        }
        assert forall|k: u32| #[trigger] nrows.contains_key(k) implies nrows[k]@.no_duplicates()
            && row_sorted(nrows[k]@) by {
            if k != top {
                assert(nrows[k] == old_rows[k]);
            }
        }
    }
}

/// Bottom-Left placement controller: an occupancy mask over the atlas cells
/// and, for each row where some rectangle ends, the spans that end there.
pub struct BLInserter {
    /// Per cell: zero when free, else the cell's column within its
    /// rectangle plus one, saturated.
    unuse_flag: Vec<u8>,
    /// Row just above some placed rectangle -> the (start column, width) of
    /// each rectangle ending below it, sorted by start column. Row 0 is
    /// always present.
    base_line: BTreeMap<u32, Vec<(u32, u32)>>,
    rects: Ghost<Set<AtlasMemParam>>,
}

/// Builds a [`BLInserter`] for an atlas of a given size.
pub struct BLInserterInitializer;

impl BLInserter {
    /// The rectangles currently placed.
    pub closed spec fn rects(&self) -> Set<AtlasMemParam> {
        self.rects@
    }

    pub closed spec fn inv(&self, area: SqSize) -> bool {
        &&& area.wf()
        &&& area.w * area.h <= usize::MAX
        &&& flags_ok(self.unuse_flag@, area, self.rects@)
        &&& rects_ok(self.rects@, area)
        &&& rows_ok(self.base_line@, self.rects@)
    }

    /// Placed rectangles stay inside the atlas and apart from one another.
    pub proof fn lemma_rects_apart(&self, area: SqSize)
        requires
            self.inv(area),
        ensures
            pairwise_disjoint(self.rects()),
            forall|r: AtlasMemParam| #[trigger] self.rects().contains(r) ==> r.within(area),
    {
    }

    /// A spot that fits can slide down, column fixed, to a row where
    /// something ends (or to row 0) and still fit.
    proof fn lemma_slide_down(&self, area: SqSize, size: SqSize, x: u32, y: u32)
        requires
            self.inv(area),
            fits(self.rects(), area, rect_at(x, y, size)),
        ensures
            exists|y2: u32|
                y2 <= y && self.base_line@.contains_key(y2) && #[trigger] fits(
                    self.rects(),
                    area,
                    rect_at(x, y2, size),
                ),
        decreases y,
    {
        let rs = self.rects();
        if self.base_line@.contains_key(y) {
            assert(fits(rs, area, rect_at(x, y, size)));
        } else {
            let y1 = (y - 1) as u32;
            let m = rect_at(x, y1, size);
            assert forall|r: AtlasMemParam| #[trigger] rs.contains(r) implies !r.overlaps(m) by {
                if r.overlaps(m) {
                    assert(!r.overlaps(rect_at(x, y, size)));
                    assert(r.top() == y);
                    assert(r.within(area));
                }
            }
            self.lemma_slide_down(area, size, x, y1);
        }
    }

    /// Column of a taken cell inside the rectangle of `size` at `(x, y)`,
    /// looking from the top row down and from the right edge leftwards;
    /// `None` when every cell is free.
    fn find_blocker(&self, area: SqSize, size: SqSize, x: u32, y: u32) -> (r: Option<u32>)
        requires
            self.inv(area),
            rect_at(x, y, size).within(area),
        ensures
            match r {
                Some(c) => x <= c < x + size.w && exists|row: int|
                    y <= row < y + size.h && #[trigger] cell_taken(self.rects(), c as int, row),
                None => fits(self.rects(), area, rect_at(x, y, size)),
            },
    {
        let ghost rs = self.rects();
        let ghost m = rect_at(x, y, size);
        let w = area.w;
        let mut row: u32 = y + size.h;
        while row > y
            invariant
                self.inv(area),
                rs == self.rects(),
                m == rect_at(x, y, size),
                w == area.w,
                m.within(area),
                y <= row <= y + size.h,
                forall|cx: int, cy: int|
                    #[trigger] m.covers(cx, cy) && cy >= row ==> !cell_taken(rs, cx, cy),
            decreases row - y,
        {
            row = row - 1;
            let mut col: u32 = x + size.w;
            while col > x
                invariant
                    self.inv(area),
                    rs == self.rects(),
                    m == rect_at(x, y, size),
                    w == area.w,
                    m.within(area),
                    y <= row < y + size.h,
                    x <= col <= x + size.w,
                    forall|cx: int, cy: int|
                        #[trigger] m.covers(cx, cy) && (cy > row || (cy == row && cx >= col))
                            ==> !cell_taken(rs, cx, cy),
                decreases col - x,
            {
                col = col - 1;
                proof {
                    lemma_cell_index(area.w as int, area.h as int, col as int, row as int);
                }
                let i = row as usize * w as usize + col as usize;
                assert(flag_at(self.unuse_flag@, area.w, col as int, row as int) == self.unuse_flag@[i as int]);
                if self.unuse_flag[i] != 0 {
                    assert(cell_taken(rs, col as int, row as int));
                    assert(y <= row < y + size.h && cell_taken(self.rects(), col as int, row as int));
                    assert(x <= col < x + size.w);
                    assert(exists|row2: int| y <= row2 < y + size.h && #[trigger] cell_taken(self.rects(), col as int, row2));
                    return Some(col);
                }
                assert(!cell_taken(rs, col as int, row as int));
            }
        }
        proof {
            lemma_free_fits(rs, area, m);
        }
        None
    }

    /// Leftmost column in `[x_from, x_to)` where a rectangle of `size` fits
    /// with its bottom on row `y`; `Err` with `x_to` when there is none. A
    /// taken cell found inside a candidate moves the next candidate just
    /// past it.
    pub fn seek_object(&self, area: SqSize, size: SqSize, y: u32, x_from: u32, x_to: u32) -> (r: Result<
        u32,
        u32,
    >)
        requires
            self.inv(area),
            size.wf(),
            y + size.h <= area.h,
        ensures
            match r {
                Ok(x) => {
                    &&& x_from <= x < x_to
                    &&& fits(self.rects(), area, rect_at(x, y, size))
                    &&& forall|x2: u32|
                        x_from <= x2 < x ==> !#[trigger] fits(self.rects(), area, rect_at(x2, y, size))
                },
                Err(t) => t == x_to && forall|x2: u32|
                    x_from <= x2 < x_to ==> !#[trigger] fits(self.rects(), area, rect_at(x2, y, size)),
            },
    {
        let ghost rs = self.rects();
        let mut x = x_from;
        while x < x_to && x <= area.w && size.w <= area.w - x
            invariant
                self.inv(area),
                rs == self.rects(),
                size.wf(),
                y + size.h <= area.h,
                x_from <= x,
                forall|x2: u32| x_from <= x2 < x ==> !#[trigger] fits(rs, area, rect_at(x2, y, size)),
            decreases area.w - x,
        {
            match self.find_blocker(area, size, x, y) {
                None => {
                    return Ok(x);
                },
                Some(c) => {
                    proof {
                        let row = choose|row: int|
                            y <= row < y + size.h && #[trigger] cell_taken(rs, c as int, row);
                        assert forall|x2: u32| x_from <= x2 < c + 1 implies !#[trigger] fits(
                            rs,
                            area,
                            rect_at(x2, y, size),
                        ) by {
                            if x2 >= x {
                                lemma_taken_blocks(rs, area, rect_at(x2, y, size), c as int, row);
                            }
                        }
                    }
                    x = c + 1;
                },
            }
        }
        Err(x_to)
    }

    /// On the lowest row where anything fits, a fitting spot rests on some
    /// rectangle ending just below it: its columns overlap that
    /// rectangle's span.
    proof fn lemma_supported(&self, area: SqSize, size: SqSize, x: u32, y: u32)
        requires
            self.inv(area),
            y > 0,
            fits(self.rects(), area, rect_at(x, y, size)),
            !fits(self.rects(), area, rect_at(x, (y - 1) as u32, size)),
        ensures
            exists|r: AtlasMemParam|
                #[trigger] self.rects().contains(r) && r.top() == y && in_window(span_of(r), x, size.w),
    {
        let rs = self.rects();
        let m = rect_at(x, (y - 1) as u32, size);
        let r = choose|r: AtlasMemParam| #[trigger] rs.contains(r) && r.overlaps(m);
        assert(!r.overlaps(rect_at(x, y, size)));
        assert(r.within(area));
        assert(r.top() == y);
        assert(in_window(span_of(r), x, size.w));
    }

    /// When nothing fits below row `y` and nothing fits over any span ending
    /// at `y`, nothing fits on row `y` at all.
    proof fn lemma_row_empty(&self, area: SqSize, size: SqSize, y: u32)
        requires
            self.inv(area),
            y > 0,
            self.base_line@.contains_key(y),
            forall|x2: u32, y2: u32| y2 < y ==> !#[trigger] fits(self.rects(), area, rect_at(x2, y2, size)),
            forall|x2: u32, k: int|
                0 <= k < self.base_line@[y]@.len() && #[trigger] in_window(self.base_line@[y]@[k], x2, size.w)
                    ==> !fits(self.rects(), area, rect_at(x2, y, size)),
        ensures
            forall|x2: u32| !#[trigger] fits(self.rects(), area, rect_at(x2, y, size)),
    {
        let rs = self.rects();
        let v = self.base_line@[y]@;
        assert forall|x2: u32| !#[trigger] fits(rs, area, rect_at(x2, y, size)) by {
            if fits(rs, area, rect_at(x2, y, size)) {
                assert(!fits(rs, area, rect_at(x2, (y - 1) as u32, size)));
                self.lemma_supported(area, size, x2, y);
                let r = choose|r: AtlasMemParam|
                    #[trigger] rs.contains(r) && r.top() == y && in_window(span_of(r), x2, size.w);
                assert(v.contains(span_of(r)));
                let k = choose|k: int| 0 <= k < v.len() && v[k] == span_of(r);
                assert(in_window(v[k], x2, size.w));
            }
        }
    }

    /// Leftmost column where a rectangle of `size` fits on baseline row `y`,
    /// given that nothing fits lower. Row 0 is scanned whole; on a higher
    /// row only the columns over the spans ending there are tried, span by
    /// span from the left.
    fn seek_row(&self, area: SqSize, size: SqSize, y: u32) -> (r: Option<u32>)
        requires
            self.inv(area),
            size.wf(),
            size.w <= area.w,
            y + size.h <= area.h,
            self.base_line@.contains_key(y),
            forall|x2: u32, y2: u32| y2 < y ==> !#[trigger] fits(self.rects(), area, rect_at(x2, y2, size)),
        ensures
            match r {
                Some(x) => {
                    &&& fits(self.rects(), area, rect_at(x, y, size))
                    &&& forall|x2: u32| x2 < x ==> !#[trigger] fits(self.rects(), area, rect_at(x2, y, size))
                },
                None => forall|x2: u32| !#[trigger] fits(self.rects(), area, rect_at(x2, y, size)),
            },
    {
        let ghost rs = self.rects();
        if y == 0 {
            return match self.seek_object(area, size, 0, 0, area.w) {
                Ok(x) => Some(x),
                Err(_) => None,
            };
        }
        let spans = match self.base_line.get(&y) {
            Some(v) => v,
            None => {
                return None;
            },
        };
        let ghost v = spans@;
        assert(v == self.base_line@[y]@);
        let limit = area.w - size.w;
        let mut j: usize = 0;
        while j < spans.len()
            invariant
                self.inv(area),
                rs == self.rects(),
                size.wf(),
                size.w <= area.w,
                limit == area.w - size.w,
                y > 0,
                y + size.h <= area.h,
                v == spans@,
                v == self.base_line@[y]@,
                self.base_line@.contains_key(y),
                forall|x2: u32, y2: u32| y2 < y ==> !#[trigger] fits(rs, area, rect_at(x2, y2, size)),
                j <= v.len(),
                forall|x2: u32, k: int|
                    0 <= k < j && #[trigger] in_window(v[k], x2, size.w) ==> !fits(rs, area, rect_at(x2, y, size)),
            decreases v.len() - j,
        {
            let (sx, sw) = spans[j];
            let start: u32 = if sx >= size.w - 1 {
                sx - (size.w - 1)
            } else {
                0
            };
            if start > limit {
                proof {
                    assert forall|x2: u32, k: int|
                        0 <= k < v.len() && #[trigger] in_window(v[k], x2, size.w) implies !fits(
                        rs,
                        area,
                        rect_at(x2, y, size),
                    ) by {
                        if k >= j {
                            assert(v[j as int].0 <= v[k].0);
                        }
                    }
                }
                proof {
                    self.lemma_row_empty(area, size, y);
                }
                return None;
            }
            assert(v.contains((sx, sw)));
            proof {
                let r = choose|r: AtlasMemParam| #[trigger] rs.contains(r) && r.top() == y && span_of(r) == (sx, sw);
                assert(r.within(area));
            }
            let end: u32 = sx + sw;
            match self.seek_object(area, size, y, start, end) {
                Ok(x) => {
                    proof {
                        assert forall|x2: u32| x2 < x implies !#[trigger] fits(rs, area, rect_at(x2, y, size)) by {
                            if fits(rs, area, rect_at(x2, y, size)) {
                                assert(!fits(rs, area, rect_at(x2, (y - 1) as u32, size)));
                                {
                                    self.lemma_supported(area, size, x2, y);
                                    let r = choose|r: AtlasMemParam|
                                        #[trigger] rs.contains(r) && r.top() == y && in_window(span_of(r), x2, size.w);
                                    assert(self.base_line@[y]@.contains(span_of(r)));
                                    let k = choose|k: int| 0 <= k < v.len() && v[k] == span_of(r);
                                    assert(in_window(v[k], x2, size.w));
                                    if k >= j {
                                        assert(v[j as int].0 <= v[k].0);
                                        assert(start <= x2);
                                    }
                                }
                            }
                        }
                    }
                    return Some(x);
                },
                Err(_) => {},
            }
            j = j + 1;
        }
        proof {
            self.lemma_row_empty(area, size, y);
        }
        None
    }

    /// The Bottom-Left spot for a rectangle of `size`: baseline rows are
    /// tried upwards from row 0, and on each the leftmost fitting column is
    /// sought.
    pub fn seek_baseline(&self, area: SqSize, size: SqSize) -> (r: Result<SqPos, BLInsertError>)
        requires
            self.inv(area),
            size.wf(),
            size.w <= area.w,
            size.h <= area.h,
        ensures
            match r {
                Ok(p) => is_bl_spot(self.rects(), area, rect_at(p.x, p.y, size)),
                Err(e) => e == BLInsertError::InsNotEnoughSpace && !has_room(self.rects(), area, size),
            },
    {
        let ghost rs = self.rects();
        let mut y: u32 = 0;
        loop
            invariant
                self.inv(area),
                rs == self.rects(),
                size.wf(),
                size.w <= area.w,
                size.h <= area.h,
                y + size.h <= area.h,
                forall|x2: u32, y2: u32| y2 < y ==> !#[trigger] fits(rs, area, rect_at(x2, y2, size)),
            ensures
                rs == self.rects(),
                forall|x2: u32, y2: u32|
                    y2 + size.h <= area.h ==> !#[trigger] fits(rs, area, rect_at(x2, y2, size)),
            decreases area.h - y,
        {
            if self.base_line.contains_key(&y) {
                if let Some(x) = self.seek_row(area, size, y) {
                    proof {
                        assert forall|x2: u32, y2: u32|
                            bl_before(SqPos { x: x2, y: y2 }, SqPos { x, y }) implies !#[trigger] fits(
                            rs,
                            area,
                            rect_at(x2, y2, size),
                        ) by {}
                    }
                    return Ok(SqPos { x, y });
                }
            } else {
                proof {
                    assert forall|x2: u32| !#[trigger] fits(rs, area, rect_at(x2, y, size)) by {
                        if fits(rs, area, rect_at(x2, y, size)) {
                            self.lemma_slide_down(area, size, x2, y);
                            let y3 = choose|y3: u32|
                                y3 <= y && self.base_line@.contains_key(y3) && #[trigger] fits(
                                    rs,
                                    area,
                                    rect_at(x2, y3, size),
                                );
                        }
                    }
                }
            }
            if y == area.h - size.h {
                break;
            }
            y = y + 1;
        }
        Err(BLInsertError::InsNotEnoughSpace)
    }

    /// Records `m` as placed: marks its cells and lists its span on the row
    /// just above it.
    fn place(&mut self, area: SqSize, m: AtlasMemParam)
        requires
            old(self).inv(area),
            fits(old(self).rects(), area, m),
        ensures
            final(self).inv(area),
            final(self).rects() == old(self).rects().insert(m),
    {
        let ghost rs = self.rects@;
        let ghost rs2 = rs.insert(m);
        let ghost old_flags = self.unuse_flag@;
        fill_cells(&mut self.unuse_flag, area, m, true);
        add_span(&mut self.base_line, Ghost(rs), area, m);
        self.rects = Ghost(rs2);
        proof {
            assert forall|x: int, y: int|
                0 <= x < area.w && 0 <= y < area.h implies #[trigger] cell_taken(rs2, x, y) == (
                flag_at(self.unuse_flag@, area.w, x, y) != 0) by {
                assert(cell_taken(rs, x, y) == (flag_at(old_flags, area.w, x, y) != 0));
                if m.covers(x, y) {
                    assert(rs2.contains(m));
                }
                if cell_taken(rs, x, y) {
                    let r = choose|r: AtlasMemParam| #[trigger] rs.contains(r) && r.covers(x, y);
                    assert(rs2.contains(r));
                }
                if cell_taken(rs2, x, y) {
                    let r = choose|r: AtlasMemParam| #[trigger] rs2.contains(r) && r.covers(x, y);
                    if r != m {
                        assert(rs.contains(r));
                    }
                }
            }
            assert(pairwise_disjoint(rs2)) by {
                assert forall|a: AtlasMemParam, b: AtlasMemParam|
                    #[trigger] rs2.contains(a) && #[trigger] rs2.contains(b) && a != b implies !a.overlaps(b) by {
                    if a == m {
                        assert(rs.contains(b));
                    } else if b == m {
                        assert(rs.contains(a));
                    }
                }
            }
        }
    }

    /// Forgets the placed `m`: clears its cells and takes its span off the
    /// row just above it.
    fn unplace(&mut self, area: SqSize, m: AtlasMemParam)
        requires
            old(self).inv(area),
            old(self).rects().contains(m),
        ensures
            final(self).inv(area),
            final(self).rects() == old(self).rects().remove(m),
    {
        let ghost rs = self.rects@;
        let ghost rs2 = rs.remove(m);
        let ghost old_flags = self.unuse_flag@;
        assert(m.within(area));
        fill_cells(&mut self.unuse_flag, area, m, false);
        remove_span(&mut self.base_line, Ghost(rs), area, m);
        self.rects = Ghost(rs2);
        proof {
            assert forall|x: int, y: int|
                0 <= x < area.w && 0 <= y < area.h implies #[trigger] cell_taken(rs2, x, y) == (
                flag_at(self.unuse_flag@, area.w, x, y) != 0) by {
                assert(cell_taken(rs, x, y) == (flag_at(old_flags, area.w, x, y) != 0));
                if cell_taken(rs2, x, y) {
                    let r = choose|r: AtlasMemParam| #[trigger] rs2.contains(r) && r.covers(x, y);
                    assert(rs.contains(r));
                    if m.covers(x, y) {
                        assert(r.overlaps(m));
                    }
                }
                if cell_taken(rs, x, y) && !m.covers(x, y) {
                    let r = choose|r: AtlasMemParam| #[trigger] rs.contains(r) && r.covers(x, y);
                    assert(rs2.contains(r));
                }
            }
        }
    }

    /// Places a rectangle of `size` at its Bottom-Left spot. Refused, with
    /// nothing changed, when it is wider or taller than the atlas, or when
    /// no spot is free for it.
    pub fn insert(&mut self, area: SqSize, size: SqSize) -> (r: Result<AtlasMemParam, BLInsertError>)
        requires
            old(self).inv(area),
            size.wf(),
        ensures
            size.w > area.w || size.h > area.h ==> r == Err::<AtlasMemParam, BLInsertError>(
                BLInsertError::InsDataIsTooLarge,
            ),
            size.w <= area.w && size.h <= area.h && !has_room(old(self).rects(), area, size) ==> r
                == Err::<AtlasMemParam, BLInsertError>(BLInsertError::InsNotEnoughSpace),
            r is Err ==> *final(self) == *old(self),
            match r {
                Err(e) => (e == BLInsertError::InsDataIsTooLarge && (size.w > area.w || size.h > area.h))
                    || (e == BLInsertError::InsNotEnoughSpace && !has_room(old(self).rects(), area, size)),
                Ok(_) => true,
            },
            match r {
                Ok(m) => {
                    &&& size.w <= area.w && size.h <= area.h
                    &&& m.size == size
                    &&& is_bl_spot(old(self).rects(), area, m)
                    &&& final(self).inv(area)
                    &&& final(self).rects() == old(self).rects().insert(m)
                },
                Err(_) => true,
            },
    {
        if area.w < size.w || area.h < size.h {
            return Err(BLInsertError::InsDataIsTooLarge);
        }
        let pos = self.seek_baseline(area, size)?;
        let m = AtlasMemParam { pos, size };
        proof {
            if has_room(self.rects(), area, size) {
            } else {
                assert(fits(self.rects(), area, rect_at(pos.x, pos.y, size)));
            }
        }
        self.place(area, m);
        Ok(m)
    }

    /// Frees the cells of the placed rectangle `m`.
    pub fn remove(&mut self, area: SqSize, m: AtlasMemParam)
        requires
            old(self).inv(area),
            old(self).rects().contains(m),
        ensures
            final(self).inv(area),
            final(self).rects() == old(self).rects().remove(m),
    {
        self.unplace(area, m);
    }
}

impl BLInserterInitializer {
    /// A controller for an empty atlas of the given size: every cell free,
    /// and row 0 as the only baseline.
    pub fn initialize(self, size: SqSize) -> (r: BLInserter)
        requires
            size.wf(),
            size.w * size.h <= usize::MAX,
        ensures
            r.inv(size),
            r.rects() == Set::<AtlasMemParam>::empty(),
    {
        let n = size.w as usize * size.h as usize;
        let mut unuse_flag: Vec<u8> = Vec::with_capacity(n);
        while unuse_flag.len() < n
            invariant
                unuse_flag@.len() <= n,
                forall|i: int| 0 <= i < unuse_flag@.len() ==> unuse_flag@[i] == 0,
            decreases n - unuse_flag@.len(),
        {
            unuse_flag.push(0);
        }
        let mut base_line: BTreeMap<u32, Vec<(u32, u32)>> = BTreeMap::new();
        base_line.insert(0, Vec::new());
        let r = BLInserter { unuse_flag, base_line, rects: Ghost(Set::empty()) };
        proof {
            assert forall|x: int, y: int|
                0 <= x < size.w && 0 <= y < size.h implies #[trigger] cell_taken(r.rects@, x, y) == (
                flag_at(r.unuse_flag@, size.w, x, y) != 0) by {
                lemma_cell_index(size.w as int, size.h as int, x, y);
            }
            assert forall|k: u32| #[trigger]
                r.base_line@.contains_key(k) implies r.base_line@[k]@.no_duplicates() && row_sorted(
                r.base_line@[k]@) by {
                assert(k == 0);
                assert(r.base_line@[k]@.len() == 0);
            }
        }
        r
    }
}

} // verus!
