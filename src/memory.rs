use vstd::prelude::*;
use crate::elem::AtlasMemParam;
use crate::types::{SqPos, SqSize};

verus! {

/// The atlas pixels: `size.w * size.h` cells of `BL` values each, row-major.
pub struct AtlasMem<const BL: usize, P> {
    pub size: SqSize,
    pub tex: Vec<P>,
}

impl<const BL: usize, P: Copy> AtlasMem<BL, P> {
    pub open spec fn wf(&self) -> bool {
        &&& self.size.wf()
        &&& BL > 0
        &&& self.size.w * self.size.h * BL <= usize::MAX
        &&& self.tex@.len() == self.size.w * self.size.h * BL
    }

    /// Offset of the first value of cell `(x, y)`.
    pub open spec fn offset(&self, x: int, y: int) -> int {
        (y * self.size.w + x) * BL
    }

    /// A memory of the given size with every value set to `pixel`.
    pub fn new(size: SqSize, pixel: P) -> (r: Self)
        requires
            size.wf(),
            BL > 0,
            size.w * size.h * BL <= usize::MAX,
        ensures
            r.wf(),
            r.size == size,
            forall|i: int| 0 <= i < r.tex@.len() ==> r.tex@[i] == pixel,
    {
        proof {
            assert(0 <= size.w * size.h) by (nonlinear_arith)
                requires
                    size.wf(),
            ;
            lemma_mul_grow(size.w * size.h, BL as int);
        }
        let n = size.w as usize * size.h as usize * BL;
        let mut tex: Vec<P> = Vec::with_capacity(n);
        while tex.len() < n
            invariant
                tex@.len() <= n,
                forall|i: int| 0 <= i < tex@.len() ==> tex@[i] == pixel,
            decreases n - tex@.len(),
        {
            tex.push(pixel);
        }
        AtlasMem { size, tex }
    }

    /// The whole buffer, ready for upload.
    pub fn raw(&self) -> (r: &[P])
        ensures
            r@ == self.tex@,
    {
        self.tex.as_slice()
    }

    /// Every cell's `BL` values, in row-major order.
    pub fn iter(&self) -> (r: Vec<Vec<P>>)
        requires
            self.wf(),
        ensures
            r@.len() == self.size.w * self.size.h,
            forall|i: int| 0 <= i < r@.len() ==> (#[trigger] r@[i])@ == self.tex@.subrange(i * BL, i * BL + BL),
    {
        proof {
            assert(0 <= self.size.w * self.size.h) by (nonlinear_arith)
                requires
                    self.size.wf(),
            ;
            lemma_mul_grow(self.size.w * self.size.h, BL as int);
        }
        let n = self.size.w as usize * self.size.h as usize;
        let mut r: Vec<Vec<P>> = Vec::new();
        let mut start: usize = 0;
        while r.len() < n
            invariant
                self.wf(),
                n == self.size.w * self.size.h,
                r@.len() <= n,
                start == r@.len() * BL,
                forall|i: int| 0 <= i < r@.len() ==> (#[trigger] r@[i])@ == self.tex@.subrange(i * BL, i * BL + BL),
            decreases n - r@.len(),
        {
            proof {
                assert(r@.len() * BL + BL <= n * BL) by (nonlinear_arith)
                    requires
                        r@.len() < n,
                        BL > 0,
                ;
                assert((r@.len() + 1) * BL == r@.len() * BL + BL) by (nonlinear_arith);
            }
            let mut cell: Vec<P> = Vec::with_capacity(BL);
            let mut k: usize = 0;
            while k < BL
                invariant
                    self.wf(),
                    start + BL <= self.tex@.len(),
                    k <= BL,
                    cell@ == self.tex@.subrange(start as int, start + k),
                decreases BL - k,
            {
                cell.push(self.tex[start + k]);
                k = k + 1;
                assert(cell@ =~= self.tex@.subrange(start as int, start + k));
            }
            r.push(cell);
            start = start + BL;
        }
        r
    }

    /// The `BL` values of the cell at `pos`, which must lie inside.
    pub fn get(&self, pos: SqPos) -> (r: Vec<P>)
        requires
            self.wf(),
            pos.x < self.size.w,
            pos.y < self.size.h,
        ensures
            r@ == self.tex@.subrange(self.offset(pos.x as int, pos.y as int), self.offset(pos.x as int, pos.y as int) + BL),
    {
        proof {
            lemma_offset_in(self.size.w as int, self.size.h as int, BL as int, pos.x as int, pos.y as int);
        }
        let start = (pos.y as usize * self.size.w as usize + pos.x as usize) * BL;
        let mut r: Vec<P> = Vec::with_capacity(BL);
        let mut k: usize = 0;
        while k < BL
            invariant
                self.wf(),
                start == self.offset(pos.x as int, pos.y as int),
                start + BL <= self.tex@.len(),
                k <= BL,
                r@ == self.tex@.subrange(start as int, start + k),
            decreases BL - k,
        {
            r.push(self.tex[start + k]);
            k = k + 1;
            assert(r@ =~= self.tex@.subrange(start as int, start + k));
        }
        r
    }

    /// The values of the cell at `pos`, or `None` when it lies outside.
    pub fn get_checked(&self, pos: SqPos) -> (r: Option<Vec<P>>)
        requires
            self.wf(),
        ensures
            match r {
                Some(v) => pos.x < self.size.w && pos.y < self.size.h && v@ == self.tex@.subrange(
                    self.offset(pos.x as int, pos.y as int),
                    self.offset(pos.x as int, pos.y as int) + BL,
                ),
                None => !(pos.x < self.size.w && pos.y < self.size.h),
            },
    {
        if pos.x < self.size.w && pos.y < self.size.h {
            Some(self.get(pos))
        } else {
            None
        }
    }

    /// Overwrites the cell at `pos` with the `BL` values of `pixel`.
    pub fn set(&mut self, pos: SqPos, pixel: &[P])
        requires
            old(self).wf(),
            pos.x < old(self).size.w,
            pos.y < old(self).size.h,
            pixel@.len() == BL,
        ensures
            final(self).wf(),
            final(self).size == old(self).size,
            final(self).tex@.len() == old(self).tex@.len(),
            forall|i: int| 0 <= i < old(self).tex@.len() ==> #[trigger] final(self).tex@[i] == if old(self).offset(pos.x as int, pos.y as int) <= i < old(self).offset(pos.x as int, pos.y as int) + BL {
                pixel@[i - old(self).offset(pos.x as int, pos.y as int)]
            } else {
                old(self).tex@[i]
            },
            forall|x: int, y: int|
                0 <= x < old(self).size.w && 0 <= y < old(self).size.h ==> #[trigger] final(self).cell(x, y)
                    == if x == pos.x && y == pos.y {
                    pixel@
                } else {
                    old(self).cell(x, y)
                },
    {
        proof {
            lemma_offset_in(self.size.w as int, self.size.h as int, BL as int, pos.x as int, pos.y as int);
        }
        let start = (pos.y as usize * self.size.w as usize + pos.x as usize) * BL;
        let ghost old_tex = self.tex@;
        let mut k: usize = 0;
        while k < BL
            invariant
                self.wf(),
                self.size == old(self).size,
                old_tex == old(self).tex@,
                start == old(self).offset(pos.x as int, pos.y as int),
                start + BL <= self.tex@.len(),
                pixel@.len() == BL,
                k <= BL,
                self.tex@.len() == old_tex.len(),
                forall|i: int| 0 <= i < old_tex.len() ==> #[trigger] self.tex@[i] == if start <= i < start + k {
                    pixel@[i - start]
                } else {
                    old_tex[i]
                },
            decreases BL - k,
        {
            self.tex.set(start + k, pixel[k]);
            k = k + 1;
        }
        proof {
            assert forall|x: int, y: int|
                0 <= x < self.size.w && 0 <= y < self.size.h implies #[trigger] self.cell(x, y) == if x
                    == pos.x && y == pos.y {
                    pixel@
                } else {
                    old_tex.subrange(self.offset(x, y), self.offset(x, y) + BL)
                } by {
                lemma_offset_in(self.size.w as int, self.size.h as int, BL as int, x, y);
                if x == pos.x && y == pos.y {
                    assert(self.cell(x, y) =~= pixel@);
                } else {
                    lemma_cells_apart(self.size.w as int, BL as int, x, y, pos.x as int, pos.y as int);
                    assert(self.cell(x, y) =~= old_tex.subrange(self.offset(x, y), self.offset(x, y) + BL));
                }
            }
        }
    }

    /// Overwrites every cell of `obj` with the values that `pixels` holds for
    /// it at its index inside the rectangle.
    pub fn write_obj(&mut self, obj: &AtlasMemParam, pixels: &Vec<Vec<P>>)
        requires
            old(self).wf(),
            obj.within(old(self).size),
            pixels@.len() == obj.size.w * obj.size.h,
            forall|i: int| 0 <= i < pixels@.len() ==> (#[trigger] pixels@[i])@.len() == BL,
        ensures
            final(self).wf(),
            final(self).size == old(self).size,
            forall|x: int, y: int|
                0 <= x < old(self).size.w && 0 <= y < old(self).size.h ==> #[trigger] final(self).cell(x, y)
                    == if obj.covers(x, y) {
                    pixels@[local_index(obj.size.w, x - obj.pos.x, y - obj.pos.y)]@
                } else {
                    old(self).cell(x, y)
                },
    {
        let w = obj.size.w;
        let h = obj.size.h;
        let n = pixels.len();
        let mut ly: u32 = 0;
        while ly < h
            invariant
                n == pixels@.len(),
                self.wf(),
                self.size == old(self).size,
                obj.within(self.size),
                w == obj.size.w,
                h == obj.size.h,
                ly <= h,
                pixels@.len() == w * h,
                forall|i: int| 0 <= i < pixels@.len() ==> (#[trigger] pixels@[i])@.len() == BL,
                forall|x: int, y: int|
                    0 <= x < self.size.w && 0 <= y < self.size.h ==> #[trigger] self.cell(x, y) == if obj.covers(
                        x,
                        y,
                    ) && y < obj.pos.y + ly {
                        pixels@[local_index(w, x - obj.pos.x, y - obj.pos.y)]@
                    } else {
                        old(self).cell(x, y)
                    },
            decreases h - ly,
        {
            let mut lx: u32 = 0;
            while lx < w
                invariant
                    n == pixels@.len(),
                    self.wf(),
                    self.size == old(self).size,
                    obj.within(self.size),
                    w == obj.size.w,
                    h == obj.size.h,
                    ly < h,
                    lx <= w,
                    pixels@.len() == w * h,
                    forall|i: int| 0 <= i < pixels@.len() ==> (#[trigger] pixels@[i])@.len() == BL,
                    forall|x: int, y: int|
                        0 <= x < self.size.w && 0 <= y < self.size.h ==> #[trigger] self.cell(x, y) == if obj.covers(
                            x,
                            y,
                        ) && (y < obj.pos.y + ly || (y == obj.pos.y + ly && x < obj.pos.x + lx)) {
                            pixels@[local_index(w, x - obj.pos.x, y - obj.pos.y)]@
                        } else {
                            old(self).cell(x, y)
                        },
                decreases w - lx,
            {
                proof {
                    lemma_local_in(w as int, h as int, lx as int, ly as int);
                }
                let i = ly as usize * w as usize + lx as usize;
                self.set(SqPos { x: obj.pos.x + lx, y: obj.pos.y + ly }, pixels[i].as_slice());
                lx = lx + 1;
            }
            ly = ly + 1;
        }
    }

    /// The `BL` values of cell `(x, y)`.
    pub open spec fn cell(&self, x: int, y: int) -> Seq<P> {
        self.tex@.subrange(self.offset(x, y), self.offset(x, y) + BL)
    }

    /// The cells of `obj` in row-major order within it, each with its index
    /// `y * w + x` inside the rectangle.
    pub fn get_obj(&self, obj: &AtlasMemParam) -> (r: Vec<(usize, Vec<P>)>)
        requires
            self.wf(),
            obj.within(self.size),
        ensures
            r@.len() == obj.size.w * obj.size.h,
            forall|lx: int, ly: int|
                0 <= lx < obj.size.w && 0 <= ly < obj.size.h ==> {
                    let e = #[trigger] r@[local_index(obj.size.w, lx, ly)];
                    &&& e.0 == local_index(obj.size.w, lx, ly)
                    &&& e.1@ == self.cell(obj.pos.x + lx, obj.pos.y + ly)
                },
    {
        let w = obj.size.w;
        let h = obj.size.h;
        let mut r: Vec<(usize, Vec<P>)> = Vec::new();
        let mut ly: u32 = 0;
        while ly < h
            invariant
                self.wf(),
                obj.within(self.size),
                w == obj.size.w,
                h == obj.size.h,
                ly <= h,
                r@.len() == ly * w,
                forall|lx: int, ly2: int|
                    0 <= lx < w && 0 <= ly2 < ly ==> {
                        let e = #[trigger] r@[local_index(w, lx, ly2)];
                        &&& e.0 == local_index(w, lx, ly2)
                        &&& e.1@ == self.cell(obj.pos.x + lx, obj.pos.y + ly2)
                    },
            decreases h - ly,
        {
            let mut lx: u32 = 0;
            while lx < w
                invariant
                    self.wf(),
                    obj.within(self.size),
                    w == obj.size.w,
                    h == obj.size.h,
                    ly < h,
                    lx <= w,
                    r@.len() == ly * w + lx,
                    forall|lx2: int, ly2: int|
                        0 <= lx2 < w && 0 <= ly2 && (ly2 < ly || (ly2 == ly && lx2 < lx)) ==> {
                            let e = #[trigger] r@[local_index(w, lx2, ly2)];
                            &&& e.0 == local_index(w, lx2, ly2)
                            &&& e.1@ == self.cell(obj.pos.x + lx2, obj.pos.y + ly2)
                        },
                decreases w - lx,
            {
                let v = self.get(SqPos { x: obj.pos.x + lx, y: obj.pos.y + ly });
                let i = r.len();
                let ghost old_r = r@;
                r.push((i, v));
                proof {
                    assert forall|lx2: int, ly2: int|
                        0 <= lx2 < w && 0 <= ly2 && (ly2 < ly || (ly2 == ly && lx2 < lx + 1)) implies {
                            let e = #[trigger] r@[local_index(w, lx2, ly2)];
                            &&& e.0 == local_index(w, lx2, ly2)
                            &&& e.1@ == self.cell(obj.pos.x + lx2, obj.pos.y + ly2)
                        } by {
                        if ly2 == ly && lx2 == lx {
                            assert(local_index(w, lx2, ly2) == i);
                        } else {
                            lemma_local_before(w as int, lx2, ly2, lx as int, ly as int);
                            assert(r@[local_index(w, lx2, ly2)] == old_r[local_index(w, lx2, ly2)]);
                        }
                    }
                }
                lx = lx + 1;
            }
            proof {
                assert(ly * w + w == (ly + 1) * w) by (nonlinear_arith);
            }
            ly = ly + 1;
        }
        proof {
            assert(ly * w == w * h) by (nonlinear_arith)
                requires
                    ly == h,
            ;
        }
        r
    }
}

/// Index of the cell `(x, y)` of a rectangle `w` cells wide, counted
/// row-major from its lower-left corner.
pub open spec fn local_index(w: u32, x: int, y: int) -> int {
    y * w + x
}

proof fn lemma_local_before(w: int, x2: int, y2: int, x: int, y: int)
    requires
        0 <= x2 < w,
        0 <= x,
        0 <= y2,
        y2 < y || (y2 == y && x2 < x),
    ensures
        y2 * w + x2 < y * w + x,
        0 <= y2 * w + x2,
{
    if y2 < y {
        assert(y2 * w + x2 < y * w + x) by (nonlinear_arith)
            requires
                0 <= x2 < w,
                0 <= x,
                y2 < y,
        ;
    }
    assert(0 <= y2 * w) by (nonlinear_arith)
        requires
            0 <= y2,
            0 <= x2 < w,
    ;
}

proof fn lemma_local_in(w: int, h: int, x: int, y: int)
    requires
        0 <= x < w,
        0 <= y < h,
    ensures
        0 <= y * w + x < w * h,
        0 <= y * w,
{
    assert(0 <= y * w + x < w * h && 0 <= y * w) by (nonlinear_arith)
        requires
            0 <= x < w,
            0 <= y < h,
    ;
}

/// Distinct cells occupy disjoint runs of the buffer.
proof fn lemma_cells_apart(w: int, bl: int, x1: int, y1: int, x2: int, y2: int)
    requires
        0 <= x1 < w,
        0 <= x2 < w,
        0 <= y1,
        0 <= y2,
        bl > 0,
        x1 != x2 || y1 != y2,
    ensures
        (y1 * w + x1) * bl + bl <= (y2 * w + x2) * bl || (y2 * w + x2) * bl + bl <= (y1 * w + x1) * bl,
{
    let a = y1 * w + x1;
    let b = y2 * w + x2;
    if a == b {
        if y1 < y2 {
            assert(y1 * w + x1 < y2 * w + x2) by (nonlinear_arith)
                requires
                    0 <= x1 < w,
                    0 <= x2,
                    y1 < y2,
            ;
        } else if y2 < y1 {
            assert(y2 * w + x2 < y1 * w + x1) by (nonlinear_arith)
                requires
                    0 <= x2 < w,
                    0 <= x1,
                    y2 < y1,
            ;
        }
    }
    assert(a * bl + bl <= b * bl || b * bl + bl <= a * bl) by (nonlinear_arith)
        requires
            a != b,
            bl > 0,
    ;
}

proof fn lemma_mul_grow(a: int, bl: int)
    requires
        a >= 0,
        bl > 0,
    ensures
        a <= a * bl,
{
    assert(a <= a * bl) by (nonlinear_arith)
        requires
            a >= 0,
            bl > 0,
    ;
}

proof fn lemma_offset_in(w: int, h: int, bl: int, x: int, y: int)
    requires
        0 <= x < w,
        0 <= y < h,
        bl > 0,
    ensures
        0 <= (y * w + x) * bl,
        (y * w + x) * bl + bl <= w * h * bl,
        y * w + x <= w * h,
        (y * w + x) * bl <= w * h * bl,
        w * h <= w * h * bl,
        0 <= y * w,
{
    assert(0 <= y * w) by (nonlinear_arith)
        requires
            0 <= x < w,
            0 <= y < h,
    ;
    lemma_mul_grow(w * h, bl);
    assert(y * w + x < w * h) by (nonlinear_arith)
        requires
            0 <= x < w,
            0 <= y < h,
    ;
    assert((y * w + x) * bl + bl <= w * h * bl) by (nonlinear_arith)
        requires
            y * w + x < w * h,
            0 <= y * w + x,
            bl > 0,
    ;
    assert(0 <= (y * w + x) * bl) by (nonlinear_arith)
        requires
            0 <= y * w + x,
            bl > 0,
    ;
}

} // verus!
