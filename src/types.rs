use vstd::prelude::*;

verus! {

/// Position of a rectangle's lower-left corner, in atlas pixels.
#[derive(Debug, Clone, Copy, PartialEq, Eq, Structural, Hash)]
pub struct SqPos {
    pub x: u32,
    pub y: u32,
}

impl SqPos {
    pub fn new(pos: [u32; 2]) -> (r: Self)
        ensures
            r.x == pos[0],
            r.y == pos[1],
    {
        SqPos { x: pos[0], y: pos[1] }
    }

    pub fn raw(&self) -> (r: [u32; 2])
        ensures
            r[0] == self.x,
            r[1] == self.y,
    {
        [self.x, self.y]
    }

    pub fn x(&self) -> (r: u32)
        ensures
            r == self.x,
    {
        self.x
    }

    pub fn y(&self) -> (r: u32)
        ensures
            r == self.y,
    {
        self.y
    }

    pub fn x_mut(&mut self) -> (r: &mut u32)
        ensures
            *r == old(self).x,
            *final(self) == (SqPos { x: *final(r), y: old(self).y }),
    {
        &mut self.x
    }

    pub fn y_mut(&mut self) -> (r: &mut u32)
        ensures
            *r == old(self).y,
            *final(self) == (SqPos { x: old(self).x, y: *final(r) }),
    {
        &mut self.y
    }

    /// Row-major index of this position in a grid of the given size.
    pub open spec fn serial_spec(self, size: SqSize) -> int {
        size.w * self.y + self.x
    }

    pub fn serial(&self, size: SqSize) -> (r: usize)
        requires
            size.w * self.y + self.x <= usize::MAX,
        ensures
            r == self.serial_spec(size),
    {
        size.w as usize * self.y as usize + self.x as usize
    }

    /// The row-major index, or `None` when the position lies outside the grid.
    pub fn serial_checked(&self, size: SqSize) -> (r: Option<usize>)
        requires
            size.w * size.h <= usize::MAX,
        ensures
            r == (if self.x < size.w && self.y < size.h {
                Some(self.serial_spec(size) as usize)
            } else {
                None
            }),
    {
        if self.x < size.w && self.y < size.h {
            proof {
                assert(size.w * self.y + self.x < size.w * size.h) by (nonlinear_arith)
                    requires
                        self.x < size.w,
                        self.y < size.h,
                ;
            }
            Some(self.serial(size))
        } else {
            None
        }
    }
}

/// Size of a rectangle; a well-formed size has no zero side.
#[derive(Debug, Clone, Copy, PartialEq, Eq, Structural, Hash)]
pub struct SqSize {
    pub w: u32,
    pub h: u32,
}

impl SqSize {
    pub open spec fn wf(self) -> bool {
        self.w > 0 && self.h > 0
    }

    /// Number of cells covered.
    pub open spec fn area(self) -> int {
        self.w * self.h
    }

    /// A size with both sides non-zero, or `None`.
    pub fn new_checked(size: [u32; 2]) -> (r: Option<Self>)
        ensures
            r == (if size[0] > 0 && size[1] > 0 {
                Some(SqSize { w: size[0], h: size[1] })
            } else {
                None
            }),
    {
        if size[0] > 0 && size[1] > 0 {
            Some(SqSize { w: size[0], h: size[1] })
        } else {
            None
        }
    }

    pub fn new(size: [u32; 2]) -> (r: Self)
        requires
            size[0] > 0,
            size[1] > 0,
        ensures
            r.wf(),
            r.w == size[0],
            r.h == size[1],
    {
        SqSize { w: size[0], h: size[1] }
    }

    pub fn raw(&self) -> (r: [u32; 2])
        ensures
            r[0] == self.w,
            r[1] == self.h,
    {
        [self.w, self.h]
    }

    pub fn w(&self) -> (r: u32)
        ensures
            r == self.w,
    {
        self.w
    }

    pub fn h(&self) -> (r: u32)
        ensures
            r == self.h,
    {
        self.h
    }

    pub fn w_mut(&mut self) -> (r: &mut u32)
        ensures
            *r == old(self).w,
            *final(self) == (SqSize { w: *final(r), h: old(self).h }),
    {
        &mut self.w
    }

    pub fn h_mut(&mut self) -> (r: &mut u32)
        ensures
            *r == old(self).h,
            *final(self) == (SqSize { w: old(self).w, h: *final(r) }),
    {
        &mut self.h
    }

    /// Number of cells covered.
    pub fn serial(&self) -> (r: usize)
        requires
            self.w * self.h <= usize::MAX,
        ensures
            r == self.area(),
    {
        self.w as usize * self.h as usize
    }
}

} // verus!
