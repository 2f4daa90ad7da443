use vstd::prelude::*;

verus! {

/// A rectangle of the coarse grid used to find the cell that holds a point.
/// Its sides are three quarters of a cell width and half a cell height, and
/// block `(x, y)` spans `[x, x + 1) x [y, y + 1)` in those units. Every cell
/// is split over four blocks; the origin of a central block is the center of
/// a cell.
#[derive(Clone, Copy, Debug, PartialEq, Eq, Structural)]
pub struct UnitBlock {
    pub x: i32,
    pub y: i32,
}

/// Whether block `(x, y)` is central: its coordinates add up to an even number.
pub open spec fn is_central(x: int, y: int) -> bool {
    (x + y) % 2 == 0
}

/// The block whose origin is the center of the cell holding a point of block
/// `b`, given on which side of the block's diagonal the point lies.
pub open spec fn hex_block_spec(b: UnitBlock, in_left: bool) -> UnitBlock {
    if is_central(b.x as int, b.y as int) {
        if in_left {
            b
        } else {
            UnitBlock { x: (b.x + 1) as i32, y: (b.y + 1) as i32 }
        }
    } else {
        if in_left {
            UnitBlock { x: b.x, y: (b.y + 1) as i32 }
        } else {
            UnitBlock { x: (b.x + 1) as i32, y: b.y }
        }
    }
}

impl UnitBlock {
    /// The block with indices `(x, y)`: the floors of a point's coordinates
    /// in units.
    pub fn at(x: i32, y: i32) -> (r: Self)
        ensures
            r == (UnitBlock { x, y }),
    {
        UnitBlock { x, y }
    }

    /// The lower left corner of the block, in units.
    pub fn origin(&self) -> (r: (i32, i32))
        ensures
            r == (self.x, self.y),
    {
        (self.x, self.y)
    }

    pub fn right_block(&self) -> (r: Self)
        requires
            self.x < i32::MAX,
        ensures
            r == (UnitBlock { x: (self.x + 1) as i32, y: self.y }),
    {
        UnitBlock { x: self.x + 1, y: self.y }
    }

    pub fn top_block(&self) -> (r: Self)
        requires
            self.y < i32::MAX,
        ensures
            r == (UnitBlock { x: self.x, y: (self.y + 1) as i32 }),
    {
        UnitBlock { x: self.x, y: self.y + 1 }
    }

    /// Central blocks hold the left half of a cell below the diagonal
    /// `y = -3x + 2`; the others hold it above the diagonal `y = 3x - 1`.
    pub fn central(&self) -> (r: bool)
        ensures
            r == is_central(self.x as int, self.y as int),
    {
        (self.x as i64 + self.y as i64) % 2 == 0
    }

    /// The block whose origin is the center of the cell that holds a point of
    /// this block, where `in_left` tells whether the point lies in the left
    /// part of the block. That block is always central.
    pub fn hex_block(&self, in_left: bool) -> (r: Self)
        requires
            self.x < i32::MAX,
            self.y < i32::MAX,
        ensures
            r == hex_block_spec(*self, in_left),
            is_central(r.x as int, r.y as int),
    {
        match (self.central(), in_left) {
            (true, true) => *self,
            (true, false) => self.right_block().top_block(),
            (false, true) => self.top_block(),
            (false, false) => self.right_block(),
        }
    }
}

} // verus!
