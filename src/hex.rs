use vstd::prelude::*;

verus! {

/// The six corners of a flat-top hexagon, clockwise from the upper left.
#[derive(Clone, Copy, Debug, PartialEq, Eq, Structural)]
pub enum VertexDir {
    LeftTop,
    RightTop,
    Right,
    RightBot,
    LeftBot,
    Left,
}

/// The corner that comes at position `i` of the canonical corner order.
pub open spec fn vertex_dir_at(i: int) -> Option<VertexDir> {
    if i == 0 {
        Some(VertexDir::LeftTop)
    } else if i == 1 {
        Some(VertexDir::RightTop)
    } else if i == 2 {
        Some(VertexDir::Right)
    } else if i == 3 {
        Some(VertexDir::RightBot)
    } else if i == 4 {
        Some(VertexDir::LeftBot)
    } else if i == 5 {
        Some(VertexDir::Left)
    } else {
        None
    }
}

/// Walks the six corner directions once, in canonical order.
#[derive(Debug)]
pub struct VertexDirIter {
    counter: usize,
}

impl VertexDirIter {
    /// How many directions have been handed out so far.
    pub closed spec fn position(&self) -> nat {
        self.counter as nat
    }

    pub fn new() -> (r: Self)
        ensures
            r.position() == 0,
    {
        VertexDirIter { counter: 0 }
    }

    pub fn next(&mut self) -> (r: Option<VertexDir>)
        requires
            old(self).position() <= 6,
        ensures
            r == vertex_dir_at(old(self).position() as int),
            final(self).position() == if old(self).position() < 6 {
                old(self).position() + 1
            } else {
                6
            },
    {
        let result = match self.counter {
            0 => Some(VertexDir::LeftTop),
            1 => Some(VertexDir::RightTop),
            2 => Some(VertexDir::Right),
            3 => Some(VertexDir::RightBot),
            4 => Some(VertexDir::LeftBot),
            5 => Some(VertexDir::Left),
            _ => None,
        };
        if self.counter < 6 {
            self.counter = self.counter + 1;
        }
        result
    }
}

/// The six neighbor directions of a flat-top hexagon, clockwise from the top.
#[derive(Clone, Copy, Debug, PartialEq, Eq, Structural)]
pub enum HexDir {
    Top,
    RightTop,
    RightBot,
    Bot,
    LeftBot,
    LeftTop,
}

/// The direction that comes at position `i` of the canonical neighbor order.
pub open spec fn hex_dir_at(i: int) -> Option<HexDir> {
    if i == 0 {
        Some(HexDir::Top)
    } else if i == 1 {
        Some(HexDir::RightTop)
    } else if i == 2 {
        Some(HexDir::RightBot)
    } else if i == 3 {
        Some(HexDir::Bot)
    } else if i == 4 {
        Some(HexDir::LeftBot)
    } else if i == 5 {
        Some(HexDir::LeftTop)
    } else {
        None
    }
}

impl HexDir {
    /// Horizontal step of this direction, in units of three quarters of a width.
    pub open spec fn dx(self) -> int {
        match self {
            HexDir::Top => 0,
            HexDir::RightTop => 1,
            HexDir::RightBot => 1,
            HexDir::Bot => 0,
            HexDir::LeftBot => -1,
            HexDir::LeftTop => -1,
        }
    }

    /// Vertical step of this direction, in units of half a height.
    pub open spec fn dy(self) -> int {
        match self {
            HexDir::Top => 2,
            HexDir::RightTop => 1,
            HexDir::RightBot => -1,
            HexDir::Bot => -2,
            HexDir::LeftBot => -1,
            HexDir::LeftTop => 1,
        }
    }

    pub open spec fn opposite_spec(self) -> HexDir {
        match self {
            HexDir::Top => HexDir::Bot,
            HexDir::RightTop => HexDir::LeftBot,
            HexDir::RightBot => HexDir::LeftTop,
            HexDir::Bot => HexDir::Top,
            HexDir::LeftBot => HexDir::RightTop,
            HexDir::LeftTop => HexDir::RightBot,
        }
    }

    /// The direction pointing back.
    pub fn opposite(&self) -> (r: HexDir)
        ensures
            r == self.opposite_spec(),
            r.dx() == -self.dx(),
            r.dy() == -self.dy(),
    {
        match self {
            HexDir::Top => HexDir::Bot,
            HexDir::RightTop => HexDir::LeftBot,
            HexDir::RightBot => HexDir::LeftTop,
            HexDir::Bot => HexDir::Top,
            HexDir::LeftBot => HexDir::RightTop,
            HexDir::LeftTop => HexDir::RightBot,
        }
    }
}

/// Walks the six neighbor directions once, in canonical order.
#[derive(Debug)]
pub struct HexDirIter {
    counter: usize,
}

impl HexDirIter {
    /// How many directions have been handed out so far.
    pub closed spec fn position(&self) -> nat {
        self.counter as nat
    }

    pub fn new() -> (r: Self)
        ensures
            r.position() == 0,
    {
        HexDirIter { counter: 0 }
    }

    pub fn next(&mut self) -> (r: Option<HexDir>)
        requires
            old(self).position() <= 6,
        ensures
            r == hex_dir_at(old(self).position() as int),
            final(self).position() == if old(self).position() < 6 {
                old(self).position() + 1
            } else {
                6
            },
    {
        let result = match self.counter {
            0 => Some(HexDir::Top),
            1 => Some(HexDir::RightTop),
            2 => Some(HexDir::RightBot),
            3 => Some(HexDir::Bot),
            4 => Some(HexDir::LeftBot),
            5 => Some(HexDir::LeftTop),
            _ => None,
        };
        if self.counter < 6 {
            self.counter = self.counter + 1;
        }
        result
    }
}

/// The size of the cells of one grid, as the IEEE-754 single precision bit
/// patterns of the cell width and height. Two cells belong to the same grid
/// only when these patterns are identical.
#[derive(Clone, Copy, Debug, PartialEq, Eq, Hash, Structural)]
pub struct HexSize {
    pub width_bits: u32,
    pub height_bits: u32,
}

/// A point of the lattice whose steps are a quarter of a cell width
/// horizontally and half a cell height vertically.
#[derive(Clone, Copy, Debug, PartialEq, Eq, Hash, Structural)]
pub struct GridPoint {
    pub x: i64,
    pub y: i64,
}

/// One cell of a hexagonal grid. `x` and `y` are the integer bucket of its
/// center, measured in units of three quarters of the cell width and half
/// the cell height. Equality is equality of the bucket and of the size.
#[derive(Clone, Copy, Debug, PartialEq, Eq, Hash, Structural)]
pub struct Hex {
    pub x: i32,
    pub y: i32,
    pub size: HexSize,
}

impl Hex {
    /// The cell's neighbors all have coordinates that fit in an `i32`.
    pub open spec fn interior(self) -> bool {
        i32::MIN < self.x < i32::MAX && i32::MIN + 2 <= self.y <= i32::MAX - 2
    }

    /// The neighbor in direction `d` has coordinates that fit in an `i32`.
    pub open spec fn has_neighbor(self, d: HexDir) -> bool {
        i32::MIN <= self.x + d.dx() <= i32::MAX && i32::MIN <= self.y + d.dy() <= i32::MAX
    }

    /// The cell next to this one in direction `d`.
    pub open spec fn neighbor_spec(self, d: HexDir) -> Hex {
        Hex { x: (self.x + d.dx()) as i32, y: (self.y + d.dy()) as i32, size: self.size }
    }

    pub open spec fn center_spec(self) -> GridPoint {
        GridPoint { x: (3 * self.x) as i64, y: self.y as i64 }
    }

    pub fn new(x: i32, y: i32, size: HexSize) -> (r: Self)
        ensures
            r == (Hex { x, y, size }),
    {
        Hex { x, y, size }
    }

    /// The center of the cell on the lattice of quarter widths and half heights.
    pub fn center(&self) -> (r: GridPoint)
        ensures
            r == self.center_spec(),
    {
        GridPoint { x: 3 * (self.x as i64), y: self.y as i64 }
    }

    pub fn size(&self) -> (r: HexSize)
        ensures
            r == self.size,
    {
        self.size
    }

    /// The step from this cell's center to its neighbor's center in
    /// direction `dir`, on the lattice of quarter widths and half heights.
    pub fn hex_dir_to_vec(&self, dir: HexDir) -> (r: GridPoint)
        ensures
            r == (GridPoint { x: (3 * dir.dx()) as i64, y: dir.dy() as i64 }),
    {
        match dir {
            HexDir::Top => GridPoint { x: 0, y: 2 },
            HexDir::RightTop => GridPoint { x: 3, y: 1 },
            HexDir::RightBot => GridPoint { x: 3, y: -1 },
            HexDir::Bot => GridPoint { x: 0, y: -2 },
            HexDir::LeftBot => GridPoint { x: -3, y: -1 },
            HexDir::LeftTop => GridPoint { x: -3, y: 1 },
        }
    }

    pub fn neighbor(&self, dir: HexDir) -> (r: Self)
        requires
            self.has_neighbor(dir),
        ensures
            r == self.neighbor_spec(dir),
            r.x == self.x + dir.dx(),
            r.y == self.y + dir.dy(),
    {
        let (dx, dy): (i32, i32) = match dir {
            HexDir::Top => (0, 2),
            HexDir::RightTop => (1, 1),
            HexDir::RightBot => (1, -1),
            HexDir::Bot => (0, -2),
            HexDir::LeftBot => (-1, -1),
            HexDir::LeftTop => (-1, 1),
        };
        Hex { x: self.x + dx, y: self.y + dy, size: self.size }
    }

    /// The six neighbors, in canonical order, computed on demand.
    pub fn neighbors(&self) -> (r: NeighborIterator)
        requires
            self.interior(),
        ensures
            r.source() == *self,
            r.position() == 0,
    {
        NeighborIterator::new(*self)
    }

    pub fn top_hex(&self) -> (r: Self)
        requires
            self.has_neighbor(HexDir::Top),
        ensures
            r == self.neighbor_spec(HexDir::Top),
    {
        self.neighbor(HexDir::Top)
    }

    pub fn right_top_hex(&self) -> (r: Self)
        requires
            self.has_neighbor(HexDir::RightTop),
        ensures
            r == self.neighbor_spec(HexDir::RightTop),
    {
        self.neighbor(HexDir::RightTop)
    }

    pub fn right_bot_hex(&self) -> (r: Self)
        requires
            self.has_neighbor(HexDir::RightBot),
        ensures
            r == self.neighbor_spec(HexDir::RightBot),
    {
        self.neighbor(HexDir::RightBot)
    }

    pub fn bot_hex(&self) -> (r: Self)
        requires
            self.has_neighbor(HexDir::Bot),
        ensures
            r == self.neighbor_spec(HexDir::Bot),
    {
        self.neighbor(HexDir::Bot)
    }

    pub fn left_bot_hex(&self) -> (r: Self)
        requires
            self.has_neighbor(HexDir::LeftBot),
        ensures
            r == self.neighbor_spec(HexDir::LeftBot),
    {
        self.neighbor(HexDir::LeftBot)
    }

    pub fn left_top_hex(&self) -> (r: Self)
        requires
            self.has_neighbor(HexDir::LeftTop),
        ensures
            r == self.neighbor_spec(HexDir::LeftTop),
    {
        self.neighbor(HexDir::LeftTop)
    }
}

/// Offset of a corner from the center, in quarter widths and half heights.
pub open spec fn vertex_offset(dir: VertexDir) -> GridPoint {
    match dir {
        VertexDir::LeftTop => GridPoint { x: -1 as i64, y: 1 as i64 },
        VertexDir::RightTop => GridPoint { x: 1 as i64, y: 1 as i64 },
        VertexDir::Right => GridPoint { x: 2 as i64, y: 0 as i64 },
        VertexDir::RightBot => GridPoint { x: 1 as i64, y: -1 as i64 },
        VertexDir::LeftBot => GridPoint { x: -1 as i64, y: -1 as i64 },
        VertexDir::Left => GridPoint { x: -2 as i64, y: 0 as i64 },
    }
}

impl Hex {
    pub open spec fn vertex_spec(self, dir: VertexDir) -> GridPoint {
        GridPoint {
            x: (3 * self.x + vertex_offset(dir).x) as i64,
            y: (self.y + vertex_offset(dir).y) as i64,
        }
    }

    /// The step from the center to the corner `dir`.
    pub fn vec_to_vertex(&self, dir: VertexDir) -> (r: GridPoint)
        ensures
            r == vertex_offset(dir),
    {
        match dir {
            VertexDir::LeftTop => GridPoint { x: -1, y: 1 },
            VertexDir::RightTop => GridPoint { x: 1, y: 1 },
            VertexDir::Right => GridPoint { x: 2, y: 0 },
            VertexDir::RightBot => GridPoint { x: 1, y: -1 },
            VertexDir::LeftBot => GridPoint { x: -1, y: -1 },
            VertexDir::Left => GridPoint { x: -2, y: 0 },
        }
    }

    pub fn vertex(&self, dir: VertexDir) -> (r: GridPoint)
        ensures
            r == self.vertex_spec(dir),
    {
        let c = self.center();
        let v = self.vec_to_vertex(dir);
        GridPoint { x: c.x + v.x, y: c.y + v.y }
    }

    /// The six corners, in canonical order, computed on demand.
    pub fn vertices(&self) -> (r: VertexIterator)
        ensures
            r.source() == *self,
            r.position() == 0,
    {
        VertexIterator::new(*self)
    }

    pub fn left_top_vert(&self) -> (r: GridPoint)
        ensures
            r == self.vertex_spec(VertexDir::LeftTop),
    {
        self.vertex(VertexDir::LeftTop)
    }

    pub fn right_top_vert(&self) -> (r: GridPoint)
        ensures
            r == self.vertex_spec(VertexDir::RightTop),
    {
        self.vertex(VertexDir::RightTop)
    }

    pub fn right_vert(&self) -> (r: GridPoint)
        ensures
            r == self.vertex_spec(VertexDir::Right),
    {
        self.vertex(VertexDir::Right)
    }

    pub fn right_bot_vert(&self) -> (r: GridPoint)
        ensures
            r == self.vertex_spec(VertexDir::RightBot),
    {
        self.vertex(VertexDir::RightBot)
    }

    pub fn left_bot_vert(&self) -> (r: GridPoint)
        ensures
            r == self.vertex_spec(VertexDir::LeftBot),
    {
        self.vertex(VertexDir::LeftBot)
    }

    pub fn left_vert(&self) -> (r: GridPoint)
        ensures
            r == self.vertex_spec(VertexDir::Left),
    {
        self.vertex(VertexDir::Left)
    }
}

/// Hands out the six neighbors of one cell, in canonical order.
#[derive(Debug)]
pub struct NeighborIterator {
    hex: Hex,
    dir_iter: HexDirIter,
}

impl NeighborIterator {
    pub closed spec fn source(&self) -> Hex {
        self.hex
    }

    pub closed spec fn position(&self) -> nat {
        self.dir_iter.position()
    }

    pub fn new(hex: Hex) -> (r: Self)
        ensures
            r.source() == hex,
            r.position() == 0,
    {
        NeighborIterator { hex, dir_iter: HexDirIter::new() }
    }

    pub fn next(&mut self) -> (r: Option<Hex>)
        requires
            old(self).source().interior(),
            old(self).position() <= 6,
        ensures
            r == match hex_dir_at(old(self).position() as int) {
                Some(d) => Some(old(self).source().neighbor_spec(d)),
                None => None,
            },
            final(self).source() == old(self).source(),
            final(self).position() == if old(self).position() < 6 {
                old(self).position() + 1
            } else {
                6
            },
    {
        match self.dir_iter.next() {
            Some(dir) => Some(self.hex.neighbor(dir)),
            None => None,
        }
    }
}

/// Hands out the six corners of one cell, in canonical order.
#[derive(Debug)]
pub struct VertexIterator {
    hex: Hex,
    dir_iter: VertexDirIter,
}

impl VertexIterator {
    pub closed spec fn source(&self) -> Hex {
        self.hex
    }

    pub closed spec fn position(&self) -> nat {
        self.dir_iter.position()
    }

    pub fn new(hex: Hex) -> (r: Self)
        ensures
            r.source() == hex,
            r.position() == 0,
    {
        VertexIterator { hex, dir_iter: VertexDirIter::new() }
    }

    pub fn next(&mut self) -> (r: Option<GridPoint>)
        requires
            old(self).position() <= 6,
        ensures
            r == match vertex_dir_at(old(self).position() as int) {
                Some(d) => Some(old(self).source().vertex_spec(d)),
                None => None,
            },
            final(self).source() == old(self).source(),
            final(self).position() == if old(self).position() < 6 {
                old(self).position() + 1
            } else {
                6
            },
    {
        match self.dir_iter.next() {
            Some(dir) => Some(self.hex.vertex(dir)),
            None => None,
        }
    }
}

/// Whether `b` is one of the six neighbors of `a`.
pub open spec fn adjacent(a: Hex, b: Hex) -> bool {
    &&& a.size == b.size
    &&& {
        ||| b.x == a.x && (b.y == a.y + 2 || b.y == a.y - 2)
        ||| (b.x == a.x + 1 || b.x == a.x - 1) && (b.y == a.y + 1 || b.y == a.y - 1)
    }
}

/// Every direction has a place in the canonical neighbor order.
pub proof fn lemma_hex_dir_index(d: HexDir) -> (k: int)
    ensures
        0 <= k < 6,
        hex_dir_at(k) == Some(d),
{
    match d {
        HexDir::Top => 0,
        HexDir::RightTop => 1,
        HexDir::RightBot => 2,
        HexDir::Bot => 3,
        HexDir::LeftBot => 4,
        HexDir::LeftTop => 5,
    }
}

/// Stepping to a neighbor and back returns to the very same cell, in every
/// direction.
pub proof fn lemma_neighbor_round_trip(h: Hex, d: HexDir)
    requires
        h.interior(),
    ensures
        h.neighbor_spec(d).neighbor_spec(d.opposite_spec()) == h,
        adjacent(h, h.neighbor_spec(d)),
{
}

} // verus!
