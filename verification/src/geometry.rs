//! Positions, sizes and rectangles of terminal cells.

use vstd::prelude::*;

verus! {

/// A cell's coordinates, counted from the top left corner of the screen.
#[derive(Debug, Clone, Copy, PartialEq, Eq, Hash, Structural)]
pub struct Position {
    /// The column.
    pub x: u16,
    /// The row.
    pub y: u16,
}

/// The dimensions of a screen, in cells.
#[derive(Debug, Clone, Copy, PartialEq, Eq, Hash, Structural)]
pub struct Size {
    /// The number of columns.
    pub width: u16,
    /// The number of rows.
    pub height: u16,
}

/// A rectangle of cells.
#[derive(Debug, Clone, Copy, PartialEq, Eq, Hash, Structural)]
pub struct Rect {
    /// The column of the top left cell.
    pub x: u16,
    /// The row of the top left cell.
    pub y: u16,
    /// The number of columns.
    pub width: u16,
    /// The number of rows.
    pub height: u16,
}

impl Position {
    /// The position can be said to a terminal, which counts rows and columns from one.
    pub open spec fn encodable(self) -> bool {
        self.x < u16::MAX && self.y < u16::MAX
    }
}

/// The smaller of two integers.
pub open spec fn min_int(a: int, b: int) -> int {
    if a <= b {
        a
    } else {
        b
    }
}

/// The larger of two integers.
pub open spec fn max_int(a: int, b: int) -> int {
    if a >= b {
        a
    } else {
        b
    }
}

impl Rect {
    /// The rectangle without cells at the origin.
    pub open spec fn zero() -> Rect {
        Rect { x: 0, y: 0, width: 0, height: 0 }
    }

    /// The number of cells in the rectangle.
    pub open spec fn cell_count(self) -> int {
        self.width * self.height
    }

    /// The first row below the rectangle, as far as a coordinate can say it.
    pub open spec fn bottom_edge(self) -> int {
        min_int(self.y + self.height, u16::MAX as int)
    }

    /// Every cell of the rectangle has coordinates.
    pub open spec fn addressable(self) -> bool {
        &&& self.x + self.width <= 0x1_0000
        &&& self.y + self.height <= 0x1_0000
    }

    /// The first column and the first row beyond the rectangle are coordinates too.
    pub open spec fn bounded(self) -> bool {
        &&& self.x + self.width <= u16::MAX
        &&& self.y + self.height <= u16::MAX
    }

    /// A rectangle whose width and height are cut down until it is bounded.
    pub fn new(x: u16, y: u16, width: u16, height: u16) -> (rect: Rect)
        ensures
            rect.bounded(),
            rect.x == x,
            rect.y == y,
            rect.width == min_int(width as int, u16::MAX - x),
            rect.height == min_int(height as int, u16::MAX - y),
            x + width <= u16::MAX ==> rect.width == width,
            x + width > u16::MAX ==> rect.x + rect.width == u16::MAX,
            y + height <= u16::MAX ==> rect.height == height,
            y + height > u16::MAX ==> rect.y + rect.height == u16::MAX,
    {
        let max_width: u16 = u16::MAX - x;
        let max_height: u16 = u16::MAX - y;
        Rect {
            x,
            y,
            width: if width > max_width {
                max_width
            } else {
                width
            },
            height: if height > max_height {
                max_height
            } else {
                height
            },
        }
    }

    /// The row of the topmost cells.
    pub fn top(self) -> (row: u16)
        ensures
            row == self.y,
    {
        self.y
    }

    /// The first row below the rectangle; the largest coordinate where that is no coordinate.
    pub fn bottom(self) -> (row: u16)
        ensures
            row == self.bottom_edge(),
            self.y + self.height <= u16::MAX ==> row == self.y + self.height,
            self.y + self.height > u16::MAX ==> row == u16::MAX,
    {
        self.y.saturating_add(self.height)
    }

    /// Whether the rectangle holds no cell.
    pub fn is_empty(self) -> (empty: bool)
        ensures
            empty == (self.cell_count() == 0),
            empty == (self.width == 0 || self.height == 0),
    {
        proof {
            assert(self.width * self.height == 0 <==> self.width == 0 || self.height == 0)
                by (nonlinear_arith);
        }
        self.width == 0 || self.height == 0
    }

    /// The position of the top left cell.
    pub fn as_position(self) -> (position: Position)
        ensures
            position.x == self.x,
            position.y == self.y,
    {
        Position { x: self.x, y: self.y }
    }

    /// The number of cells in the rectangle.
    pub fn area(self) -> (count: usize)
        ensures
            count == self.cell_count(),
            count == self.width * self.height,
    {
        proof {
            assert(0 <= self.width * self.height <= 0xffff * 0xffff) by (nonlinear_arith)
                requires
                    self.width <= 0xffff,
                    self.height <= 0xffff,
            ;
        }
        self.width as usize * self.height as usize
    }
}

} // verus!
