//! Cells and the buffers that hold a frame of them.

use crate::geometry::{max_int, min_int, Rect};
use crate::style::{Color, Modifier};
use std::ops::Range;
use vstd::prelude::*;

verus! {

/// One cell of the screen: a symbol and the way it is shown.
#[derive(Debug, Eq, Hash)]
pub struct Cell {
    /// What stands in the cell; it may take up the columns of the cells that follow too.
    pub symbol: String,
    /// The foreground colour.
    pub fg: Color,
    /// The background colour.
    pub bg: Color,
    /// The colour of an underline.
    pub underline_color: Color,
    /// The text modifiers.
    pub modifier: Modifier,
    /// Whether the cell is left alone when a frame goes to the screen.
    pub skip: bool,
}

/// The mathematical value of a [`Cell`].
#[verifier::ext_equal]
pub struct CellView {
    pub symbol: Seq<char>,
    pub fg: Color,
    pub bg: Color,
    pub underline_color: Color,
    pub modifier: Modifier,
    pub skip: bool,
}

impl CellView {
    /// A space in the terminal's own colours.
    pub open spec fn empty() -> CellView {
        CellView {
            symbol: seq![' '],
            fg: Color::Reset,
            bg: Color::Reset,
            underline_color: Color::Reset,
            modifier: Modifier::none(),
            skip: false,
        }
    }

    /// A cell of which it is not known what the screen shows there: no cell that is written is
    /// equal to it.
    pub open spec fn unknown() -> CellView {
        CellView { skip: true, ..CellView::empty() }
    }
}

/// The cell shows nothing: a space in the terminal's own colours, without modifiers.
pub open spec fn is_vacant(cell: CellView) -> bool {
    &&& cell.symbol == seq![' ']
    &&& cell.fg == Color::Reset
    &&& cell.bg == Color::Reset
    &&& cell.underline_color == Color::Reset
    &&& cell.modifier.bits == 0
    &&& !cell.skip
}

impl View for Cell {
    type V = CellView;

    open spec fn view(&self) -> CellView {
        CellView {
            symbol: self.symbol@,
            fg: self.fg,
            bg: self.bg,
            underline_color: self.underline_color,
            modifier: self.modifier,
            skip: self.skip,
        }
    }
}

impl Clone for Cell {
    fn clone(&self) -> (cell: Cell)
        ensures
            cell@ == self@,
    {
        Cell {
            symbol: self.symbol.clone(),
            fg: self.fg,
            bg: self.bg,
            underline_color: self.underline_color,
            modifier: self.modifier,
            skip: self.skip,
        }
    }
}

impl PartialEq for Cell {
    fn eq(&self, other: &Cell) -> (same: bool) {
        self.symbol == other.symbol && self.fg == other.fg && self.bg == other.bg
            && self.underline_color == other.underline_color && self.modifier == other.modifier
            && self.skip == other.skip
    }
}

impl vstd::std_specs::cmp::PartialEqSpecImpl for Cell {
    open spec fn obeys_eq_spec() -> bool {
        true
    }

    open spec fn eq_spec(&self, other: &Cell) -> bool {
        self@ == other@
    }
}

impl Cell {
    /// The empty cell: a space in the terminal's own colours.
    pub fn empty() -> (cell: Cell)
        ensures
            cell@ == CellView::empty(),
            is_vacant(cell@),
    {
        let mut symbol = String::new();
        symbol.push(' ');
        assert(symbol@ =~= seq![' ']);
        Cell {
            symbol,
            fg: Color::Reset,
            bg: Color::Reset,
            underline_color: Color::Reset,
            modifier: Modifier::empty(),
            skip: false,
        }
    }

    /// A cell of which it is not known what the screen shows there.
    pub fn unknown() -> (cell: Cell)
        ensures
            cell@ == CellView::unknown(),
            cell@.skip,
            is_vacant(CellView { skip: false, ..cell@ }),
    {
        let mut cell = Cell::empty();
        cell.skip = true;
        cell
    }

    /// The symbol of the cell.
    pub fn symbol(&self) -> (symbol: &str)
        ensures
            symbol@ == self@.symbol,
    {
        self.symbol.as_str()
    }
}

/// The values of a row of cells.
pub open spec fn cell_views(cells: Seq<Cell>) -> Seq<CellView> {
    cells.map_values(|cell: Cell| cell@)
}

/// Row `y` of cells that stand row after row, `width` in each.
pub open spec fn row_at(content: Seq<CellView>, width: int, y: int) -> Seq<CellView> {
    content.subrange(y * width, y * width + width)
}

/// The rows lie one after the other among the cells.
pub proof fn lemma_row_bounds(width: int, height: int, y: int)
    requires
        0 <= y < height,
        0 <= width,
    ensures
        0 <= y * width,
        y * width + width <= width * height,
{
    assert(0 <= y * width && y * width + width <= width * height) by (nonlinear_arith)
        requires
            0 <= y < height,
            0 <= width,
    ;
}

/// A frame: the cells of an area, row after row.
#[derive(Debug, PartialEq, Eq, Hash)]
pub struct Buffer {
    /// The part of the screen that the buffer stands for.
    pub area: Rect,
    /// The cells of the area from left to right, row after row from the top.
    pub content: Vec<Cell>,
}

/// The mathematical value of a [`Buffer`].
#[verifier::ext_equal]
pub struct BufferView {
    pub area: Rect,
    pub content: Seq<CellView>,
}

impl View for Buffer {
    type V = BufferView;

    open spec fn view(&self) -> BufferView {
        BufferView { area: self.area, content: cell_views(self.content@) }
    }
}

impl BufferView {
    /// There is a cell for each place of the area, and no other.
    pub open spec fn well_formed(self) -> bool {
        self.content.len() == self.area.cell_count()
    }

    /// The cells of row `y`, counted from the top of the area.
    pub open spec fn row(self, y: int) -> Seq<CellView> {
        row_at(self.content, self.area.width as int, y)
    }

    /// The buffer of an area with nothing but empty cells.
    pub open spec fn blank(area: Rect) -> BufferView {
        BufferView {
            area,
            content: Seq::new(area.cell_count() as nat, |i: int| CellView::empty()),
        }
    }

    /// The buffer with every cell emptied.
    pub open spec fn cleared(self) -> BufferView {
        BufferView { content: Seq::new(self.content.len(), |i: int| CellView::empty()), ..self }
    }

    /// The buffer of which it is not known what the screen shows.
    pub open spec fn forgotten(self) -> BufferView {
        BufferView { content: Seq::new(self.content.len(), |i: int| CellView::unknown()), ..self }
    }

    /// The buffer over another area: as many cells from the start as the new area has room
    /// for, and empty cells where it has room for more.
    pub open spec fn resized(self, area: Rect) -> BufferView {
        BufferView {
            area,
            content: Seq::new(
                area.cell_count() as nat,
                |i: int|
                    if i < self.content.len() {
                        self.content[i]
                    } else {
                        CellView::empty()
                    },
            ),
        }
    }

    /// Whether the cell with index `i` lies in one of the screen rows from `start` on and
    /// before `end`.
    pub open spec fn in_rows(self, i: int, start: u16, end: u16) -> bool {
        let from = max_int(start as int, self.area.y as int) - self.area.y;
        let to = min_int(end as int, self.area.bottom_edge()) - self.area.y;
        from * self.area.width <= i < to * self.area.width
    }

    /// The buffer with the cells of the screen rows from `start` on and before `end` emptied.
    pub open spec fn with_rows_cleared(self, start: u16, end: u16) -> BufferView {
        BufferView {
            content: Seq::new(
                self.content.len(),
                |i: int|
                    if self.in_rows(i, start, end) {
                        CellView::empty()
                    } else {
                        self.content[i]
                    },
            ),
            ..self
        }
    }
}

impl Buffer {
    /// The buffer of an area with nothing but empty cells.
    pub fn empty(area: Rect) -> (buffer: Buffer)
        ensures
            buffer@ == BufferView::blank(area),
            buffer@.well_formed(),
            buffer@.area == area,
            buffer@.content.len() == area.width * area.height,
            forall|i: int|
                0 <= i < buffer@.content.len() ==> is_vacant(#[trigger] buffer@.content[i]),
    {
        let mut buffer = Buffer { area, content: Vec::new() };
        buffer.resize(area);
        assert(buffer@ =~= BufferView::blank(area));
        buffer
    }

    /// Gives the buffer another area. Cells keep their index; those for which there is no
    /// room are dropped, and places without a cell get an empty one.
    pub fn resize(&mut self, area: Rect)
        ensures
            final(self)@ == old(self)@.resized(area),
            final(self)@.well_formed(),
            final(self)@.area == area,
            final(self)@.content.len() == area.width * area.height,
            forall|i: int|
                0 <= i < final(self)@.content.len() ==> if i < old(self)@.content.len() {
                    #[trigger] final(self)@.content[i] == old(self)@.content[i]
                } else {
                    is_vacant(final(self)@.content[i])
                },
    {
        let length: usize = area.area();
        let ghost before = self@;
        self.content.truncate(length);
        while self.content.len() < length
            invariant
                length == area.cell_count(),
                min_int(before.content.len() as int, length as int) <= self.content.len() <= length,
                forall|i: int|
                    0 <= i < self.content.len() ==> #[trigger] self.content@[i]@
                        == before.resized(area).content[i],
            decreases length - self.content.len(),
        {
            self.content.push(Cell::empty());
        }
        self.area = area;
        assert(self@ =~= before.resized(area));
    }

    /// Empties every cell.
    pub fn reset(&mut self)
        ensures
            final(self)@ == old(self)@.cleared(),
            final(self)@.area == old(self)@.area,
            final(self)@.content.len() == old(self)@.content.len(),
            forall|i: int|
                0 <= i < final(self)@.content.len() ==> is_vacant(
                    #[trigger] final(self)@.content[i],
                ),
    {
        let length: usize = self.content.len();
        let ghost before = self@;
        let mut i: usize = 0;
        while i < length
            invariant
                i <= length,
                length == self.content.len(),
                length == before.content.len(),
                self.area == before.area,
                forall|j: int| 0 <= j < i ==> #[trigger] self.content@[j]@ == CellView::empty(),
            decreases length - i,
        {
            self.content.set(i, Cell::empty());
            i = i + 1;
        }
        assert(self@ =~= before.cleared());
    }

    /// Forgets of every cell what the screen shows there.
    pub fn forget(&mut self)
        ensures
            final(self)@ == old(self)@.forgotten(),
            final(self)@.area == old(self)@.area,
            final(self)@.content.len() == old(self)@.content.len(),
            forall|i: int|
                0 <= i < final(self)@.content.len() ==> (
                #[trigger] final(self)@.content[i]).skip,
    {
        let length: usize = self.content.len();
        let ghost before = self@;
        let mut i: usize = 0;
        while i < length
            invariant
                i <= length,
                length == self.content.len(),
                length == before.content.len(),
                self.area == before.area,
                forall|j: int| 0 <= j < i ==> #[trigger] self.content@[j]@ == CellView::unknown(),
            decreases length - i,
        {
            self.content.set(i, Cell::unknown());
            i = i + 1;
        }
        assert(self@ =~= before.forgotten());
    }
}

impl Clone for Buffer {
    fn clone(&self) -> (buffer: Buffer)
        ensures
            buffer@ == self@,
    {
        let mut content: Vec<Cell> = Vec::new();
        let mut i: usize = 0;
        while i < self.content.len()
            invariant
                i <= self.content.len(),
                content.len() == i,
                forall|j: int| 0 <= j < i ==> #[trigger] content@[j]@ == self.content@[j]@,
            decreases self.content.len() - i,
        {
            content.push(self.content[i].clone());
            i = i + 1;
        }
        let buffer = Buffer { area: self.area, content };
        assert(buffer@ =~= self@);
        buffer
    }
}

/// Empties the cells of the given screen rows, as far as they lie in the buffer.
pub fn clear_buffer_rows(buffer: &mut Buffer, rows: Range<u16>)
    requires
        old(buffer)@.well_formed(),
    ensures
        final(buffer)@ == old(buffer)@.with_rows_cleared(rows.start, rows.end),
        final(buffer)@.well_formed(),
        forall|k: int, j: int|
            0 <= k < old(buffer)@.area.height && 0 <= j < old(buffer)@.area.width ==> if rows.start
                <= old(buffer)@.area.y + k < rows.end {
                is_vacant(#[trigger] final(buffer)@.row(k)[j])
            } else {
                final(buffer)@.row(k)[j] == old(buffer)@.row(k)[j]
            },
{
    proof {
        assert forall|k: int, j: int|
            0 <= k < old(buffer)@.area.height && 0 <= j < old(buffer)@.area.width implies if rows.start
            <= old(buffer)@.area.y + k < rows.end {
            is_vacant(#[trigger] old(buffer)@.with_rows_cleared(rows.start, rows.end).row(k)[j])
        } else {
            old(buffer)@.with_rows_cleared(rows.start, rows.end).row(k)[j] == old(
                buffer,
            )@.row(k)[j]
        } by {
            law_cleared_rows(old(buffer)@, rows.start, rows.end, k, j);
        }
    }
    let area = buffer.area;
    let width: usize = area.width as usize;
    let ghost before = buffer@;
    let bottom: u16 = area.bottom();
    let start: u16 = if rows.start >= area.y {
        rows.start
    } else {
        area.y
    };
    let end: u16 = if rows.end <= bottom {
        rows.end
    } else {
        bottom
    };
    if width == 0 || start >= end {
        proof {
            assert((end - area.y) * area.width <= (start - area.y) * area.width)
                by (nonlinear_arith)
                requires
                    area.width == 0 || start >= end,
            ;
            assert(buffer@ =~= before.with_rows_cleared(rows.start, rows.end));
        }
        return;
    }
    let above: usize = (start - area.y) as usize;
    let through: usize = (end - area.y) as usize;
    proof {
        assert(0 <= above * width <= through * width <= area.width * area.height)
            by (nonlinear_arith)
            requires
                above <= through <= area.height,
                width == area.width,
        ;
        assert(before.content.len() == buffer.content.len());
    }
    let first: usize = above * width;
    let last: usize = through * width;
    let mut i: usize = first;
    while i < last
        invariant
            first <= i <= last <= buffer.content.len(),
            buffer.content.len() == before.content.len(),
            buffer.area == before.area,
            forall|j: int|
                0 <= j < buffer.content.len() ==> #[trigger] buffer.content@[j]@ == (if first <= j
                    < i {
                    CellView::empty()
                } else {
                    before.content[j]
                }),
        decreases last - i,
    {
        buffer.content.set(i, Cell::empty());
        i = i + 1;
    }
    assert(buffer@ =~= before.with_rows_cleared(rows.start, rows.end));
}

/// The cells of a frame stand row after row from the top, and from left to right in each row.
pub proof fn law_cells_stand_row_by_row(buffer: BufferView, k: int, j: int)
    requires
        buffer.well_formed(),
        0 <= k < buffer.area.height,
        0 <= j < buffer.area.width,
    ensures
        buffer.content.len() == buffer.area.width * buffer.area.height,
        buffer.row(k).len() == buffer.area.width,
        buffer.row(k)[j] == buffer.content[k * buffer.area.width + j],
{
    lemma_row_bounds(buffer.area.width as int, buffer.area.height as int, k);
}

/// The value of a list of cells is that of each cell, in the same order, and the value of a buffer
/// that of its area and its cells.
pub proof fn law_cell_views(cells: Seq<Cell>, buffer: Buffer, i: int)
    ensures
        cell_views(cells).len() == cells.len(),
        0 <= i < cells.len() ==> cell_views(cells)[i] == cells[i]@,
        buffer@.area == buffer.area,
        buffer@.content.len() == buffer.content@.len(),
        0 <= i < buffer.content@.len() ==> buffer@.content[i] == buffer.content@[i]@,
{
}

/// Places of an area that lie in some of its rows have their cells from the first of these rows on
/// and before the first row behind them.
proof fn lemma_in_rows(width: int, from: int, to: int, k: int, j: int)
    requires
        0 <= j < width,
    ensures
        from * width <= k * width + j < to * width <==> from <= k < to,
{
    assert(from <= k ==> from * width <= k * width + j) by (nonlinear_arith)
        requires
            0 <= j < width,
    ;
    assert(k < from ==> k * width + j < from * width) by (nonlinear_arith)
        requires
            0 <= j < width,
    ;
    assert(k < to ==> k * width + j < to * width) by (nonlinear_arith)
        requires
            0 <= j < width,
    ;
    assert(to <= k ==> to * width <= k * width + j) by (nonlinear_arith)
        requires
            0 <= j < width,
    ;
}

/// Emptying screen rows empties every cell in a row from the first on and before the end, and no
/// other cell; rows outside of the buffer do not count.
pub proof fn law_cleared_rows(buffer: BufferView, start: u16, end: u16, k: int, j: int)
    requires
        buffer.well_formed(),
        0 <= k < buffer.area.height,
        0 <= j < buffer.area.width,
    ensures
        ({
            let after = buffer.with_rows_cleared(start, end);
            &&& after.area == buffer.area
            &&& after.content.len() == buffer.content.len()
            &&& start <= buffer.area.y + k < end ==> is_vacant(after.row(k)[j])
            &&& !(start <= buffer.area.y + k < end) ==> after.row(k)[j] == buffer.row(k)[j]
        }),
{
    let width = buffer.area.width as int;
    let from = max_int(start as int, buffer.area.y as int) - buffer.area.y;
    let to = min_int(end as int, buffer.area.bottom_edge()) - buffer.area.y;
    lemma_row_bounds(width, buffer.area.height as int, k);
    lemma_in_rows(width, from, to, k, j);
    assert(buffer.with_rows_cleared(start, end).row(k)[j] == buffer.with_rows_cleared(
        start,
        end,
    ).content[k * width + j]);
}

/// Emptying the same rows once more changes nothing, and neither does emptying no row.
pub proof fn law_cleared_rows_stay(buffer: BufferView, start: u16, end: u16)
    ensures
        buffer.with_rows_cleared(start, end).with_rows_cleared(start, end)
            == buffer.with_rows_cleared(start, end),
        buffer.with_rows_cleared(start, start) == buffer,
{
    let once = buffer.with_rows_cleared(start, end);
    assert(once.with_rows_cleared(start, end) =~= once);
    let width = buffer.area.width as int;
    let from = max_int(start as int, buffer.area.y as int) - buffer.area.y;
    let to = min_int(start as int, buffer.area.bottom_edge()) - buffer.area.y;
    assert(to * width <= from * width) by (nonlinear_arith)
        requires
            to <= from,
            0 <= width,
    ;
    assert(buffer.with_rows_cleared(start, start) =~= buffer);
}

} // verus!
