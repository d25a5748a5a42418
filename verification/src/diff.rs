//! The commands that lead from one frame to the next.

use crate::buffer::{
    cell_views, lemma_row_bounds, row_at, Buffer, BufferView, Cell, CellView,
};
use crate::geometry::{max_int, min_int};
use crate::screen::{shows_nothing, span};
use crate::style::{Color, Modifier};
use crate::width::{columns, display_width};
use vstd::prelude::*;
use vstd::slice::slice_subrange;

verus! {

/// A change to the screen.
#[derive(Debug)]
pub enum DrawCommand {
    /// Shows a cell.
    Put { x: u16, y: u16, cell: Cell },
    /// Empties the line from a column on, in a background colour.
    ClearToEnd { x: u16, y: u16, bg: Color },
}

/// The mathematical value of a [`DrawCommand`].
#[verifier::ext_equal]
pub enum DrawCommandView {
    Put { x: u16, y: u16, cell: CellView },
    ClearToEnd { x: u16, y: u16, bg: Color },
}

impl View for DrawCommand {
    type V = DrawCommandView;

    open spec fn view(&self) -> DrawCommandView {
        match self {
            DrawCommand::Put { x, y, cell } => DrawCommandView::Put { x: *x, y: *y, cell: cell@ },
            DrawCommand::ClearToEnd { x, y, bg } => DrawCommandView::ClearToEnd {
                x: *x,
                y: *y,
                bg: *bg,
            },
        }
    }
}

impl DrawCommand {
    /// Whether the command shows a cell.
    pub fn is_put(&self) -> (yes: bool)
        ensures
            yes == (self@ is Put),
    {
        match self {
            DrawCommand::Put { .. } => true,
            DrawCommand::ClearToEnd { .. } => false,
        }
    }
}

/// The values of a list of commands.
pub open spec fn command_views(commands: Seq<DrawCommand>) -> Seq<DrawCommandView> {
    commands.map_values(|command: DrawCommand| command@)
}

/// How far it is from a cell to the next one that shows: at least one column.
pub open spec fn step_of(cell: CellView) -> int {
    max_int(columns(cell.symbol), 1)
}

/// The background colour at the end of a row.
pub open spec fn trailing_bg(row: Seq<CellView>) -> Color {
    if row.len() == 0 {
        Color::Reset
    } else {
        row.last().bg
    }
}

/// Clearing the cell's place in the background colour shows the same as the cell.
pub open spec fn is_blank(cell: CellView, bg: Color) -> bool {
    cell.symbol == seq![' '] && cell.bg == bg && cell.modifier == Modifier::none()
}

/// The last cell of a row that is not blank.
pub open spec fn last_nonblank_cell(row: Seq<CellView>, bg: Color) -> Option<int>
    decreases row.len(),
{
    if row.len() == 0 {
        None
    } else if is_blank(row.last(), bg) {
        last_nonblank_cell(row.drop_last(), bg)
    } else {
        Some(row.len() - 1)
    }
}

/// The last column that the last cell of a row that is not blank takes up.
pub open spec fn last_nonblank(row: Seq<CellView>, bg: Color) -> Option<int> {
    match last_nonblank_cell(row, bg) {
        None => None,
        Some(column) => Some(column + max_int(columns(row[column].symbol) - 1, 0)),
    }
}

/// Where the part of a row ends that is drawn cell by cell.
pub open spec fn drawn_until(row: Seq<CellView>) -> int {
    match last_nonblank(row, trailing_bg(row)) {
        None => 0,
        Some(column) => column,
    }
}

/// The cells of a row to show from `column` on, where `reach` is the first column that no
/// symbol before `column`, new or replaced, has touched: those that differ from what was there
/// before, and those that have been touched.
pub open spec fn puts(
    prev: Seq<CellView>,
    next: Seq<CellView>,
    x: int,
    y: int,
    column: int,
    reach: int,
    last: int,
) -> Seq<DrawCommandView>
    decreases max_int(next.len() - column, 0),
{
    if column >= next.len() || column > last {
        seq![]
    } else {
        let cell = next[column];
        let here = if !cell.skip && (cell != prev[column] || reach > column) {
            seq![DrawCommandView::Put { x: (x + column) as u16, y: y as u16, cell }]
        } else {
            seq![]
        };
        let touched = column + max_int(columns(cell.symbol), columns(prev[column].symbol));
        here + puts(prev, next, x, y, column + step_of(cell), max_int(reach, touched), last)
    }
}

/// The command for the rest of a row, where something has changed there.
pub open spec fn tail_clear(
    prev: Seq<CellView>,
    next: Seq<CellView>,
    x: int,
    y: int,
    last: int,
) -> Seq<DrawCommandView> {
    if last + 1 < next.len() && prev.skip(last + 1) != next.skip(last + 1) {
        seq![
            DrawCommandView::ClearToEnd {
                x: (x + last + 1) as u16,
                y: y as u16,
                bg: trailing_bg(next),
            },
        ]
    } else {
        seq![]
    }
}

/// The commands that lead from one row to another, where the row starts at `(x, y)`.
pub open spec fn row_commands(prev: Seq<CellView>, next: Seq<CellView>, x: int, y: int) -> Seq<
    DrawCommandView,
> {
    if prev == next {
        seq![]
    } else {
        let last = drawn_until(next);
        puts(prev, next, x, y, 0, 0, last) + tail_clear(prev, next, x, y, last)
    }
}

/// The commands for the first `n` rows of a frame.
pub open spec fn rows_commands(a: BufferView, b: BufferView, n: int) -> Seq<DrawCommandView>
    decreases n,
{
    if n <= 0 {
        seq![]
    } else {
        let width = a.area.width as int;
        rows_commands(a, b, n - 1) + row_commands(
            row_at(a.content, width, n - 1),
            row_at(b.content, width, n - 1),
            a.area.x as int,
            a.area.y + n - 1,
        )
    }
}

/// The commands that lead from one frame to another.
pub open spec fn diff_commands(a: BufferView, b: BufferView) -> Seq<DrawCommandView> {
    rows_commands(a, b, a.area.height as int)
}

/// The last cell that is not blank is in the row, is not blank, and only blank cells follow it.
pub proof fn lemma_last_nonblank_cell(row: Seq<CellView>, bg: Color)
    ensures
        match last_nonblank_cell(row, bg) {
            None => forall|i: int| 0 <= i < row.len() ==> is_blank(#[trigger] row[i], bg),
            Some(last) => {
                &&& 0 <= last < row.len()
                &&& !is_blank(row[last], bg)
                &&& forall|i: int| last < i < row.len() ==> is_blank(#[trigger] row[i], bg)
            },
        },
    decreases row.len(),
{
    if row.len() > 0 && is_blank(row.last(), bg) {
        let front = row.drop_last();
        lemma_last_nonblank_cell(front, bg);
        assert forall|i: int|
            (match last_nonblank_cell(row, bg) {
                None => 0 <= i,
                Some(last) => last < i,
            }) && i < row.len() implies is_blank(#[trigger] row[i], bg) by {
            if i < row.len() - 1 {
                assert(row[i] == front[i]);
            }
        }
    }
}

/// The last cell that is not blank is the last one that shows anything but the colour.
pub proof fn lemma_last_shown(row: Seq<CellView>, bg: Color)
    ensures
        match last_nonblank_cell(row, bg) {
            None => forall|i: int| 0 <= i < row.len() ==> shows_nothing(#[trigger] row[i], bg),
            Some(last) => {
                &&& 0 <= last < row.len()
                &&& !shows_nothing(row[last], bg)
                &&& forall|i: int| last < i < row.len() ==> shows_nothing(#[trigger] row[i], bg)
            },
        },
{
    lemma_last_nonblank_cell(row, bg);
    assert forall|j: int| 0 <= j < row.len() implies shows_nothing(#[trigger] row[j], bg)
        == is_blank(row[j], bg) by {
        if row[j].modifier.bits == 0 {
            assert(row[j].modifier == Modifier::none());
        }
    }
}

/// Whether a symbol is a single space.
fn is_space(symbol: &str) -> (yes: bool)
    ensures
        yes == (symbol@ == seq![' ']),
{
    let mut chars = symbol.chars();
    let first = chars.next();
    let second = chars.next();
    match (first, second) {
        (Some(c), None) => {
            assert(symbol@ =~= seq![c]);
            proof {
                if c != ' ' {
                    assert(seq![c][0] != seq![' '][0]);
                }
            }
            c == ' '
        },
        _ => {
            assert(symbol@.len() != 1);
            assert(seq![' '].len() == 1);
            false
        },
    }
}

/// The last column that the last cell of a row that is not blank takes up: any symbol other
/// than a space, another background colour than `bg` or any modifier keeps a cell from being
/// blank. The largest column there is, where that is no column.
pub fn last_nonblank_column(row: &[Cell], bg: Color) -> (last: Option<usize>)
    ensures
        match last_nonblank(cell_views(row@), bg) {
            None => last is None,
            Some(column) => last == Some(min_int(column, usize::MAX as int) as usize),
        },
        last is None <==> forall|i: int|
            0 <= i < row@.len() ==> shows_nothing(#[trigger] row@[i]@, bg),
        last matches Some(column) ==> exists|i: int|
            0 <= i < row@.len() && !shows_nothing(#[trigger] row@[i]@, bg) && (forall|j: int|
                i < j < row@.len() ==> shows_nothing(#[trigger] row@[j]@, bg)) && column
                == min_int(i + span(row@[i]@) - 1, usize::MAX as int),
{
    proof {
        lemma_last_shown(cell_views(row@), bg);
        assert forall|i: int| 0 <= i < row@.len() implies cell_views(row@)[i]
            == #[trigger] row@[i]@ by {}
    }
    let ghost views = cell_views(row@);
    let mut n: usize = row.len();
    assert(views.take(n as int) =~= views);
    while n > 0
        invariant
            n <= row.len(),
            views == cell_views(row@),
            last_nonblank_cell(views, bg) == last_nonblank_cell(views.take(n as int), bg),
        decreases n,
    {
        let cell = &row[n - 1];
        assert(views.take(n as int).last() == cell@);
        if !is_space(cell.symbol()) || cell.bg != bg || cell.modifier != Modifier::empty() {
            proof {
                lemma_last_shown(views, bg);
                let i = n - 1;
                assert(last_nonblank_cell(views, bg) == Some(i));
                assert(views[i] == row@[i]@);
                assert(!shows_nothing(row@[i]@, bg));
                assert forall|j: int| i < j < row@.len() implies shows_nothing(
                    #[trigger] row@[j]@,
                    bg,
                ) by {
                    assert(views[j] == row@[j]@);
                }
            }
            return Some((n - 1).saturating_add(display_width(cell.symbol()).saturating_sub(1)));
        }
        assert(views.take(n as int).drop_last() =~= views.take(n - 1));
        n = n - 1;
    }
    None
}

/// Whether two rows of cells are the same from `start` on.
fn same_from(a: &[Cell], b: &[Cell], start: usize) -> (same: bool)
    requires
        a@.len() == b@.len(),
        start <= a@.len(),
    ensures
        same == (cell_views(a@).skip(start as int) == cell_views(b@).skip(start as int)),
{
    let ghost va = cell_views(a@).skip(start as int);
    let ghost vb = cell_views(b@).skip(start as int);
    let mut i: usize = start;
    while i < a.len()
        invariant
            start <= i <= a@.len(),
            a@.len() == b@.len(),
            va == cell_views(a@).skip(start as int),
            vb == cell_views(b@).skip(start as int),
            forall|j: int| 0 <= j < i - start ==> va[j] == vb[j],
        decreases a.len() - i,
    {
        if a[i] != b[i] {
            assert(va[i - start] != vb[i - start]);
            return false;
        }
        assert(va[i - start] == vb[i - start]);
        i = i + 1;
    }
    assert(va =~= vb);
    true
}

/// Appends the commands that lead from one row to another, where the row starts at `(x, y)`.
fn diff_row(
    previous_row: &[Cell],
    next_row: &[Cell],
    x: u16,
    y: u16,
    updates: &mut Vec<DrawCommand>,
)
    requires
        previous_row@.len() == next_row@.len(),
        x + next_row@.len() <= 0x1_0000,
        next_row@.len() <= u16::MAX,
    ensures
        command_views(final(updates)@) == command_views(old(updates)@) + row_commands(
            cell_views(previous_row@),
            cell_views(next_row@),
            x as int,
            y as int,
        ),
{
    let ghost prev = cell_views(previous_row@);
    let ghost next = cell_views(next_row@);
    let ghost before = command_views(updates@);
    proof {
        assert(prev.skip(0) =~= prev);
        assert(next.skip(0) =~= next);
    }
    if same_from(previous_row, next_row, 0) {
        assert(before + row_commands(prev, next, x as int, y as int) =~= before);
        return;
    }
    let bg: Color = match next_row.last() {
        Some(cell) => cell.bg,
        None => Color::Reset,
    };
    assert(bg == trailing_bg(next));
    // Scan the row to find the rightmost column that still matters: any symbol but a space, any
    // cell with another background than the end of the row has, or any cell with modifiers.
    // Symbols of several columns extend that part through their full width. What follows can be
    // cleared at once, which is cheaper than showing a space in each of its cells.
    let last: usize = match last_nonblank_column(next_row, bg) {
        Some(column) => column,
        None => 0,
    };
    let ghost until = drawn_until(next);
    proof {
        lemma_last_nonblank_cell(next, bg);
        assert(next.len() > 0) by {
            if next.len() == 0 {
                assert(prev =~= next);
            }
        }
    }

    // Cells that are touched by showing or replacing a symbol of several columns before them.
    let mut invalidated: usize = 0;
    let mut column: usize = 0;
    let ghost mut at: int = 0;
    let ghost mut reach: int = 0;
    assert(before + puts(prev, next, x as int, y as int, 0, 0, until) =~= command_views(updates@)
        + puts(prev, next, x as int, y as int, at, reach, until));
    while column < next_row.len() && column <= last
        invariant
            previous_row@.len() == next_row@.len(),
            x + next_row@.len() <= 0x1_0000,
            next_row@.len() <= u16::MAX,
            prev == cell_views(previous_row@),
            next == cell_views(next_row@),
            last == min_int(until, usize::MAX as int),
            0 <= at,
            column == min_int(at, usize::MAX as int),
            at < next.len() ==> invalidated == max_int(reach - at, 0),
            before + puts(prev, next, x as int, y as int, 0, 0, until) == command_views(updates@)
                + puts(prev, next, x as int, y as int, at, reach, until),
        decreases max_int(next.len() - at, 0),
    {
        let cell = &next_row[column];
        let width: usize = display_width(cell.symbol());
        let step: usize = if width > 1 {
            width
        } else {
            1
        };
        let previous = &previous_row[column];
        let ghost sent = command_views(updates@);
        assert(next[at] == cell@);
        assert(prev[at] == previous@);
        if !cell.skip && (*cell != *previous || invalidated > 0) {
            updates.push(DrawCommand::Put { x: x + column as u16, y, cell: cell.clone() });
            assert(command_views(updates@) =~= sent.push(
                DrawCommandView::Put { x: (x + at) as u16, y, cell: cell@ },
            ));
        }
        let previous_width: usize = display_width(previous.symbol());
        let affected_width: usize = if width > previous_width {
            width
        } else {
            previous_width
        };
        let touched: usize = if affected_width > invalidated {
            affected_width
        } else {
            invalidated
        };
        invalidated = touched.saturating_sub(step);
        column = column.saturating_add(step);
        proof {
            let rest = puts(prev, next, x as int, y as int, at, reach, until);
            reach = max_int(reach, at + max_int(width as int, previous_width as int));
            at = at + step;
            let after = puts(prev, next, x as int, y as int, at, reach, until);
            assert(sent + rest =~= command_views(updates@) + after);
        }
    }
    assert(command_views(updates@) + puts(prev, next, x as int, y as int, at, reach, until)
        =~= command_views(updates@));

    let ghost sent = command_views(updates@);
    if last < next_row.len() - 1 && !same_from(previous_row, next_row, last + 1) {
        updates.push(DrawCommand::ClearToEnd { x: x + (last + 1) as u16, y, bg });
        assert(command_views(updates@) =~= sent.push(
            DrawCommandView::ClearToEnd { x: (x + until + 1) as u16, y, bg },
        ));
    }
    assert(command_views(updates@) =~= before + row_commands(prev, next, x as int, y as int));
}

/// The commands that lead from one frame to another of the same area.
pub fn diff_buffers(a: &Buffer, b: &Buffer) -> (updates: Vec<DrawCommand>)
    requires
        a@.well_formed(),
        b@.content.len() >= a@.area.cell_count(),
        a@.area.addressable(),
    ensures
        command_views(updates@) == diff_commands(a@, b@),
{
    let width: usize = a.area.width as usize;
    let mut updates: Vec<DrawCommand> = Vec::new();
    let mut y: u16 = 0;
    assert(command_views(updates@) =~= rows_commands(a@, b@, 0));
    while y < a.area.height
        invariant
            y <= a.area.height,
            a@.well_formed(),
            b@.content.len() >= a@.area.cell_count(),
            a@.area.addressable(),
            width == a.area.width,
            command_views(updates@) == rows_commands(a@, b@, y as int),
        decreases a.area.height - y,
    {
        proof {
            lemma_row_bounds(width as int, a.area.height as int, y as int);
            assert(a@.content.len() == a.content.len());
            assert(b@.content.len() == b.content.len());
        }
        let row_start: usize = y as usize * width;
        let row_end: usize = row_start + width;
        let previous_row = slice_subrange(a.content.as_slice(), row_start, row_end);
        let next_row = slice_subrange(b.content.as_slice(), row_start, row_end);
        proof {
            assert(cell_views(previous_row@) =~= row_at(a@.content, width as int, y as int));
            assert(cell_views(next_row@) =~= row_at(b@.content, width as int, y as int));
        }
        diff_row(previous_row, next_row, a.area.x, a.area.y + y, &mut updates);
        y = y + 1;
    }
    updates
}

} // verus!
