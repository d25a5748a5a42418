//! The bytes that repaint whole rows of a frame, whatever the screen showed before.

use crate::buffer::{cell_views, lemma_row_bounds, Buffer, BufferView, Cell, CellView};
use crate::diff::{
    last_nonblank, last_nonblank_column, lemma_last_nonblank_cell, step_of, trailing_bg,
};
use crate::geometry::{max_int, min_int, Position};
use crate::modifier_diff::ModifierDiff;
use crate::ops::{
    appends, joined_symbols, lemma_appends_nothing, lemma_appends_trans, plain_ops,
    queue_attribute, queue_background, queue_clear, queue_colors, queue_move_to, queue_plain,
    write_symbols, Op,
};
use crate::style::{Attribute, ClearType, Color, Modifier};
use crate::width::display_width;
use std::ops::Range;
use vstd::prelude::*;
use vstd::slice::slice_subrange;

verus! {

/// What a repaint has come to.
#[derive(Debug, Clone, Copy, PartialEq, Eq, Structural)]
pub struct DenseDrawStats {
    /// Where the last cell was shown.
    pub last_put: Option<Position>,
    /// The number of runs and clearings.
    pub commands: usize,
}

/// A part of a repaint.
#[verifier::ext_equal]
pub enum DenseCommand {
    /// Shows symbols next to each other, all in the same style.
    Run {
        position: Position,
        symbols: Seq<Seq<char>>,
        width: u16,
        fg: Color,
        bg: Color,
        modifier: Modifier,
    },
    /// Erases a part of the screen in a background colour.
    Clear { position: Position, bg: Color, clear_type: ClearType },
}

/// The columns of a row that are shown from `column` on: those at which a symbol starts, but
/// for the cells that are to be left alone.
pub open spec fn dense_columns(row: Seq<CellView>, column: int, last: int) -> Seq<int>
    decreases max_int(row.len() - column, 0),
{
    if column >= row.len() || column > last {
        seq![]
    } else if row[column].skip {
        dense_columns(row, column + 1, last)
    } else {
        seq![column] + dense_columns(row, column + step_of(row[column]), last)
    }
}

/// Two cells are shown in one run: the second stands where the first ends, in the same style.
pub open spec fn joins(row: Seq<CellView>, a: int, b: int) -> bool {
    &&& a + step_of(row[a]) == b
    &&& row[a].fg == row[b].fg
    &&& row[a].bg == row[b].bg
    &&& row[a].modifier == row[b].modifier
}

/// The columns, cut into runs.
pub open spec fn runs(row: Seq<CellView>, columns: Seq<int>) -> Seq<Seq<int>>
    decreases columns.len(),
{
    if columns.len() == 0 {
        seq![]
    } else {
        let front = columns.drop_last();
        let done = runs(row, front);
        if front.len() > 0 && joins(row, front.last(), columns.last()) {
            done.drop_last().push(done.last().push(columns.last()))
        } else {
            done.push(seq![columns.last()])
        }
    }
}

/// The symbols at the columns.
pub open spec fn symbols_at(row: Seq<CellView>, columns: Seq<int>) -> Seq<Seq<char>> {
    columns.map_values(|column: int| row[column].symbol)
}

/// The number of columns that a run takes up, as far as a `u16` can say it. A single symbol
/// counts modulo the size of a `u16`.
pub open spec fn run_width(row: Seq<CellView>, columns: Seq<int>) -> int
    decreases columns.len(),
{
    if columns.len() == 0 {
        0
    } else {
        min_int(
            run_width(row, columns.drop_last()) + step_of(row[columns.last()]) % 0x1_0000,
            u16::MAX as int,
        )
    }
}

/// The part of a repaint that shows a run, where the row starts at `(x, y)`.
pub open spec fn run_command(row: Seq<CellView>, x: int, y: int, columns: Seq<int>) -> DenseCommand {
    let first = row[columns[0]];
    DenseCommand::Run {
        position: Position { x: (x + columns[0]) as u16, y: y as u16 },
        symbols: symbols_at(row, columns),
        width: run_width(row, columns) as u16,
        fg: first.fg,
        bg: first.bg,
        modifier: first.modifier,
    }
}

/// The parts of a repaint that show runs.
pub open spec fn run_commands(
    row: Seq<CellView>,
    x: int,
    y: int,
    runs: Seq<Seq<int>>,
) -> Seq<DenseCommand> {
    runs.map_values(|columns: Seq<int>| run_command(row, x, y, columns))
}

/// The columns of a row that are shown.
pub open spec fn shown_columns(row: Seq<CellView>) -> Seq<int> {
    match last_nonblank(row, trailing_bg(row)) {
        None => seq![],
        Some(last) => dense_columns(row, 0, last),
    }
}

/// The rest of a row is erased, unless that is done already.
pub open spec fn dense_tail(row: Seq<CellView>, x: int, y: int, cleared: bool) -> Seq<
    DenseCommand,
> {
    let start = match last_nonblank(row, trailing_bg(row)) {
        None => 0,
        Some(last) => last + 1,
    };
    if !cleared && start < row.len() {
        seq![
            DenseCommand::Clear {
                position: Position { x: (x + start) as u16, y: y as u16 },
                bg: trailing_bg(row),
                clear_type: ClearType::UntilNewLine,
            },
        ]
    } else {
        seq![]
    }
}

/// The repaint of a row.
pub open spec fn dense_row(row: Seq<CellView>, x: int, y: int, cleared: bool) -> Seq<DenseCommand> {
    run_commands(row, x, y, runs(row, shown_columns(row))) + dense_tail(row, x, y, cleared)
}

/// The cells of a screen row.
pub open spec fn screen_row(buffer: BufferView, y: int) -> Seq<CellView> {
    buffer.row(y - buffer.area.y)
}

/// The repaint of the screen rows from `start` on and before `end`, row after row.
pub open spec fn dense_rows(buffer: BufferView, start: int, end: int, cleared: bool) -> Seq<
    DenseCommand,
>
    decreases end - start,
{
    if start >= end {
        seq![]
    } else {
        dense_rows(buffer, start, end - 1, cleared) + dense_row(
            screen_row(buffer, end - 1),
            buffer.area.x as int,
            end - 1,
            cleared,
        )
    }
}

/// The background colour in which everything from the first row down can be erased at once:
/// there is one if there are several rows, they reach down to the end of the buffer, and all
/// of them end in the same background colour.
pub open spec fn clear_down_bg(buffer: BufferView, start: int, end: int) -> Option<Color> {
    let bg = trailing_bg(screen_row(buffer, start));
    if end == buffer.area.bottom_edge() && end - start > 1 && (forall|y: int|
        start <= y < end ==> trailing_bg(#[trigger] screen_row(buffer, y)) == bg) {
        Some(bg)
    } else {
        None
    }
}

/// The repaint of the screen rows from `start` on and before `end`.
pub open spec fn dense_commands(buffer: BufferView, start: int, end: int) -> Seq<DenseCommand> {
    match clear_down_bg(buffer, start, end) {
        None => dense_rows(buffer, start, end, false),
        Some(bg) => seq![
            DenseCommand::Clear {
                position: Position { x: buffer.area.x, y: start as u16 },
                bg,
                clear_type: ClearType::FromCursorDown,
            },
        ] + dense_rows(buffer, start, end, true),
    }
}

/// Where the last cell of the screen rows from `start` on and before `end` is shown.
pub open spec fn dense_last_put(buffer: BufferView, start: int, end: int) -> Option<Position>
    decreases end - start,
{
    if start >= end {
        None
    } else {
        let columns = shown_columns(screen_row(buffer, end - 1));
        if columns.len() > 0 {
            Some(
                Position { x: (buffer.area.x + columns.last()) as u16, y: (end - 1) as u16 },
            )
        } else {
            dense_last_put(buffer, start, end - 1)
        }
    }
}

/// What is known of the terminal while a repaint is written.
#[derive(Debug, Clone, Copy, PartialEq, Eq, Structural)]
pub struct DenseState {
    /// The foreground colour in force.
    pub fg: Color,
    /// The background colour in force.
    pub bg: Color,
    /// The modifiers in force.
    pub modifier: Modifier,
    /// Where the cursor stands.
    pub next_pos: Option<Position>,
}

impl DenseState {
    /// At the start: the terminal's own colours, plain text, the cursor anywhere.
    pub open spec fn initial() -> DenseState {
        DenseState {
            fg: Color::Reset,
            bg: Color::Reset,
            modifier: Modifier::none(),
            next_pos: None,
        }
    }

    /// The cursor is moved, unless it stands there.
    pub open spec fn move_ops(self, position: Position) -> Seq<Op> {
        if self.next_pos != Some(position) {
            seq![Op::MoveTo(position)]
        } else {
            seq![]
        }
    }

    /// The modifiers are changed, where others are wanted.
    pub open spec fn modifier_ops(self, modifier: Modifier) -> Seq<Op> {
        if modifier != self.modifier {
            (ModifierDiff { from: self.modifier, to: modifier }).ops()
        } else {
            seq![]
        }
    }

    /// The colours are set, where others are wanted.
    pub open spec fn color_ops(self, fg: Color, bg: Color) -> Seq<Op> {
        if fg != self.fg || bg != self.bg {
            seq![Op::SetColors(fg, bg)]
        } else {
            seq![]
        }
    }

    /// There are modifiers or a foreground colour in force.
    pub open spec fn is_styled(self) -> bool {
        self.modifier != Modifier::none() || self.fg != Color::Reset
    }

    /// Modifiers and foreground colour go before a part of the screen is erased.
    pub open spec fn plain_ops(self) -> Seq<Op> {
        if self.is_styled() {
            seq![Op::SetAttribute(Attribute::Reset)]
        } else {
            seq![]
        }
    }

    /// The background colour is set, where another is wanted for erasing.
    pub open spec fn clear_color_ops(self, bg: Color) -> Seq<Op> {
        if (if self.is_styled() {
            Color::Reset
        } else {
            self.bg
        }) != bg {
            seq![Op::SetBackground(bg)]
        } else {
            seq![]
        }
    }

    /// What is written for a part of a repaint.
    pub open spec fn ops(self, command: DenseCommand) -> Seq<Op> {
        match command {
            DenseCommand::Run { position, symbols, fg, bg, modifier, .. } => {
                self.move_ops(position) + self.modifier_ops(modifier) + self.color_ops(fg, bg)
                    + seq![Op::Print(symbols)]
            },
            DenseCommand::Clear { position, bg, clear_type } => {
                self.move_ops(position) + self.plain_ops() + self.clear_color_ops(bg)
                    + seq![Op::Clear(clear_type)]
            },
        }
    }

    /// What is known after a part of a repaint.
    pub open spec fn after(self, command: DenseCommand) -> DenseState {
        match command {
            DenseCommand::Run { position, width, fg, bg, modifier, .. } => DenseState {
                fg,
                bg,
                modifier,
                next_pos: Some(
                    Position {
                        x: min_int(position.x + width, u16::MAX as int) as u16,
                        y: position.y,
                    },
                ),
            },
            DenseCommand::Clear { position, bg, .. } => DenseState {
                fg: Color::Reset,
                bg,
                modifier: Modifier::none(),
                next_pos: Some(position),
            },
        }
    }
}

/// What is known after the parts of a repaint.
pub open spec fn dense_state_after(commands: Seq<DenseCommand>) -> DenseState
    decreases commands.len(),
{
    if commands.len() == 0 {
        DenseState::initial()
    } else {
        dense_state_after(commands.drop_last()).after(commands.last())
    }
}

/// What is written for the parts of a repaint, one after the other.
pub open spec fn dense_commands_ops(commands: Seq<DenseCommand>) -> Seq<Op>
    decreases commands.len(),
{
    if commands.len() == 0 {
        seq![]
    } else {
        dense_commands_ops(commands.drop_last()) + dense_state_after(commands.drop_last()).ops(
            commands.last(),
        )
    }
}

/// What is written for a repaint: its parts, and the return to plain text.
pub open spec fn dense_ops(commands: Seq<DenseCommand>) -> Seq<Op> {
    dense_commands_ops(commands) + plain_ops()
}

/// The parts of a repaint have been written, and nothing else.
spec fn written(
    before: Seq<u8>,
    after: Seq<u8>,
    state: DenseState,
    commands: Seq<DenseCommand>,
) -> bool {
    &&& appends(before, after, dense_commands_ops(commands))
    &&& state == dense_state_after(commands)
}

/// One more part of a repaint has been written.
proof fn lemma_written_push(
    before: Seq<u8>,
    between: Seq<u8>,
    after: Seq<u8>,
    state: DenseState,
    commands: Seq<DenseCommand>,
    command: DenseCommand,
)
    requires
        written(before, between, state, commands),
        appends(between, after, state.ops(command)),
    ensures
        written(before, after, state.after(command), commands.push(command)),
{
    let all = commands.push(command);
    assert(all.drop_last() =~= commands);
    lemma_appends_trans(before, between, after, dense_commands_ops(commands), state.ops(command));
}

/// A run in the making.
#[derive(Debug)]
struct DenseRun {
    /// The bytes of the symbols.
    bytes: Vec<u8>,
    /// The column after the last symbol.
    end_col: usize,
    position: Position,
    width: u16,
    fg: Color,
    bg: Color,
    modifier: Modifier,
}

impl DenseRun {
    /// The run shows the symbols at the columns of a row that starts at `(x, y)`.
    spec fn shows(&self, row: Seq<CellView>, x: int, y: int, columns: Seq<int>) -> bool {
        &&& columns.len() > 0
        &&& self.bytes@ == joined_symbols(symbols_at(row, columns))
        &&& self.end_col == min_int(columns.last() + step_of(row[columns.last()]), usize::MAX as int)
        &&& self.command(symbols_at(row, columns)) == run_command(row, x, y, columns)
        &&& row[columns.last()].fg == self.fg
        &&& row[columns.last()].bg == self.bg
        &&& row[columns.last()].modifier == self.modifier
    }

    /// The part of a repaint that shows the run.
    spec fn command(&self, symbols: Seq<Seq<char>>) -> DenseCommand {
        DenseCommand::Run {
            position: self.position,
            symbols,
            width: self.width,
            fg: self.fg,
            bg: self.bg,
            modifier: self.modifier,
        }
    }
}

/// The symbols of a run with one more cell.
proof fn lemma_symbols_push(row: Seq<CellView>, columns: Seq<int>, column: int)
    ensures
        joined_symbols(symbols_at(row, columns.push(column))) == joined_symbols(
            symbols_at(row, columns),
        ) + vstd::utf8::encode_utf8(row[column].symbol),
        run_width(row, columns.push(column)) == min_int(
            run_width(row, columns) + step_of(row[column]) % 0x1_0000,
            u16::MAX as int,
        ),
{
    let longer = columns.push(column);
    assert(longer.drop_last() =~= columns);
    assert(symbols_at(row, longer).drop_last() =~= symbols_at(row, columns));
}

/// The number of columns of a symbol, modulo the size of a `u16`.
fn truncated_width(cell_width: usize) -> (width: u16)
    ensures
        width == cell_width % 0x1_0000,
{
    let width: u16 = #[verifier::truncate] (cell_width as u16);
    proof {
        assert(width == cell_width % 0x1_0000) by (bit_vector)
            requires
                width == cell_width as u16,
        ;
    }
    width
}

impl DenseRun {
    /// Adds the cell at a column to the run.
    fn join(
        &mut self,
        cell: &Cell,
        column: usize,
        cell_width: usize,
        Ghost(row): Ghost<Seq<CellView>>,
        Ghost(x): Ghost<int>,
        Ghost(y): Ghost<int>,
        Ghost(columns): Ghost<Seq<int>>,
    )
        requires
            old(self).shows(row, x, y, columns),
            0 <= column < row.len(),
            row[column as int] == cell@,
            cell_width == step_of(cell@),
            cell.fg == old(self).fg,
            cell.bg == old(self).bg,
            cell.modifier == old(self).modifier,
        ensures
            final(self).shows(row, x, y, columns.push(column as int)),
            final(self).position == old(self).position,
    {
        self.end_col = column.saturating_add(cell_width);
        self.width = self.width.saturating_add(truncated_width(cell_width));
        self.bytes.extend_from_slice(cell.symbol().as_bytes());
        proof {
            lemma_symbols_push(row, columns, column as int);
            lemma_run_width_bound(row, columns);
            let longer = columns.push(column as int);
            assert(longer[0] == columns[0]);
            assert(self.bytes@ =~= joined_symbols(symbols_at(row, longer)));
            assert(self.width == run_width(row, longer));
            assert(self.command(symbols_at(row, longer)) == run_command(row, x, y, longer));
        }
    }

    /// Starts a run with the cell at a column.
    fn begin(
        &mut self,
        cell: &Cell,
        column: usize,
        cell_width: usize,
        position: Position,
        Ghost(row): Ghost<Seq<CellView>>,
        Ghost(x): Ghost<int>,
    )
        requires
            old(self).bytes@.len() == 0,
            0 <= column < row.len(),
            row[column as int] == cell@,
            cell_width == step_of(cell@),
            position.x == x + column,
        ensures
            final(self).shows(row, x, position.y as int, seq![column as int]),
            final(self).position == position,
    {
        self.bytes.extend_from_slice(cell.symbol().as_bytes());
        self.end_col = column.saturating_add(cell_width);
        self.position = position;
        self.width = truncated_width(cell_width);
        self.fg = cell.fg;
        self.bg = cell.bg;
        self.modifier = cell.modifier;
        proof {
            let none: Seq<int> = seq![];
            lemma_symbols_push(row, none, column as int);
            assert(none.push(column as int) =~= seq![column as int]);
            assert(joined_symbols(symbols_at(row, none)) =~= seq![]);
            assert(self.bytes@ =~= joined_symbols(symbols_at(row, seq![column as int])));
        }
    }
}

/// The width of a run is the number of columns in a `u16`.
proof fn lemma_run_width_bound(row: Seq<CellView>, columns: Seq<int>)
    ensures
        0 <= run_width(row, columns) <= u16::MAX,
    decreases columns.len(),
{
    if columns.len() > 0 {
        lemma_run_width_bound(row, columns.drop_last());
    }
}

/// Writes a run.
fn draw_dense_run(
    writer: &mut Vec<u8>,
    run: &DenseRun,
    state: &mut DenseState,
    Ghost(symbols): Ghost<Seq<Seq<char>>>,
)
    requires
        run.position.encodable(),
        run.bytes@ == joined_symbols(symbols),
    ensures
        appends(old(writer)@, final(writer)@, old(state).ops(run.command(symbols))),
        *final(state) == old(state).after(run.command(symbols)),
{
    let ghost start = writer@;
    let ghost was = *state;
    if state.next_pos != Some(run.position) {
        queue_move_to(writer, run.position);
    } else {
        proof {
            lemma_appends_nothing(start);
        }
    }
    let ghost moved = writer@;
    if run.modifier != state.modifier {
        let diff = ModifierDiff { from: state.modifier, to: run.modifier };
        diff.queue(writer);
        state.modifier = run.modifier;
    } else {
        proof {
            lemma_appends_nothing(moved);
        }
    }
    let ghost modified = writer@;
    if run.fg != state.fg || run.bg != state.bg {
        queue_colors(writer, run.fg, run.bg);
        state.fg = run.fg;
        state.bg = run.bg;
    } else {
        proof {
            lemma_appends_nothing(modified);
        }
    }
    let ghost colored = writer@;
    write_symbols(writer, &run.bytes, Ghost(symbols));
    state.next_pos = Some(
        Position { x: run.position.x.saturating_add(run.width), y: run.position.y },
    );
    proof {
        let a = was.move_ops(run.position);
        let b = was.modifier_ops(run.modifier);
        let c = was.color_ops(run.fg, run.bg);
        lemma_appends_trans(start, moved, modified, a, b);
        lemma_appends_trans(start, modified, colored, a + b, c);
        lemma_appends_trans(start, colored, writer@, a + b + c, seq![Op::Print(symbols)]);
    }
}

/// Writes a clearing.
fn draw_dense_clear(
    writer: &mut Vec<u8>,
    position: Position,
    bg: Color,
    clear_type: ClearType,
    state: &mut DenseState,
)
    requires
        position.encodable(),
    ensures
        appends(
            old(writer)@,
            final(writer)@,
            old(state).ops(DenseCommand::Clear { position, bg, clear_type }),
        ),
        *final(state) == old(state).after(DenseCommand::Clear { position, bg, clear_type }),
{
    let ghost start = writer@;
    let ghost was = *state;
    if state.next_pos != Some(position) {
        queue_move_to(writer, position);
    } else {
        proof {
            lemma_appends_nothing(start);
        }
    }
    let ghost moved = writer@;
    if state.modifier != Modifier::empty() || state.fg != Color::Reset {
        queue_attribute(writer, Attribute::Reset);
        state.modifier = Modifier::empty();
        state.fg = Color::Reset;
        state.bg = Color::Reset;
    } else {
        proof {
            lemma_appends_nothing(moved);
        }
    }
    let ghost plain = writer@;
    if state.bg != bg {
        queue_background(writer, bg);
        state.bg = bg;
    } else {
        proof {
            lemma_appends_nothing(plain);
        }
    }
    let ghost colored = writer@;
    queue_clear(writer, clear_type);
    state.next_pos = Some(position);
    proof {
        let a = was.move_ops(position);
        let b = was.plain_ops();
        let c = was.clear_color_ops(bg);
        lemma_appends_trans(start, moved, plain, a, b);
        lemma_appends_trans(start, plain, colored, a + b, c);
        lemma_appends_trans(start, colored, writer@, a + b + c, seq![Op::Clear(clear_type)]);
    }
}

/// Cutting columns into runs makes no more runs than there are columns, and none is empty.
proof fn lemma_runs(row: Seq<CellView>, columns: Seq<int>)
    ensures
        runs(row, columns).len() <= columns.len(),
        columns.len() > 0 ==> runs(row, columns).len() > 0 && runs(row, columns).last().len() > 0
            && runs(row, columns).last().last() == columns.last(),
    decreases columns.len(),
{
    if columns.len() > 0 {
        lemma_runs(row, columns.drop_last());
    }
}

/// A column that joins the last run.
proof fn lemma_runs_join(row: Seq<CellView>, columns: Seq<int>, column: int)
    requires
        columns.len() > 0,
        joins(row, columns.last(), column),
    ensures
        runs(row, columns.push(column)) == runs(row, columns).drop_last().push(
            runs(row, columns).last().push(column),
        ),
        runs(row, columns.push(column)).drop_last() == runs(row, columns).drop_last(),
        runs(row, columns.push(column)).last() == runs(row, columns).last().push(column),
{
    lemma_runs(row, columns);
    assert(columns.push(column).drop_last() =~= columns);
    assert(runs(row, columns.push(column)).drop_last() =~= runs(row, columns).drop_last());
}

/// A column that starts a run.
proof fn lemma_runs_break(row: Seq<CellView>, columns: Seq<int>, column: int)
    requires
        columns.len() == 0 || !joins(row, columns.last(), column),
    ensures
        runs(row, columns.push(column)) == runs(row, columns).push(seq![column]),
        runs(row, columns.push(column)).drop_last() == runs(row, columns),
        runs(row, columns.push(column)).last() == seq![column],
{
    assert(columns.push(column).drop_last() =~= columns);
    assert(runs(row, columns.push(column)).drop_last() =~= runs(row, columns));
}

/// The parts that show runs, the last of them apart.
proof fn lemma_run_commands_last(
    row: Seq<CellView>,
    x: int,
    y: int,
    all: Seq<Seq<int>>,
    base: Seq<DenseCommand>,
)
    requires
        all.len() > 0,
    ensures
        (base + run_commands(row, x, y, all.drop_last())).push(run_command(row, x, y, all.last()))
            == base + run_commands(row, x, y, all),
{
    assert((base + run_commands(row, x, y, all.drop_last())).push(
        run_command(row, x, y, all.last()),
    ) =~= base + run_commands(row, x, y, all));
}

/// The cells of a screen row.
fn row_cells(buffer: &Buffer, y: u16) -> (row: &[Cell])
    requires
        buffer@.well_formed(),
        buffer.area.y <= y < buffer.area.y + buffer.area.height,
    ensures
        cell_views(row@) == screen_row(buffer@, y as int),
        row@.len() == buffer.area.width,
{
    let width: usize = buffer.area.width as usize;
    let above: usize = (y - buffer.area.y) as usize;
    proof {
        lemma_row_bounds(width as int, buffer.area.height as int, above as int);
        assert(buffer@.content.len() == buffer.content.len());
    }
    let row_start: usize = above * width;
    let row = slice_subrange(buffer.content.as_slice(), row_start, row_start + width);
    assert(cell_views(row@) =~= screen_row(buffer@, y as int));
    row
}

/// The background colour at the end of a row.
fn row_end_bg(row: &[Cell]) -> (bg: Color)
    ensures
        bg == trailing_bg(cell_views(row@)),
{
    match row.last() {
        Some(cell) => cell.bg,
        None => Color::Reset,
    }
}

/// The background colour in which everything from the first of the rows down can be erased.
fn dense_clear_to_bottom_bg(buffer: &Buffer, start: u16, end: u16) -> (bg: Option<Color>)
    requires
        buffer@.well_formed(),
        buffer.area.y <= start,
        end <= buffer.area.bottom_edge(),
    ensures
        bg == clear_down_bg(buffer@, start as int, end as int),
{
    // Clearing down is only safe when the rows reach the bottom of the viewport, and only when
    // all of them end in the same background, because there is one background to clear in.
    if end != buffer.area.bottom() || end.saturating_sub(start) <= 1 {
        return None;
    }
    let bg: Color = row_end_bg(row_cells(buffer, start));
    let mut y: u16 = start;
    while y < end
        invariant
            buffer@.well_formed(),
            buffer.area.y <= start <= y <= end,
            end <= buffer.area.bottom_edge(),
            bg == trailing_bg(screen_row(buffer@, start as int)),
            forall|row: int|
                start <= row < y ==> trailing_bg(#[trigger] screen_row(buffer@, row)) == bg,
        decreases end - y,
    {
        if row_end_bg(row_cells(buffer, y)) != bg {
            assert(trailing_bg(screen_row(buffer@, y as int)) != bg);
            return None;
        }
        y = y + 1;
    }
    Some(bg)
}

/// Writes the runs of a row, where the row starts at `(x, y)` and `last` is the last column to
/// be shown.
fn encode_dense_runs(
    writer: &mut Vec<u8>,
    row: &[Cell],
    x: u16,
    y: u16,
    last: usize,
    state: &mut DenseState,
    stats: &mut DenseDrawStats,
    Ghost(before): Ghost<Seq<u8>>,
    Ghost(base): Ghost<Seq<DenseCommand>>,
    Ghost(until): Ghost<int>,
)
    requires
        x + row@.len() <= u16::MAX,
        y < u16::MAX,
        last == min_int(until, usize::MAX as int),
        old(stats).commands + row@.len() <= usize::MAX,
        old(stats).commands == base.len(),
        written(before, old(writer)@, *old(state), base),
    ensures
        ({
            let columns = dense_columns(cell_views(row@), 0, until);
            let commands = run_commands(
                cell_views(row@),
                x as int,
                y as int,
                runs(cell_views(row@), columns),
            );
            &&& written(before, final(writer)@, *final(state), base + commands)
            &&& final(stats).commands == base.len() + commands.len()
            &&& commands.len() <= row@.len()
            &&& final(stats).last_put == (if columns.len() > 0 {
                Some(Position { x: (x + columns.last()) as u16, y })
            } else {
                old(stats).last_put
            })
        }),
{
    let ghost views = cell_views(row@);
    let ghost columns = dense_columns(views, 0, until);
    let mut run = DenseRun {
        bytes: Vec::new(),
        end_col: 0,
        position: Position { x: 0, y: 0 },
        width: 0,
        fg: Color::Reset,
        bg: Color::Reset,
        modifier: Modifier::empty(),
    };
    let ghost old_last_put = stats.last_put;
    let mut column: usize = 0;
    let mut run_active: bool = false;
    let ghost mut at: int = 0;
    let ghost mut seen: Seq<int> = seq![];
    let ghost mut done: Seq<DenseCommand> = base;
    proof {
        assert(seen + dense_columns(views, 0, until) =~= columns);
        assert(base + run_commands(views, x as int, y as int, seq![]) =~= base);
    }
    while column < row.len() && column <= last
        invariant
            x + row@.len() <= u16::MAX,
            y < u16::MAX,
            last == min_int(until, usize::MAX as int),
            base.len() + row@.len() <= usize::MAX,
            views == cell_views(row@),
            columns == dense_columns(views, 0, until),
            0 <= at,
            column == min_int(at, usize::MAX as int),
            seen.len() <= min_int(at, row@.len() as int),
            seen + dense_columns(views, at, until) == columns,
            run_active == (seen.len() > 0),
            run_active ==> 0 <= seen.last() < row@.len(),
            run_active ==> run.shows(views, x as int, y as int, runs(views, seen).last())
                && runs(views, seen).last().last() == seen.last() && run.position.encodable(),
            run_active ==> done == base + run_commands(
                views,
                x as int,
                y as int,
                runs(views, seen).drop_last(),
            ),
            !run_active ==> done == base && run.bytes@.len() == 0,
            written(before, writer@, *state, done),
            stats.commands == done.len(),
            stats.last_put == (if run_active {
                Some(Position { x: (x + seen.last()) as u16, y })
            } else {
                old_last_put
            }),
        decreases max_int(views.len() - at, 0),
    {
        let cell = &row[column];
        assert(views[at] == cell@);
        if cell.skip {
            column = column + 1;
            proof {
                at = at + 1;
            }
        } else {
            let width: usize = display_width(cell.symbol());
            let cell_width: usize = if width > 1 {
                width
            } else {
                1
            };
            let position = Position { x: x + column as u16, y };
            let ghost group = runs(views, seen).last();
            proof {
                lemma_runs(views, seen);
                assert(seen.push(at) + dense_columns(views, at + cell_width, until) =~= columns);
            }
            if run_active && run.end_col == column && run.fg == cell.fg && run.bg == cell.bg
                && run.modifier == cell.modifier {
                run.join(
                    cell,
                    column,
                    cell_width,
                    Ghost(views),
                    Ghost(x as int),
                    Ghost(y as int),
                    Ghost(group),
                );
                proof {
                    lemma_runs_join(views, seen, at);
                }
            } else {
                if run_active {
                    let ghost between = writer@;
                    let ghost known = *state;
                    let ghost command = run.command(symbols_at(views, group));
                    draw_dense_run(writer, &run, state, Ghost(symbols_at(views, group)));
                    stats.commands = stats.commands + 1;
                    run.bytes.clear();
                    proof {
                        lemma_written_push(before, between, writer@, known, done, command);
                        done = done.push(command);
                        lemma_run_commands_last(views, x as int, y as int, runs(views, seen), base);
                    }
                } else {
                    assert(base + run_commands(views, x as int, y as int, runs(views, seen))
                        =~= base);
                }
                run.begin(cell, column, cell_width, position, Ghost(views), Ghost(x as int));
                run_active = true;
                proof {
                    lemma_runs_break(views, seen, at);
                }
            }
            stats.last_put = Some(position);
            column = column.saturating_add(cell_width);
            proof {
                seen = seen.push(at);
                at = at + cell_width;
            }
        }
    }
    assert(seen + dense_columns(views, at, until) =~= seen);
    proof {
        lemma_runs(views, seen);
    }
    if run_active {
        let ghost group = runs(views, seen).last();
        let ghost between = writer@;
        let ghost known = *state;
        let ghost command = run.command(symbols_at(views, group));
        draw_dense_run(writer, &run, state, Ghost(symbols_at(views, group)));
        stats.commands = stats.commands + 1;
        proof {
            lemma_written_push(before, between, writer@, known, done, command);
            lemma_run_commands_last(views, x as int, y as int, runs(views, seen), base);
        }
    } else {
        assert(base + run_commands(views, x as int, y as int, runs(views, seen)) =~= base);
    }
}

/// A row is repainted with at most one part for each of its columns, and one more.
proof fn lemma_count_bound(width: int, height: int, rows: int)
    requires
        0 <= width <= u16::MAX,
        0 <= rows <= height <= u16::MAX,
    ensures
        rows * (width + 1) <= 0xffff_0000,
{
    assert(rows * (width + 1) <= 0xffff * 0x1_0000) by (nonlinear_arith)
        requires
            0 <= width <= 0xffff,
            0 <= rows <= 0xffff,
    ;
}

/// Writes the repaint of the screen rows from `start` on and before `end`.
fn encode_dense_rows(writer: &mut Vec<u8>, buffer: &Buffer, start: u16, end: u16) -> (stats:
    DenseDrawStats)
    requires
        buffer@.well_formed(),
        buffer.area.width > 0,
        buffer.area.x + buffer.area.width <= u16::MAX,
        buffer.area.y <= start < end <= buffer.area.bottom_edge(),
    ensures
        appends(
            old(writer)@,
            final(writer)@,
            dense_ops(dense_commands(buffer@, start as int, end as int)),
        ),
        stats.commands == dense_commands(buffer@, start as int, end as int).len(),
        stats.last_put == dense_last_put(buffer@, start as int, end as int),
{
    let mut stats = DenseDrawStats { last_put: None, commands: 0 };
    let mut state = DenseState {
        fg: Color::Reset,
        bg: Color::Reset,
        modifier: Modifier::empty(),
        next_pos: None,
    };
    let ghost before = writer@;
    let ghost mut base: Seq<DenseCommand> = seq![];
    proof {
        lemma_appends_nothing(before);
    }
    let x: u16 = buffer.area.x;
    let clear_to_bottom_bg: Option<Color> = dense_clear_to_bottom_bg(buffer, start, end);
    let cleared: bool = clear_to_bottom_bg.is_some();
    if let Some(bg) = clear_to_bottom_bg {
        let position = Position { x, y: start };
        let ghost known = state;
        draw_dense_clear(writer, position, bg, ClearType::FromCursorDown, &mut state);
        stats.commands = stats.commands + 1;
        proof {
            let command = DenseCommand::Clear {
                position,
                bg,
                clear_type: ClearType::FromCursorDown,
            };
            lemma_written_push(before, before, writer@, known, base, command);
            base = base.push(command);
        }
    }
    let ghost first = base;
    assert(first + dense_rows(buffer@, start as int, start as int, cleared) =~= first);
    let mut y: u16 = start;
    while y < end
        invariant
            buffer@.well_formed(),
            x == buffer.area.x,
            buffer.area.x + buffer.area.width <= u16::MAX,
            buffer.area.y <= start <= y <= end <= buffer.area.bottom_edge(),
            first.len() <= 1,
            base == first + dense_rows(buffer@, start as int, y as int, cleared),
            base.len() <= 1 + (y - start) * (buffer.area.width + 1),
            written(before, writer@, state, base),
            stats.commands == base.len(),
            stats.last_put == dense_last_put(buffer@, start as int, y as int),
        decreases end - y,
    {
        let row = row_cells(buffer, y);
        let ghost views = screen_row(buffer@, y as int);
        let row_bg: Color = row_end_bg(row);
        proof {
            lemma_count_bound(buffer.area.width as int, buffer.area.height as int, y - start + 1);
            assert((y - start) * (buffer.area.width + 1) + (buffer.area.width + 1) == (y - start
                + 1) * (buffer.area.width + 1)) by (nonlinear_arith);
            lemma_last_nonblank_cell(views, row_bg);
        }
        let ghost mut commands: Seq<DenseCommand> = seq![];
        let last: Option<usize> = last_nonblank_column(row, row_bg);
        let mut tail: usize = 0;
        match last {
            Some(column) => {
                let ghost until = last_nonblank(views, row_bg)->0;
                encode_dense_runs(
                    writer,
                    row,
                    x,
                    y,
                    column,
                    &mut state,
                    &mut stats,
                    Ghost(before),
                    Ghost(base),
                    Ghost(until),
                );
                proof {
                    commands = run_commands(
                        views,
                        x as int,
                        y as int,
                        runs(views, dense_columns(views, 0, until)),
                    );
                }
                tail = column.saturating_add(1);
            },
            None => {
                assert(runs(views, shown_columns(views)) =~= seq![]);
                assert(run_commands(views, x as int, y as int, seq![]) =~= seq![]);
                assert(base + commands =~= base);
            },
        }
        let ghost between = writer@;
        let ghost known = state;
        if !cleared && tail < row.len() {
            let position = Position { x: x + tail as u16, y };
            draw_dense_clear(writer, position, row_bg, ClearType::UntilNewLine, &mut state);
            stats.commands = stats.commands + 1;
            proof {
                let command = DenseCommand::Clear {
                    position,
                    bg: row_bg,
                    clear_type: ClearType::UntilNewLine,
                };
                lemma_written_push(before, between, writer@, known, base + commands, command);
                assert(dense_tail(views, x as int, y as int, cleared) == seq![command]);
                assert((base + commands).push(command) =~= base + dense_row(
                    views,
                    x as int,
                    y as int,
                    cleared,
                ));
            }
        } else {
            assert(base + commands =~= base + dense_row(views, x as int, y as int, cleared));
        }
        proof {
            let row_commands = dense_row(views, x as int, y as int, cleared);
            assert(base + row_commands =~= first + dense_rows(
                buffer@,
                start as int,
                y + 1,
                cleared,
            ));
            base = base + row_commands;
        }
        y = y + 1;
    }
    let ghost painted = writer@;
    queue_plain(writer);
    proof {
        assert(base =~= dense_commands(buffer@, start as int, end as int));
        lemma_appends_trans(before, painted, writer@, dense_commands_ops(base), plain_ops());
    }
    stats
}

/// The first of the given screen rows that lies in the buffer, or a later one.
pub open spec fn first_row(buffer: BufferView, rows: Range<u16>) -> int {
    max_int(rows.start as int, buffer.area.y as int)
}

/// The row after the last of the given screen rows that lies in the buffer, or an earlier one.
pub open spec fn end_row(buffer: BufferView, rows: Range<u16>) -> int {
    min_int(rows.end as int, buffer.area.bottom_edge())
}

/// Some cell of the buffer lies in the given screen rows.
pub open spec fn paints(buffer: BufferView, rows: Range<u16>) -> bool {
    buffer.area.width > 0 && first_row(buffer, rows) < end_row(buffer, rows)
}

/// Repaints the given screen rows, as far as they lie in the buffer; nothing is written where
/// none does.
pub fn draw_dense_rows(writer: &mut Vec<u8>, buffer: &Buffer, rows: Range<u16>) -> (stats:
    DenseDrawStats)
    requires
        paints(buffer@, rows) ==> buffer@.well_formed() && buffer.area.x + buffer.area.width
            <= u16::MAX,
    ensures
        paints(buffer@, rows) ==> {
            let commands = dense_commands(buffer@, first_row(buffer@, rows), end_row(buffer@, rows));
            &&& appends(old(writer)@, final(writer)@, dense_ops(commands))
            &&& stats.commands == commands.len()
            &&& stats.last_put == dense_last_put(
                buffer@,
                first_row(buffer@, rows),
                end_row(buffer@, rows),
            )
        },
        !paints(buffer@, rows) ==> {
            &&& final(writer)@ == old(writer)@
            &&& stats == (DenseDrawStats { last_put: None, commands: 0 })
        },
{
    let bottom: u16 = buffer.area.bottom();
    let start: u16 = if rows.start >= buffer.area.y {
        rows.start
    } else {
        buffer.area.y
    };
    let end: u16 = if rows.end <= bottom {
        rows.end
    } else {
        bottom
    };
    if buffer.area.width == 0 || start >= end {
        return DenseDrawStats { last_put: None, commands: 0 };
    }
    encode_dense_rows(writer, buffer, start, end)
}

} // verus!
