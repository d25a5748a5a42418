//! A model of what a terminal shows, and the proof that the commands of a frame lead from one
//! frame to the next.
//!
//! A symbol takes up the columns from where it was shown. When one of its columns is shown
//! anew or erased, the terminal turns what is left of it into spaces in its style.

use crate::buffer::CellView;
use crate::diff::{
    drawn_until, is_blank, last_nonblank_cell, lemma_last_nonblank_cell, puts, row_commands,
    step_of, tail_clear, trailing_bg, DrawCommandView,
};
use crate::geometry::max_int;
use crate::style::{Color, Modifier};
use crate::width::columns;
use vstd::prelude::*;

verus! {

/// How a symbol looks.
#[verifier::ext_equal]
pub struct Look {
    pub symbol: Seq<char>,
    pub fg: Color,
    pub bg: Color,
    pub modifier: Modifier,
}

/// How a symbol looks in a style: of a plain space the foreground colour does not show.
pub open spec fn look(symbol: Seq<char>, fg: Color, bg: Color, modifier: Modifier) -> Look {
    Look {
        symbol,
        fg: if symbol == seq![' '] && modifier == Modifier::none() {
            Color::Reset
        } else {
            fg
        },
        bg,
        modifier,
    }
}

/// How a cell looks. The colour of its underline is not written to terminals.
pub open spec fn look_of(cell: CellView) -> Look {
    look(cell.symbol, cell.fg, cell.bg, cell.modifier)
}

/// How a space looks in the style of a symbol.
pub open spec fn space_in(like: Look) -> Look {
    look(seq![' '], like.fg, like.bg, like.modifier)
}

/// How an erased column looks.
pub open spec fn blank(bg: Color) -> Look {
    look(seq![' '], Color::Reset, bg, Modifier::none())
}

/// What a column shows: the part of a symbol that is so many columns from its start.
#[verifier::ext_equal]
pub struct Slot {
    pub look: Look,
    pub offset: int,
}

impl Slot {
    /// The symbol that column `j` shows takes up one of the columns from `from` on and before
    /// `to`.
    pub open spec fn touches(self, j: int, from: int, to: int) -> bool {
        j - self.offset < to && from < j - self.offset + columns(self.look.symbol)
    }

    /// What is left of the symbol when another of its columns is gone.
    pub open spec fn rest(self) -> Slot {
        Slot { look: space_in(self.look), offset: 0 }
    }
}

/// A line of the screen after a symbol was shown at column `at`. A symbol without columns
/// changes nothing.
pub open spec fn show_at(line: Seq<Slot>, at: int, symbol: Look) -> Seq<Slot> {
    let end = at + columns(symbol.symbol);
    Seq::new(
        line.len(),
        |j: int|
            if at <= j < end {
                Slot { look: symbol, offset: j - at }
            } else if at < end && line[j].touches(j, at, end) {
                line[j].rest()
            } else {
                line[j]
            },
    )
}

/// A line of the screen after it was erased from column `at` on.
pub open spec fn clear_from(line: Seq<Slot>, at: int, bg: Color) -> Seq<Slot> {
    Seq::new(
        line.len(),
        |j: int|
            if at <= j {
                Slot { look: blank(bg), offset: 0 }
            } else if at < j - line[j].offset + columns(line[j].look.symbol) {
                line[j].rest()
            } else {
                line[j]
            },
    )
}

/// A line of the screen, which starts at column `x`, after a command.
pub open spec fn apply_command(line: Seq<Slot>, x: int, command: DrawCommandView) -> Seq<Slot> {
    match command {
        DrawCommandView::Put { x: column, cell, .. } => show_at(line, column - x, look_of(cell)),
        DrawCommandView::ClearToEnd { x: column, bg, .. } => clear_from(line, column - x, bg),
    }
}

/// A line of the screen, which starts at column `x`, after commands.
pub open spec fn apply_commands(
    line: Seq<Slot>,
    x: int,
    commands: Seq<DrawCommandView>,
) -> Seq<Slot>
    decreases commands.len(),
{
    if commands.len() == 0 {
        line
    } else {
        apply_command(apply_commands(line, x, commands.drop_last()), x, commands.last())
    }
}

/// The number of columns from a symbol to the next one: its own, and at least one.
pub open spec fn span(cell: CellView) -> int {
    if columns(cell.symbol) > 1 {
        columns(cell.symbol)
    } else {
        1
    }
}

/// Going from cell `from` from symbol to symbol, one comes to cell `c`.
pub open spec fn head_from(row: Seq<CellView>, from: int, c: int) -> bool
    decreases max_int(c - from, 0),
{
    from == c || (from < c && from < row.len() && head_from(row, from + span(row[from]), c))
}

/// The symbol of cell `c` shows: no symbol before it covers the cell.
pub open spec fn is_head(row: Seq<CellView>, c: int) -> bool {
    0 <= c < row.len() && head_from(row, 0, c)
}

/// The line shows the symbol of the cell in all its columns, from column `c` on.
pub open spec fn shows_cell(line: Seq<Slot>, c: int, cell: CellView) -> bool {
    forall|j: int|
        c <= j < c + columns(cell.symbol) && j < line.len() ==> #[trigger] line[j] == (Slot {
            look: look_of(cell),
            offset: j - c,
        })
}

/// The line shows a row of cells. Nothing is said of cells that are to be left alone.
pub open spec fn shows_row(line: Seq<Slot>, row: Seq<CellView>) -> bool {
    &&& line.len() == row.len()
    &&& forall|c: int| #[trigger]
        is_head(row, c) && !row[c].skip ==> shows_cell(line, c, row[c])
}

/// The number of columns from `x` to where a command takes effect.
pub open spec fn column_of(command: DrawCommandView, x: int) -> int {
    command.position().x - x
}

/// A command shows column `e` anew.
pub open spec fn redraws(command: DrawCommandView, x: int, e: int) -> bool {
    match command {
        DrawCommandView::Put { .. } => column_of(command, x) == e,
        DrawCommandView::ClearToEnd { .. } => column_of(command, x) <= e,
    }
}

/// A command overwrites one of the columns from `from` on and before `to`.
pub open spec fn overwrites(command: DrawCommandView, x: int, from: int, to: int) -> bool {
    match command {
        DrawCommandView::Put { cell, .. } => {
            &&& columns(cell.symbol) > 0
            &&& column_of(command, x) < to
            &&& from < column_of(command, x) + columns(cell.symbol)
        },
        DrawCommandView::ClearToEnd { .. } => column_of(command, x) < to,
    }
}

/// Some of the commands shows column `e` anew.
pub open spec fn redrawn(commands: Seq<DrawCommandView>, x: int, e: int) -> bool {
    exists|i: int| 0 <= i < commands.len() && redraws(#[trigger] commands[i], x, e)
}

/// Some of the commands overwrites one of the columns from `from` on and before `to`.
pub open spec fn overwritten(commands: Seq<DrawCommandView>, x: int, from: int, to: int) -> bool {
    exists|i: int| 0 <= i < commands.len() && overwrites(#[trigger] commands[i], x, from, to)
}

/// Cell `e` of the row is covered by the symbol of cell `h`.
pub open spec fn covers(row: Seq<CellView>, h: int, e: int) -> bool {
    is_head(row, h) && h < e < h + span(row[h])
}

/// No symbol of the old row leaves anything behind that the new row does not want: where the
/// new row has a symbol that is not shown anew, and the old row had a part of another symbol,
/// that symbol is overwritten, and the space that is left of it looks like the new symbol.
pub open spec fn leaves_no_rest(
    commands: Seq<DrawCommandView>,
    x: int,
    prev: Seq<CellView>,
    next: Seq<CellView>,
) -> bool {
    forall|h: int, e: int| #[trigger]
        covers(prev, h, e) && #[trigger] is_head(next, e) && !next[e].skip && columns(
            next[e].symbol,
        ) > 0 && !redrawn(commands, x, e) ==> {
            &&& !prev[h].skip
            &&& overwritten(commands, x, h, h + columns(prev[h].symbol))
            &&& look_of(next[e]) == space_in(look_of(prev[h]))
        }
}

/// Where the rest of the row is erased, no symbol that shows sticks out into it.
pub open spec fn keeps_symbols(prev: Seq<CellView>, next: Seq<CellView>) -> bool {
    let last = drawn_until(next);
    last + 1 < next.len() && prev.skip(last + 1) != next.skip(last + 1) ==> forall|c: int|
        #[trigger] is_head(next, c) && c <= last && !next[c].skip ==> c + columns(next[c].symbol)
            <= last + 1
}

/// From any symbol, one comes to a symbol that covers a cell, or to the cell itself.
pub proof fn lemma_tiling(row: Seq<CellView>, from: int, c: int) -> (h: int)
    requires
        0 <= from <= c < row.len(),
    ensures
        head_from(row, from, h),
        from <= h <= c < h + step_of(row[h]),
    decreases max_int(c - from, 0),
{
    if c < from + step_of(row[from]) {
        from
    } else {
        let h = lemma_tiling(row, from + step_of(row[from]), c);
        h
    }
}

/// Symbols that show do not overlap.
pub proof fn lemma_heads_apart(row: Seq<CellView>, from: int, a: int, b: int)
    requires
        0 <= from,
        head_from(row, from, a),
        head_from(row, from, b),
        a < b,
    ensures
        a < row.len(),
        a + step_of(row[a]) <= b,
    decreases max_int(b - from, 0),
{
    if from != a {
        lemma_heads_apart(row, from + step_of(row[from]), a, b);
    } else {
        lemma_head_bound(row, from + step_of(row[from]), b);
    }
}

/// One comes to no cell before the first.
pub proof fn lemma_head_bound(row: Seq<CellView>, from: int, c: int)
    requires
        head_from(row, from, c),
    ensures
        from <= c,
    decreases max_int(c - from, 0),
{
}

/// One more symbol after one that one comes to.
proof fn lemma_head_step(row: Seq<CellView>, from: int, c: int)
    requires
        head_from(row, from, c),
        0 <= from <= c < row.len(),
    ensures
        head_from(row, from, c + step_of(row[c])),
    decreases max_int(c - from, 0),
{
    let next = c + step_of(row[c]);
    if from == c {
        assert(head_from(row, next, next));
    } else {
        lemma_head_bound(row, from + step_of(row[from]), c);
        lemma_head_step(row, from + step_of(row[from]), c);
    }
}

/// Commands that take effect from left to right, each where the one before has ended, the
/// clearing last.
pub open spec fn in_order(commands: Seq<DrawCommandView>, x: int) -> bool {
    &&& forall|i: int, k: int|
        0 <= i < k < commands.len() ==> {
            let left = #[trigger] commands[i];
            let right = #[trigger] commands[k];
            match left {
                DrawCommandView::Put { cell, .. } => column_of(left, x) + columns(cell.symbol)
                    <= column_of(right, x) && column_of(left, x) < column_of(right, x),
                DrawCommandView::ClearToEnd { .. } => false,
            }
        }
    &&& forall|i: int| 0 <= i < commands.len() ==> column_of(#[trigger] commands[i], x) >= 0
}

/// The commands show column `j` as a part of a symbol.
pub open spec fn puts_at(commands: Seq<DrawCommandView>, x: int, i: int, j: int) -> bool {
    &&& 0 <= i < commands.len()
    &&& commands[i] matches DrawCommandView::Put { cell, .. }
    &&& column_of(commands[i], x) <= j < column_of(commands[i], x) + columns(cell.symbol)
}

/// What a column shows after commands in order: the symbol that was shown there; a blank,
/// where the row was cleared; and otherwise what it showed before, or what is left of that.
pub proof fn lemma_apply_in_order(line: Seq<Slot>, x: int, commands: Seq<DrawCommandView>, j: int)
    requires
        in_order(commands, x),
        0 <= j < line.len(),
    ensures
        apply_commands(line, x, commands).len() == line.len(),
        forall|i: int| #[trigger]
            puts_at(commands, x, i, j) ==> apply_commands(line, x, commands)[j] == (Slot {
                look: look_of(commands[i]->cell),
                offset: j - column_of(commands[i], x),
            }),
        commands.len() > 0 && commands.last() is ClearToEnd && column_of(commands.last(), x) <= j
            ==> apply_commands(line, x, commands)[j] == (Slot {
            look: blank(commands.last()->bg),
            offset: 0,
        }),
        (forall|i: int| !#[trigger] puts_at(commands, x, i, j)) && !(commands.len() > 0
            && commands.last() is ClearToEnd && column_of(commands.last(), x) <= j) ==> {
            let start = j - line[j].offset;
            let end = start + columns(line[j].look.symbol);
            apply_commands(line, x, commands)[j] == (if overwritten(commands, x, start, end) {
                line[j].rest()
            } else {
                line[j]
            })
        },
    decreases commands.len(),
{
    let start = j - line[j].offset;
    let end = start + columns(line[j].look.symbol);
    if commands.len() > 0 {
        let front = commands.drop_last();
        let last = commands.last();
        assert(in_order(front, x)) by {
            assert forall|i: int, k: int| 0 <= i < k < front.len() implies {
                let left = #[trigger] front[i];
                let right = #[trigger] front[k];
                match left {
                    DrawCommandView::Put { cell, .. } => column_of(left, x) + columns(cell.symbol)
                        <= column_of(right, x) && column_of(left, x) < column_of(right, x),
                    DrawCommandView::ClearToEnd { .. } => false,
                }
            } by {
                assert(front[i] == commands[i]);
                assert(front[k] == commands[k]);
            }
            assert forall|i: int| 0 <= i < front.len() implies column_of(#[trigger] front[i], x)
                >= 0 by {
                assert(front[i] == commands[i]);
            }
        }
        lemma_apply_in_order(line, x, front, j);
        let before = apply_commands(line, x, front);
        let n = commands.len() - 1;
        // Nothing but the last command clears.
        if front.len() > 0 {
            assert(commands[n - 1] == front.last());
            assert(front.last() is Put);
        }
        assert forall|i: int| puts_at(front, x, i, j) == (puts_at(commands, x, i, j) && i < n) by {
            if 0 <= i < n {
                assert(front[i] == commands[i]);
            }
        }
        assert forall|i: int| #[trigger] puts_at(commands, x, i, j) implies apply_commands(
            line,
            x,
            commands,
        )[j] == (Slot {
            look: look_of(commands[i]->cell),
            offset: j - column_of(commands[i], x),
        }) by {
            if i < n {
                assert(puts_at(front, x, i, j));
                assert(front[i] == commands[i]);
                assert(commands[n] == last);
            }
        }
        assert(overwritten(commands, x, start, end) == (overwritten(front, x, start, end)
            || overwrites(last, x, start, end))) by {
            if overwritten(front, x, start, end) {
                let i = choose|i: int|
                    0 <= i < front.len() && overwrites(#[trigger] front[i], x, start, end);
                assert(front[i] == commands[i]);
            }
            if overwrites(last, x, start, end) {
                assert(commands[n] == last);
            }
            if overwritten(commands, x, start, end) {
                let i = choose|i: int|
                    0 <= i < commands.len() && overwrites(#[trigger] commands[i], x, start, end);
                if i < n {
                    assert(front[i] == commands[i]);
                }
            }
        }
        assert(columns(seq![' ']) == 1);
        assert(!puts_at(commands, x, n, j) ==> !(last is Put && column_of(last, x) <= j
            < column_of(last, x) + columns(last->cell.symbol)));
    } else {
        assert(!overwritten(commands, x, start, end));
    }
}

/// A command shows the symbol of a cell of the row at the cell's place.
pub open spec fn shows_cell_of(command: DrawCommandView, x: int, row: Seq<CellView>, from: int) -> bool {
    let c = column_of(command, x);
    &&& command is Put
    &&& from <= c < row.len()
    &&& head_from(row, from, c)
    &&& command->cell == row[c]
    &&& !row[c].skip
}

/// Some of the commands takes effect at column `c`.
pub open spec fn acts_at(commands: Seq<DrawCommandView>, x: int, c: int) -> bool {
    exists|i: int| 0 <= i < commands.len() && column_of(#[trigger] commands[i], x) == c
}

/// The cells that are shown are symbols of the new row, from left to right, and one that is not
/// shown was there before.
pub proof fn lemma_puts(
    prev: Seq<CellView>,
    next: Seq<CellView>,
    x: int,
    y: int,
    column: int,
    reach: int,
    last: int,
)
    requires
        prev.len() == next.len(),
        0 <= column,
        0 <= x,
        x + next.len() <= 0x1_0000,
    ensures
        ({
            let list = puts(prev, next, x, y, column, reach, last);
            &&& forall|i: int|
                0 <= i < list.len() ==> {
                    &&& shows_cell_of(#[trigger] list[i], x, next, column)
                    &&& column_of(list[i], x) <= last
                    &&& list[i].position().y == y as u16
                }
            &&& forall|i: int, k: int|
                0 <= i < k < list.len() ==> column_of(#[trigger] list[i], x) + step_of(
                    list[i]->cell,
                ) <= column_of(#[trigger] list[k], x)
            &&& forall|c: int| #[trigger]
                head_from(next, column, c) && c < next.len() && c <= last && !next[c].skip
                    ==> acts_at(list, x, c) || next[c] == prev[c]
        }),
    decreases max_int(next.len() - column, 0),
{
    let list = puts(prev, next, x, y, column, reach, last);
    if column >= next.len() || column > last {
        assert forall|c: int| #[trigger] head_from(next, column, c) implies column <= c by {
            lemma_head_bound(next, column, c);
        }
    } else {
        let cell = next[column];
        let here = if !cell.skip && (cell != prev[column] || reach > column) {
            seq![DrawCommandView::Put { x: (x + column) as u16, y: y as u16, cell }]
        } else {
            seq![]
        };
        let touched = column + max_int(columns(cell.symbol), columns(prev[column].symbol));
        let after = column + step_of(cell);
        let rest = puts(prev, next, x, y, after, max_int(reach, touched), last);
        lemma_puts(prev, next, x, y, after, max_int(reach, touched), last);
        assert(list == here + rest);
        let n = here.len() as int;
        assert forall|i: int| 0 <= i < list.len() implies {
            &&& shows_cell_of(#[trigger] list[i], x, next, column)
            &&& column_of(list[i], x) <= last
            &&& list[i].position().y == y as u16
        } by {
            if i >= n {
                assert(list[i] == rest[i - n]);
                lemma_head_bound(next, after, column_of(list[i], x));
            }
        }
        assert forall|i: int, k: int| 0 <= i < k < list.len() implies column_of(
            #[trigger] list[i],
            x,
        ) + step_of(list[i]->cell) <= column_of(#[trigger] list[k], x) by {
            assert(list[k] == rest[k - n]);
            if i >= n {
                assert(list[i] == rest[i - n]);
            }
        }
        assert forall|c: int| #[trigger]
            head_from(next, column, c) && c < next.len() && c <= last && !next[c].skip implies
            acts_at(list, x, c) || next[c] == prev[c] by {
            if c == column {
                if n > 0 {
                    assert(column_of(list[0], x) == c);
                }
            } else {
                assert(head_from(next, after, c));
                if acts_at(rest, x, c) {
                    let i = choose|i: int|
                        0 <= i < rest.len() && column_of(#[trigger] rest[i], x) == c;
                    assert(list[n + i] == rest[i]);
                }
            }
        }
    }
}

/// The commands for a row take effect from left to right.
pub proof fn lemma_row_commands(prev: Seq<CellView>, next: Seq<CellView>, x: int, y: int)
    requires
        prev.len() == next.len(),
        prev != next,
        0 <= x,
        x + next.len() <= 0x1_0000,
        keeps_symbols(prev, next),
    ensures
        ({
            let list = row_commands(prev, next, x, y);
            let last = drawn_until(next);
            let clears = last + 1 < next.len() && prev.skip(last + 1) != next.skip(last + 1);
            &&& 0 <= last
            &&& in_order(list, x)
            &&& forall|i: int|
                0 <= i < list.len() ==> {
                    ||| shows_cell_of(#[trigger] list[i], x, next, 0) && column_of(list[i], x)
                        <= last
                    ||| clears && i == list.len() - 1 && list[i] is ClearToEnd && column_of(
                        list[i],
                        x,
                    ) == last + 1 && list[i]->bg == trailing_bg(next)
                }
            &&& forall|i: int|
                0 <= i < list.len() ==> (#[trigger] list[i]).position().y == y as u16
            &&& clears ==> list.len() > 0 && list.last() is ClearToEnd
            &&& forall|c: int| #[trigger]
                is_head(next, c) && c <= last && !next[c].skip ==> acts_at(list, x, c) || next[c]
                    == prev[c]
            &&& forall|i: int| last < i < next.len() ==> is_blank(
                #[trigger] next[i],
                trailing_bg(next),
            )
        }),
{
    let list = row_commands(prev, next, x, y);
    let last = drawn_until(next);
    let front = puts(prev, next, x, y, 0, 0, last);
    let tail = tail_clear(prev, next, x, y, last);
    let n = front.len() as int;
    lemma_last_nonblank_cell(next, trailing_bg(next));
    lemma_puts(prev, next, x, y, 0, 0, last);
    assert(list == front + tail);
    assert forall|i: int| 0 <= i < list.len() implies {
        ||| shows_cell_of(#[trigger] list[i], x, next, 0) && column_of(list[i], x) <= last
        ||| last + 1 < next.len() && prev.skip(last + 1) != next.skip(last + 1) && i == list.len()
            - 1 && list[i] is ClearToEnd && column_of(list[i], x) == last + 1 && list[i]->bg
            == trailing_bg(next)
    } by {
        if i < n {
            assert(list[i] == front[i]);
        } else {
            assert(list[i] == tail[i - n]);
        }
    }
    assert forall|i: int| 0 <= i < list.len() implies (#[trigger] list[i]).position().y
        == y as u16 by {
        if i < n {
            assert(list[i] == front[i]);
        } else {
            assert(list[i] == tail[i - n]);
        }
    }
    assert forall|i: int, k: int| 0 <= i < k < list.len() implies {
        let left = #[trigger] list[i];
        let right = #[trigger] list[k];
        match left {
            DrawCommandView::Put { cell, .. } => column_of(left, x) + columns(cell.symbol)
                <= column_of(right, x) && column_of(left, x) < column_of(right, x),
            DrawCommandView::ClearToEnd { .. } => false,
        }
    } by {
        assert(list[i] == front[i]);
        if k < n {
            assert(list[k] == front[k]);
        } else {
            assert(is_head(next, column_of(list[i], x)));
        }
    }
    assert forall|c: int| #[trigger]
        is_head(next, c) && c <= last && !next[c].skip implies acts_at(list, x, c) || next[c]
        == prev[c] by {
        if acts_at(front, x, c) {
            let i = choose|i: int| 0 <= i < front.len() && column_of(#[trigger] front[i], x) == c;
            assert(list[i] == front[i]);
        }
    }
    if tail.len() > 0 {
        assert(list.last() == tail[0]);
    }
}

/// A column of a cell that is not shown anew still shows the cell after the commands.
proof fn lemma_kept(
    line: Seq<Slot>,
    prev: Seq<CellView>,
    next: Seq<CellView>,
    x: int,
    y: int,
    c: int,
    j: int,
)
    requires
        prev.len() == next.len(),
        prev != next,
        0 <= x,
        x + next.len() <= 0x1_0000,
        shows_row(line, prev),
        leaves_no_rest(row_commands(prev, next, x, y), x, prev, next),
        keeps_symbols(prev, next),
        is_head(next, c),
        !next[c].skip,
        c <= j < c + columns(next[c].symbol),
        j < line.len(),
        !redrawn(row_commands(prev, next, x, y), x, c),
    ensures
        apply_commands(line, x, row_commands(prev, next, x, y))[j] == (Slot {
            look: look_of(next[c]),
            offset: j - c,
        }),
{
    let list = row_commands(prev, next, x, y);
    let last = drawn_until(next);
    let end = c + columns(next[c].symbol);
    lemma_row_commands(prev, next, x, y);
    lemma_apply_in_order(line, x, list, j);
    lemma_unchanged(prev, next, x, y, c);
    // No command touches the symbol's columns.
    assert forall|i: int| 0 <= i < list.len() implies !overwrites(#[trigger] list[i], x, c, end) by {
        let at = column_of(list[i], x);
        if list[i] is Put {
            assert(!redraws(list[i], x, c));
            if at < c {
                lemma_heads_apart(next, 0, at, c);
            } else {
                lemma_heads_apart(next, 0, c, at);
            }
        } else {
            assert(!redraws(list[i], x, c));
            assert(c <= last);
        }
    }
    assert forall|i: int| !#[trigger] puts_at(list, x, i, j) by {
        if puts_at(list, x, i, j) {
            assert(overwrites(list[i], x, c, end));
        }
    }
    if list.len() > 0 && list.last() is ClearToEnd {
        assert(!overwrites(list[list.len() - 1], x, c, end));
    }
    if is_head(prev, c) {
        assert(shows_cell(line, c, prev[c]));
    } else {
        let h = lemma_tiling(prev, 0, c);
        assert(is_head(prev, h));
        assert(covers(prev, h, c));
        assert(look_of(next[c]).symbol == seq![' ']);
        assert(columns(seq![' ']) == 1);
        assert(j == c);
        assert(shows_cell(line, h, prev[h]));
    }
}

/// The commands that lead from one row to another make a line that shows the one show the
/// other, unless they leave a part of a symbol of the old row behind, or erase a part of a
/// symbol of the new one.
pub proof fn law_row_is_shown(
    line: Seq<Slot>,
    prev: Seq<CellView>,
    next: Seq<CellView>,
    x: int,
    y: int,
)
    requires
        prev.len() == next.len(),
        0 <= x,
        x + next.len() <= 0x1_0000,
        shows_row(line, prev),
        leaves_no_rest(row_commands(prev, next, x, y), x, prev, next),
        keeps_symbols(prev, next),
    ensures
        shows_row(apply_commands(line, x, row_commands(prev, next, x, y)), next),
{
    let list = row_commands(prev, next, x, y);
    let after = apply_commands(line, x, list);
    if prev != next {
        lemma_row_commands(prev, next, x, y);
        lemma_apply_len(line, x, list);
        assert forall|c: int| #[trigger] is_head(next, c) && !next[c].skip implies shows_cell(
            after,
            c,
            next[c],
        ) by {
            assert forall|j: int| c <= j < c + columns(next[c].symbol) && j < after.len() implies
                #[trigger] after[j] == (Slot { look: look_of(next[c]), offset: j - c }) by {
                if redrawn(list, x, c) {
                    let i = choose|i: int|
                        0 <= i < list.len() && redraws(#[trigger] list[i], x, c);
                    lemma_apply_in_order(line, x, list, j);
                    if list[i] is Put {
                        assert(puts_at(list, x, i, j));
                    } else {
                        assert(list[i] == list.last());
                        assert(is_blank(next[c], trailing_bg(next)));
                        assert(columns(seq![' ']) == 1);
                    }
                } else {
                    lemma_kept(line, prev, next, x, y, c, j);
                }
            }
        }
    }
}

/// Commands leave the length of a line alone.
pub proof fn lemma_apply_len(line: Seq<Slot>, x: int, commands: Seq<DrawCommandView>)
    ensures
        apply_commands(line, x, commands).len() == line.len(),
    decreases commands.len(),
{
    if commands.len() > 0 {
        lemma_apply_len(line, x, commands.drop_last());
    }
}

/// Every symbol of the row takes up one column at most.
pub open spec fn narrow(row: Seq<CellView>) -> bool {
    forall|i: int| 0 <= i < row.len() ==> columns((#[trigger] row[i]).symbol) <= 1
}

/// Between rows without wide symbols, the commands always make the line show the new row.
pub proof fn law_narrow_row_is_shown(
    line: Seq<Slot>,
    prev: Seq<CellView>,
    next: Seq<CellView>,
    x: int,
    y: int,
)
    requires
        prev.len() == next.len(),
        0 <= x,
        x + next.len() <= 0x1_0000,
        shows_row(line, prev),
        narrow(prev),
        narrow(next),
    ensures
        shows_row(apply_commands(line, x, row_commands(prev, next, x, y)), next),
{
    law_row_is_shown(line, prev, next, x, y);
}

/// Every symbol that shows takes up a column, and none is to be left alone.
pub open spec fn all_shown(row: Seq<CellView>) -> bool {
    forall|c: int| #[trigger] is_head(row, c) ==> !row[c].skip && columns(row[c].symbol) >= 1
}

/// A cell that a wide symbol covers and that stays as it is looks like a space in the style of
/// the symbol.
pub open spec fn tidy(prev: Seq<CellView>, next: Seq<CellView>) -> bool {
    forall|h: int, e: int| #[trigger]
        covers(prev, h, e) && prev[e] == next[e] ==> !prev[h].skip && look_of(prev[e])
            == space_in(look_of(prev[h]))
}

/// Where the cells behind wide symbols are spaces in the symbols' style, the commands make the
/// line show the new row, unless they erase a part of a symbol.
pub proof fn law_tidy_row_is_shown(
    line: Seq<Slot>,
    prev: Seq<CellView>,
    next: Seq<CellView>,
    x: int,
    y: int,
)
    requires
        prev.len() == next.len(),
        0 <= x,
        x + next.len() <= 0x1_0000,
        shows_row(line, prev),
        tidy(prev, next),
        all_shown(next),
        keeps_symbols(prev, next),
    ensures
        shows_row(apply_commands(line, x, row_commands(prev, next, x, y)), next),
{
    lemma_tidy(prev, next, x, y);
    law_row_is_shown(line, prev, next, x, y);
}

/// Where covered cells that stay are spaces in the symbols' style, nothing is left behind.
proof fn lemma_tidy(prev: Seq<CellView>, next: Seq<CellView>, x: int, y: int)
    requires
        prev.len() == next.len(),
        0 <= x,
        x + next.len() <= 0x1_0000,
        tidy(prev, next),
        all_shown(next),
        keeps_symbols(prev, next),
    ensures
        leaves_no_rest(row_commands(prev, next, x, y), x, prev, next),
{
    let list = row_commands(prev, next, x, y);
    if prev != next {
        lemma_row_commands(prev, next, x, y);
        assert forall|h: int, e: int| #[trigger]
            covers(prev, h, e) && #[trigger] is_head(next, e) && !next[e].skip && columns(
                next[e].symbol,
            ) > 0 && !redrawn(list, x, e) implies {
            &&& !prev[h].skip
            &&& overwritten(list, x, h, h + columns(prev[h].symbol))
            &&& look_of(next[e]) == space_in(look_of(prev[h]))
        } by {
            lemma_unchanged(prev, next, x, y, e);
            // The new symbol at the old one's first column.
            let c = lemma_tiling(next, 0, h);
            assert(is_head(next, c));
            lemma_heads_apart(next, 0, c, e);
            if redrawn(list, x, c) {
                let i = choose|i: int| 0 <= i < list.len() && redraws(#[trigger] list[i], x, c);
                assert(overwrites(list[i], x, h, h + columns(prev[h].symbol)));
            } else {
                lemma_unchanged(prev, next, x, y, c);
                if is_head(prev, c) {
                    if c < h {
                        lemma_heads_apart(prev, 0, c, h);
                    }
                } else {
                    let g = lemma_tiling(prev, 0, c);
                    assert(is_head(prev, g));
                    assert(covers(prev, g, c));
                    assert(look_of(next[c]).symbol == seq![' ']);
                    assert(columns(seq![' ']) == 1);
                }
                assert(false);
            }
        }
    } else {
        lemma_same_row(prev, next, x, y);
    }
}

/// A cell that shows and is not shown anew is as it was.
proof fn lemma_unchanged(prev: Seq<CellView>, next: Seq<CellView>, x: int, y: int, c: int)
    requires
        prev.len() == next.len(),
        prev != next,
        0 <= x,
        x + next.len() <= 0x1_0000,
        keeps_symbols(prev, next),
        is_head(next, c),
        !next[c].skip,
        !redrawn(row_commands(prev, next, x, y), x, c),
    ensures
        next[c] == prev[c],
{
    let list = row_commands(prev, next, x, y);
    let last = drawn_until(next);
    lemma_row_commands(prev, next, x, y);
    if c <= last {
        if acts_at(list, x, c) {
            let i = choose|i: int| 0 <= i < list.len() && column_of(#[trigger] list[i], x) == c;
            assert(redraws(list[i], x, c));
        }
    } else {
        if prev.skip(last + 1) != next.skip(last + 1) {
            assert(redraws(list[list.len() - 1], x, c));
        }
        assert(prev.skip(last + 1)[c - last - 1] == next.skip(last + 1)[c - last - 1]);
    }
}

/// A row that stays as it is leaves nothing behind.
proof fn lemma_same_row(prev: Seq<CellView>, next: Seq<CellView>, x: int, y: int)
    requires
        prev == next,
    ensures
        leaves_no_rest(row_commands(prev, next, x, y), x, prev, next),
{
    assert forall|h: int, e: int| covers(prev, h, e) && is_head(next, e) implies false by {
        lemma_heads_apart(next, 0, h, e);
    }
}

/// Between rows without wide symbols, only cells that differ are shown anew.
pub proof fn law_narrow_row_shows_changes(
    prev: Seq<CellView>,
    next: Seq<CellView>,
    x: int,
    y: int,
)
    requires
        prev.len() == next.len(),
        0 <= x,
        x + next.len() <= 0x1_0000,
        narrow(prev),
        narrow(next),
    ensures
        forall|i: int|
            0 <= i < row_commands(prev, next, x, y).len() && (#[trigger] row_commands(
                prev,
                next,
                x,
                y,
            )[i]) is Put ==> {
                let command = row_commands(prev, next, x, y)[i];
                let column = column_of(command, x);
                &&& 0 <= column < next.len()
                &&& command->cell == next[column]
                &&& next[column] != prev[column]
            },
{
    if prev != next {
        lemma_narrow_puts(prev, next, x, y, 0, 0, drawn_until(next));
    }
}

/// Of rows without wide symbols, only cells that differ are shown.
proof fn lemma_narrow_puts(
    prev: Seq<CellView>,
    next: Seq<CellView>,
    x: int,
    y: int,
    column: int,
    reach: int,
    last: int,
)
    requires
        prev.len() == next.len(),
        0 <= x,
        x + next.len() <= 0x1_0000,
        0 <= column,
        reach <= column,
        narrow(prev),
        narrow(next),
    ensures
        forall|i: int|
            0 <= i < puts(prev, next, x, y, column, reach, last).len() ==> {
                let command = #[trigger] puts(prev, next, x, y, column, reach, last)[i];
                let c = column_of(command, x);
                &&& 0 <= c < next.len()
                &&& command is Put && command->cell == next[c]
                &&& next[c] != prev[c]
            },
    decreases max_int(next.len() - column, 0),
{
    let list = puts(prev, next, x, y, column, reach, last);
    if column < next.len() && column <= last {
        let cell = next[column];
        let touched = column + max_int(columns(cell.symbol), columns(prev[column].symbol));
        let after = column + step_of(cell);
        let rest = puts(prev, next, x, y, after, max_int(reach, touched), last);
        lemma_narrow_puts(prev, next, x, y, after, max_int(reach, touched), last);
        let n = list.len() - rest.len();
        assert forall|i: int| 0 <= i < list.len() implies {
            let command = #[trigger] list[i];
            let c = column_of(command, x);
            &&& 0 <= c < next.len()
            &&& command is Put && command->cell == next[c]
            &&& next[c] != prev[c]
        } by {
            if i >= n {
                assert(list[i] == rest[i - n]);
            }
        }
    }
}

/// The rest of a row is erased only where something has changed in it, from behind the last
/// cell that is not blank on, in the colour at the end of the row. Nothing is erased in a row
/// that is filled to its end.
pub proof fn law_rest_is_cleared(prev: Seq<CellView>, next: Seq<CellView>, x: int, y: int)
    requires
        prev.len() == next.len(),
        0 <= x,
        x + next.len() <= 0x1_0000,
    ensures
        forall|i: int|
            0 <= i < row_commands(prev, next, x, y).len() && (#[trigger] row_commands(
                prev,
                next,
                x,
                y,
            )[i]) is ClearToEnd ==> {
                let command = row_commands(prev, next, x, y)[i];
                let start = drawn_until(next) + 1;
                &&& column_of(command, x) == start
                &&& start < next.len()
                &&& prev.skip(start) != next.skip(start)
                &&& command->bg == trailing_bg(next)
                &&& forall|c: int|
                    start <= c < next.len() ==> is_blank(#[trigger] next[c], trailing_bg(next))
            },
{
    lemma_last_nonblank_cell(next, trailing_bg(next));
    let last = drawn_until(next);
    lemma_puts(prev, next, x, y, 0, 0, last);
    let front = puts(prev, next, x, y, 0, 0, last);
    let list = row_commands(prev, next, x, y);
    assert forall|i: int| 0 <= i < list.len() && (#[trigger] list[i]) is ClearToEnd implies i
        >= front.len() by {
        if i < front.len() {
            assert(list[i] == front[i]);
            assert(shows_cell_of(front[i], x, next, 0));
        }
    }
}

/// A command shows or erases the place `(x, y)` of the screen.
pub open spec fn command_covers(command: DrawCommandView, x: int, y: int) -> bool {
    let at = command.position();
    at.y == y && match command {
        DrawCommandView::Put { cell, .. } => at.x <= x < at.x + span(cell),
        DrawCommandView::ClearToEnd { .. } => at.x <= x,
    }
}

/// Some of the commands shows or erases the place `(x, y)` of the screen.
pub open spec fn covered(commands: Seq<DrawCommandView>, x: int, y: int) -> bool {
    exists|i: int| 0 <= i < commands.len() && command_covers(#[trigger] commands[i], x, y)
}

/// Of a row of which it is not known what the screen shows, every cell is repainted.
pub proof fn law_unknown_row_is_repainted(
    prev: Seq<CellView>,
    next: Seq<CellView>,
    x: int,
    y: int,
    j: int,
)
    requires
        prev.len() == next.len(),
        0 <= x,
        x + next.len() <= 0x1_0000,
        0 <= y <= u16::MAX,
        0 <= j < next.len(),
        forall|i: int| 0 <= i < prev.len() ==> #[trigger] prev[i] == CellView::unknown(),
        forall|i: int| 0 <= i < next.len() ==> !(#[trigger] next[i]).skip,
    ensures
        covered(row_commands(prev, next, x, y), x + j, y),
{
    let list = row_commands(prev, next, x, y);
    let last = drawn_until(next);
    let front = puts(prev, next, x, y, 0, 0, last);
    assert(prev[j].skip != next[j].skip);
    lemma_last_nonblank_cell(next, trailing_bg(next));
    lemma_puts(prev, next, x, y, 0, 0, last);
    let c = lemma_tiling(next, 0, j);
    assert(prev[c].skip != next[c].skip);
    if c <= last {
        assert(acts_at(front, x, c));
        let i = choose|i: int| 0 <= i < front.len() && column_of(#[trigger] front[i], x) == c;
        assert(shows_cell_of(front[i], x, next, 0));
        assert(list[i] == front[i]);
        assert(command_covers(list[i], x + j, y));
    } else {
        let start = last + 1;
        assert(prev[start].skip != next[start].skip);
        assert(prev.skip(start)[0] != next.skip(start)[0]);
        let i = front.len() as int;
        assert(list[i] == tail_clear(prev, next, x, y, last)[0]);
        assert(command_covers(list[i], x + j, y));
    }
}

/// A line shows any row of which it is not known what the screen shows, and leaves nothing
/// behind when another row is shown.
pub proof fn lemma_unknown_row(
    line: Seq<Slot>,
    prev: Seq<CellView>,
    next: Seq<CellView>,
    commands: Seq<DrawCommandView>,
    x: int,
)
    requires
        line.len() == prev.len(),
        forall|i: int| 0 <= i < prev.len() ==> #[trigger] prev[i] == CellView::unknown(),
    ensures
        shows_row(line, prev),
        leaves_no_rest(commands, x, prev, next),
{
    assert(columns(seq![' ']) == 1);
    assert forall|c: int| is_head(prev, c) implies prev[c].skip by {
        assert(prev[c] == CellView::unknown());
    }
    assert forall|h: int, e: int| !#[trigger] covers(prev, h, e) by {
        if is_head(prev, h) {
            assert(prev[h] == CellView::unknown());
        }
    }
}

/// The cell is a plain space in a background colour: it shows nothing but the colour.
pub open spec fn shows_nothing(cell: CellView, bg: Color) -> bool {
    cell.symbol == seq![' '] && cell.bg == bg && cell.modifier.bits == 0
}

/// The background colour at the end of a row.
pub open spec fn end_color(row: Seq<CellView>) -> Color {
    if row.len() == 0 {
        Color::Reset
    } else {
        row[row.len() - 1].bg
    }
}

/// Cell `i` is the last one of the row that shows anything but the colour at its end.
pub open spec fn ends_text(row: Seq<CellView>, i: int) -> bool {
    &&& 0 <= i < row.len()
    &&& !shows_nothing(row[i], end_color(row))
    &&& forall|j: int| i < j < row.len() ==> shows_nothing(#[trigger] row[j], end_color(row))
}

/// Column `c` belongs to the part of the row that shows anything but the colour at its end.
pub open spec fn in_text(row: Seq<CellView>, c: int) -> bool {
    exists|i: int| #[trigger] ends_text(row, i) && c < i + span(row[i])
}

/// A symbol of the old row that was replaced before column `c` reached there.
pub open spec fn touched(prev: Seq<CellView>, next: Seq<CellView>, c: int) -> bool {
    exists|g: int| #[trigger] is_head(next, g) && g < c && c < g + columns(prev[g].symbol)
}

/// Where a row has text, its last cell that shows anything is `i`; where it has none, there is
/// none, and the part that is drawn cell by cell is its first column.
pub proof fn lemma_text(row: Seq<CellView>)
    ensures
        ({
            let last = drawn_until(row);
            &&& trailing_bg(row) == end_color(row)
            &&& forall|i: int| #[trigger] ends_text(row, i) ==> last == i + span(row[i]) - 1
            &&& (forall|i: int| !#[trigger] ends_text(row, i)) ==> last == 0
            &&& forall|j: int|
                last < j < row.len() ==> shows_nothing(#[trigger] row[j], end_color(row))
            &&& forall|c: int| 0 <= c ==> (c <= last <==> c == 0 || #[trigger] in_text(row, c))
        }),
{
    let bg = trailing_bg(row);
    let last = drawn_until(row);
    assert(bg == end_color(row));
    lemma_last_nonblank_cell(row, bg);
    assert forall|j: int| 0 <= j < row.len() implies shows_nothing(#[trigger] row[j], bg)
        == is_blank(row[j], bg) by {
        assert(Modifier::none().bits == 0);
        if row[j].modifier.bits == 0 {
            assert(row[j].modifier == Modifier::none());
        }
    }
    match last_nonblank_cell(row, bg) {
        None => {
            assert forall|i: int| !#[trigger] ends_text(row, i) by {}
        },
        Some(end) => {
            assert(ends_text(row, end));
            assert forall|i: int| #[trigger] ends_text(row, i) implies i == end by {
                if i < end {
                    assert(shows_nothing(row[end], end_color(row)));
                } else if end < i {
                    assert(shows_nothing(row[i], end_color(row)));
                }
            }
        },
    }
    assert forall|c: int| 0 <= c implies (c <= last <==> c == 0 || #[trigger] in_text(row, c)) by {
        if in_text(row, c) {
            let i = choose|i: int| #[trigger] ends_text(row, i) && c < i + span(row[i]);
            assert(last == i + span(row[i]) - 1);
        }
        if c <= last && c > 0 {
            let end = last_nonblank_cell(row, bg)->0;
            assert(ends_text(row, end));
        }
    }
}

/// Which cells of a row are shown: those that differ or were touched.
proof fn lemma_puts_exact(
    prev: Seq<CellView>,
    next: Seq<CellView>,
    x: int,
    y: int,
    column: int,
    reach: int,
    last: int,
)
    requires
        prev.len() == next.len(),
        0 <= column,
        0 <= x,
        x + next.len() <= 0x1_0000,
        head_from(next, 0, column),
        forall|j: int|
            column <= j ==> (reach > j <==> #[trigger] touched_before(prev, next, column, j)),
    ensures
        forall|c: int|
            column <= c < next.len() && c <= last && head_from(next, column, c) && !next[c].skip
                ==> (#[trigger] acts_at(puts(prev, next, x, y, column, reach, last), x, c) <==> (
            next[c] != prev[c] || touched(prev, next, c))),
    decreases max_int(next.len() - column, 0),
{
    let list = puts(prev, next, x, y, column, reach, last);
    if column < next.len() && column <= last {
        let cell = next[column];
        let here = if !cell.skip && (cell != prev[column] || reach > column) {
            seq![DrawCommandView::Put { x: (x + column) as u16, y: y as u16, cell }]
        } else {
            seq![]
        };
        let n = here.len() as int;
        let reached = column + max_int(columns(cell.symbol), columns(prev[column].symbol));
        let after = column + span(cell);
        let farther = max_int(reach, reached);
        let rest = puts(prev, next, x, y, after, farther, last);
        assert(list == here + rest);
        lemma_head_step(next, 0, column);
        assert forall|j: int| after <= j implies (farther > j <==> #[trigger] touched_before(
            prev,
            next,
            after,
            j,
        )) by {
            assert(reach > j <==> touched_before(prev, next, column, j));
            if touched_before(prev, next, after, j) {
                let g = choose|g: int| #[trigger]
                    is_head(next, g) && g < after && j < g + columns(prev[g].symbol);
                if g > column {
                    lemma_heads_apart(next, 0, column, g);
                }
            }
            if farther > j && !touched_before(prev, next, column, j) {
                assert(is_head(next, column));
            }
            if touched_before(prev, next, column, j) {
                let g = choose|g: int| #[trigger]
                    is_head(next, g) && g < column && j < g + columns(prev[g].symbol);
                assert(is_head(next, g));
            }
        }
        lemma_puts_exact(prev, next, x, y, after, farther, last);
        lemma_puts(prev, next, x, y, after, farther, last);
        assert forall|c: int|
            column <= c < next.len() && c <= last && head_from(next, column, c)
                && !next[c].skip implies (#[trigger] acts_at(list, x, c) <==> (next[c] != prev[c]
            || touched(prev, next, c))) by {
            if c == column {
                assert(touched_before(prev, next, column, column) == touched(prev, next, c));
                if n > 0 {
                    assert(column_of(list[0], x) == c);
                }
                if acts_at(list, x, c) && n == 0 {
                    let i = choose|i: int|
                        0 <= i < list.len() && column_of(#[trigger] list[i], x) == c;
                    assert(list[i] == rest[i]);
                    assert(shows_cell_of(rest[i], x, next, after));
                }
            } else {
                lemma_head_bound(next, after, c);
                assert(head_from(next, after, c));
                assert(acts_at(rest, x, c) <==> (next[c] != prev[c] || touched(prev, next, c)));
                if acts_at(rest, x, c) {
                    let i = choose|i: int|
                        0 <= i < rest.len() && column_of(#[trigger] rest[i], x) == c;
                    assert(list[n + i] == rest[i]);
                }
                if acts_at(list, x, c) {
                    let i = choose|i: int|
                        0 <= i < list.len() && column_of(#[trigger] list[i], x) == c;
                    assert(i >= n);
                    assert(list[i] == rest[i - n]);
                }
            }
        }
    }
}

/// A symbol of the old row that was replaced before column `column` reached to column `j`.
spec fn touched_before(prev: Seq<CellView>, next: Seq<CellView>, column: int, j: int) -> bool {
    exists|g: int| #[trigger] is_head(next, g) && g < column && j < g + columns(prev[g].symbol)
}

/// A command is one that leads from the old row to the new one: it shows a symbol of the new row
/// that differs, or that an old symbol reached, in the part of the row that has text; or it
/// erases the row from right behind its text, in the colour at its end, where a cell there
/// differs. The first column is drawn even of a row without text.
pub open spec fn is_needed(
    command: DrawCommandView,
    prev: Seq<CellView>,
    next: Seq<CellView>,
    x: int,
) -> bool {
    let c = column_of(command, x);
    match command {
        DrawCommandView::Put { cell, .. } => {
            &&& is_head(next, c)
            &&& !next[c].skip
            &&& cell == next[c]
            &&& next[c] != prev[c] || touched(prev, next, c)
            &&& c == 0 || in_text(next, c)
        },
        DrawCommandView::ClearToEnd { bg, .. } => {
            &&& 0 < c < next.len()
            &&& bg == end_color(next)
            &&& forall|i: int| #[trigger] ends_text(next, i) ==> c == i + span(next[i])
            &&& (forall|i: int| !#[trigger] ends_text(next, i)) ==> c == 1
            &&& exists|j: int| c <= j < next.len() && #[trigger] next[j] != prev[j]
        },
    }
}

/// A command shows the cell at column `c`.
pub open spec fn puts_cell(command: DrawCommandView, x: int, c: int, cell: CellView) -> bool {
    command is Put && column_of(command, x) == c && command->cell == cell
}

/// Some of the commands shows the cell at column `c`.
pub open spec fn is_put(commands: Seq<DrawCommandView>, x: int, c: int, cell: CellView) -> bool {
    exists|i: int| 0 <= i < commands.len() && puts_cell(#[trigger] commands[i], x, c, cell)
}

/// Some of the commands erases column `c`.
pub open spec fn is_cleared(commands: Seq<DrawCommandView>, x: int, c: int) -> bool {
    exists|i: int|
        0 <= i < commands.len() && (#[trigger] commands[i]) is ClearToEnd && column_of(
            commands[i],
            x,
        ) <= c
}

/// The commands for a row are those that are needed, each once, from left to right: every one of
/// them is needed; a symbol that differs, or that an old symbol reached, is shown where the row
/// has text; and a cell that differs behind the text is erased.
pub proof fn law_row_commands_are_needed(
    prev: Seq<CellView>,
    next: Seq<CellView>,
    x: int,
    y: int,
)
    requires
        prev.len() == next.len(),
        0 <= x,
        x + next.len() <= 0x1_0000,
        0 <= y <= u16::MAX,
    ensures
        ({
            let list = row_commands(prev, next, x, y);
            &&& forall|i: int|
                0 <= i < list.len() ==> is_needed(#[trigger] list[i], prev, next, x)
                    && list[i].position().y == y
            &&& forall|i: int, k: int|
                0 <= i < k < list.len() ==> column_of(#[trigger] list[i], x) < column_of(
                    #[trigger] list[k],
                    x,
                )
            &&& forall|c: int| #[trigger]
                is_head(next, c) && !next[c].skip && (next[c] != prev[c] || touched(prev, next, c))
                    && (c == 0 || in_text(next, c)) ==> is_put(list, x, c, next[c])
            &&& forall|c: int|
                0 < c < next.len() && #[trigger] next[c] != prev[c] && !in_text(next, c)
                    ==> is_cleared(list, x, c)
        }),
{
    let list = row_commands(prev, next, x, y);
    let last = drawn_until(next);
    let front = puts(prev, next, x, y, 0, 0, last);
    let tail = tail_clear(prev, next, x, y, last);
    let n = front.len() as int;
    lemma_text(next);
    if prev != next {
        assert forall|j: int| 0 <= j implies (0 > j <==> #[trigger] touched_before(
            prev,
            next,
            0,
            j,
        )) by {}
        lemma_puts(prev, next, x, y, 0, 0, last);
        lemma_puts_exact(prev, next, x, y, 0, 0, last);
        assert(list == front + tail);
        assert forall|i: int| 0 <= i < list.len() implies is_needed(
            #[trigger] list[i],
            prev,
            next,
            x,
        ) && list[i].position().y == y by {
            if i < n {
                assert(list[i] == front[i]);
                let c = column_of(front[i], x);
                assert(shows_cell_of(front[i], x, next, 0));
                assert(acts_at(front, x, c));
                assert(c == 0 || in_text(next, c));
            } else {
                assert(list[i] == tail[i - n]);
                let start = last + 1;
                assert(exists|j: int| start <= j < next.len() && #[trigger] next[j] != prev[j]) by {
                    if forall|j: int| start <= j < next.len() ==> #[trigger] next[j] == prev[j] {
                        assert(prev.skip(start) =~= next.skip(start));
                    }
                }
            }
        }
        assert forall|i: int, k: int| 0 <= i < k < list.len() implies column_of(
            #[trigger] list[i],
            x,
        ) < column_of(#[trigger] list[k], x) by {
            assert(list[i] == front[i]);
            if k < n {
                assert(list[k] == front[k]);
            } else {
                assert(list[k] == tail[k - n]);
            }
        }
        assert forall|c: int| #[trigger]
            is_head(next, c) && !next[c].skip && (next[c] != prev[c] || touched(prev, next, c))
                && (c == 0 || in_text(next, c)) implies is_put(list, x, c, next[c]) by {
            assert(c <= last);
            assert(acts_at(front, x, c));
            let i = choose|i: int| 0 <= i < front.len() && column_of(#[trigger] front[i], x) == c;
            assert(shows_cell_of(front[i], x, next, 0));
            assert(list[i] == front[i]);
            assert(puts_cell(list[i], x, c, next[c]));
        }
        assert forall|c: int|
            0 < c < next.len() && #[trigger] next[c] != prev[c] && !in_text(next, c) implies
            is_cleared(list, x, c) by {
            assert(c > last);
            assert(prev.skip(last + 1)[c - last - 1] != next.skip(last + 1)[c - last - 1]);
            assert(list[n] == tail[0]);
            assert(list[n] is ClearToEnd);
        }
    } else {
        assert forall|c: int| #[trigger] is_head(next, c) implies !touched(prev, next, c) by {
            if touched(prev, next, c) {
                let g = choose|g: int| #[trigger]
                    is_head(next, g) && g < c && c < g + columns(prev[g].symbol);
                lemma_heads_apart(next, 0, g, c);
            }
        }
    }
}

/// The cells that a symbol covers are spaces, all alike.
pub open spec fn covers_alike(row: Seq<CellView>) -> bool {
    forall|h: int, e: int, g: int|
        #[trigger] covers(row, h, e) && #[trigger] covers(row, h, g) && e < row.len() && g
            < row.len() ==> row[e] == row[g] && row[e].symbol == seq![' ']
}

/// Where covered cells are alike, a symbol does not reach behind the text.
pub proof fn lemma_alike(row: Seq<CellView>, c: int)
    requires
        covers_alike(row),
        is_head(row, c),
        c <= drawn_until(row),
        drawn_until(row) + 1 < row.len(),
    ensures
        c + columns(row[c].symbol) <= drawn_until(row) + 1,
{
    let last = drawn_until(row);
    let bg = end_color(row);
    lemma_text(row);
    assert(columns(seq![' ']) == 1);
    if exists|i: int| ends_text(row, i) {
        let end = choose|i: int| ends_text(row, i);
        if c < end {
            if end < c + span(row[c]) {
                // The last cell of the text is covered: then all covered cells belong to it.
                assert(covers(row, c, end));
                let far = c + span(row[c]) - 1;
                if far < row.len() {
                    assert(covers(row, c, far));
                    if end < far {
                        assert(shows_nothing(row[far], bg));
                    }
                } else {
                    assert(covers(row, c, row.len() - 1));
                    if end < row.len() - 1 {
                        assert(shows_nothing(row[row.len() - 1], bg));
                    }
                }
            }
        } else if end < c {
            let h = lemma_tiling(row, 0, end);
            assert(is_head(row, h));
            lemma_heads_apart(row, 0, h, c);
            if h < end {
                assert(covers(row, h, end));
            }
        }
    } else {
        assert forall|i: int| !ends_text(row, i) by {}
        assert(c == 0);
        if !shows_nothing(row[0], bg) {
            lemma_has_end(row, 0);
        }
    }
}

/// A row with a cell that shows anything has a last one.
proof fn lemma_has_end(row: Seq<CellView>, i: int)
    requires
        0 <= i < row.len(),
        !shows_nothing(row[i], end_color(row)),
    ensures
        exists|j: int| ends_text(row, j),
    decreases row.len() - i,
{
    if !ends_text(row, i) {
        let j = choose|j: int| i < j < row.len() && !shows_nothing(row[j], end_color(row));
        lemma_has_end(row, j);
    }
}

/// A line that shows a row shows the next one after the commands between the two, whatever their
/// colours and modifiers: the old symbols' covered cells that stay are spaces in their style, every
/// new symbol shows, and the cells that it covers are spaces, all alike.
pub proof fn law_neat_row_is_shown(
    line: Seq<Slot>,
    prev: Seq<CellView>,
    next: Seq<CellView>,
    x: int,
    y: int,
)
    requires
        prev.len() == next.len(),
        0 <= x,
        x + next.len() <= 0x1_0000,
        shows_row(line, prev),
        tidy(prev, next),
        all_shown(next),
        covers_alike(next),
    ensures
        shows_row(apply_commands(line, x, row_commands(prev, next, x, y)), next),
{
    lemma_neat_row(prev, next, x, y);
    law_row_is_shown(line, prev, next, x, y);
}

/// Between such rows nothing is left behind and nothing cut.
pub proof fn lemma_neat_row(prev: Seq<CellView>, next: Seq<CellView>, x: int, y: int)
    requires
        prev.len() == next.len(),
        0 <= x,
        x + next.len() <= 0x1_0000,
        tidy(prev, next),
        all_shown(next),
        covers_alike(next),
    ensures
        leaves_no_rest(row_commands(prev, next, x, y), x, prev, next),
        keeps_symbols(prev, next),
{
    assert forall|c: int| #[trigger] is_head(next, c) && c <= drawn_until(next) && drawn_until(
        next,
    ) + 1 < next.len() implies c + columns(next[c].symbol) <= drawn_until(next) + 1 by {
        lemma_alike(next, c);
    }
    lemma_tidy(prev, next, x, y);
}

/// The rest of a row is erased from right behind its text: behind all columns of the last symbol
/// that shows anything, whatever its colours.
pub proof fn law_clearing_starts_behind_text(
    prev: Seq<CellView>,
    next: Seq<CellView>,
    x: int,
    y: int,
    i: int,
    c: int,
)
    requires
        prev.len() == next.len(),
        0 <= x,
        x + next.len() <= 0x1_0000,
        0 <= y <= u16::MAX,
        0 <= i < row_commands(prev, next, x, y).len(),
        row_commands(prev, next, x, y)[i] is ClearToEnd,
        0 <= c < next.len(),
        !shows_nothing(next[c], end_color(next)),
        is_head(next, c),
    ensures
        covers_alike(next) ==> column_of(row_commands(prev, next, x, y)[i], x) >= c + columns(
            next[c].symbol,
        ),
        ends_text(next, c) ==> column_of(row_commands(prev, next, x, y)[i], x) == c + span(next[c]),
{
    law_row_commands_are_needed(prev, next, x, y);
    let command = row_commands(prev, next, x, y)[i];
    assert(is_needed(command, prev, next, x));
    lemma_text(next);
    lemma_has_end(next, c);
    let end = choose|j: int| ends_text(next, j);
    assert(drawn_until(next) == end + span(next[end]) - 1);
    if end < c {
        assert(shows_nothing(next[c], end_color(next)));
    }
    if covers_alike(next) {
        lemma_alike(next, c);
    }
}

} // verus!
