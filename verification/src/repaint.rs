//! The proof that the bytes of a repaint show the repainted rows, whatever was there before.

use crate::buffer::{lemma_row_bounds, BufferView, CellView};
use crate::dense::{
    clear_down_bg, dense_columns, dense_commands, dense_commands_ops, dense_last_put, dense_ops,
    dense_row, dense_rows, dense_state_after, dense_tail, joins, run_command, run_commands,
    run_width, runs, screen_row, shown_columns, symbols_at, DenseCommand,
};
use crate::diff::{
    is_blank, last_nonblank, last_nonblank_cell, lemma_last_nonblank_cell, lemma_last_shown,
    step_of, trailing_bg, DrawCommandView,
};
use crate::display::{is_put_at, reads_before};
use crate::geometry::{max_int, min_int, Position};
use crate::modifier_diff::ModifierDiff;
use crate::ops::Op;
use crate::pen::{
    effect_of, effects_of, law_plain_at_end, lemma_all_concat, lemma_all_one, lemma_modifier_ops,
    lemma_no_switches, total_columns, Effect, Pen, Style,
};
use crate::screen::{
    apply_commands, blank, column_of, covers_alike, end_color, ends_text, head_from, in_order,
    in_text, is_head, is_put, lemma_alike, lemma_apply_in_order, lemma_apply_len,
    lemma_head_bound, lemma_heads_apart, lemma_text, look_of, overwrites, puts_at, puts_cell,
    shows_cell, shows_nothing, shows_row, span, Slot,
};
use crate::style::{Attribute, ClearType, Color, Modifier};
use crate::width::columns;
use vstd::prelude::*;

verus! {

/// What a part of a repaint does to the screen.
pub open spec fn part_effects(command: DenseCommand) -> Seq<Effect> {
    match command {
        DenseCommand::Run { position, symbols, fg, bg, modifier, .. } => (Pen {
            x: position.x as int,
            y: position.y as int,
            fg,
            bg,
            modifier,
        }).prints(symbols),
        DenseCommand::Clear { position, bg, clear_type } => seq![
            Effect::Erase { x: position.x as int, y: position.y as int, bg, clear_type },
        ],
    }
}

/// What the parts of a repaint do to the screen.
pub open spec fn repaint_effects(commands: Seq<DenseCommand>) -> Seq<Effect>
    decreases commands.len(),
{
    if commands.len() == 0 {
        seq![]
    } else {
        repaint_effects(commands.drop_last()) + part_effects(commands.last())
    }
}

/// Where a part of a repaint takes effect.
pub open spec fn part_position(command: DenseCommand) -> Position {
    match command {
        DenseCommand::Run { position, .. } => position,
        DenseCommand::Clear { position, .. } => position,
    }
}

/// Where a part of a repaint leaves the cursor.
pub open spec fn cursor_x(command: DenseCommand) -> int {
    match command {
        DenseCommand::Run { position, symbols, .. } => position.x + total_columns(symbols),
        DenseCommand::Clear { position, .. } => position.x as int,
    }
}

/// A part for which the cursor is not moved stands where the cursor is.
pub open spec fn part_at_cursor(done: Seq<DenseCommand>, command: DenseCommand) -> bool {
    dense_state_after(done).next_pos == Some(part_position(command)) ==> cursor_x(done.last())
        == part_position(command).x
}

/// The modifiers of a run can be reached from those in force.
pub open spec fn part_reaches_modifiers(done: Seq<DenseCommand>, command: DenseCommand) -> bool {
    command matches DenseCommand::Run { modifier, .. } ==> (ModifierDiff {
        from: dense_state_after(done).modifier,
        to: modifier,
    }).is_separable()
}

/// Every part stands where the cursor is when it is written.
pub open spec fn parts_follow_cursor(commands: Seq<DenseCommand>) -> bool
    decreases commands.len(),
{
    commands.len() == 0 || {
        let done = commands.drop_last();
        &&& parts_follow_cursor(done)
        &&& part_at_cursor(done, commands.last())
    }
}

/// Every run is shown with its modifiers.
pub open spec fn parts_reach_modifiers(commands: Seq<DenseCommand>) -> bool
    decreases commands.len(),
{
    commands.len() == 0 || {
        let done = commands.drop_last();
        &&& parts_reach_modifiers(done)
        &&& part_reaches_modifiers(done, commands.last())
    }
}

/// The pen agrees with what is known of the terminal.
spec fn agrees(pen: Pen, commands: Seq<DenseCommand>) -> bool {
    let state = dense_state_after(commands);
    &&& pen.modifier == state.modifier
    &&& pen.bg == state.bg
    &&& pen.fg == state.fg
    &&& commands.len() > 0 ==> {
        &&& pen.y == part_position(commands.last()).y
        &&& pen.x == cursor_x(commands.last())
    }
}

/// One command or none.
proof fn lemma_at_most_one(pen: Pen, ops: Seq<Op>)
    requires
        ops.len() <= 1,
    ensures
        pen.after_all(ops) == (if ops.len() == 0 {
            pen
        } else {
            pen.after(ops[0])
        }),
        pen.all_effects(ops) == (if ops.len() == 0 {
            Seq::<Effect>::empty()
        } else {
            pen.effects(ops[0])
        }),
{
    if ops.len() > 0 {
        assert(ops =~= seq![ops[0]]);
        lemma_all_one(pen, ops[0]);
    }
}

/// Four lists of commands, one after the other.
proof fn lemma_all_four(pen: Pen, a: Seq<Op>, b: Seq<Op>, c: Seq<Op>, d: Seq<Op>)
    ensures
        pen.after_all(a + b + c + d) == pen.after_all(a).after_all(b).after_all(c).after_all(d),
        pen.all_effects(a + b + c + d) == pen.all_effects(a) + pen.after_all(a).all_effects(b)
            + pen.after_all(a).after_all(b).all_effects(c) + pen.after_all(a).after_all(
            b,
        ).after_all(c).all_effects(d),
{
    lemma_all_concat(pen, a + b + c, d);
    lemma_all_concat(pen, a + b, c);
    lemma_all_concat(pen, a, b);
}

/// The cursor is where the next part takes effect.
proof fn lemma_part_moves(pen: Pen, done: Seq<DenseCommand>, command: DenseCommand)
    requires
        agrees(pen, done),
        part_at_cursor(done, command),
    ensures
        ({
            let position = part_position(command);
            let moves = dense_state_after(done).move_ops(position);
            &&& pen.after_all(moves) == (Pen { x: position.x as int, y: position.y as int, ..pen })
            &&& pen.all_effects(moves) == Seq::<Effect>::empty()
        }),
{
    let position = part_position(command);
    lemma_at_most_one(pen, dense_state_after(done).move_ops(position));
    if dense_state_after(done).next_pos == Some(position) {
        assert(done.len() > 0);
    }
}

/// What is written for a run shows it.
proof fn lemma_run(pen: Pen, done: Seq<DenseCommand>, command: DenseCommand)
    requires
        command is Run,
        agrees(pen, done),
        part_at_cursor(done, command),
        part_reaches_modifiers(done, command),
    ensures
        agrees(pen.after_all(dense_state_after(done).ops(command)), done.push(command)),
        pen.all_effects(dense_state_after(done).ops(command)) == part_effects(command),
{
    let state = dense_state_after(done);
    let moves = state.move_ops(part_position(command));
    lemma_part_moves(pen, done, command);
    assert(done.push(command).drop_last() =~= done);
    let moved = pen.after_all(moves);
    let a = state.modifier_ops(command->modifier);
    let b = state.color_ops(command->fg, command->Run_bg);
    let c = seq![Op::Print(command->symbols)];
    lemma_all_four(pen, moves, a, b, c);
    lemma_modifier_ops(moved, command->modifier, a);
    let modified = moved.after_all(a);
    lemma_at_most_one(modified, b);
    let colored = modified.after_all(b);
    lemma_all_one(colored, c[0]);
    assert(pen.all_effects(state.ops(command)) =~= colored.prints(command->symbols));
}

/// What is written for a clearing erases what it asks for.
proof fn lemma_clear(pen: Pen, done: Seq<DenseCommand>, command: DenseCommand)
    requires
        command is Clear,
        agrees(pen, done),
        part_at_cursor(done, command),
    ensures
        agrees(pen.after_all(dense_state_after(done).ops(command)), done.push(command)),
        pen.all_effects(dense_state_after(done).ops(command)) == part_effects(command),
{
    let state = dense_state_after(done);
    let moves = state.move_ops(part_position(command));
    lemma_part_moves(pen, done, command);
    assert(done.push(command).drop_last() =~= done);
    let moved = pen.after_all(moves);
    let a = state.plain_ops();
    let b = state.clear_color_ops(command->Clear_bg);
    let c = seq![Op::Clear(command->clear_type)];
    lemma_all_four(pen, moves, a, b, c);
    lemma_at_most_one(moved, a);
    let plain = moved.after_all(a);
    lemma_at_most_one(plain, b);
    lemma_all_one(plain.after_all(b), c[0]);
    assert(pen.all_effects(state.ops(command)) =~= part_effects(command));
}

/// What is written for the parts of a repaint does what they ask for.
proof fn lemma_parts(pen: Pen, commands: Seq<DenseCommand>)
    requires
        pen.is_plain(),
        parts_follow_cursor(commands),
        parts_reach_modifiers(commands),
    ensures
        agrees(pen.after_all(dense_commands_ops(commands)), commands),
        pen.all_effects(dense_commands_ops(commands)) == repaint_effects(commands),
    decreases commands.len(),
{
    if commands.len() > 0 {
        let done = commands.drop_last();
        let command = commands.last();
        lemma_parts(pen, done);
        let between = pen.after_all(dense_commands_ops(done));
        if command is Run {
            lemma_run(between, done, command);
        } else {
            lemma_clear(between, done, command);
        }
        assert(done.push(command) =~= commands);
        lemma_all_concat(pen, dense_commands_ops(done), dense_state_after(done).ops(command));
    }
}

/// What is written for a repaint does to the screen exactly what its parts ask for, and leaves
/// the pen plain, wherever the cursor stands at the start.
pub proof fn law_repaint_effects(pen: Pen, commands: Seq<DenseCommand>)
    requires
        pen.is_plain(),
        parts_follow_cursor(commands),
        parts_reach_modifiers(commands),
    ensures
        pen.all_effects(dense_ops(commands)) == repaint_effects(commands),
        pen.after_all(dense_ops(commands)).is_plain(),
{
    lemma_parts(pen, commands);
    law_plain_at_end(pen, dense_commands_ops(commands));
}

/// A command that shows a cell of a row that starts at `(x, y)`.
pub open spec fn put(row: Seq<CellView>, x: int, y: int, c: int) -> DrawCommandView {
    DrawCommandView::Put { x: (x + c) as u16, y: y as u16, cell: row[c] }
}

/// The commands that show cells of a row.
pub open spec fn puts_at_columns(row: Seq<CellView>, x: int, y: int, at: Seq<int>) -> Seq<
    DrawCommandView,
> {
    at.map_values(|c: int| put(row, x, y, c))
}

/// The command that erases the rest of a row.
pub open spec fn clear_rest(row: Seq<CellView>, x: int, y: int, cleared: bool) -> Seq<
    DrawCommandView,
> {
    let start = match last_nonblank(row, trailing_bg(row)) {
        None => 0,
        Some(last) => last + 1,
    };
    if !cleared && start < row.len() {
        seq![
            DrawCommandView::ClearToEnd {
                x: (x + start) as u16,
                y: y as u16,
                bg: trailing_bg(row),
            },
        ]
    } else {
        seq![]
    }
}

/// What the repaint of a row does, cell by cell.
pub open spec fn repaint_row(row: Seq<CellView>, x: int, y: int, cleared: bool) -> Seq<
    DrawCommandView,
> {
    puts_at_columns(row, x, y, shown_columns(row)) + clear_rest(row, x, y, cleared)
}

/// The columns are columns of the row, and the symbols there have columns of their own, as many
/// as a `u16` can say.
spec fn measurable(row: Seq<CellView>, at: Seq<int>) -> bool {
    forall|i: int|
        0 <= i < at.len() ==> 0 <= #[trigger] at[i] < row.len() && 1 <= columns(row[at[i]].symbol)
            <= u16::MAX
}

/// Every symbol of the row that a repaint shows has columns, as many as a `u16` can say.
pub open spec fn paintable(row: Seq<CellView>) -> bool {
    forall|i: int|
        0 <= i < shown_columns(row).len() ==> 1 <= columns(
            row[#[trigger] shown_columns(row)[i]].symbol,
        ) <= u16::MAX
}

/// The last run ends behind the last column, is in its style, and starts in the row.
proof fn lemma_last_run(row: Seq<CellView>, at: Seq<int>)
    requires
        measurable(row, at),
        at.len() > 0,
    ensures
        ({
            let all = runs(row, at);
            let run = all.last();
            let first = row[run[0]];
            let last = row[at.last()];
            &&& all.len() > 0
            &&& run.len() > 0
            &&& 0 <= run[0] < row.len()
            &&& run[0] + total_columns(symbols_at(row, run)) == at.last() + step_of(last)
            &&& first.fg == last.fg && first.bg == last.bg && first.modifier == last.modifier
        }),
    decreases at.len(),
{
    let front = at.drop_last();
    let c = at.last();
    let done = runs(row, front);
    assert(measurable(row, front)) by {
        assert forall|i: int| 0 <= i < front.len() implies 0 <= #[trigger] front[i] < row.len()
            && 1 <= columns(row[front[i]].symbol) <= u16::MAX by {
            assert(front[i] == at[i]);
        }
    }
    assert(at[at.len() - 1] == c);
    if front.len() > 0 && joins(row, front.last(), c) {
        lemma_last_run(row, front);
        let run = done.last();
        lemma_symbols_push(row, run, c);
    } else {
        let none: Seq<int> = seq![];
        lemma_symbols_push(row, none, c);
        assert(none.push(c) =~= seq![c]);
        assert(total_columns(symbols_at(row, none)) == 0);
    }
}

/// One more symbol at the end of a run.
proof fn lemma_symbols_push(row: Seq<CellView>, run: Seq<int>, c: int)
    ensures
        symbols_at(row, run.push(c)).drop_last() == symbols_at(row, run),
        symbols_at(row, run.push(c)).last() == row[c].symbol,
        total_columns(symbols_at(row, run.push(c))) == total_columns(symbols_at(row, run))
            + columns(row[c].symbol),
{
    assert(symbols_at(row, run.push(c)).drop_last() =~= symbols_at(row, run));
}

/// The last of the runs apart.
proof fn lemma_repaint_last(row: Seq<CellView>, x: int, y: int, all: Seq<Seq<int>>)
    requires
        all.len() > 0,
    ensures
        repaint_effects(run_commands(row, x, y, all)) == repaint_effects(
            run_commands(row, x, y, all.drop_last()),
        ) + part_effects(run_command(row, x, y, all.last())),
{
    assert(run_commands(row, x, y, all).drop_last() =~= run_commands(row, x, y, all.drop_last()));
}

/// Runs show the cells at their columns, one by one.
proof fn lemma_runs_effects(row: Seq<CellView>, x: int, y: int, at: Seq<int>)
    requires
        measurable(row, at),
        0 <= x,
        x + row.len() <= 0x1_0000,
        0 <= y <= u16::MAX,
    ensures
        repaint_effects(run_commands(row, x, y, runs(row, at))) == effects_of(
            puts_at_columns(row, x, y, at),
        ),
    decreases at.len(),
{
    let all = runs(row, at);
    if at.len() == 0 {
        assert(run_commands(row, x, y, all) =~= seq![]);
        assert(effects_of(puts_at_columns(row, x, y, at)) =~= seq![]);
    } else {
        let front = at.drop_last();
        let c = at.last();
        let done = runs(row, front);
        assert(measurable(row, front)) by {
            assert forall|i: int| 0 <= i < front.len() implies 0 <= #[trigger] front[i]
                < row.len() && 1 <= columns(row[front[i]].symbol) <= u16::MAX by {
                assert(front[i] == at[i]);
            }
        }
        assert(at[at.len() - 1] == c);
        lemma_runs_effects(row, x, y, front);
        lemma_last_run(row, at);
        lemma_repaint_last(row, x, y, all);
        let shown = effect_of(put(row, x, y, c));
        assert(effects_of(puts_at_columns(row, x, y, at)) =~= effects_of(
            puts_at_columns(row, x, y, front),
        ).push(shown));
        let run = all.last();
        if front.len() > 0 && joins(row, front.last(), c) {
            lemma_last_run(row, front);
            lemma_repaint_last(row, x, y, done);
            lemma_symbols_push(row, done.last(), c);
            assert(all.drop_last() =~= done.drop_last());
            assert(run[0] == done.last()[0]);
            assert(part_effects(run_command(row, x, y, run)) =~= part_effects(
                run_command(row, x, y, done.last()),
            ).push(shown));
        } else {
            let none: Seq<int> = seq![];
            assert(all.drop_last() =~= done);
            assert(none.push(c) =~= run);
            lemma_symbols_push(row, none, c);
            let pen = Pen {
                x: x + c,
                y,
                fg: row[c].fg,
                bg: row[c].bg,
                modifier: row[c].modifier,
            };
            assert(symbols_at(row, none) =~= seq![]);
            assert(pen.prints(symbols_at(row, none)) =~= seq![]);
            assert(part_effects(run_command(row, x, y, run)) =~= seq![shown]);
        }
        assert(repaint_effects(run_commands(row, x, y, all)) =~= effects_of(
            puts_at_columns(row, x, y, front),
        ).push(shown));
    }
}

/// Cells that are to be left alone have symbols of one column at most.
pub open spec fn skips_narrow(row: Seq<CellView>) -> bool {
    forall|i: int|
        0 <= i < row.len() ==> (#[trigger] row[i]).skip ==> columns(row[i].symbol) <= 1
}

/// The column behind the last one of a row that is not blank.
pub open spec fn blank_from(row: Seq<CellView>) -> int {
    match last_nonblank(row, trailing_bg(row)) {
        None => 0,
        Some(last) => last + 1,
    }
}

/// No symbol that a repaint shows sticks out into the part of the row that is blank.
pub open spec fn keeps_painted(row: Seq<CellView>) -> bool {
    blank_from(row) < row.len() ==> forall|i: int|
        0 <= i < shown_columns(row).len() ==> (#[trigger] shown_columns(row)[i]) + columns(
            row[shown_columns(row)[i]].symbol,
        ) <= blank_from(row)
}

/// The columns that are shown are those at which symbols start, but for cells that are to be
/// left alone.
proof fn lemma_dense_columns(row: Seq<CellView>, column: int, last: int)
    requires
        0 <= column,
        skips_narrow(row),
    ensures
        ({
            let at = dense_columns(row, column, last);
            &&& forall|i: int|
                0 <= i < at.len() ==> {
                    &&& column <= #[trigger] at[i] < row.len()
                    &&& at[i] <= last
                    &&& head_from(row, column, at[i])
                    &&& !row[at[i]].skip
                }
            &&& forall|i: int, k: int|
                0 <= i < k < at.len() ==> (#[trigger] at[i]) + step_of(row[at[i]])
                    <= #[trigger] at[k]
            &&& forall|c: int| #[trigger]
                head_from(row, column, c) && c < row.len() && c <= last && !row[c].skip
                    ==> at.contains(c)
        }),
    decreases max_int(row.len() - column, 0),
{
    let at = dense_columns(row, column, last);
    if column >= row.len() || column > last {
        assert forall|c: int| #[trigger] head_from(row, column, c) implies column <= c by {
            lemma_head_bound(row, column, c);
        }
    } else {
        let after = column + step_of(row[column]);
        lemma_dense_columns(row, after, last);
        let rest = dense_columns(row, after, last);
        if row[column].skip {
            assert(at == rest);
        } else {
            assert(at == seq![column] + rest);
            assert forall|i: int, k: int| 0 <= i < k < at.len() implies (#[trigger] at[i])
                + step_of(row[at[i]]) <= #[trigger] at[k] by {
                assert(at[k] == rest[k - 1]);
                if i > 0 {
                    assert(at[i] == rest[i - 1]);
                }
            }
            assert forall|i: int| 0 <= i < at.len() implies {
                &&& column <= #[trigger] at[i] < row.len()
                &&& at[i] <= last
                &&& head_from(row, column, at[i])
                &&& !row[at[i]].skip
            } by {
                if i > 0 {
                    assert(at[i] == rest[i - 1]);
                }
            }
        }
        assert forall|c: int| #[trigger]
            head_from(row, column, c) && c < row.len() && c <= last && !row[c].skip implies
            at.contains(c) by {
            if c == column {
                assert(at[0] == c);
            } else {
                assert(head_from(row, after, c));
                let i = choose|i: int| 0 <= i < rest.len() && rest[i] == c;
                if !row[column].skip {
                    assert(at[i + 1] == c);
                }
            }
        }
    }
}

/// The commands of a repainted row take effect from left to right.
proof fn lemma_repaint_row(row: Seq<CellView>, x: int, y: int, cleared: bool)
    requires
        0 <= x,
        x + row.len() <= 0x1_0000,
        skips_narrow(row),
        paintable(row),
        cleared || keeps_painted(row),
    ensures
        ({
            let list = repaint_row(row, x, y, cleared);
            let at = shown_columns(row);
            &&& in_order(list, x)
            &&& forall|i: int|
                0 <= i < at.len() ==> list[i] is Put && column_of(#[trigger] list[i], x) == at[i]
                    && list[i]->cell == row[at[i]]
            &&& list.len() == at.len() + (if !cleared && blank_from(row) < row.len() {
                1int
            } else {
                0
            })
            &&& !cleared && blank_from(row) < row.len() ==> list.last() is ClearToEnd && column_of(
                list.last(),
                x,
            ) == blank_from(row) && list.last()->bg == trailing_bg(row)
            &&& forall|i: int| 0 <= i < at.len() ==> is_head(row, #[trigger] at[i])
            &&& forall|c: int| #[trigger]
                is_head(row, c) && !row[c].skip && c < blank_from(row) ==> at.contains(c)
            &&& forall|c: int|
                blank_from(row) <= c < row.len() ==> is_blank(#[trigger] row[c], trailing_bg(row))
        }),
{
    let list = repaint_row(row, x, y, cleared);
    let at = shown_columns(row);
    let tail = clear_rest(row, x, y, cleared);
    lemma_last_nonblank_cell(row, trailing_bg(row));
    match last_nonblank(row, trailing_bg(row)) {
        None => {},
        Some(last) => {
            lemma_dense_columns(row, 0, last);
        },
    }
    assert forall|i: int| 0 <= i < at.len() implies list[i] is Put && column_of(
        #[trigger] list[i],
        x,
    ) == at[i] && list[i]->cell == row[at[i]] by {
        assert(list[i] == put(row, x, y, at[i]));
    }
    if tail.len() > 0 {
        assert(list.last() == tail[0]);
    }
    assert forall|i: int, k: int| 0 <= i < k < list.len() implies {
        let left = #[trigger] list[i];
        let right = #[trigger] list[k];
        match left {
            DrawCommandView::Put { cell, .. } => column_of(left, x) + columns(cell.symbol)
                <= column_of(right, x) && column_of(left, x) < column_of(right, x),
            DrawCommandView::ClearToEnd { .. } => false,
        }
    } by {
        assert(column_of(list[i], x) == at[i]);
        if k < at.len() {
            assert(column_of(list[k], x) == at[k]);
        } else {
            assert(list[k] == list.last());
        }
    }
    assert forall|i: int| 0 <= i < list.len() implies column_of(#[trigger] list[i], x) >= 0 by {
        if i < at.len() {
            assert(column_of(list[i], x) == at[i]);
        } else {
            assert(list[i] == list.last());
        }
    }
}

/// A repaint of a row makes the line show the row, whatever it showed before. Where the line is
/// not erased on the way, it has to be blank at the start.
pub proof fn law_repainted_row_is_shown(
    line: Seq<Slot>,
    row: Seq<CellView>,
    x: int,
    y: int,
    cleared: bool,
)
    requires
        line.len() == row.len(),
        0 <= x,
        x + row.len() <= 0x1_0000,
        skips_narrow(row),
        paintable(row),
        cleared || keeps_painted(row),
        cleared ==> forall|j: int|
            0 <= j < line.len() ==> #[trigger] line[j] == (Slot {
                look: blank(trailing_bg(row)),
                offset: 0,
            }),
    ensures
        shows_row(apply_commands(line, x, repaint_row(row, x, y, cleared)), row),
{
    let list = repaint_row(row, x, y, cleared);
    let at = shown_columns(row);
    let after = apply_commands(line, x, list);
    lemma_repaint_row(row, x, y, cleared);
    lemma_apply_len(line, x, list);
    assert forall|c: int| #[trigger] is_head(row, c) && !row[c].skip implies shows_cell(
        after,
        c,
        row[c],
    ) by {
        assert forall|j: int| c <= j < c + columns(row[c].symbol) && j < after.len() implies
            #[trigger] after[j] == (Slot { look: look_of(row[c]), offset: j - c }) by {
            lemma_apply_in_order(line, x, list, j);
            if c < blank_from(row) {
                let i = choose|i: int| 0 <= i < at.len() && at[i] == c;
                assert(column_of(list[i], x) == at[i]);
                assert(puts_at(list, x, i, j));
            } else {
                assert(is_blank(row[c], trailing_bg(row)));
                assert(columns(seq![' ']) == 1);
                if cleared {
                    assert forall|i: int| 0 <= i < list.len() implies !overwrites(
                        #[trigger] list[i],
                        x,
                        j,
                        j + 1,
                    ) && !puts_at(list, x, i, j) by {
                        assert(column_of(list[i], x) == at[i]);
                        assert(is_head(row, at[i]));
                        assert(at[i] != c) by {
                            if at[i] == c {
                                lemma_shown_before_blank(row, i);
                            }
                        }
                        if at[i] < c {
                            lemma_heads_apart(row, 0, at[i], c);
                        }
                    }
                } else {
                    assert(list.last() is ClearToEnd);
                }
            }
        }
    }
}

/// A cell that a repaint shows stands before the part of the row that is blank.
proof fn lemma_shown_before_blank(row: Seq<CellView>, i: int)
    requires
        skips_narrow(row),
        0 <= i < shown_columns(row).len(),
    ensures
        shown_columns(row)[i] < blank_from(row),
{
    match last_nonblank(row, trailing_bg(row)) {
        None => {},
        Some(last) => {
            lemma_dense_columns(row, 0, last);
        },
    }
}

/// Parts after parts.
pub proof fn lemma_repaint_concat(a: Seq<DenseCommand>, b: Seq<DenseCommand>)
    ensures
        repaint_effects(a + b) == repaint_effects(a) + repaint_effects(b),
    decreases b.len(),
{
    if b.len() == 0 {
        assert(a + b =~= a);
        assert(repaint_effects(a) + repaint_effects(b) =~= repaint_effects(a));
    } else {
        lemma_repaint_concat(a, b.drop_last());
        assert((a + b).drop_last() =~= a + b.drop_last());
        assert(repaint_effects(a + b) =~= repaint_effects(a) + repaint_effects(b));
    }
}

/// One part.
pub proof fn lemma_repaint_one(command: DenseCommand)
    ensures
        repaint_effects(seq![command]) == part_effects(command),
{
    let none: Seq<DenseCommand> = seq![];
    assert(seq![command].drop_last() =~= none);
    assert(repaint_effects(none) =~= seq![]);
    assert(repaint_effects(seq![command]) =~= part_effects(command));
}

/// The columns of a row that are shown have columns that can be measured.
proof fn lemma_measurable(row: Seq<CellView>)
    requires
        skips_narrow(row),
        paintable(row),
    ensures
        measurable(row, shown_columns(row)),
{
    match last_nonblank(row, trailing_bg(row)) {
        None => {},
        Some(last) => {
            lemma_dense_columns(row, 0, last);
        },
    }
}

/// The repaint of a row shows its cells one by one and erases the rest.
pub proof fn lemma_dense_row_effects(row: Seq<CellView>, x: int, y: int, cleared: bool)
    requires
        0 <= x,
        x + row.len() <= 0x1_0000,
        0 <= y <= u16::MAX,
        skips_narrow(row),
        paintable(row),
    ensures
        repaint_effects(dense_row(row, x, y, cleared)) == effects_of(
            repaint_row(row, x, y, cleared),
        ),
        forall|i: int|
            0 <= i < repaint_row(row, x, y, cleared).len() ==> (#[trigger] repaint_row(
                row,
                x,
                y,
                cleared,
            )[i]).position().y == y,
{
    let at = shown_columns(row);
    let shown = puts_at_columns(row, x, y, at);
    let rest = clear_rest(row, x, y, cleared);
    let tail = dense_tail(row, x, y, cleared);
    lemma_measurable(row);
    lemma_runs_effects(row, x, y, at);
    lemma_repaint_concat(run_commands(row, x, y, runs(row, at)), tail);
    assert(repaint_effects(tail) =~= effects_of(rest)) by {
        if tail.len() > 0 {
            lemma_repaint_one(tail[0]);
            assert(tail =~= seq![tail[0]]);
            assert(effects_of(rest) =~= seq![effect_of(rest[0])]);
        } else {
            assert(tail =~= seq![]);
            assert(effects_of(rest) =~= seq![]);
        }
    }
    assert(effects_of(shown + rest) =~= effects_of(shown) + effects_of(rest));
}

/// The width that is noted for a run is that of its symbols, as far as a `u16` can say it, and
/// the part does not stand in the last column there can be.
pub open spec fn is_exact(command: DenseCommand) -> bool {
    &&& part_position(command).x < u16::MAX
    &&& command matches DenseCommand::Run { symbols, width, .. } ==> width == min_int(
        total_columns(symbols),
        u16::MAX as int,
    )
}

/// Every part is exact.
pub open spec fn all_exact(commands: Seq<DenseCommand>) -> bool {
    forall|i: int| 0 <= i < commands.len() ==> is_exact(#[trigger] commands[i])
}

/// Exact parts stand where the cursor is.
proof fn lemma_exact_follow(commands: Seq<DenseCommand>)
    requires
        all_exact(commands),
    ensures
        parts_follow_cursor(commands),
    decreases commands.len(),
{
    if commands.len() > 0 {
        let done = commands.drop_last();
        assert forall|i: int| 0 <= i < done.len() implies is_exact(#[trigger] done[i]) by {
            assert(done[i] == commands[i]);
        }
        lemma_exact_follow(done);
        assert(is_exact(commands[commands.len() - 1]));
        if done.len() > 0 {
            assert(is_exact(done[done.len() - 1]));
        }
    }
}

/// The width of a run is that of its symbols.
proof fn lemma_run_width(row: Seq<CellView>, run: Seq<int>)
    requires
        measurable(row, run),
    ensures
        run_width(row, run) == min_int(
            total_columns(symbols_at(row, run)),
            u16::MAX as int,
        ),
    decreases run.len(),
{
    if run.len() > 0 {
        let front = run.drop_last();
        let c = run.last();
        assert forall|i: int| 0 <= i < front.len() implies 0 <= #[trigger] front[i] < row.len()
            && 1 <= columns(row[front[i]].symbol) <= u16::MAX by {
            assert(front[i] == run[i]);
        }
        assert(run[run.len() - 1] == c);
        lemma_run_width(row, front);
        lemma_symbols_push(row, front, c);
        assert(front.push(c) =~= run);
    }
}

/// Runs are made of the columns.
proof fn lemma_runs_measurable(row: Seq<CellView>, at: Seq<int>)
    requires
        measurable(row, at),
    ensures
        forall|k: int|
            0 <= k < runs(row, at).len() ==> measurable(row, #[trigger] runs(row, at)[k]) && runs(
                row,
                at,
            )[k].len() > 0,
    decreases at.len(),
{
    if at.len() > 0 {
        let front = at.drop_last();
        let c = at.last();
        assert forall|i: int| 0 <= i < front.len() implies 0 <= #[trigger] front[i] < row.len()
            && 1 <= columns(row[front[i]].symbol) <= u16::MAX by {
            assert(front[i] == at[i]);
        }
        assert(at[at.len() - 1] == c);
        lemma_runs_measurable(row, front);
        let done = runs(row, front);
        let all = runs(row, at);
        assert forall|k: int| 0 <= k < all.len() implies measurable(row, #[trigger] all[k])
            && all[k].len() > 0 by {
            if front.len() > 0 && joins(row, front.last(), c) {
                lemma_last_run(row, front);
                if k < done.len() - 1 {
                    assert(all[k] == done[k]);
                } else {
                    let run = done[done.len() - 1];
                    assert(all[k] == run.push(c));
                }
            } else if k < done.len() {
                assert(all[k] == done[k]);
            } else {
                assert(all[k] == seq![c]);
            }
        }
    }
}

/// The parts of a repainted row are exact.
proof fn lemma_dense_row_exact(row: Seq<CellView>, x: int, y: int, cleared: bool)
    requires
        0 <= x,
        x + row.len() <= u16::MAX,
        skips_narrow(row),
        paintable(row),
    ensures
        all_exact(dense_row(row, x, y, cleared)),
{
    let at = shown_columns(row);
    let all = runs(row, at);
    let shown = run_commands(row, x, y, all);
    let tail = dense_tail(row, x, y, cleared);
    let list = dense_row(row, x, y, cleared);
    lemma_measurable(row);
    lemma_runs_measurable(row, at);
    lemma_last_nonblank_cell(row, trailing_bg(row));
    assert forall|i: int| 0 <= i < list.len() implies is_exact(#[trigger] list[i]) by {
        if i < shown.len() {
            let run = all[i];
            assert(list[i] == run_command(row, x, y, run));
            lemma_run_width(row, run);
            lemma_total_positive(symbols_at(row, run));
        } else {
            assert(list[i] == tail[i - shown.len()]);
        }
    }
}

/// Symbols have no negative number of columns.
proof fn lemma_total_positive(symbols: Seq<Seq<char>>)
    ensures
        0 <= total_columns(symbols),
    decreases symbols.len(),
{
    if symbols.len() > 0 {
        lemma_total_positive(symbols.drop_last());
    }
}

/// The rows can be repainted: their symbols have columns, and where the rest of a row is erased
/// no symbol that shows sticks out into it.
pub open spec fn can_repaint(buffer: BufferView, start: int, end: int) -> bool {
    forall|y: int|
        start <= y < end ==> {
            let row = #[trigger] screen_row(buffer, y);
            &&& skips_narrow(row)
            &&& paintable(row)
            &&& clear_down_bg(buffer, start, end) is Some || keeps_painted(row)
        }
}

/// The parts of repainted rows are exact.
proof fn lemma_dense_rows_exact(buffer: BufferView, start: int, end: int, cleared: bool)
    requires
        buffer.well_formed(),
        buffer.area.x + buffer.area.width <= u16::MAX,
        buffer.area.y <= start,
        end <= buffer.area.y + buffer.area.height,
        forall|y: int|
            start <= y < end ==> skips_narrow(#[trigger] screen_row(buffer, y)) && paintable(
                screen_row(buffer, y),
            ),
    ensures
        all_exact(dense_rows(buffer, start, end, cleared)),
    decreases end - start,
{
    if start < end {
        lemma_dense_rows_exact(buffer, start, end - 1, cleared);
        let row = screen_row(buffer, end - 1);
        let x = buffer.area.x as int;
        lemma_row_bounds(
            buffer.area.width as int,
            buffer.area.height as int,
            end - 1 - buffer.area.y,
        );
        lemma_dense_row_exact(row, x, end - 1, cleared);
        let front = dense_rows(buffer, start, end - 1, cleared);
        let list = dense_rows(buffer, start, end, cleared);
        assert forall|i: int| 0 <= i < list.len() implies is_exact(#[trigger] list[i]) by {
            if i < front.len() {
                assert(list[i] == front[i]);
            } else {
                assert(list[i] == dense_row(row, x, end - 1, cleared)[i - front.len()]);
            }
        }
    }
}

/// In a repaint, every part stands where the cursor is when it is written.
pub proof fn lemma_repaint_follows(buffer: BufferView, start: int, end: int)
    requires
        buffer.well_formed(),
        buffer.area.x + buffer.area.width <= u16::MAX,
        buffer.area.y <= start < end <= buffer.area.y + buffer.area.height,
        buffer.area.width > 0,
        can_repaint(buffer, start, end),
    ensures
        parts_follow_cursor(dense_commands(buffer, start, end)),
{
    let cleared = clear_down_bg(buffer, start, end) is Some;
    let rows = dense_rows(buffer, start, end, cleared);
    let list = dense_commands(buffer, start, end);
    lemma_dense_rows_exact(buffer, start, end, cleared);
    assert forall|i: int| 0 <= i < list.len() implies is_exact(#[trigger] list[i]) by {
        if cleared && i > 0 {
            assert(list[i] == rows[i - 1]);
        }
    }
    lemma_exact_follow(list);
}

/// A part of a repaint does not conceal text.
pub open spec fn is_unconcealed(command: DenseCommand) -> bool {
    command matches DenseCommand::Run { modifier, .. } ==> modifier.bits & 0xfe80 == 0
}

/// Where no run conceals text, every run is shown with its modifiers.
proof fn lemma_unconcealed_reach(commands: Seq<DenseCommand>)
    requires
        forall|i: int| 0 <= i < commands.len() ==> is_unconcealed(#[trigger] commands[i]),
    ensures
        parts_reach_modifiers(commands),
        dense_state_after(commands).modifier.bits & 0xfe80 == 0,
    decreases commands.len(),
{
    assert(0u16 & 0xfe80 == 0) by (bit_vector);
    if commands.len() > 0 {
        let done = commands.drop_last();
        assert forall|i: int| 0 <= i < done.len() implies is_unconcealed(#[trigger] done[i]) by {
            assert(done[i] == commands[i]);
        }
        lemma_unconcealed_reach(done);
        assert(is_unconcealed(commands[commands.len() - 1]));
    }
}

/// The runs of a row without concealed cells do not conceal text.
proof fn lemma_dense_row_unconcealed(row: Seq<CellView>, x: int, y: int, cleared: bool)
    requires
        skips_narrow(row),
        paintable(row),
        forall|j: int| 0 <= j < row.len() ==> (#[trigger] row[j]).modifier.bits & 0xfe80 == 0,
    ensures
        forall|i: int|
            0 <= i < dense_row(row, x, y, cleared).len() ==> is_unconcealed(
                #[trigger] dense_row(row, x, y, cleared)[i],
            ),
{
    let at = shown_columns(row);
    let all = runs(row, at);
    let shown = run_commands(row, x, y, all);
    let tail = dense_tail(row, x, y, cleared);
    let list = dense_row(row, x, y, cleared);
    lemma_measurable(row);
    lemma_runs_measurable(row, at);
    assert forall|i: int| 0 <= i < list.len() implies is_unconcealed(#[trigger] list[i]) by {
        if i < shown.len() {
            let run = all[i];
            assert(list[i] == run_command(row, x, y, run));
            assert(0 <= run[0] < row.len());
        } else {
            assert(list[i] == tail[i - shown.len()]);
        }
    }
}

/// The runs of rows without concealed cells do not conceal text.
proof fn lemma_dense_rows_unconcealed(buffer: BufferView, start: int, end: int, cleared: bool)
    requires
        buffer.well_formed(),
        buffer.area.y <= start,
        end <= buffer.area.y + buffer.area.height,
        forall|y: int|
            start <= y < end ==> skips_narrow(#[trigger] screen_row(buffer, y)) && paintable(
                screen_row(buffer, y),
            ),
        forall|i: int|
            0 <= i < buffer.content.len() ==> (#[trigger] buffer.content[i]).modifier.bits & 0xfe80
                == 0,
    ensures
        forall|i: int|
            0 <= i < dense_rows(buffer, start, end, cleared).len() ==> is_unconcealed(
                #[trigger] dense_rows(buffer, start, end, cleared)[i],
            ),
    decreases end - start,
{
    if start < end {
        lemma_dense_rows_unconcealed(buffer, start, end - 1, cleared);
        let row = screen_row(buffer, end - 1);
        let x = buffer.area.x as int;
        let above = end - 1 - buffer.area.y;
        lemma_row_bounds(buffer.area.width as int, buffer.area.height as int, above);
        assert forall|j: int| 0 <= j < row.len() implies (#[trigger] row[j]).modifier.bits & 0xfe80
            == 0 by {
            assert(row[j] == buffer.content[above * buffer.area.width + j]);
        }
        lemma_dense_row_unconcealed(row, x, end - 1, cleared);
        let front = dense_rows(buffer, start, end - 1, cleared);
        let part = dense_row(row, x, end - 1, cleared);
        let list = dense_rows(buffer, start, end, cleared);
        assert forall|i: int| 0 <= i < list.len() implies is_unconcealed(#[trigger] list[i]) by {
            if i < front.len() {
                assert(list[i] == front[i]);
            } else {
                assert(list[i] == part[i - front.len()]);
            }
        }
    }
}

/// Where no cell of a frame is concealed, every run of a repaint is shown with its modifiers.
pub proof fn law_repaint_modifiers_follow(buffer: BufferView, start: int, end: int)
    requires
        buffer.well_formed(),
        buffer.area.y <= start < end <= buffer.area.y + buffer.area.height,
        can_repaint(buffer, start, end),
        forall|i: int|
            0 <= i < buffer.content.len() ==> (#[trigger] buffer.content[i]).modifier.bits & 0xfe80
                == 0,
    ensures
        parts_reach_modifiers(dense_commands(buffer, start, end)),
{
    let cleared = clear_down_bg(buffer, start, end) is Some;
    let rows = dense_rows(buffer, start, end, cleared);
    let list = dense_commands(buffer, start, end);
    lemma_dense_rows_unconcealed(buffer, start, end, cleared);
    assert forall|i: int| 0 <= i < list.len() implies is_unconcealed(#[trigger] list[i]) by {
        if cleared && i > 0 {
            assert(list[i] == rows[i - 1]);
        }
    }
    lemma_unconcealed_reach(list);
}

/// Every symbol of the row that shows has columns, as many as a `u16` can say, and cells that are
/// to be left alone have symbols of one column at most.
pub open spec fn is_measured(row: Seq<CellView>) -> bool {
    &&& forall|c: int| #[trigger]
        is_head(row, c) && !row[c].skip ==> 1 <= columns(row[c].symbol) <= u16::MAX
    &&& forall|i: int|
        0 <= i < row.len() ==> (#[trigger] row[i]).skip ==> columns(row[i].symbol) <= 1
}

/// Such a row can be painted.
proof fn lemma_measured(row: Seq<CellView>)
    requires
        is_measured(row),
    ensures
        skips_narrow(row),
        paintable(row),
{
    match last_nonblank(row, trailing_bg(row)) {
        None => {},
        Some(last) => {
            lemma_dense_columns(row, 0, last);
            assert forall|i: int| 0 <= i < shown_columns(row).len() implies 1 <= columns(
                row[#[trigger] shown_columns(row)[i]].symbol,
            ) <= u16::MAX by {
                assert(is_head(row, shown_columns(row)[i]));
            }
        },
    }
}

/// Where the text of a row ends, if it has any.
proof fn lemma_blank_from(row: Seq<CellView>)
    ensures
        trailing_bg(row) == end_color(row),
        forall|i: int| #[trigger] ends_text(row, i) ==> blank_from(row) == i + span(row[i]),
        (forall|i: int| !#[trigger] ends_text(row, i)) ==> blank_from(row) == 0,
        forall|c: int| 0 <= c ==> (c < blank_from(row) <==> #[trigger] in_text(row, c)),
{
    lemma_text(row);
    lemma_last_nonblank_cell(row, trailing_bg(row));
    lemma_ends(row);
    assert forall|c: int| 0 <= c implies (c < blank_from(row) <==> #[trigger] in_text(row, c)) by {
        if in_text(row, c) {
            let i = choose|i: int| #[trigger] ends_text(row, i) && c < i + span(row[i]);
            assert(blank_from(row) == i + span(row[i]));
        }
    }
}

/// A row has text exactly where it has a cell that is not blank.
proof fn lemma_ends(row: Seq<CellView>)
    ensures
        last_nonblank(row, trailing_bg(row)) is None ==> forall|i: int| !#[trigger]
            ends_text(row, i),
        last_nonblank(row, trailing_bg(row)) is Some ==> exists|i: int| #[trigger]
            ends_text(row, i) && blank_from(row) == i + span(row[i]),
        forall|i: int| #[trigger] ends_text(row, i) ==> blank_from(row) == i + span(row[i]),
{
    let bg = trailing_bg(row);
    lemma_last_shown(row, bg);
    assert(bg == end_color(row));
    match last_nonblank_cell(row, bg) {
        None => {},
        Some(end) => {
            assert(ends_text(row, end));
            assert forall|i: int| #[trigger] ends_text(row, i) implies i == end by {
                if i < end {
                    assert(shows_nothing(row[end], end_color(row)));
                } else if end < i {
                    assert(shows_nothing(row[i], end_color(row)));
                }
            }
        },
    }
}

/// Where covered cells are alike, no symbol that is shown sticks out behind the text.
proof fn lemma_neat_painted(row: Seq<CellView>)
    requires
        is_measured(row),
        covers_alike(row),
    ensures
        keeps_painted(row),
{
    match last_nonblank(row, trailing_bg(row)) {
        None => {},
        Some(last) => {
            lemma_dense_columns(row, 0, last);
            assert forall|i: int|
                0 <= i < shown_columns(row).len() && blank_from(row) < row.len() implies (
            #[trigger] shown_columns(row)[i]) + columns(row[shown_columns(row)[i]].symbol)
                <= blank_from(row) by {
                let c = shown_columns(row)[i];
                assert(is_head(row, c));
                lemma_alike(row, c);
            }
        },
    }
}

/// A command is one that repaints the row: it shows a symbol in the part of the row that has
/// text, or erases the row from right behind its text, in the colour at its end.
pub open spec fn repaints(command: DrawCommandView, row: Seq<CellView>, x: int) -> bool {
    let c = column_of(command, x);
    match command {
        DrawCommandView::Put { cell, .. } => {
            &&& is_head(row, c)
            &&& !row[c].skip
            &&& cell == row[c]
            &&& in_text(row, c)
        },
        DrawCommandView::ClearToEnd { bg, .. } => {
            &&& 0 <= c < row.len()
            &&& bg == end_color(row)
            &&& forall|i: int| #[trigger] ends_text(row, i) ==> c == i + span(row[i])
            &&& (forall|i: int| !#[trigger] ends_text(row, i)) ==> c == 0
        },
    }
}

/// A row is repainted by showing each of its symbols that has to do with its text, once, from left
/// to right, and by erasing what follows, unless that is done already or nothing follows.
pub proof fn law_repainted_row_is_exact(row: Seq<CellView>, x: int, y: int, cleared: bool)
    requires
        0 <= x,
        x + row.len() <= 0x1_0000,
        0 <= y <= u16::MAX,
        is_measured(row),
    ensures
        ({
            let list = repaint_row(row, x, y, cleared);
            &&& repaint_effects(dense_row(row, x, y, cleared)) == effects_of(list)
            &&& forall|i: int|
                0 <= i < list.len() ==> repaints(#[trigger] list[i], row, x)
                    && list[i].position().y == y
            &&& forall|i: int, k: int|
                0 <= i < k < list.len() ==> column_of(#[trigger] list[i], x) < column_of(
                    #[trigger] list[k],
                    x,
                )
            &&& forall|c: int| #[trigger]
                is_head(row, c) && !row[c].skip && in_text(row, c) ==> is_put(list, x, c, row[c])
            &&& (exists|i: int| 0 <= i < list.len() && (#[trigger] list[i]) is ClearToEnd) <==> (
            !cleared && row.len() > 0 && !in_text(row, row.len() - 1))
        }),
{
    let list = repaint_row(row, x, y, cleared);
    let at = shown_columns(row);
    let rest = clear_rest(row, x, y, cleared);
    lemma_measured(row);
    lemma_dense_row_effects(row, x, y, cleared);
    lemma_blank_from(row);
    lemma_ends(row);
    match last_nonblank(row, trailing_bg(row)) {
        None => {},
        Some(last) => {
            lemma_dense_columns(row, 0, last);
        },
    }
    let n = at.len() as int;
    assert forall|i: int| 0 <= i < n implies list[i] == put(row, x, y, #[trigger] at[i]) by {}
    assert forall|i: int| 0 <= i < list.len() implies repaints(#[trigger] list[i], row, x) by {
        if i < n {
            assert(list[i] == put(row, x, y, at[i]));
            assert(is_head(row, at[i]));
            assert(in_text(row, at[i]));
        } else {
            assert(list[i] == rest[i - n]);
        }
    }
    assert forall|i: int, k: int| 0 <= i < k < list.len() implies column_of(#[trigger] list[i], x)
        < column_of(#[trigger] list[k], x) by {
        assert(list[i] == put(row, x, y, at[i]));
        if k < n {
            assert(list[k] == put(row, x, y, at[k]));
        } else {
            assert(list[k] == rest[k - n]);
        }
    }
    assert forall|c: int| #[trigger] is_head(row, c) && !row[c].skip && in_text(row, c) implies
        is_put(list, x, c, row[c]) by {
        assert(at.contains(c));
        let i = choose|i: int| 0 <= i < at.len() && at[i] == c;
        assert(list[i] == put(row, x, y, at[i]));
        assert(puts_cell(list[i], x, c, row[c]));
    }
    if rest.len() > 0 {
        assert(list[n] == rest[0]);
        assert(list[n] is ClearToEnd);
    }
    if exists|i: int| 0 <= i < list.len() && (#[trigger] list[i]) is ClearToEnd {
        let i = choose|i: int| 0 <= i < list.len() && (#[trigger] list[i]) is ClearToEnd;
        if i < n {
            assert(list[i] == put(row, x, y, at[i]));
        }
    }
}

/// What the repaint of the screen rows from `start` on and before `end` does, cell by cell.
pub open spec fn repaint_rows(buffer: BufferView, start: int, end: int, cleared: bool) -> Seq<
    DrawCommandView,
>
    decreases end - start,
{
    if start >= end {
        seq![]
    } else {
        repaint_rows(buffer, start, end - 1, cleared) + repaint_row(
            screen_row(buffer, end - 1),
            buffer.area.x as int,
            end - 1,
            cleared,
        )
    }
}

/// All rows end in the same colour, reach down to the end of the buffer, and are several.
pub open spec fn can_clear_down(buffer: BufferView, start: int, end: int) -> bool {
    &&& end == buffer.area.y + buffer.area.height
    &&& start + 1 < end
    &&& forall|y: int|
        start <= y < end ==> end_color(#[trigger] buffer.row(y - buffer.area.y)) == end_color(
            buffer.row(start - buffer.area.y),
        )
}

/// The rows of a buffer are repainted line by line, each as a row is. Several rows down to the
/// end of the buffer that end in one colour are erased at once before, from the first of them
/// down, and then not one by one.
pub proof fn law_repaint_is_exact(buffer: BufferView, start: int, end: int)
    requires
        buffer.well_formed(),
        buffer.area.bounded(),
        buffer.area.y <= start < end <= buffer.area.y + buffer.area.height,
        forall|y: int| start <= y < end ==> is_measured(#[trigger] screen_row(buffer, y)),
    ensures
        ({
            let cleared = can_clear_down(buffer, start, end);
            let rows = repaint_rows(buffer, start, end, cleared);
            let x = buffer.area.x as int;
            &&& repaint_effects(dense_commands(buffer, start, end)) == (if cleared {
                seq![
                    Effect::Erase {
                        x,
                        y: start,
                        bg: end_color(buffer.row(start - buffer.area.y)),
                        clear_type: ClearType::FromCursorDown,
                    },
                ]
            } else {
                seq![]
            }) + effects_of(rows)
            &&& forall|i: int|
                0 <= i < rows.len() ==> {
                    let y = (#[trigger] rows[i]).position().y;
                    start <= y < end && repaints(rows[i], buffer.row(y - buffer.area.y), x)
                }
            &&& forall|i: int, k: int|
                0 <= i < k < rows.len() ==> reads_before(#[trigger] rows[i], #[trigger] rows[k])
            &&& forall|k: int, c: int|
                start <= k + buffer.area.y < end && #[trigger] is_head(buffer.row(k), c)
                    && !buffer.row(k)[c].skip && in_text(buffer.row(k), c) ==> is_put_at(
                    rows,
                    x,
                    buffer.area.y + k,
                    c,
                    buffer.row(k)[c],
                )
            &&& forall|k: int|
                start <= k + buffer.area.y < end && buffer.area.width > 0 ==> ((
                #[trigger] clears_row(rows, buffer.area.y + k)) <==> (!cleared && !in_text(
                    buffer.row(k),
                    buffer.area.width - 1,
                )))
        }),
{
    let cleared = can_clear_down(buffer, start, end);
    lemma_clear_down(buffer, start, end);
    lemma_repaint_rows(buffer, start, end, cleared);
    let rows = dense_rows(buffer, start, end, cleared);
    if cleared {
        let first = dense_commands(buffer, start, end)[0];
        assert(dense_commands(buffer, start, end) == seq![first] + rows);
        lemma_repaint_concat(seq![first], rows);
        lemma_repaint_one(first);
    } else {
        let none: Seq<Effect> = seq![];
        assert(none + repaint_effects(rows) =~= repaint_effects(rows));
    }
}

/// Some of the commands erases in the screen row `y`.
pub open spec fn clears_row(commands: Seq<DrawCommandView>, y: int) -> bool {
    exists|i: int|
        0 <= i < commands.len() && (#[trigger] commands[i]) is ClearToEnd
            && commands[i].position().y == y
}

/// When rows are erased at once.
proof fn lemma_clear_down(buffer: BufferView, start: int, end: int)
    requires
        buffer.well_formed(),
        buffer.area.bounded(),
        buffer.area.y <= start < end <= buffer.area.y + buffer.area.height,
    ensures
        clear_down_bg(buffer, start, end) == (if can_clear_down(buffer, start, end) {
            Some(end_color(buffer.row(start - buffer.area.y)))
        } else {
            None
        }),
{
    let bg = trailing_bg(screen_row(buffer, start));
    assert(buffer.area.bottom_edge() == buffer.area.y + buffer.area.height);
    assert forall|y: int| trailing_bg(#[trigger] screen_row(buffer, y)) == end_color(
        buffer.row(y - buffer.area.y),
    ) by {}
    if can_clear_down(buffer, start, end) {
        assert forall|y: int| start <= y < end implies trailing_bg(#[trigger] screen_row(buffer, y))
            == bg by {
            assert(end_color(buffer.row(y - buffer.area.y)) == end_color(
                buffer.row(start - buffer.area.y),
            ));
        }
    }
    if clear_down_bg(buffer, start, end) is Some {
        assert forall|y: int| start <= y < end implies end_color(
            #[trigger] buffer.row(y - buffer.area.y),
        ) == end_color(buffer.row(start - buffer.area.y)) by {
            assert(trailing_bg(screen_row(buffer, y)) == bg);
        }
    }
}

/// The rows of a repaint, line by line.
#[verifier::rlimit(60)]
#[verifier::spinoff_prover]
proof fn lemma_repaint_rows(buffer: BufferView, start: int, end: int, cleared: bool)
    requires
        buffer.well_formed(),
        buffer.area.bounded(),
        buffer.area.y <= start <= end <= buffer.area.y + buffer.area.height,
        forall|y: int| start <= y < end ==> is_measured(#[trigger] screen_row(buffer, y)),
    ensures
        ({
            let rows = repaint_rows(buffer, start, end, cleared);
            let x = buffer.area.x as int;
            &&& repaint_effects(dense_rows(buffer, start, end, cleared)) == effects_of(rows)
            &&& forall|i: int|
                0 <= i < rows.len() ==> {
                    let y = (#[trigger] rows[i]).position().y;
                    start <= y < end && repaints(rows[i], buffer.row(y - buffer.area.y), x)
                }
            &&& forall|i: int, k: int|
                0 <= i < k < rows.len() ==> reads_before(#[trigger] rows[i], #[trigger] rows[k])
            &&& forall|k: int, c: int|
                start <= k + buffer.area.y < end && #[trigger] is_head(buffer.row(k), c)
                    && !buffer.row(k)[c].skip && in_text(buffer.row(k), c) ==> is_put_at(
                    rows,
                    x,
                    buffer.area.y + k,
                    c,
                    buffer.row(k)[c],
                )
            &&& forall|k: int|
                start <= k + buffer.area.y < end && buffer.area.width > 0 ==> ((
                #[trigger] clears_row(rows, buffer.area.y + k)) <==> (!cleared && !in_text(
                    buffer.row(k),
                    buffer.area.width - 1,
                )))
        }),
    decreases end - start,
{
    let rows = repaint_rows(buffer, start, end, cleared);
    if start < end {
        lemma_repaint_rows(buffer, start, end - 1, cleared);
        let front = repaint_rows(buffer, start, end - 1, cleared);
        let row = screen_row(buffer, end - 1);
        let x = buffer.area.x as int;
        let y = end - 1;
        let above = y - buffer.area.y;
        let part = repaint_row(row, x, y, cleared);
        let m = front.len() as int;
        lemma_row_bounds(buffer.area.width as int, buffer.area.height as int, above);
        law_repainted_row_is_exact(row, x, y, cleared);
        lemma_repaint_concat(
            dense_rows(buffer, start, end - 1, cleared),
            dense_row(row, x, y, cleared),
        );
        assert(rows == front + part);
        assert(effects_of(rows) =~= effects_of(front) + effects_of(part));
        assert forall|i: int| 0 <= i < rows.len() implies {
            let y = (#[trigger] rows[i]).position().y;
            start <= y < end && repaints(rows[i], buffer.row(y - buffer.area.y), x)
        } by {
            if i < m {
                assert(rows[i] == front[i]);
            } else {
                assert(rows[i] == part[i - m]);
            }
        }
        assert forall|i: int, k: int| 0 <= i < k < rows.len() implies reads_before(
            #[trigger] rows[i],
            #[trigger] rows[k],
        ) by {
            if k < m {
                assert(rows[i] == front[i]);
                assert(rows[k] == front[k]);
            } else {
                assert(rows[k] == part[k - m]);
                if i < m {
                    assert(rows[i] == front[i]);
                } else {
                    assert(rows[i] == part[i - m]);
                    assert(column_of(part[i - m], x) < column_of(part[k - m], x));
                }
            }
        }
        assert forall|k: int, c: int|
            start <= k + buffer.area.y < end && #[trigger] is_head(buffer.row(k), c)
                && !buffer.row(k)[c].skip && in_text(buffer.row(k), c) implies is_put_at(
            rows,
            x,
            buffer.area.y + k,
            c,
            buffer.row(k)[c],
        ) by {
            let cell = buffer.row(k)[c];
            if k < above {
                assert(is_put_at(front, x, buffer.area.y + k, c, cell));
                let i = choose|i: int|
                    0 <= i < front.len() && puts_cell(#[trigger] front[i], x, c, cell)
                        && front[i].position().y == buffer.area.y + k;
                assert(rows[i] == front[i]);
            } else {
                assert(is_put(part, x, c, cell));
                let i = choose|i: int|
                    0 <= i < part.len() && puts_cell(#[trigger] part[i], x, c, cell);
                assert(rows[m + i] == part[i]);
            }
        }
        assert forall|k: int|
            start <= k + buffer.area.y < end && buffer.area.width > 0 implies ((
        #[trigger] clears_row(rows, buffer.area.y + k)) <==> (!cleared && !in_text(
            buffer.row(k),
            buffer.area.width - 1,
        ))) by {
            if clears_row(rows, buffer.area.y + k) {
                let i = choose|i: int|
                    0 <= i < rows.len() && (#[trigger] rows[i]) is ClearToEnd
                        && rows[i].position().y == buffer.area.y + k;
                if i < m {
                    assert(rows[i] == front[i]);
                    assert(clears_row(front, buffer.area.y + k));
                } else {
                    assert(rows[i] == part[i - m]);
                }
            }
            if k < above {
                if clears_row(front, buffer.area.y + k) {
                    let i = choose|i: int|
                        0 <= i < front.len() && (#[trigger] front[i]) is ClearToEnd
                            && front[i].position().y == buffer.area.y + k;
                    assert(rows[i] == front[i]);
                }
            } else {
                if exists|i: int| 0 <= i < part.len() && (#[trigger] part[i]) is ClearToEnd {
                    let i = choose|i: int| 0 <= i < part.len() && (#[trigger] part[i]) is ClearToEnd;
                    assert(rows[m + i] == part[i]);
                }
            }
        }
    } else {
        assert(effects_of(rows) =~= seq![]);
        assert(repaint_effects(dense_rows(buffer, start, end, cleared)) =~= seq![]);
    }
}

/// Rows in which covered cells are alike and which are measured can be repainted.
pub proof fn lemma_neat_repaint(buffer: BufferView, start: int, end: int)
    requires
        forall|y: int|
            start <= y < end ==> is_measured(#[trigger] screen_row(buffer, y)) && covers_alike(
                screen_row(buffer, y),
            ),
    ensures
        can_repaint(buffer, start, end),
{
    assert forall|y: int| start <= y < end implies {
        let row = #[trigger] screen_row(buffer, y);
        &&& skips_narrow(row)
        &&& paintable(row)
        &&& clear_down_bg(buffer, start, end) is Some || keeps_painted(row)
    } by {
        let row = screen_row(buffer, y);
        lemma_measured(row);
        lemma_neat_painted(row);
    }
}

/// What is written for the parts of a repaint does to the screen exactly what they ask for, and
/// leaves the pen plain, wherever the cursor stands at the start: the width of each part is noted
/// as it is, and no text is concealed.
pub proof fn law_repaint_is_faithful(pen: Pen, commands: Seq<DenseCommand>)
    requires
        pen.is_plain(),
        all_exact(commands),
        forall|i: int| 0 <= i < commands.len() ==> is_unconcealed(#[trigger] commands[i]),
    ensures
        pen.all_effects(dense_ops(commands)) == repaint_effects(commands),
        pen.after_all(dense_ops(commands)).is_plain(),
{
    lemma_exact_follow(commands);
    lemma_unconcealed_reach(commands);
    law_repaint_effects(pen, commands);
}

/// For one more part of a repaint, what was written before stays, and only what is needed is
/// added: the cursor is moved exactly where it does not stand at the part already; for a run, its
/// colours are set exactly where they are not in force, attributes exactly as far as its modifiers
/// are not in force, and its symbols are printed last; for a clearing, the style is reset exactly
/// where there are modifiers or a foreground colour, the background colour is set exactly where it
/// is not in force then, and the part of the screen is erased last.
pub proof fn law_repaint_sends_what_is_needed(
    pen: Pen,
    done: Seq<DenseCommand>,
    command: DenseCommand,
)
    requires
        pen.is_plain(),
        all_exact(done.push(command)),
        forall|i: int|
            0 <= i <= done.len() ==> is_unconcealed(#[trigger] done.push(command)[i]),
    ensures
        ({
            let written = dense_commands_ops(done);
            let all = dense_commands_ops(done.push(command));
            let sent = all.skip(written.len() as int);
            let before = pen.after_all(written);
            let position = part_position(command);
            let moves: int = if done.len() > 0 && before.x == position.x && before.y
                == position.y {
                0
            } else {
                1
            };
            &&& written.len() <= all.len() && all.take(written.len() as int) == written
            &&& moves == 1 ==> sent.len() > 0 && sent[0] == Op::MoveTo(position)
            &&& match command {
                DenseCommand::Run { symbols, fg, bg, modifier, .. } => {
                    let switches = (ModifierDiff {
                        from: before.modifier,
                        to: modifier,
                    }).switches();
                    let colors: int = if before.fg != fg || before.bg != bg {
                        1
                    } else {
                        0
                    };
                    &&& sent.len() == moves + switches.len() + colors + 1
                    &&& forall|i: int|
                        0 <= i < switches.len() ==> sent[moves + i] == Op::SetAttribute(
                            #[trigger] switches[i],
                        )
                    &&& colors == 1 ==> sent[sent.len() - 2] == Op::SetColors(fg, bg)
                    &&& sent.last() == Op::Print(symbols)
                },
                DenseCommand::Clear { bg, clear_type, .. } => {
                    let resets: int = if before.modifier.bits != 0 || before.fg != Color::Reset {
                        1
                    } else {
                        0
                    };
                    let colors: int = if (resets == 1 && bg != Color::Reset) || (resets == 0 && bg
                        != before.bg) {
                        1
                    } else {
                        0
                    };
                    &&& sent.len() == moves + resets + colors + 1
                    &&& resets == 1 ==> sent[moves] == Op::SetAttribute(Attribute::Reset)
                    &&& colors == 1 ==> sent[sent.len() - 2] == Op::SetBackground(bg)
                    &&& sent.last() == Op::Clear(clear_type)
                },
            }
        }),
{
    let longer = done.push(command);
    let written = dense_commands_ops(done);
    let all = dense_commands_ops(longer);
    let state = dense_state_after(done);
    assert(longer.drop_last() =~= done);
    assert forall|i: int| 0 <= i < done.len() implies is_exact(#[trigger] done[i]) by {
        assert(done[i] == longer[i]);
    }
    assert forall|i: int| 0 <= i < done.len() implies is_unconcealed(#[trigger] done[i]) by {
        assert(done[i] == longer[i]);
    }
    assert(is_exact(longer[done.len() as int]));
    lemma_exact_follow(done);
    lemma_unconcealed_reach(done);
    lemma_parts(pen, done);
    let sent = all.skip(written.len() as int);
    assert(all == written + state.ops(command));
    assert(sent =~= state.ops(command));
    assert(all.take(written.len() as int) =~= written);
    if done.len() > 0 {
        assert(is_exact(done[done.len() - 1]));
        if let DenseCommand::Run { symbols, .. } = done.last() {
            lemma_total_positive(symbols);
        }
    } else {
        assert(state.next_pos is None);
    }
    if let DenseCommand::Run { modifier, .. } = command {
        let diff = ModifierDiff { from: state.modifier, to: modifier };
        if modifier == state.modifier {
            lemma_no_switches(diff);
        }
        assert(diff.ops().len() == diff.switches().len());
    }
}

/// Where the cursor is taken to stand after a part of a repaint: at the end of a run, as far as a
/// column can be counted, or where it was to erase.
pub open spec fn noted_cursor(command: DenseCommand) -> Position {
    match command {
        DenseCommand::Run { position, width, .. } => Position {
            x: (if position.x + width < 0xffff {
                position.x + width
            } else {
                0xffff
            }) as u16,
            y: position.y,
        },
        DenseCommand::Clear { position, .. } => position,
    }
}

/// The style in which parts of a repaint leave off: that of the last run, or plain text on the
/// background colour of the last clearing.
pub open spec fn part_style_after(done: Seq<DenseCommand>) -> Style {
    if done.len() == 0 {
        Style { fg: Color::Reset, bg: Color::Reset, modifier: Modifier { bits: 0 } }
    } else {
        match done.last() {
            DenseCommand::Run { fg, bg, modifier, .. } => Style { fg, bg, modifier },
            DenseCommand::Clear { bg, .. } => Style {
                fg: Color::Reset,
                bg,
                modifier: Modifier { bits: 0 },
            },
        }
    }
}

/// For one more part of a repaint, whatever the parts are, what was written before stays, and what
/// is added depends on the part before only: the cursor is moved exactly where that one does not
/// leave it at the new part; the colours of a run are set exactly where they are not those of the
/// style that the part before leaves off in, attributes exactly as far as its modifiers are not,
/// and its symbols are printed last; for a clearing, the style is reset exactly where there are
/// modifiers or a foreground colour, the background colour is set exactly where it is another
/// then, and the part of the screen is erased last.
pub proof fn law_repaint_goes_by_the_last_part(done: Seq<DenseCommand>, command: DenseCommand)
    ensures
        ({
            let written = dense_commands_ops(done);
            let all = dense_commands_ops(done.push(command));
            let sent = all.skip(written.len() as int);
            let before = part_style_after(done);
            let position = part_position(command);
            let moves: int = if done.len() > 0 && noted_cursor(done.last()) == position {
                0
            } else {
                1
            };
            &&& written.len() <= all.len() && all.take(written.len() as int) == written
            &&& moves == 1 ==> sent.len() > 0 && sent[0] == Op::MoveTo(position)
            &&& match command {
                DenseCommand::Run { symbols, fg, bg, modifier, .. } => {
                    let switches = (ModifierDiff {
                        from: before.modifier,
                        to: modifier,
                    }).switches();
                    let colors: int = if before.fg != fg || before.bg != bg {
                        1
                    } else {
                        0
                    };
                    &&& sent.len() == moves + switches.len() + colors + 1
                    &&& forall|i: int|
                        0 <= i < switches.len() ==> sent[moves + i] == Op::SetAttribute(
                            #[trigger] switches[i],
                        )
                    &&& colors == 1 ==> sent[sent.len() - 2] == Op::SetColors(fg, bg)
                    &&& sent.last() == Op::Print(symbols)
                },
                DenseCommand::Clear { bg, clear_type, .. } => {
                    let resets: int = if before.modifier.bits != 0 || before.fg != Color::Reset {
                        1
                    } else {
                        0
                    };
                    let colors: int = if (resets == 1 && bg != Color::Reset) || (resets == 0 && bg
                        != before.bg) {
                        1
                    } else {
                        0
                    };
                    &&& sent.len() == moves + resets + colors + 1
                    &&& resets == 1 ==> sent[moves] == Op::SetAttribute(Attribute::Reset)
                    &&& colors == 1 ==> sent[sent.len() - 2] == Op::SetBackground(bg)
                    &&& sent.last() == Op::Clear(clear_type)
                },
            }
        }),
        dense_ops(done) == dense_commands_ops(done) + seq![
            Op::ResetForeground,
            Op::SetBackground(Color::Reset),
            Op::SetAttribute(Attribute::Reset),
        ],
{
    let longer = done.push(command);
    let written = dense_commands_ops(done);
    let all = dense_commands_ops(longer);
    let state = dense_state_after(done);
    assert(longer.drop_last() =~= done);
    let sent = all.skip(written.len() as int);
    assert(all == written + state.ops(command));
    assert(sent =~= state.ops(command));
    assert(all.take(written.len() as int) =~= written);
    if done.len() > 0 {
        assert(state.next_pos == Some(noted_cursor(done.last())));
    } else {
        assert(state.next_pos is None);
    }
    if let DenseCommand::Run { modifier, .. } = command {
        let diff = ModifierDiff { from: state.modifier, to: modifier };
        if modifier == state.modifier {
            lemma_no_switches(diff);
        }
        assert(diff.ops().len() == diff.switches().len());
    }
}

/// A symbol of a row that is repainted starts at column `c`, where one starts at `column`: cells
/// that are to be left alone are passed one by one, others with all the columns of their symbol.
pub open spec fn starts_from(row: Seq<CellView>, column: int, c: int) -> bool
    decreases max_int(c - column, 0),
{
    if column >= c {
        column == c && 0 <= c < row.len()
    } else if column < row.len() {
        starts_from(
            row,
            column + (if row[column].skip {
                1
            } else {
                span(row[column])
            }),
            c,
        )
    } else {
        false
    }
}

/// The columns that are shown from a start on.
proof fn lemma_starts(row: Seq<CellView>, column: int, last: int)
    requires
        0 <= column,
    ensures
        ({
            let at = dense_columns(row, column, last);
            &&& forall|i: int|
                0 <= i < at.len() ==> column <= #[trigger] at[i] <= last && starts_from(
                    row,
                    column,
                    at[i],
                ) && !row[at[i]].skip
            &&& forall|i: int, k: int|
                0 <= i < k < at.len() ==> #[trigger] at[i] < #[trigger] at[k]
            &&& forall|c: int|
                #[trigger] starts_from(row, column, c) && column <= c <= last && !row[c].skip
                    ==> at.contains(c)
        }),
    decreases max_int(row.len() - column, 0),
{
    let at = dense_columns(row, column, last);
    if column < row.len() && column <= last {
        let after = column + (if row[column].skip {
            1
        } else {
            span(row[column])
        });
        let rest = dense_columns(row, after, last);
        lemma_starts(row, after, last);
        let n: int = if row[column].skip {
            0
        } else {
            1
        };
        assert(at.len() == n + rest.len());
        assert forall|i: int| n <= i < at.len() implies #[trigger] at[i] == rest[i - n] by {}
        assert forall|i: int| 0 <= i < at.len() implies column <= #[trigger] at[i] <= last
            && starts_from(row, column, at[i]) && !row[at[i]].skip by {
            if i >= n {
                assert(at[i] == rest[i - n]);
                assert(starts_from(row, after, at[i]));
            }
        }
        assert forall|i: int, k: int| 0 <= i < k < at.len() implies #[trigger] at[i]
            < #[trigger] at[k] by {
            assert(at[k] == rest[k - n]);
            if i >= n {
                assert(at[i] == rest[i - n]);
            }
        }
        assert forall|c: int| #[trigger]
            starts_from(row, column, c) && column <= c <= last && !row[c].skip implies at.contains(
            c,
        ) by {
            if c == column {
                assert(at[0] == c);
            } else {
                assert(starts_from(row, after, c));
                assert(rest.contains(c));
                let i = choose|i: int| 0 <= i < rest.len() && rest[i] == c;
                assert(at[n + i] == c);
            }
        }
    } else {
        assert(at =~= seq![]);
    }
}

/// A repainted row shows the symbols that start in it up to the end of its text, from left to
/// right, but for cells that are to be left alone; and no others.
pub proof fn law_shown_columns_are_exact(row: Seq<CellView>)
    ensures
        ({
            let at = shown_columns(row);
            &&& forall|i: int, k: int|
                0 <= i < k < at.len() ==> #[trigger] at[i] < #[trigger] at[k]
            &&& forall|c: int|
                at.contains(c) <==> #[trigger] starts_from(row, 0, c) && 0 <= c && !row[c].skip
                    && in_text(row, c)
        }),
{
    let at = shown_columns(row);
    lemma_blank_from(row);
    lemma_ends(row);
    match last_nonblank(row, trailing_bg(row)) {
        None => {
            assert forall|c: int| at.contains(c) <==> #[trigger] starts_from(row, 0, c) && 0 <= c
                && !row[c].skip && in_text(row, c) by {}
        },
        Some(last) => {
            lemma_starts(row, 0, last);
            assert(blank_from(row) == last + 1);
            assert forall|c: int| at.contains(c) <==> #[trigger] starts_from(row, 0, c) && 0 <= c
                && !row[c].skip && in_text(row, c) by {
                if at.contains(c) {
                    let i = choose|i: int| 0 <= i < at.len() && at[i] == c;
                    assert(at[i] == c);
                }
            }
        },
    }
}

/// A cell stands right behind the symbol of another, in the same colours and with the same
/// modifiers.
pub open spec fn goes_on(row: Seq<CellView>, a: int, b: int) -> bool {
    &&& b == a + span(row[a])
    &&& row[b].fg == row[a].fg
    &&& row[b].bg == row[a].bg
    &&& row[b].modifier == row[a].modifier
}

/// Columns are cut into runs without leaving one out or changing their order: within a run each
/// goes on from the one before, and no run goes on from the one before it.
pub proof fn law_runs_are_maximal(row: Seq<CellView>, at: Seq<int>)
    ensures
        ({
            let all = runs(row, at);
            &&& all.flatten() == at
            &&& forall|k: int| 0 <= k < all.len() ==> (#[trigger] all[k]).len() > 0
            &&& forall|k: int, i: int, j: int|
                0 <= k < all.len() && 0 <= i && j == i + 1 && j < all[k].len() ==> goes_on(
                    row,
                    #[trigger] all[k][i],
                    #[trigger] all[k][j],
                )
            &&& forall|k: int, m: int|
                0 <= k && m == k + 1 && m < all.len() ==> !goes_on(
                    row,
                    (#[trigger] all[k]).last(),
                    (#[trigger] all[m])[0],
                )
        }),
        at.len() > 0 ==> runs(row, at).len() > 0 && runs(row, at).last().last() == at.last(),
    decreases at.len(),
{
    let all = runs(row, at);
    if at.len() == 0 {
        assert(all.flatten() =~= at);
    } else {
        let front = at.drop_last();
        let c = at.last();
        let done = runs(row, front);
        law_runs_are_maximal(row, front);
        done.lemma_flatten_and_flatten_alt_are_equivalent();
        all.lemma_flatten_and_flatten_alt_are_equivalent();
        if front.len() > 0 && joins(row, front.last(), c) {
            let end = done.len() - 1;
            assert(all[end] == done[end].push(c));
            assert(all.drop_last() =~= done.drop_last());
            assert(all.flatten_alt() =~= done.flatten_alt().push(c));
            assert forall|k: int, i: int, j: int|
                0 <= k < all.len() && 0 <= i && j == i + 1 && j < all[k].len() implies goes_on(
                row,
                #[trigger] all[k][i],
                #[trigger] all[k][j],
            ) by {
                assert(all[k][i] == done[k][i]);
                if k < end || j < done[k].len() {
                    assert(all[k][j] == done[k][j]);
                }
            }
            assert forall|k: int, m: int| 0 <= k && m == k + 1 && m < all.len() implies !goes_on(
                row,
                (#[trigger] all[k]).last(),
                (#[trigger] all[m])[0],
            ) by {
                assert(all[k] == done[k]);
                assert(all[m][0] == done[m][0]);
            }
        } else {
            let end = done.len() as int;
            assert(all[end] == seq![c]);
            assert(all.drop_last() =~= done);
            assert(all.flatten_alt() =~= done.flatten_alt().push(c));
            assert forall|k: int, i: int, j: int|
                0 <= k < all.len() && 0 <= i && j == i + 1 && j < all[k].len() implies goes_on(
                row,
                #[trigger] all[k][i],
                #[trigger] all[k][j],
            ) by {
                assert(all[k] == done[k]);
                assert(all[k][i] == done[k][i]);
                assert(all[k][j] == done[k][j]);
            }
            assert forall|k: int, m: int| 0 <= k && m == k + 1 && m < all.len() implies !goes_on(
                row,
                (#[trigger] all[k]).last(),
                (#[trigger] all[m])[0],
            ) by {
                assert(all[k] == done[k]);
                if m < end {
                    assert(all[m] == done[m]);
                }
            }
        }
        assert(front.push(c) =~= at);
    }
}

/// The width of a run whose columns go on from each other.
proof fn lemma_width_of_run(row: Seq<CellView>, run: Seq<int>)
    requires
        run.len() > 0,
        forall|i: int, j: int|
            0 <= i && j == i + 1 && j < run.len() ==> goes_on(
                row,
                #[trigger] run[i],
                #[trigger] run[j],
            ),
        forall|i: int| 0 <= i < run.len() ==> span(row[#[trigger] run[i]]) <= u16::MAX,
    ensures
        run_width(row, run) == min_int(run.last() + span(row[run.last()]) - run[0], 0xffff),
        run[0] <= run.last(),
    decreases run.len(),
{
    reveal_with_fuel(run_width, 2);
    let front = run.drop_last();
    let n = run.len() - 1;
    assert(span(row[run[n]]) <= u16::MAX);
    if front.len() > 0 {
        assert forall|i: int, j: int| 0 <= i && j == i + 1 && j < front.len() implies goes_on(
            row,
            #[trigger] front[i],
            #[trigger] front[j],
        ) by {
            assert(goes_on(row, run[i], run[j]));
        }
        assert forall|i: int| 0 <= i < front.len() implies span(row[#[trigger] front[i]])
            <= u16::MAX by {
            assert(front[i] == run[i]);
        }
        lemma_width_of_run(row, front);
        assert(goes_on(row, run[n - 1], run[n]));
    }
}

/// The width that is noted for a run grows with each symbol by the columns of that symbol, which
/// count modulo the size of a `u16`, up to the largest `u16`.
pub proof fn law_width_of_run_adds_up(row: Seq<CellView>, run: Seq<int>, c: int)
    ensures
        run_width(row, seq![]) == 0,
        run_width(row, run.push(c)) == min_int(
            run_width(row, run) + span(row[c]) % 0x1_0000,
            0xffff,
        ),
{
    assert(run.push(c).drop_last() =~= run);
}

/// A row is repainted in runs and a clearing. Each run shows the symbols at its columns, from the
/// first of them on and in its style, and is as wide as they are. The clearing comes last and
/// erases from right behind the text, in the colour at the end of the row; it is there unless
/// that is done already or nothing follows the text.
pub proof fn law_repainted_row_has_its_parts(row: Seq<CellView>, x: int, y: int, cleared: bool)
    requires
        0 <= x,
        x + row.len() <= 0x1_0000,
        0 <= y <= u16::MAX,
    ensures
        ({
            let list = dense_row(row, x, y, cleared);
            let cut = runs(row, shown_columns(row));
            let n = cut.len() as int;
            let rest: int = if !cleared && row.len() > 0 && !in_text(row, row.len() - 1) {
                1
            } else {
                0
            };
            &&& list.len() == n + rest
            &&& forall|i: int|
                0 <= i < n ==> match #[trigger] list[i] {
                    DenseCommand::Run { position, symbols, width, fg, bg, modifier } => {
                        let first = cut[i][0];
                        let last = cut[i].last();
                        &&& position.x == x + first && position.y == y
                        &&& symbols.len() == cut[i].len()
                        &&& forall|j: int|
                            0 <= j < symbols.len() ==> #[trigger] symbols[j] == row[cut[i][j]].symbol
                        &&& fg == row[first].fg && bg == row[first].bg && modifier
                            == row[first].modifier
                        &&& (forall|j: int|
                            0 <= j < cut[i].len() ==> span(row[#[trigger] cut[i][j]]) <= u16::MAX)
                            ==> width == min_int(last + span(row[last]) - first, 0xffff)
                    },
                    DenseCommand::Clear { .. } => false,
                }
            &&& rest == 1 ==> match list[n] {
                DenseCommand::Clear { position, bg, clear_type } => {
                    &&& clear_type == ClearType::UntilNewLine
                    &&& bg == end_color(row)
                    &&& position.y == y
                    &&& forall|i: int| #[trigger]
                        ends_text(row, i) ==> position.x == x + i + span(row[i])
                    &&& (forall|i: int| !#[trigger] ends_text(row, i)) ==> position.x == x
                },
                DenseCommand::Run { .. } => false,
            }
        }),
{
    let list = dense_row(row, x, y, cleared);
    let at = shown_columns(row);
    let cut = runs(row, at);
    let n = cut.len() as int;
    let tail = dense_tail(row, x, y, cleared);
    law_shown_columns_are_exact(row);
    law_runs_are_maximal(row, at);
    lemma_blank_from(row);
    lemma_ends(row);
    lemma_runs_within(row, at);
    assert forall|i: int| 0 <= i < n implies list[i] == run_command(
        row,
        x,
        y,
        #[trigger] cut[i],
    ) by {}
    assert forall|i: int| 0 <= i < n implies match #[trigger] list[i] {
        DenseCommand::Run { position, symbols, width, fg, bg, modifier } => {
            let first = cut[i][0];
            let last = cut[i].last();
            &&& position.x == x + first && position.y == y
            &&& symbols.len() == cut[i].len()
            &&& forall|j: int|
                0 <= j < symbols.len() ==> #[trigger] symbols[j] == row[cut[i][j]].symbol
            &&& fg == row[first].fg && bg == row[first].bg && modifier == row[first].modifier
            &&& (forall|j: int|
                0 <= j < cut[i].len() ==> span(row[#[trigger] cut[i][j]]) <= u16::MAX) ==> width
                == min_int(last + span(row[last]) - first, 0xffff)
        },
        DenseCommand::Clear { .. } => false,
    } by {
        let run = cut[i];
        assert(list[i] == run_command(row, x, y, run));
        assert(run.len() > 0);
        assert(at.contains(run[0]));
        assert(starts_from(row, 0, run[0]));
        lemma_starts_within(row, 0, run[0]);
        if forall|j: int| 0 <= j < run.len() ==> span(row[#[trigger] run[j]]) <= u16::MAX {
            assert forall|a: int, b: int| 0 <= a && b == a + 1 && b < run.len() implies goes_on(
                row,
                #[trigger] run[a],
                #[trigger] run[b],
            ) by {
                assert(goes_on(row, cut[i][a], cut[i][b]));
            }
            lemma_width_of_run(row, run);
        }
    }
    if tail.len() > 0 {
        assert(list[n] == tail[0]);
    }
}

/// A symbol starts in the row.
proof fn lemma_starts_within(row: Seq<CellView>, column: int, c: int)
    requires
        starts_from(row, column, c),
    ensures
        0 <= c < row.len(),
    decreases max_int(c - column, 0),
{
    if column < c {
        lemma_starts_within(
            row,
            column + (if row[column].skip {
                1
            } else {
                span(row[column])
            }),
            c,
        );
    }
}

/// Runs hold none but the columns.
proof fn lemma_runs_within(row: Seq<CellView>, at: Seq<int>)
    ensures
        forall|k: int|
            0 <= k < runs(row, at).len() && runs(row, at)[k].len() > 0 ==> at.contains(
                (#[trigger] runs(row, at)[k])[0],
            ),
    decreases at.len(),
{
    if at.len() > 0 {
        let front = at.drop_last();
        let c = at.last();
        let done = runs(row, front);
        let all = runs(row, at);
        lemma_runs_within(row, front);
        law_runs_are_maximal(row, front);
        assert(at[at.len() - 1] == c);
        assert forall|k: int| 0 <= k < all.len() && all[k].len() > 0 implies at.contains(
            (#[trigger] all[k])[0],
        ) by {
            if k < done.len() {
                assert(done[k].len() > 0);
                assert(all[k][0] == done[k][0]);
                assert(front.contains(done[k][0]));
                let i = choose|i: int| 0 <= i < front.len() && front[i] == done[k][0];
                assert(at[i] == all[k][0]);
            }
        }
    }
}

/// A repaint goes row by row. Several rows that reach down to the end of the buffer and end in one
/// colour are erased at once before, from the first cell of the first of them, and then not one by
/// one.
pub proof fn law_repaint_goes_row_by_row(buffer: BufferView, start: int, end: int, between: int)
    requires
        buffer.area.y <= start <= between <= end,
        end <= u16::MAX,
    ensures
        ({
            let x = buffer.area.x as int;
            let color = end_color(buffer.row(start - buffer.area.y));
            let at_once = {
                &&& end == min_int(buffer.area.y + buffer.area.height, 0xffff)
                &&& start + 1 < end
                &&& forall|y: int|
                    start <= y < end ==> end_color(#[trigger] buffer.row(y - buffer.area.y))
                        == color
            };
            let rows = dense_rows(buffer, start, end, at_once);
            &&& dense_commands(buffer, start, end) == (if at_once {
                seq![
                    DenseCommand::Clear {
                        position: Position { x: buffer.area.x, y: start as u16 },
                        bg: color,
                        clear_type: ClearType::FromCursorDown,
                    },
                ] + rows
            } else {
                rows
            })
            &&& rows == dense_rows(buffer, start, between, at_once) + dense_rows(
                buffer,
                between,
                end,
                at_once,
            )
            &&& start + 1 == end ==> rows == dense_row(
                buffer.row(start - buffer.area.y),
                x,
                start,
                at_once,
            )
            &&& start == end ==> rows.len() == 0
        }),
{
    let color = end_color(buffer.row(start - buffer.area.y));
    let at_once = {
        &&& end == min_int(buffer.area.y + buffer.area.height, 0xffff)
        &&& start + 1 < end
        &&& forall|y: int|
            start <= y < end ==> end_color(#[trigger] buffer.row(y - buffer.area.y)) == color
    };
    assert forall|y: int| trailing_bg(#[trigger] screen_row(buffer, y)) == end_color(
        buffer.row(y - buffer.area.y),
    ) by {
        lemma_blank_from(screen_row(buffer, y));
    }
    if clear_down_bg(buffer, start, end) is Some {
        assert forall|y: int| start <= y < end implies end_color(
            #[trigger] buffer.row(y - buffer.area.y),
        ) == color by {
            assert(trailing_bg(screen_row(buffer, y)) == trailing_bg(screen_row(buffer, start)));
        }
    }
    if at_once {
        assert forall|y: int| start <= y < end implies trailing_bg(
            #[trigger] screen_row(buffer, y),
        ) == trailing_bg(screen_row(buffer, start)) by {
            assert(end_color(buffer.row(y - buffer.area.y)) == color);
        }
    }
    lemma_rows_in_turn(buffer, start, end, between, at_once);
    reveal_with_fuel(dense_rows, 3);
    if start + 1 == end {
        let none: Seq<DenseCommand> = seq![];
        let row = dense_row(
            screen_row(buffer, start),
            buffer.area.x as int,
            start,
            at_once,
        );
        assert(none + row =~= row);
    }
}

/// The rows are repainted one after the other.
proof fn lemma_rows_in_turn(buffer: BufferView, start: int, end: int, between: int, cleared: bool)
    requires
        start <= between <= end,
    ensures
        dense_rows(buffer, start, end, cleared) == dense_rows(buffer, start, between, cleared)
            + dense_rows(buffer, between, end, cleared),
    decreases end - between,
{
    let front = dense_rows(buffer, start, between, cleared);
    if between == end {
        assert(front + dense_rows(buffer, between, end, cleared) =~= front);
    } else {
        lemma_rows_in_turn(buffer, start, end - 1, between, cleared);
        let fewer = dense_rows(buffer, between, end - 1, cleared);
        let last = dense_row(
            screen_row(buffer, end - 1),
            buffer.area.x as int,
            end - 1,
            cleared,
        );
        assert(front + fewer + last =~= front + (fewer + last));
    }
}

/// A repaint shows a symbol at column `c` of a row.
pub open spec fn shows_at(row: Seq<CellView>, c: int) -> bool {
    0 <= c < row.len() && starts_from(row, 0, c) && !row[c].skip && in_text(row, c)
}

/// The last cell that a repaint shows is the rightmost one of the lowest row that shows any; there
/// is none exactly where no row shows any.
pub proof fn law_last_shown_cell_is_noted(buffer: BufferView, start: int, end: int)
    requires
        buffer.well_formed(),
        buffer.area.x + buffer.area.width <= 0x1_0000,
        buffer.area.y <= start,
        end <= buffer.area.y + buffer.area.height,
        end <= 0x1_0000,
    ensures
        match dense_last_put(buffer, start, end) {
            None => forall|k: int, c: int|
                start <= k + buffer.area.y < end ==> !#[trigger] shows_at(buffer.row(k), c),
            Some(position) => {
                let k = position.y - buffer.area.y;
                let c = position.x - buffer.area.x;
                &&& start <= position.y < end
                &&& shows_at(buffer.row(k), c)
                &&& forall|d: int| c < d ==> !#[trigger] shows_at(buffer.row(k), d)
                &&& forall|m: int, d: int|
                    k < m && m + buffer.area.y < end ==> !#[trigger] shows_at(buffer.row(m), d)
            },
        },
    decreases end - start,
{
    if start < end {
        let n = end - 1 - buffer.area.y;
        let row = buffer.row(n);
        let at = shown_columns(row);
        assert(row == screen_row(buffer, end - 1));
        lemma_row_bounds(buffer.area.width as int, buffer.area.height as int, n);
        law_shown_columns_are_exact(row);
        assert forall|c: int| at.contains(c) <==> #[trigger] shows_at(row, c) by {
            assert(starts_from(row, 0, c) ==> starts_from(row, 0, c));
            if starts_from(row, 0, c) {
                lemma_starts_within(row, 0, c);
            }
        }
        if at.len() > 0 {
            let c = at.last();
            assert(at[at.len() - 1] == c);
            assert(at.contains(c));
            assert(shows_at(row, c));
            assert forall|d: int| c < d implies !#[trigger] shows_at(row, d) by {
                if shows_at(row, d) {
                    let i = choose|i: int| 0 <= i < at.len() && at[i] == d;
                    assert(at[i] <= at[at.len() - 1]);
                }
            }
        } else {
            assert forall|c: int| !#[trigger] shows_at(row, c) by {
                assert(!at.contains(c));
            }
            law_last_shown_cell_is_noted(buffer, start, end - 1);
        }
    }
}

} // verus!
