//! The screen as a whole, and the proof that a flushed frame shows on it.

use crate::buffer::{lemma_row_bounds, row_at, BufferView, CellView};
use crate::dense::{
    clear_down_bg, dense_commands, dense_ops, dense_row, dense_rows, screen_row,
};
use crate::diff::{
    diff_commands, drawn_until, puts, row_commands, rows_commands, trailing_bg, DrawCommandView,
};
use crate::draw::draw_ops;
use crate::geometry::Rect;
use crate::ops::plain_ops;
use crate::pen::{
    all_behind, behind, cursor_follows, effect_of, effects_of, law_draw_effects, law_modifiers_follow,
    lemma_cursor_follows, modifiers_follow, Effect, Pen,
};
use crate::repaint::{
    can_clear_down, can_repaint, is_measured, keeps_painted, law_repaint_effects,
    law_repaint_is_exact, law_repaint_modifiers_follow, law_repainted_row_is_shown,
    lemma_dense_row_effects, lemma_neat_repaint, lemma_repaint_concat, lemma_repaint_follows,
    lemma_repaint_one, paintable, part_effects, parts_reach_modifiers, repaint_effects,
    repaint_row, repaint_rows, skips_narrow,
};
use crate::screen::{
    all_shown, apply_commands, blank, clear_from, column_of, command_covers, covered,
    covers_alike, in_text, is_cleared, is_head, is_needed, is_put, keeps_symbols,
    law_row_commands_are_needed, law_row_is_shown, law_unknown_row_is_repainted, leaves_no_rest,
    lemma_apply_len, lemma_neat_row, lemma_puts, lemma_row_commands, lemma_unknown_row, puts_cell,
    show_at, shows_cell_of, shows_row, tidy, touched, Slot,
};
use crate::style::{ClearType, Color};
use crate::width::columns;
use vstd::prelude::*;

verus! {

/// What an area of the screen shows, line by line.
#[verifier::ext_equal]
pub struct Screen {
    pub area: Rect,
    pub lines: Seq<Seq<Slot>>,
}

impl Screen {
    /// There is a line for each row of the area, and no other.
    pub open spec fn well_formed(self) -> bool {
        &&& self.lines.len() == self.area.height
        &&& forall|k: int|
            0 <= k < self.lines.len() ==> (#[trigger] self.lines[k]).len() == self.area.width
    }

    /// The screen after a change. Changes outside the area do not show.
    pub open spec fn after(self, effect: Effect) -> Screen {
        match effect {
            Effect::Show { x, y, look } => {
                let k = y - self.area.y;
                if 0 <= k < self.lines.len() {
                    Screen {
                        lines: self.lines.update(
                            k,
                            show_at(self.lines[k], x - self.area.x, look),
                        ),
                        ..self
                    }
                } else {
                    self
                }
            },
            Effect::Erase { x, y, bg, clear_type: ClearType::UntilNewLine } => {
                let k = y - self.area.y;
                if 0 <= k < self.lines.len() {
                    Screen {
                        lines: self.lines.update(
                            k,
                            clear_from(self.lines[k], x - self.area.x, bg),
                        ),
                        ..self
                    }
                } else {
                    self
                }
            },
            Effect::Erase { x, y, bg, clear_type: ClearType::FromCursorDown } => Screen {
                lines: Seq::new(
                    self.lines.len(),
                    |k: int|
                        if k == y - self.area.y {
                            clear_from(self.lines[k], x - self.area.x, bg)
                        } else if k > y - self.area.y {
                            clear_from(self.lines[k], 0, bg)
                        } else {
                            self.lines[k]
                        },
                ),
                ..self
            },
            Effect::Erase { clear_type: ClearType::Purge, .. } => self,
        }
    }

    /// The screen after changes.
    pub open spec fn after_all(self, effects: Seq<Effect>) -> Screen
        decreases effects.len(),
    {
        if effects.len() == 0 {
            self
        } else {
            self.after_all(effects.drop_last()).after(effects.last())
        }
    }

    /// The area shows the buffer.
    pub open spec fn shows(self, buffer: BufferView) -> bool {
        &&& self.well_formed()
        &&& self.area == buffer.area
        &&& forall|k: int|
            0 <= k < self.lines.len() ==> shows_row(#[trigger] self.lines[k], buffer.row(k))
    }
}

/// Changes after changes.
pub proof fn lemma_screen_concat(screen: Screen, a: Seq<Effect>, b: Seq<Effect>)
    ensures
        screen.after_all(a + b) == screen.after_all(a).after_all(b),
    decreases b.len(),
{
    if b.len() == 0 {
        assert(a + b =~= a);
    } else {
        lemma_screen_concat(screen, a, b.drop_last());
        assert((a + b).drop_last() =~= a + b.drop_last());
    }
}

/// One change.
proof fn lemma_screen_one(screen: Screen, effect: Effect)
    ensures
        screen.after_all(seq![effect]) == screen.after(effect),
{
    let none: Seq<Effect> = seq![];
    assert(seq![effect].drop_last() =~= none);
    assert(screen.after_all(none) == screen);
}

/// Commands in one row change its line and no other.
pub proof fn lemma_row_effects(screen: Screen, commands: Seq<DrawCommandView>, k: int)
    requires
        0 <= k < screen.lines.len(),
        forall|i: int|
            0 <= i < commands.len() ==> (#[trigger] commands[i]).position().y == screen.area.y + k,
    ensures
        screen.after_all(effects_of(commands)) == (Screen {
            lines: screen.lines.update(
                k,
                apply_commands(screen.lines[k], screen.area.x as int, commands),
            ),
            ..screen
        }),
    decreases commands.len(),
{
    if commands.len() == 0 {
        assert(effects_of(commands) =~= seq![]);
        assert(screen.lines.update(k, screen.lines[k]) =~= screen.lines);
    } else {
        let front = commands.drop_last();
        assert forall|i: int| 0 <= i < front.len() implies (#[trigger] front[i]).position().y
            == screen.area.y + k by {
            assert(front[i] == commands[i]);
        }
        lemma_row_effects(screen, front, k);
        assert(effects_of(commands).drop_last() =~= effects_of(front));
        assert(effects_of(commands).last() == effect_of(commands.last()));
        assert(commands[commands.len() - 1].position().y == screen.area.y + k);
        let before = screen.after_all(effects_of(front));
        assert(screen.after_all(effects_of(commands)).lines =~= screen.lines.update(
            k,
            apply_commands(screen.lines[k], screen.area.x as int, commands),
        ));
    }
}

/// The commands between two frames leave nothing of the old frame behind and erase nothing of
/// the new one.
pub open spec fn replaces(a: BufferView, b: BufferView) -> bool {
    forall|k: int|
        0 <= k < a.area.height ==> {
            let prev = #[trigger] a.row(k);
            let next = b.row(k);
            &&& leaves_no_rest(
                row_commands(prev, next, a.area.x as int, a.area.y + k),
                a.area.x as int,
                prev,
                next,
            )
            &&& keeps_symbols(prev, next)
        }
}

/// The first rows are shown anew, and the others stay as they are.
proof fn lemma_rows_shown(screen: Screen, a: BufferView, b: BufferView, n: int)
    requires
        screen.shows(a),
        a.well_formed(),
        b.well_formed(),
        a.area == b.area,
        a.area.addressable(),
        replaces(a, b),
        0 <= n <= a.area.height,
    ensures
        ({
            let after = screen.after_all(effects_of(rows_commands(a, b, n)));
            &&& after.well_formed()
            &&& after.area == a.area
            &&& forall|k: int| 0 <= k < n ==> shows_row(#[trigger] after.lines[k], b.row(k))
            &&& forall|k: int|
                n <= k < a.area.height ==> #[trigger] after.lines[k] == screen.lines[k]
        }),
    decreases n,
{
    let commands = rows_commands(a, b, n);
    if n == 0 {
        assert(effects_of(commands) =~= seq![]);
    } else {
        lemma_rows_shown(screen, a, b, n - 1);
        let before = screen.after_all(effects_of(rows_commands(a, b, n - 1)));
        let prev = a.row(n - 1);
        let next = b.row(n - 1);
        let x = a.area.x as int;
        let y = a.area.y + n - 1;
        let row = row_commands(prev, next, x, y);
        assert(effects_of(commands) =~= effects_of(rows_commands(a, b, n - 1)) + effects_of(row));
        lemma_screen_concat(screen, effects_of(rows_commands(a, b, n - 1)), effects_of(row));
        lemma_row_bounds(a.area.width as int, a.area.height as int, n - 1);
        if prev != next {
            lemma_row_commands(prev, next, x, y);
        }
        lemma_row_effects(before, row, n - 1);
        assert(shows_row(before.lines[n - 1], prev));
        law_row_is_shown(before.lines[n - 1], prev, next, x, y);
        lemma_apply_len(before.lines[n - 1], x, row);
    }
}

/// The commands between two frames lead from a screen that shows the one to a screen that shows
/// the other.
pub proof fn law_diff_is_shown(screen: Screen, a: BufferView, b: BufferView)
    requires
        screen.shows(a),
        a.well_formed(),
        b.well_formed(),
        a.area == b.area,
        a.area.addressable(),
        replaces(a, b),
    ensures
        screen.after_all(effects_of(diff_commands(a, b))).shows(b),
{
    lemma_rows_shown(screen, a, b, a.area.height as int);
}

/// Every symbol that shows takes up a column, unless its cell is to be left alone.
pub open spec fn visible(row: Seq<CellView>) -> bool {
    forall|c: int| #[trigger] is_head(row, c) && !row[c].skip ==> columns(row[c].symbol) >= 1
}

/// Within a row, commands stand behind symbols.
proof fn lemma_row_behind(prev: Seq<CellView>, next: Seq<CellView>, x: int, y: int)
    requires
        prev.len() == next.len(),
        0 <= x,
        x + next.len() <= 0x1_0000,
        keeps_symbols(prev, next),
        visible(next),
    ensures
        all_behind(row_commands(prev, next, x, y)),
{
    let list = row_commands(prev, next, x, y);
    if prev != next {
        lemma_row_commands(prev, next, x, y);
        assert forall|i: int, k: int| 0 <= i && k == i + 1 && k < list.len() implies behind(
            #[trigger] list[i],
            #[trigger] list[k],
        ) by {
            assert(shows_cell_of(list[i], x, next, 0));
            assert(is_head(next, column_of(list[i], x)));
            assert(column_of(list[i], x) + columns(list[i]->cell.symbol) <= column_of(list[k], x));
        }
    }
}

/// In the rows of a frame, commands stand behind symbols.
proof fn lemma_rows_behind(a: BufferView, b: BufferView, n: int)
    requires
        a.well_formed(),
        b.well_formed(),
        a.area == b.area,
        a.area.addressable(),
        forall|k: int| 0 <= k < a.area.height ==> keeps_symbols(#[trigger] a.row(k), b.row(k)),
        forall|k: int| 0 <= k < b.area.height ==> visible(#[trigger] b.row(k)),
        0 <= n <= a.area.height,
    ensures
        all_behind(rows_commands(a, b, n)),
        forall|i: int|
            0 <= i < rows_commands(a, b, n).len() ==> (#[trigger] rows_commands(
                a,
                b,
                n,
            )[i]).position().y < a.area.y + n,
    decreases n,
{
    if n > 0 {
        lemma_rows_behind(a, b, n - 1);
        let front = rows_commands(a, b, n - 1);
        let all = rows_commands(a, b, n);
        let prev = a.row(n - 1);
        let next = b.row(n - 1);
        let x = a.area.x as int;
        let y = a.area.y + n - 1;
        let row = row_commands(prev, next, x, y);
        let m = front.len() as int;
        lemma_row_bounds(a.area.width as int, a.area.height as int, n - 1);
        assert(all == front + row);
        if prev != next {
            lemma_row_commands(prev, next, x, y);
        }
        lemma_row_behind(prev, next, x, y);
        assert forall|i: int| 0 <= i < all.len() implies (#[trigger] all[i]).position().y
            < a.area.y + n by {
            if i < m {
                assert(all[i] == front[i]);
            } else {
                assert(all[i] == row[i - m]);
            }
        }
        assert forall|i: int, k: int| 0 <= i && k == i + 1 && k < all.len() implies behind(
            #[trigger] all[i],
            #[trigger] all[k],
        ) by {
            if k < m {
                assert(all[i] == front[i]);
                assert(all[k] == front[k]);
            } else if i >= m {
                assert(all[i] == row[i - m]);
                assert(all[k] == row[k - m]);
            } else {
                assert(all[i] == front[i]);
                assert(all[k] == row[k - m]);
            }
        }
    }
}

/// Between two frames, the cursor always stands where the next command takes effect, unless the
/// new frame has symbols without columns or a symbol of it is cut.
pub proof fn law_cursor_follows(a: BufferView, b: BufferView)
    requires
        a.well_formed(),
        b.well_formed(),
        a.area == b.area,
        a.area.addressable(),
        forall|k: int| 0 <= k < a.area.height ==> keeps_symbols(#[trigger] a.row(k), b.row(k)),
        forall|k: int| 0 <= k < b.area.height ==> visible(#[trigger] b.row(k)),
    ensures
        cursor_follows(diff_commands(a, b)),
{
    lemma_rows_behind(a, b, a.area.height as int);
    lemma_cursor_follows(diff_commands(a, b));
}

/// A screen that shows a frame shows the next one after what is written between the two, and
/// the pen is plain before and after.
///
/// Left out are concealed cells, symbols without columns in the way of others, and symbols that
/// are left behind or cut.
pub proof fn law_frame_is_shown(screen: Screen, pen: Pen, a: BufferView, b: BufferView)
    requires
        screen.shows(a),
        pen.is_plain(),
        a.well_formed(),
        b.well_formed(),
        a.area == b.area,
        a.area.addressable(),
        replaces(a, b),
        cursor_follows(diff_commands(a, b)),
        modifiers_follow(diff_commands(a, b)),
    ensures
        screen.after_all(pen.all_effects(draw_ops(diff_commands(a, b)))).shows(b),
        pen.after_all(draw_ops(diff_commands(a, b))).is_plain(),
{
    law_draw_effects(pen, diff_commands(a, b));
    law_diff_is_shown(screen, a, b);
}

/// Repainted rows show the buffer, and the other rows stay as they are.
proof fn lemma_dense_rows_shown(
    screen: Screen,
    buffer: BufferView,
    start: int,
    end: int,
    cleared: bool,
)
    requires
        screen.well_formed(),
        screen.area == buffer.area,
        buffer.well_formed(),
        buffer.area.addressable(),
        buffer.area.y <= start <= end <= buffer.area.y + buffer.area.height,
        forall|y: int|
            start <= y < end ==> {
                let row = #[trigger] screen_row(buffer, y);
                &&& skips_narrow(row)
                &&& paintable(row)
                &&& cleared || keeps_painted(row)
                &&& cleared ==> is_blank_line(
                    screen.lines[y - buffer.area.y],
                    trailing_bg(row),
                )
            },
    ensures
        ({
            let after = screen.after_all(repaint_effects(dense_rows(buffer, start, end, cleared)));
            &&& after.well_formed()
            &&& after.area == buffer.area
            &&& forall|k: int|
                start <= k + buffer.area.y < end ==> shows_row(
                    #[trigger] after.lines[k],
                    buffer.row(k),
                )
            &&& forall|k: int|
                0 <= k < buffer.area.height && !(start <= k + buffer.area.y < end)
                    ==> #[trigger] after.lines[k] == screen.lines[k]
        }),
    decreases end - start,
{
    if start < end {
        lemma_dense_rows_shown(screen, buffer, start, end - 1, cleared);
        let front = dense_rows(buffer, start, end - 1, cleared);
        let before = screen.after_all(repaint_effects(front));
        let k = end - 1 - buffer.area.y;
        let row = screen_row(buffer, end - 1);
        let x = buffer.area.x as int;
        let part = dense_row(row, x, end - 1, cleared);
        let list = repaint_row(row, x, end - 1, cleared);
        lemma_row_bounds(buffer.area.width as int, buffer.area.height as int, k);
        lemma_repaint_concat(front, part);
        lemma_screen_concat(screen, repaint_effects(front), repaint_effects(part));
        lemma_dense_row_effects(row, x, end - 1, cleared);
        lemma_row_effects(before, list, k);
        assert(before.lines[k] == screen.lines[k]);
        law_repainted_row_is_shown(before.lines[k], row, x, end - 1, cleared);
        lemma_apply_len(before.lines[k], x, list);
        let after = screen.after_all(repaint_effects(dense_rows(buffer, start, end, cleared)));
        assert forall|i: int| start <= i + buffer.area.y < end implies shows_row(
            #[trigger] after.lines[i],
            buffer.row(i),
        ) by {
            if i != k {
                assert(after.lines[i] == before.lines[i]);
            }
        }
    } else {
        assert(repaint_effects(dense_rows(buffer, start, end, cleared)) =~= seq![]);
    }
}

/// The line is blank in one background colour.
pub open spec fn is_blank_line(line: Seq<Slot>, bg: Color) -> bool {
    forall|j: int|
        0 <= j < line.len() ==> #[trigger] line[j] == (Slot { look: blank(bg), offset: 0 })
}

/// What is written for a repaint makes its rows show the buffer, whatever the screen showed
/// before, and leaves the other rows as they are; the pen is plain before and after.
///
/// Left out are symbols without columns or of more than a `u16` can count, concealed cells, and
/// symbols that are cut.
pub proof fn law_repaint_is_shown(
    screen: Screen,
    pen: Pen,
    buffer: BufferView,
    start: int,
    end: int,
)
    requires
        screen.well_formed(),
        screen.area == buffer.area,
        pen.is_plain(),
        buffer.well_formed(),
        buffer.area.bounded(),
        buffer.area.width > 0,
        buffer.area.y <= start < end <= buffer.area.y + buffer.area.height,
        can_repaint(buffer, start, end),
        parts_reach_modifiers(dense_commands(buffer, start, end)),
    ensures
        ({
            let ops = dense_ops(dense_commands(buffer, start, end));
            let after = screen.after_all(pen.all_effects(ops));
            &&& pen.after_all(ops).is_plain()
            &&& after.well_formed()
            &&& after.area == buffer.area
            &&& forall|k: int|
                start <= k + buffer.area.y < end ==> shows_row(
                    #[trigger] after.lines[k],
                    buffer.row(k),
                )
            &&& forall|k: int|
                0 <= k < buffer.area.height && !(start <= k + buffer.area.y < end)
                    ==> #[trigger] after.lines[k] == screen.lines[k]
        }),
{
    let list = dense_commands(buffer, start, end);
    lemma_repaint_follows(buffer, start, end);
    law_repaint_effects(pen, list);
    match clear_down_bg(buffer, start, end) {
        None => {
            lemma_dense_rows_shown(screen, buffer, start, end, false);
        },
        Some(bg) => {
            let first = list[0];
            let rows = dense_rows(buffer, start, end, true);
            assert(list == seq![first] + rows);
            lemma_repaint_concat(seq![first], rows);
            lemma_repaint_one(first);
            lemma_screen_concat(screen, part_effects(first), repaint_effects(rows));
            let erase = part_effects(first)[0];
            assert(part_effects(first) =~= seq![erase]);
            lemma_screen_one(screen, erase);
            let erased = screen.after(erase);
            lemma_dense_rows_shown(erased, buffer, start, end, true);
        },
    }
}

/// Nothing is written between a frame and one with the same cells but the return to plain text.
pub proof fn law_same_frame_is_silent(a: BufferView, b: BufferView)
    requires
        a.content == b.content,
    ensures
        diff_commands(a, b) == Seq::<DrawCommandView>::empty(),
        draw_ops(diff_commands(a, b)) == plain_ops(),
{
    lemma_same_rows(a, b, a.area.height as int);
    assert(draw_ops(seq![]) =~= plain_ops());
}

/// Rows with the same cells need no commands.
proof fn lemma_same_rows(a: BufferView, b: BufferView, n: int)
    requires
        a.content == b.content,
    ensures
        rows_commands(a, b, n) == Seq::<DrawCommandView>::empty(),
    decreases n,
{
    if n > 0 {
        lemma_same_rows(a, b, n - 1);
    }
}

/// An erased screen shows the buffer of nothing but empty cells.
pub proof fn law_erased_screen_is_blank(screen: Screen)
    requires
        screen.well_formed(),
        forall|k: int|
            0 <= k < screen.lines.len() ==> is_blank_line(
                #[trigger] screen.lines[k],
                Color::Reset,
            ),
    ensures
        screen.shows(BufferView::blank(screen.area)),
{
    let buffer = BufferView::blank(screen.area);
    assert forall|k: int| 0 <= k < screen.lines.len() implies shows_row(
        #[trigger] screen.lines[k],
        buffer.row(k),
    ) by {
        lemma_row_bounds(screen.area.width as int, screen.area.height as int, k);
        assert(columns(seq![' ']) == 1);
    }
}

/// The cells of a row are cells of the buffer.
proof fn lemma_row_cells(buffer: BufferView, k: int, j: int)
    requires
        buffer.well_formed(),
        0 <= k < buffer.area.height,
        0 <= j < buffer.area.width,
    ensures
        0 <= k * buffer.area.width + j < buffer.content.len(),
        buffer.row(k).len() == buffer.area.width,
        buffer.row(k)[j] == buffer.content[k * buffer.area.width + j],
{
    lemma_row_bounds(buffer.area.width as int, buffer.area.height as int, k);
}

/// The commands of a row are among those of the frame.
proof fn lemma_row_among(a: BufferView, b: BufferView, n: int, k: int, x: int, y: int)
    requires
        0 <= k < n,
        covered(
            row_commands(
                a.row(k),
                row_at(b.content, a.area.width as int, k),
                a.area.x as int,
                a.area.y + k,
            ),
            x,
            y,
        ),
    ensures
        covered(rows_commands(a, b, n), x, y),
    decreases n,
{
    let all = rows_commands(a, b, n);
    let front = rows_commands(a, b, n - 1);
    if k == n - 1 {
        let row = row_commands(
            a.row(k),
            row_at(b.content, a.area.width as int, k),
            a.area.x as int,
            a.area.y + k,
        );
        let i = choose|i: int| 0 <= i < row.len() && command_covers(#[trigger] row[i], x, y);
        assert(all[front.len() + i] == row[i]);
    } else {
        lemma_row_among(a, b, n - 1, k, x, y);
        let i = choose|i: int| 0 <= i < front.len() && command_covers(#[trigger] front[i], x, y);
        assert(all[i] == front[i]);
    }
}

/// After the screen was forgotten, the commands for the next frame repaint every one of its
/// cells, blank ones too.
pub proof fn law_forgotten_frame_is_repainted(a: BufferView, b: BufferView, k: int, j: int)
    requires
        a.well_formed(),
        b.well_formed(),
        a.area == b.area,
        a.area.addressable(),
        forall|i: int| 0 <= i < b.content.len() ==> !(#[trigger] b.content[i]).skip,
        0 <= k < b.area.height,
        0 <= j < b.area.width,
    ensures
        covered(diff_commands(a.forgotten(), b), b.area.x + j, b.area.y + k),
{
    let forgotten = a.forgotten();
    let prev = forgotten.row(k);
    let next = b.row(k);
    lemma_row_bounds(b.area.width as int, b.area.height as int, k);
    lemma_forgotten_row(a, k);
    assert forall|i: int| 0 <= i < next.len() implies !(#[trigger] next[i]).skip by {
        lemma_row_cells(b, k, i);
    }
    law_unknown_row_is_repainted(prev, next, b.area.x as int, b.area.y + k, j);
    lemma_row_among(
        forgotten,
        b,
        b.area.height as int,
        k,
        b.area.x + j,
        b.area.y + k,
    );
}

/// The rows of a forgotten frame are unknown.
proof fn lemma_forgotten_row(a: BufferView, k: int)
    requires
        a.well_formed(),
        0 <= k < a.area.height,
    ensures
        a.forgotten().row(k).len() == a.area.width,
        forall|i: int|
            0 <= i < a.forgotten().row(k).len() ==> #[trigger] a.forgotten().row(k)[i]
                == CellView::unknown(),
{
    let prev = a.forgotten().row(k);
    lemma_row_bounds(a.area.width as int, a.area.height as int, k);
    assert forall|i: int| 0 <= i < prev.len() implies #[trigger] prev[i] == CellView::unknown() by {
        lemma_row_cells(a.forgotten(), k, i);
    }
}

/// Any screen can be taken for one that shows a forgotten frame.
pub proof fn law_any_screen_is_forgotten(screen: Screen, a: BufferView)
    requires
        screen.well_formed(),
        screen.area == a.area,
        a.well_formed(),
    ensures
        screen.shows(a.forgotten()),
{
    let none: Seq<DrawCommandView> = seq![];
    assert forall|k: int| 0 <= k < screen.lines.len() implies shows_row(
        #[trigger] screen.lines[k],
        a.forgotten().row(k),
    ) by {
        lemma_forgotten_row(a, k);
        lemma_unknown_row(screen.lines[k], a.forgotten().row(k), a.forgotten().row(k), none, 0);
    }
}

/// Nothing is left behind of a screen that was forgotten when the next frame is shown on it.
pub proof fn law_forgotten_frame_is_replaced(a: BufferView, b: BufferView)
    requires
        a.well_formed(),
        forall|k: int|
            0 <= k < a.area.height ==> keeps_symbols(#[trigger] a.forgotten().row(k), b.row(k)),
    ensures
        replaces(a.forgotten(), b),
{
    let forgotten = a.forgotten();
    let line: Seq<Slot> = Seq::new(
        a.area.width as nat,
        |j: int| Slot { look: blank(Color::Reset), offset: 0 },
    );
    assert forall|k: int| 0 <= k < a.area.height implies {
        let prev = #[trigger] forgotten.row(k);
        let next = b.row(k);
        let commands = row_commands(prev, next, a.area.x as int, a.area.y + k);
        leaves_no_rest(commands, a.area.x as int, prev, next)
    } by {
        let prev = forgotten.row(k);
        let next = b.row(k);
        let commands = row_commands(prev, next, a.area.x as int, a.area.y + k);
        lemma_forgotten_row(a, k);
        lemma_unknown_row(line, prev, next, commands, a.area.x as int);
    }
}

/// Where no cell of a frame is concealed, every changed cell is shown with its modifiers.
pub proof fn law_frame_modifiers_follow(a: BufferView, b: BufferView)
    requires
        a.well_formed(),
        b.well_formed(),
        a.area == b.area,
        a.area.addressable(),
        forall|i: int|
            0 <= i < b.content.len() ==> (#[trigger] b.content[i]).modifier.bits & 0xfe80 == 0,
    ensures
        modifiers_follow(diff_commands(a, b)),
{
    lemma_rows_unconcealed(a, b, a.area.height as int);
    law_modifiers_follow(diff_commands(a, b));
}

/// The cells that are shown are cells of the new frame.
proof fn lemma_rows_unconcealed(a: BufferView, b: BufferView, n: int)
    requires
        a.well_formed(),
        b.well_formed(),
        a.area == b.area,
        a.area.addressable(),
        0 <= n <= a.area.height,
        forall|i: int|
            0 <= i < b.content.len() ==> (#[trigger] b.content[i]).modifier.bits & 0xfe80 == 0,
    ensures
        forall|i: int|
            0 <= i < rows_commands(a, b, n).len() && (#[trigger] rows_commands(
                a,
                b,
                n,
            )[i]) is Put ==> rows_commands(a, b, n)[i]->cell.modifier.bits & 0xfe80 == 0,
    decreases n,
{
    if n > 0 {
        lemma_rows_unconcealed(a, b, n - 1);
        let prev = a.row(n - 1);
        let next = b.row(n - 1);
        let x = a.area.x as int;
        let y = a.area.y + n - 1;
        let row = row_commands(prev, next, x, y);
        let all = rows_commands(a, b, n);
        let before = rows_commands(a, b, n - 1);
        let front = puts(prev, next, x, y, 0, 0, drawn_until(next));
        lemma_row_bounds(a.area.width as int, a.area.height as int, n - 1);
        lemma_puts(prev, next, x, y, 0, 0, drawn_until(next));
        assert forall|i: int| 0 <= i < all.len() && (#[trigger] all[i]) is Put implies
            all[i]->cell.modifier.bits & 0xfe80 == 0 by {
            if i < before.len() {
                assert(all[i] == before[i]);
            } else {
                let m = i - before.len();
                assert(all[i] == row[m]);
                assert(row[m] == front[m]);
                assert(shows_cell_of(front[m], x, next, 0));
                lemma_row_cells(b, n - 1, column_of(front[m], x));
            }
        }
    }
}

/// Some of the commands shows the cell in column `c` of the screen row `y`.
pub open spec fn is_put_at(
    commands: Seq<DrawCommandView>,
    x: int,
    y: int,
    c: int,
    cell: CellView,
) -> bool {
    exists|i: int|
        0 <= i < commands.len() && puts_cell(#[trigger] commands[i], x, c, cell)
            && commands[i].position().y == y
}

/// Some of the commands erases column `c` of the screen row `y`.
pub open spec fn is_cleared_at(commands: Seq<DrawCommandView>, x: int, y: int, c: int) -> bool {
    exists|i: int|
        0 <= i < commands.len() && (#[trigger] commands[i]) is ClearToEnd && column_of(
            commands[i],
            x,
        ) <= c && commands[i].position().y == y
}

/// A command takes effect before another, reading line by line.
pub open spec fn reads_before(left: DrawCommandView, right: DrawCommandView) -> bool {
    let a = left.position();
    let b = right.position();
    a.y < b.y || (a.y == b.y && a.x < b.x)
}

/// The commands of the first rows are those that are needed.
proof fn lemma_rows_needed(a: BufferView, b: BufferView, n: int)
    requires
        a.well_formed(),
        b.well_formed(),
        a.area == b.area,
        a.area.addressable(),
        0 <= n <= a.area.height,
    ensures
        ({
            let list = rows_commands(a, b, n);
            let x = a.area.x as int;
            &&& forall|i: int|
                0 <= i < list.len() ==> {
                    let k = (#[trigger] list[i]).position().y - a.area.y;
                    0 <= k < n && is_needed(list[i], a.row(k), b.row(k), x)
                }
            &&& forall|i: int, k: int|
                0 <= i < k < list.len() ==> reads_before(#[trigger] list[i], #[trigger] list[k])
            &&& forall|k: int, c: int|
                0 <= k < n && #[trigger] is_head(b.row(k), c) && !b.row(k)[c].skip && (b.row(k)[c]
                    != a.row(k)[c] || touched(a.row(k), b.row(k), c)) && (c == 0 || in_text(
                    b.row(k),
                    c,
                )) ==> is_put_at(list, x, a.area.y + k, c, b.row(k)[c])
            &&& forall|k: int, c: int|
                0 <= k < n && 0 < c < b.area.width && #[trigger] b.row(k)[c] != a.row(k)[c]
                    && !in_text(b.row(k), c) ==> is_cleared_at(list, x, a.area.y + k, c)
        }),
    decreases n,
{
    if n > 0 {
        lemma_rows_needed(a, b, n - 1);
        let front = rows_commands(a, b, n - 1);
        let list = rows_commands(a, b, n);
        let prev = a.row(n - 1);
        let next = b.row(n - 1);
        let x = a.area.x as int;
        let y = a.area.y + n - 1;
        let row = row_commands(prev, next, x, y);
        let m = front.len() as int;
        lemma_row_bounds(a.area.width as int, a.area.height as int, n - 1);
        law_row_commands_are_needed(prev, next, x, y);
        assert(list == front + row);
        assert forall|i: int| 0 <= i < list.len() implies {
            let k = (#[trigger] list[i]).position().y - a.area.y;
            0 <= k < n && is_needed(list[i], a.row(k), b.row(k), x)
        } by {
            if i < m {
                assert(list[i] == front[i]);
            } else {
                assert(list[i] == row[i - m]);
            }
        }
        assert forall|i: int, k: int| 0 <= i < k < list.len() implies reads_before(
            #[trigger] list[i],
            #[trigger] list[k],
        ) by {
            if k < m {
                assert(list[i] == front[i]);
                assert(list[k] == front[k]);
            } else {
                assert(list[k] == row[k - m]);
                if i < m {
                    assert(list[i] == front[i]);
                } else {
                    assert(list[i] == row[i - m]);
                    assert(column_of(row[i - m], x) < column_of(row[k - m], x));
                }
            }
        }
        assert forall|k: int, c: int|
            0 <= k < n && #[trigger] is_head(b.row(k), c) && !b.row(k)[c].skip && (b.row(k)[c]
                != a.row(k)[c] || touched(a.row(k), b.row(k), c)) && (c == 0 || in_text(
                b.row(k),
                c,
            )) implies is_put_at(list, x, a.area.y + k, c, b.row(k)[c]) by {
            let cell = b.row(k)[c];
            if k < n - 1 {
                assert(is_put_at(front, x, a.area.y + k, c, cell));
                let i = choose|i: int|
                    0 <= i < front.len() && puts_cell(#[trigger] front[i], x, c, cell)
                        && front[i].position().y == a.area.y + k;
                assert(list[i] == front[i]);
            } else {
                assert(is_put(row, x, c, cell));
                let i = choose|i: int|
                    0 <= i < row.len() && puts_cell(#[trigger] row[i], x, c, cell);
                assert(list[m + i] == row[i]);
            }
        }
        assert forall|k: int, c: int|
            0 <= k < n && 0 < c < b.area.width && #[trigger] b.row(k)[c] != a.row(k)[c]
                && !in_text(b.row(k), c) implies is_cleared_at(list, x, a.area.y + k, c) by {
            if k < n - 1 {
                assert(is_cleared_at(front, x, a.area.y + k, c));
                let i = choose|i: int|
                    0 <= i < front.len() && (#[trigger] front[i]) is ClearToEnd && column_of(
                        front[i],
                        x,
                    ) <= c && front[i].position().y == a.area.y + k;
                assert(list[i] == front[i]);
            } else {
                assert(is_cleared(row, x, c));
                let i = choose|i: int|
                    0 <= i < row.len() && (#[trigger] row[i]) is ClearToEnd && column_of(row[i], x)
                        <= c;
                assert(list[m + i] == row[i]);
            }
        }
    }
}

/// The commands between two frames are those that are needed, each once, line by line from left
/// to right: every command stands in a row of the frame and is needed there; a symbol that
/// differs, or that an old symbol reached, is shown where its row has text; and a cell that
/// differs behind the text of its row is erased.
pub proof fn law_diff_commands_are_needed(a: BufferView, b: BufferView)
    requires
        a.well_formed(),
        b.well_formed(),
        a.area == b.area,
        a.area.addressable(),
    ensures
        ({
            let list = diff_commands(a, b);
            let x = a.area.x as int;
            &&& forall|i: int|
                0 <= i < list.len() ==> {
                    let k = (#[trigger] list[i]).position().y - a.area.y;
                    0 <= k < a.area.height && is_needed(list[i], a.row(k), b.row(k), x)
                }
            &&& forall|i: int, k: int|
                0 <= i < k < list.len() ==> reads_before(#[trigger] list[i], #[trigger] list[k])
            &&& forall|k: int, c: int|
                0 <= k < a.area.height && #[trigger] is_head(b.row(k), c) && !b.row(k)[c].skip && (
                b.row(k)[c] != a.row(k)[c] || touched(a.row(k), b.row(k), c)) && (c == 0
                    || in_text(b.row(k), c)) ==> is_put_at(
                    list,
                    x,
                    a.area.y + k,
                    c,
                    b.row(k)[c],
                )
            &&& forall|k: int, c: int|
                0 <= k < a.area.height && 0 < c < b.area.width && #[trigger] b.row(k)[c] != a.row(
                    k,
                )[c] && !in_text(b.row(k), c) ==> is_cleared_at(list, x, a.area.y + k, c)
        }),
{
    lemma_rows_needed(a, b, a.area.height as int);
}

/// A frame in which every symbol shows and no cell is concealed, and in which the cells that a
/// symbol covers are spaces, all alike.
pub open spec fn is_neat(frame: BufferView) -> bool {
    &&& frame.well_formed()
    &&& forall|k: int|
        0 <= k < frame.area.height ==> all_shown(#[trigger] frame.row(k)) && covers_alike(
            frame.row(k),
        )
    &&& forall|i: int|
        0 <= i < frame.content.len() ==> (#[trigger] frame.content[i]).modifier.bits & 0xfe80 == 0
}

/// A screen that shows a frame shows the next one after what is written between the two, and
/// the pen is plain before and after, whatever the frames' colours and modifiers: the new frame
/// is neat, and covered cells of the old one that stay are spaces in the style of their symbols.
pub proof fn law_neat_frame_is_shown(screen: Screen, pen: Pen, a: BufferView, b: BufferView)
    requires
        screen.shows(a),
        pen.is_plain(),
        a.well_formed(),
        a.area == b.area,
        a.area.addressable(),
        is_neat(b),
        forall|k: int| 0 <= k < a.area.height ==> tidy(#[trigger] a.row(k), b.row(k)),
    ensures
        screen.after_all(pen.all_effects(draw_ops(diff_commands(a, b)))).shows(b),
        pen.after_all(draw_ops(diff_commands(a, b))).is_plain(),
{
    let x = a.area.x as int;
    assert forall|k: int| 0 <= k < a.area.height implies {
        let prev = #[trigger] a.row(k);
        let next = b.row(k);
        &&& leaves_no_rest(row_commands(prev, next, x, a.area.y + k), x, prev, next)
        &&& keeps_symbols(prev, next)
    } by {
        let prev = a.row(k);
        let next = b.row(k);
        lemma_row_bounds(a.area.width as int, a.area.height as int, k);
        assert(all_shown(next) && covers_alike(next));
        lemma_neat_row(prev, next, x, a.area.y + k);
    }
    assert forall|k: int| 0 <= k < b.area.height implies visible(#[trigger] b.row(k)) by {
        assert(all_shown(b.row(k)));
    }
    law_cursor_follows(a, b);
    law_frame_modifiers_follow(a, b);
    law_frame_is_shown(screen, pen, a, b);
}

/// What is written for a repaint makes its rows show the buffer, whatever the screen showed
/// before and whatever the colours and modifiers of the rows, and leaves the other rows as they
/// are; the pen is plain before and after. In the rows every symbol has columns that can be
/// counted, covered cells are spaces, all alike, and no cell is concealed.
pub proof fn law_neat_repaint_is_shown(
    screen: Screen,
    pen: Pen,
    buffer: BufferView,
    start: int,
    end: int,
)
    requires
        screen.well_formed(),
        screen.area == buffer.area,
        pen.is_plain(),
        buffer.well_formed(),
        buffer.area.bounded(),
        buffer.area.width > 0,
        buffer.area.y <= start < end <= buffer.area.y + buffer.area.height,
        forall|k: int|
            start <= k + buffer.area.y < end ==> is_measured(#[trigger] buffer.row(k))
                && covers_alike(buffer.row(k)),
        forall|i: int|
            0 <= i < buffer.content.len() ==> (#[trigger] buffer.content[i]).modifier.bits & 0xfe80
                == 0,
    ensures
        ({
            let ops = dense_ops(dense_commands(buffer, start, end));
            let after = screen.after_all(pen.all_effects(ops));
            &&& pen.after_all(ops).is_plain()
            &&& after.well_formed()
            &&& after.area == buffer.area
            &&& forall|k: int|
                start <= k + buffer.area.y < end ==> shows_row(
                    #[trigger] after.lines[k],
                    buffer.row(k),
                )
            &&& forall|k: int|
                0 <= k < buffer.area.height && !(start <= k + buffer.area.y < end)
                    ==> #[trigger] after.lines[k] == screen.lines[k]
        }),
{
    assert forall|y: int| start <= y < end implies is_measured(#[trigger] screen_row(buffer, y))
        && covers_alike(screen_row(buffer, y)) by {
        assert(is_measured(buffer.row(y - buffer.area.y)));
    }
    lemma_neat_repaint(buffer, start, end);
    law_repaint_modifiers_follow(buffer, start, end);
    law_repaint_is_shown(screen, pen, buffer, start, end);
}

/// A change leaves the line of the screen row `y` alone.
pub open spec fn leaves_line(effect: Effect, y: int) -> bool {
    match effect {
        Effect::Show { y: row, .. } => row != y,
        Effect::Erase { y: row, clear_type: ClearType::UntilNewLine, .. } => row != y,
        Effect::Erase { y: row, clear_type: ClearType::FromCursorDown, .. } => y < row,
        Effect::Erase { clear_type: ClearType::Purge, .. } => true,
    }
}

/// Changes elsewhere leave a line alone.
proof fn lemma_line_stays(screen: Screen, effects: Seq<Effect>, k: int)
    requires
        0 <= k < screen.lines.len(),
        forall|i: int|
            0 <= i < effects.len() ==> leaves_line(#[trigger] effects[i], screen.area.y + k),
    ensures
        ({
            let after = screen.after_all(effects);
            &&& after.area == screen.area
            &&& after.lines.len() == screen.lines.len()
            &&& after.lines[k] == screen.lines[k]
        }),
    decreases effects.len(),
{
    if effects.len() > 0 {
        let front = effects.drop_last();
        assert forall|i: int| 0 <= i < front.len() implies leaves_line(
            #[trigger] front[i],
            screen.area.y + k,
        ) by {
            assert(front[i] == effects[i]);
        }
        lemma_line_stays(screen, front, k);
        assert(leaves_line(effects[effects.len() - 1], screen.area.y + k));
    }
}

/// A repaint touches nothing above its rows, and nothing below them unless it erases down to the
/// end of the buffer, on a screen of any size: rows of history above the viewport stay.
pub proof fn law_repaint_stays_in_rows(
    screen: Screen,
    buffer: BufferView,
    start: int,
    end: int,
    k: int,
)
    requires
        0 <= k < screen.lines.len(),
        buffer.well_formed(),
        buffer.area.bounded(),
        buffer.area.y <= start < end <= buffer.area.y + buffer.area.height,
        forall|j: int|
            start <= j + buffer.area.y < end ==> is_measured(#[trigger] buffer.row(j)),
        screen.area.y + k < start || (end <= screen.area.y + k && !can_clear_down(
            buffer,
            start,
            end,
        )),
    ensures
        screen.after_all(repaint_effects(dense_commands(buffer, start, end))).lines[k]
            == screen.lines[k],
{
    assert forall|y: int| start <= y < end implies is_measured(
        #[trigger] screen_row(buffer, y),
    ) by {
        assert(is_measured(buffer.row(y - buffer.area.y)));
    }
    law_repaint_is_exact(buffer, start, end);
    let cleared = can_clear_down(buffer, start, end);
    let rows = repaint_rows(buffer, start, end, cleared);
    let effects = repaint_effects(dense_commands(buffer, start, end));
    let n: int = if cleared {
        1
    } else {
        0
    };
    assert forall|i: int| 0 <= i < effects.len() implies leaves_line(
        #[trigger] effects[i],
        screen.area.y + k,
    ) by {
        if i >= n {
            assert(effects[i] == effects_of(rows)[i - n]);
            assert(effects[i] == effect_of(rows[i - n]));
            assert(start <= rows[i - n].position().y < end);
        }
    }
    lemma_line_stays(screen, effects, k);
}

/// Commands between two frames touch nothing outside the rows of the frames, on a screen of any
/// size.
pub proof fn law_diff_stays_in_rows(screen: Screen, a: BufferView, b: BufferView, k: int)
    requires
        0 <= k < screen.lines.len(),
        a.well_formed(),
        b.well_formed(),
        a.area == b.area,
        a.area.addressable(),
        screen.area.y + k < a.area.y || a.area.y + a.area.height <= screen.area.y + k,
    ensures
        screen.after_all(effects_of(diff_commands(a, b))).lines[k] == screen.lines[k],
{
    law_diff_commands_are_needed(a, b);
    let list = diff_commands(a, b);
    let effects = effects_of(list);
    assert forall|i: int| 0 <= i < effects.len() implies leaves_line(
        #[trigger] effects[i],
        screen.area.y + k,
    ) by {
        assert(effects[i] == effect_of(list[i]));
        let row = list[i].position().y - a.area.y;
        assert(0 <= row < a.area.height);
    }
    lemma_line_stays(screen, effects, k);
}

} // verus!
