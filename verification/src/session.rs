//! What holds of a terminal over the steps of its operations.

use crate::buffer::{is_vacant, lemma_row_bounds, BufferView};
use crate::dense::{dense_commands, dense_ops, end_row, first_row, paints};
use crate::device::{is_emptied, is_forgotten};
use crate::diff::{diff_commands, DrawCommandView};
use crate::display::{
    is_blank_line, is_neat, law_any_screen_is_forgotten, law_erased_screen_is_blank,
    law_forgotten_frame_is_repainted, law_frame_is_shown, law_neat_frame_is_shown,
    law_neat_repaint_is_shown, law_repaint_is_shown, replaces, Screen,
};
use crate::draw::draw_ops;
use crate::geometry::{Position, Rect, Size};
use crate::ops::Op;
use crate::pen::{cursor_follows, modifiers_follow, Pen};
use crate::repaint::{
    can_repaint, is_measured, law_last_shown_cell_is_noted, parts_reach_modifiers, shows_at,
};
use crate::screen::{covered, covers_alike, shows_row, tidy};
use crate::style::Color;
use crate::terminal::{
    bare_step, clear_after_position_steps, clear_scrollback_steps, clear_visible_screen_steps,
    cursor_steps, dense_frame_ops, dense_frame_updates, draws, home, last_put, reaches_all,
    reset_screen_steps, swap_of, CallView, FrameCursor, FrameFlush, StepView, TerminalView, Update,
};
use std::ops::Range;
use vstd::prelude::*;

verus! {

/// A terminal in order stays so, whatever changes.
pub proof fn law_updates_keep_order(view: TerminalView, updates: Seq<Update>)
    requires
        view.well_formed(),
    ensures
        view.all_updated(updates).well_formed(),
    decreases updates.len(),
{
    if updates.len() > 0 {
        law_updates_keep_order(view, updates.drop_last());
    }
}

/// A terminal in order stays so, however many of the steps of an operation succeed: the frames
/// stay whole and the history fits above the viewport.
pub proof fn law_steps_keep_order(view: TerminalView, steps: Seq<StepView>)
    requires
        view.well_formed(),
    ensures
        view.completed(steps).well_formed(),
    decreases steps.len(),
{
    if steps.len() > 0 {
        law_steps_keep_order(view, steps.drop_last());
        law_updates_keep_order(view.completed(steps.drop_last()), steps.last().updates);
    }
}

/// The first of changes apart.
proof fn lemma_first_update(view: TerminalView, updates: Seq<Update>)
    requires
        updates.len() > 0,
    ensures
        view.all_updated(updates) == view.updated(updates[0]).all_updated(updates.skip(1)),
    decreases updates.len(),
{
    reveal_with_fuel(TerminalView::all_updated, 3);
    if updates.len() == 1 {
        assert(updates.drop_last() =~= seq![]);
        assert(updates.skip(1) =~= seq![]);
    } else {
        lemma_first_update(view, updates.drop_last());
        assert(updates.drop_last().skip(1) =~= updates.skip(1).drop_last());
    }
}

/// The first of steps apart.
pub proof fn lemma_first_step(view: TerminalView, steps: Seq<StepView>)
    requires
        steps.len() > 0,
    ensures
        view.completed(steps) == view.all_updated(steps[0].updates).completed(steps.skip(1)),
    decreases steps.len(),
{
    reveal_with_fuel(TerminalView::completed, 3);
    if steps.len() == 1 {
        assert(steps.drop_last() =~= seq![]);
        assert(steps.skip(1) =~= seq![]);
    } else {
        lemma_first_step(view, steps.drop_last());
        assert(steps.drop_last().skip(1) =~= steps.skip(1).drop_last());
    }
}

/// Few changes, one after the other.
pub proof fn lemma_few_updates(view: TerminalView, a: Update, b: Update, c: Update)
    ensures
        view.all_updated(seq![]) == view,
        view.all_updated(seq![a]) == view.updated(a),
        view.all_updated(seq![a, b]) == view.updated(a).updated(b),
        view.all_updated(seq![a, b, c]) == view.updated(a).updated(b).updated(c),
{
    reveal_with_fuel(TerminalView::all_updated, 5);
    let none: Seq<Update> = seq![];
    assert(seq![a].drop_last() =~= none);
    assert(seq![a, b].drop_last() =~= seq![a]);
    assert(seq![a, b, c].drop_last() =~= seq![a, b]);
}

/// Few steps, one after the other.
pub proof fn lemma_few_steps(view: TerminalView, a: StepView, b: StepView, c: StepView, d: StepView)
    ensures
        view.completed(seq![]) == view,
        view.completed(seq![a]) == view.all_updated(a.updates),
        view.completed(seq![a, b]) == view.all_updated(a.updates).all_updated(b.updates),
        view.completed(seq![a, b, c]) == view.all_updated(a.updates).all_updated(
            b.updates,
        ).all_updated(c.updates),
        view.completed(seq![a, b, c, d]) == view.all_updated(a.updates).all_updated(
            b.updates,
        ).all_updated(c.updates).all_updated(d.updates),
{
    reveal_with_fuel(TerminalView::completed, 6);
    let none: Seq<StepView> = seq![];
    assert(seq![a].drop_last() =~= none);
    assert(seq![a, b].drop_last() =~= seq![a]);
    assert(seq![a, b, c].drop_last() =~= seq![a, b]);
    assert(seq![a, b, c, d].drop_last() =~= seq![a, b, c]);
}

/// Changes are made one after the other: those of two lists are made first the one and then the
/// other. So it is with steps, each of which makes its changes.
pub proof fn law_changes_follow_each_other(
    view: TerminalView,
    updates: Seq<Update>,
    more: Seq<Update>,
    steps: Seq<StepView>,
    rest: Seq<StepView>,
    step: StepView,
)
    ensures
        view.all_updated(updates + more) == view.all_updated(updates).all_updated(more),
        view.completed(steps + rest) == view.completed(steps).completed(rest),
        view.completed(seq![step]) == view.all_updated(step.updates),
        view.completed(seq![]) == view,
        view.all_updated(seq![]) == view,
    decreases more.len() + rest.len(),
{
    lemma_few_steps(view, step, step, step, step);
    lemma_few_updates(view, Update::Swapped, Update::Swapped, Update::Swapped);
    if more.len() > 0 {
        law_changes_follow_each_other(view, updates, more.drop_last(), steps, rest, step);
        assert((updates + more).drop_last() =~= updates + more.drop_last());
    } else {
        assert(updates + more =~= updates);
    }
    if rest.len() > 0 {
        law_changes_follow_each_other(view, updates, more, steps, rest.drop_last(), step);
        assert((steps + rest).drop_last() =~= steps + rest.drop_last());
    } else {
        assert(steps + rest =~= steps);
    }
}

/// Erasing the screen from a position on changes what is known of the screen, and that only once
/// everything has succeeded: the screen shows empty cells if all of the viewport was erased, and
/// is to be repainted otherwise.
pub proof fn law_clear_after_position(view: TerminalView, position: Position, n: int)
    requires
        0 <= n <= clear_after_position_steps(position, view.viewport_area).len(),
    ensures
        view.completed(clear_after_position_steps(position, view.viewport_area).take(n)) == (if n
            < clear_after_position_steps(position, view.viewport_area).len() {
            view
        } else if reaches_all(position, view.viewport_area) {
            view.updated(Update::PreviousReset)
        } else {
            view.updated(Update::PreviousForgotten)
        }),
{
    let all = clear_after_position_steps(position, view.viewport_area);
    let update = all[1].updates[0];
    lemma_few_steps(view, all[0], all[1], all[0], all[0]);
    lemma_few_updates(view, update, update, update);
    if n == 0 {
        assert(all.take(n) =~= seq![]);
    } else if n == 1 {
        assert(all.take(n) =~= seq![all[0]]);
    } else {
        assert(all.take(n) =~= seq![all[0], all[1]]);
    }
}

/// Erasing what has scrolled off the screen moves the cursor to the top left, and once
/// everything has succeeded the viewport is to be repainted. The history stays.
pub proof fn law_clear_scrollback(view: TerminalView, n: int)
    requires
        0 <= n <= clear_scrollback_steps().len(),
    ensures
        ({
            let moved = if n > 0 {
                view.updated(Update::CursorAt(home()))
            } else {
                view
            };
            view.completed(clear_scrollback_steps().take(n)) == (if n
                == clear_scrollback_steps().len() {
                moved.updated(Update::PreviousForgotten)
            } else {
                moved
            })
        }),
{
    let all = clear_scrollback_steps();
    let at = Update::CursorAt(home());
    lemma_taken(view, all, n);
    lemma_few_updates(view, at, at, at);
    lemma_few_updates(view.updated(at), at, at, at);
    lemma_few_updates(view.updated(at), Update::PreviousForgotten, at, at);
}

/// The first of four steps.
proof fn lemma_taken(view: TerminalView, all: Seq<StepView>, n: int)
    requires
        all.len() == 4,
        0 <= n <= 4,
    ensures
        n == 0 ==> view.completed(all.take(n)) == view,
        n == 1 ==> view.completed(all.take(n)) == view.all_updated(all[0].updates),
        n == 2 ==> view.completed(all.take(n)) == view.all_updated(all[0].updates).all_updated(
            all[1].updates,
        ),
        n == 3 ==> view.completed(all.take(n)) == view.all_updated(all[0].updates).all_updated(
            all[1].updates,
        ).all_updated(all[2].updates),
        n == 4 ==> view.completed(all.take(n)) == view.all_updated(all[0].updates).all_updated(
            all[1].updates,
        ).all_updated(all[2].updates).all_updated(all[3].updates),
{
    lemma_few_steps(view, all[0], all[1], all[2], all[3]);
    if n == 0 {
        assert(all.take(n) =~= seq![]);
    } else if n == 1 {
        assert(all.take(n) =~= seq![all[0]]);
    } else if n == 2 {
        assert(all.take(n) =~= seq![all[0], all[1]]);
    } else if n == 3 {
        assert(all.take(n) =~= seq![all[0], all[1], all[2]]);
    } else {
        assert(all.take(n) =~= seq![all[0], all[1], all[2], all[3]]);
    }
}

/// Erasing the screen moves the cursor to the top left, and once everything has succeeded the
/// screen shows empty cells and the history is gone.
pub proof fn law_clear_visible_screen(view: TerminalView, n: int)
    requires
        0 <= n <= clear_visible_screen_steps().len(),
    ensures
        ({
            let moved = if n > 0 {
                view.updated(Update::CursorAt(home()))
            } else {
                view
            };
            view.completed(clear_visible_screen_steps().take(n)) == (if n
                == clear_visible_screen_steps().len() {
                moved.updated(Update::HistoryGone).updated(Update::PreviousReset)
            } else {
                moved
            })
        }),
{
    let all = clear_visible_screen_steps();
    let at = Update::CursorAt(home());
    lemma_taken(view, all, n);
    lemma_few_updates(view, at, at, at);
    lemma_few_updates(view.updated(at), at, at, at);
    lemma_few_updates(view.updated(at), Update::HistoryGone, Update::PreviousReset, at);
}

/// Erasing the screen and what has scrolled off it in one go changes nothing until everything
/// has succeeded: then the cursor is at the top left, the screen shows empty cells and the
/// history is gone.
pub proof fn law_reset_screen(view: TerminalView, n: int)
    requires
        0 <= n <= reset_screen_steps().len(),
    ensures
        view.completed(reset_screen_steps().take(n)) == (if n == reset_screen_steps().len() {
            view.updated(Update::CursorAt(home())).updated(Update::HistoryGone).updated(
                Update::PreviousReset,
            )
        } else {
            view
        }),
{
    let all = reset_screen_steps();
    lemma_few_steps(view, all[0], all[1], all[0], all[0]);
    lemma_few_updates(
        view,
        Update::CursorAt(home()),
        Update::HistoryGone,
        Update::PreviousReset,
    );
    if n == 0 {
        assert(all.take(n) =~= seq![]);
    } else if n == 1 {
        assert(all.take(n) =~= seq![all[0]]);
    } else {
        assert(all.take(n) =~= seq![all[0], all[1]]);
    }
}

/// Once a terminal was resized, the frames and the viewport have the size of the screen, which
/// shows empty cells.
pub proof fn law_resize(view: TerminalView, screen_size: Size)
    ensures
        ({
            let resized = view.with_screen(screen_size);
            let after = resized.completed(clear_visible_screen_steps());
            let area = Rect { x: 0, y: 0, width: screen_size.width, height: screen_size.height };
            &&& after.screen_size == screen_size
            &&& after.viewport_area == area
            &&& after.current.area == area
            &&& after.previous == BufferView::blank(area)
            &&& after.well_formed()
        }),
{
    let resized = view.with_screen(screen_size);
    let steps = clear_visible_screen_steps();
    assert(steps.take(steps.len() as int) =~= steps);
    law_clear_visible_screen(resized, steps.len() as int);
    assert(resized.previous.cleared() =~= BufferView::blank(resized.viewport_area));
}

/// Writing rows of a frame tells at most where the cursor is.
proof fn lemma_frame_updates(view: TerminalView, flush: FrameFlush)
    ensures
        ({
            let before = view.before_frame(flush);
            let after = before.all_updated(view.frame_updates(flush));
            after == (TerminalView { cursor_position: after.cursor_position, ..view })
        }),
{
    let before = view.before_frame(flush);
    let moved = view.frame_updates(flush);
    if moved.len() > 0 {
        lemma_few_updates(before, moved[0], moved[0], moved[0]);
        assert(moved =~= seq![moved[0]]);
    } else {
        assert(moved =~= seq![]);
        lemma_few_updates(before, Update::HistoryGone, Update::HistoryGone, Update::HistoryGone);
    }
}

/// Once a frame is drawn, it is the one that the screen shows, the other frame is drawn next,
/// emptied unless only rows were written on a screen that was known, and the cursor is as the
/// frame wants it. Nothing else changes.
pub proof fn law_frame_is_drawn(
    view: TerminalView,
    flush: FrameFlush,
    cursor: FrameCursor,
    ops: Seq<Op>,
    steps: Seq<StepView>,
)
    requires
        draws(steps, ops, view.frame_updates(flush), cursor, swap_of(flush)),
    ensures
        ({
            let after = view.before_frame(flush).completed(steps);
            &&& after == (TerminalView {
                previous: view.current,
                current: match flush {
                    FrameFlush::Sparse => view.previous.cleared(),
                    FrameFlush::Dense(_) => if view.previous_unknown {
                        view.previous.cleared()
                    } else {
                        view.previous
                    },
                },
                previous_unknown: false,
                hidden_cursor: cursor.position is None,
                cursor_position: after.cursor_position,
                ..view
            })
            &&& cursor.position matches Some(position) ==> after.cursor_position == position
        }),
{
    let before = view.before_frame(flush);
    let swap = swap_of(flush);
    lemma_first_step(before, steps);
    lemma_frame_updates(view, flush);
    let moved = before.all_updated(view.frame_updates(flush));
    let rest = steps.skip(1);
    let last = bare_step(CallView::FlushBackend);
    match cursor.position {
        None => {
            let hide = cursor_steps(cursor, swap)[0];
            assert(rest =~= seq![hide, last]);
            lemma_few_steps(moved, hide, last, last, last);
            lemma_few_updates(moved, Update::CursorHidden(true), swap, swap);
            lemma_few_updates(moved.all_updated(hide.updates), swap, swap, swap);
        },
        Some(position) => {
            let all = cursor_steps(cursor, swap);
            assert(rest =~= seq![all[0], all[1], all[2], last]);
            lemma_few_steps(moved, all[0], all[1], all[2], last);
            lemma_few_updates(moved, Update::CursorHidden(false), swap, swap);
            let shown = moved.updated(Update::CursorHidden(false));
            lemma_few_updates(shown, Update::CursorAt(position), swap, swap);
            lemma_few_updates(shown.all_updated(all[2].updates), swap, swap, swap);
        },
    }
}

/// While a frame is not drawn and the cursor not as the frame wants it, the frames stay as they
/// are: one that could not be drawn can be drawn again.
pub proof fn law_frames_stay_until_drawn(
    view: TerminalView,
    flush: FrameFlush,
    cursor: FrameCursor,
    ops: Seq<Op>,
    steps: Seq<StepView>,
    n: int,
)
    requires
        draws(steps, ops, view.frame_updates(flush), cursor, swap_of(flush)),
        0 <= n <= steps.len() - 2,
    ensures
        ({
            let after = view.before_frame(flush).completed(steps.take(n));
            after == (TerminalView {
                hidden_cursor: after.hidden_cursor,
                cursor_position: after.cursor_position,
                ..view
            })
        }),
{
    let before = view.before_frame(flush);
    let swap = swap_of(flush);
    let taken = steps.take(n);
    if n == 0 {
        lemma_few_steps(before, steps[0], steps[0], steps[0], steps[0]);
        assert(taken =~= seq![]);
    } else {
        lemma_first_step(before, taken);
        lemma_frame_updates(view, flush);
        let moved = before.all_updated(view.frame_updates(flush));
        let rest = taken.skip(1);
        let all = cursor_steps(cursor, swap);
        let more = steps.skip(1);
        assert(more == all.push(bare_step(CallView::FlushBackend)));
        assert(more.len() == steps.len() - 1);
        assert(rest =~= more.take(n - 1));
        assert(more.take(n - 1) =~= all.take(n - 1));
        lemma_few_updates(moved, Update::CursorHidden(false), swap, swap);
        if cursor.position is None || n == 1 {
            assert(rest =~= seq![]);
            lemma_few_steps(moved, all[0], all[0], all[0], all[0]);
        } else if n == 2 {
            assert(rest =~= seq![all[0]]);
            lemma_few_steps(moved, all[0], all[0], all[0], all[0]);
        } else {
            assert(rest =~= seq![all[0], all[1]]);
            lemma_few_steps(moved, all[0], all[1], all[1], all[1]);
        }
    }
}

/// The screen keeps showing the previous frame: where it does so before a frame is drawn, it
/// does so afterwards, when the frame that was drawn is the previous one.
pub proof fn law_screen_shows_previous(
    screen: Screen,
    pen: Pen,
    view: TerminalView,
    cursor: FrameCursor,
    steps: Seq<StepView>,
)
    requires
        view.has_whole_frames(),
        view.previous.area.addressable(),
        screen.shows(view.previous),
        pen.is_plain(),
        draws(
            steps,
            view.frame_ops(FrameFlush::Sparse),
            view.frame_updates(FrameFlush::Sparse),
            cursor,
            Update::Swapped,
        ),
        replaces(view.previous, view.current),
        cursor_follows(diff_commands(view.previous, view.current)),
        modifiers_follow(diff_commands(view.previous, view.current)),
    ensures
        ({
            let ops = view.frame_ops(FrameFlush::Sparse);
            let after = view.before_frame(FrameFlush::Sparse).completed(steps);
            &&& screen.after_all(pen.all_effects(ops)).shows(after.previous)
            &&& pen.after_all(ops).is_plain()
        }),
{
    law_frame_is_drawn(
        view,
        FrameFlush::Sparse,
        cursor,
        view.frame_ops(FrameFlush::Sparse),
        steps,
    );
    law_frame_is_shown(screen, pen, view.previous, view.current);
}

/// An erased screen shows the previous frame of a terminal that has forgotten it, so that the
/// next frame can be drawn.
pub proof fn law_erased_screen_shows_previous(screen: Screen, view: TerminalView)
    requires
        view.well_formed(),
        screen.well_formed(),
        screen.area == view.previous.area,
        forall|k: int|
            0 <= k < screen.lines.len() ==> is_blank_line(
                #[trigger] screen.lines[k],
                Color::Reset,
            ),
    ensures
        screen.shows(view.updated(Update::PreviousReset).previous),
{
    law_erased_screen_is_blank(screen);
    assert(view.previous.cleared() =~= BufferView::blank(screen.area));
}

/// The screen keeps showing the previous frame also where only rows of a frame are written,
/// as long as the other rows are those of the frame before.
pub proof fn law_screen_shows_previous_rows(
    screen: Screen,
    pen: Pen,
    view: TerminalView,
    rows: Range<u16>,
    cursor: FrameCursor,
    steps: Seq<StepView>,
)
    requires
        view.has_whole_frames(),
        view.current.area.bounded(),
        screen.shows(view.previous),
        pen.is_plain(),
        draws(
            steps,
            view.frame_ops(FrameFlush::Dense(rows)),
            view.frame_updates(FrameFlush::Dense(rows)),
            cursor,
            Update::SwappedAfterDenseRows,
        ),
        paints(view.current, rows),
        can_repaint(
            view.current,
            first_row(view.current, rows),
            end_row(view.current, rows),
        ),
        parts_reach_modifiers(
            dense_commands(
                view.current,
                first_row(view.current, rows),
                end_row(view.current, rows),
            ),
        ),
        forall|k: int|
            0 <= k < view.current.area.height && !(first_row(view.current, rows) <= k
                + view.current.area.y < end_row(view.current, rows)) ==> #[trigger]
            view.current.row(k) == view.previous.row(k),
    ensures
        ({
            let ops = view.frame_ops(FrameFlush::Dense(rows));
            let after = view.before_frame(FrameFlush::Dense(rows)).completed(steps);
            &&& screen.after_all(pen.all_effects(ops)).shows(after.previous)
            &&& pen.after_all(ops).is_plain()
        }),
{
    let start = first_row(view.current, rows);
    let end = end_row(view.current, rows);
    let ops = view.frame_ops(FrameFlush::Dense(rows));
    law_frame_is_drawn(view, FrameFlush::Dense(rows), cursor, ops, steps);
    law_repaint_is_shown(screen, pen, view.current, start, end);
    let shown = screen.after_all(pen.all_effects(ops));
    assert forall|k: int| 0 <= k < shown.lines.len() implies shows_row(
        #[trigger] shown.lines[k],
        view.current.row(k),
    ) by {
        if !(start <= k + view.current.area.y < end) {
            assert(shown.lines[k] == screen.lines[k]);
            assert(shows_row(screen.lines[k], view.previous.row(k)));
        }
    }
}

/// After the viewport was invalidated, the next frame repaints all of it: every cell of the frame
/// is shown or erased, blank ones too.
pub proof fn law_invalidated_viewport_is_repainted(
    view: TerminalView,
    frame: BufferView,
    k: int,
    j: int,
)
    requires
        view.previous.well_formed(),
        view.previous.area.addressable(),
        frame.well_formed(),
        frame.area == view.previous.area,
        forall|i: int| 0 <= i < frame.content.len() ==> !(#[trigger] frame.content[i]).skip,
        0 <= k < frame.area.height,
        0 <= j < frame.area.width,
    ensures
        covered(
            diff_commands(view.updated(Update::PreviousForgotten).previous, frame),
            frame.area.x + j,
            frame.area.y + k,
        ),
{
    law_forgotten_frame_is_repainted(view.previous, frame, k, j);
}

/// A screen shows what is known of it once the viewport was invalidated, whatever it shows: so
/// the next frame can be drawn on it.
pub proof fn law_invalidated_screen_shows_previous(screen: Screen, view: TerminalView)
    requires
        view.previous.well_formed(),
        screen.well_formed(),
        screen.area == view.previous.area,
    ensures
        screen.shows(view.updated(Update::PreviousForgotten).previous),
{
    law_any_screen_is_forgotten(screen, view.previous);
}

/// A new terminal has no cells and no history, shows its cursor, and notes the size of the screen
/// and where the cursor is. Its viewport starts at the left of the cursor's row.
pub proof fn law_new_terminal(screen_size: Size, cursor_position: Position)
    ensures
        ({
            let view = TerminalView::new(screen_size, cursor_position);
            &&& view.current.content.len() == 0
            &&& view.previous.content.len() == 0
            &&& view.current.area == view.previous.area
            &&& view.current.area.width == 0 && view.current.area.height == 0
            &&& view.viewport_area.x == 0
            &&& view.viewport_area.y == cursor_position.y
            &&& view.viewport_area.width == 0 && view.viewport_area.height == 0
            &&& view.screen_size == screen_size
            &&& view.cursor_position == cursor_position
            &&& !view.hidden_cursor
            &&& view.history_rows == 0
            &&& !view.previous_unknown
        }),
{
}

/// The cells of a frame keep their place in another area as far as there is room, and the rest of
/// that area is vacant.
pub open spec fn keeps_cells(before: BufferView, after: BufferView, area: Rect) -> bool {
    &&& after.area == area
    &&& after.content.len() == area.width * area.height
    &&& forall|i: int|
        0 <= i < after.content.len() ==> if i < before.content.len() {
            #[trigger] after.content[i] == before.content[i]
        } else {
            is_vacant(after.content[i])
        }
}

/// Moving the viewport gives both frames its area. The frames keep their cells, unless it is not
/// known what the screen shows: that stays so. As much of the history is left as fits above the
/// viewport. Nothing else changes.
pub proof fn law_moved_viewport(view: TerminalView, area: Rect)
    ensures
        ({
            let after = view.with_viewport(area);
            &&& after == (TerminalView {
                current: after.current,
                previous: after.previous,
                viewport_area: area,
                history_rows: after.history_rows,
                ..view
            })
            &&& keeps_cells(view.current, after.current, area)
            &&& !view.previous_unknown ==> keeps_cells(view.previous, after.previous, area)
            &&& view.previous_unknown ==> is_forgotten(after.previous) && after.previous.area
                == area && after.previous.content.len() == area.width * area.height
            &&& after.history_rows <= area.y && after.history_rows <= view.history_rows
            &&& after.history_rows == area.y || after.history_rows == view.history_rows
        }),
{
}

/// On a screen of another size the viewport is the whole screen. The frame that is drawn next
/// keeps its cells, there is no history, and the screen may show anything. The cursor stays.
pub proof fn law_resized_screen(view: TerminalView, screen_size: Size)
    ensures
        ({
            let after = view.with_screen(screen_size);
            let area = Rect { x: 0, y: 0, width: screen_size.width, height: screen_size.height };
            &&& after.screen_size == screen_size
            &&& after.viewport_area == area
            &&& keeps_cells(view.current, after.current, area)
            &&& is_forgotten(after.previous)
            &&& after.previous.area == area
            &&& after.previous.content.len() == area.width * area.height
            &&& after.previous_unknown
            &&& after.history_rows == 0
            &&& after.hidden_cursor == view.hidden_cursor
            &&& after.cursor_position == view.cursor_position
        }),
{
}

/// Once a frame is on the screen, it is the one that the screen is known to show. The other frame
/// is drawn next: vacant, but for one that stood for a known screen while only rows were written,
/// which keeps its cells. Nothing else changes.
pub proof fn law_exchanged_frames(view: TerminalView)
    ensures
        ({
            let after = view.updated(Update::Swapped);
            let after_rows = view.updated(Update::SwappedAfterDenseRows);
            &&& after == (TerminalView {
                current: after.current,
                previous: view.current,
                previous_unknown: false,
                ..view
            })
            &&& is_emptied(after.current)
            &&& after.current.area == view.previous.area
            &&& after.current.content.len() == view.previous.content.len()
            &&& after_rows == (TerminalView {
                current: after_rows.current,
                previous: view.current,
                previous_unknown: false,
                ..view
            })
            &&& !view.previous_unknown ==> after_rows.current == view.previous
            &&& view.previous_unknown ==> after_rows.current == after.current
        }),
{
}

/// The frames are exchanged before everything is sent: nothing is noted any more then.
pub proof fn law_frames_are_exchanged_before_sending(
    view: TerminalView,
    flush: FrameFlush,
    cursor: FrameCursor,
    ops: Seq<Op>,
    steps: Seq<StepView>,
)
    requires
        draws(steps, ops, view.frame_updates(flush), cursor, swap_of(flush)),
    ensures
        steps.len() >= 3,
        steps.last().call == CallView::FlushBackend,
        view.before_frame(flush).completed(steps.take(steps.len() - 1)) == view.before_frame(
            flush,
        ).completed(steps),
        view.before_frame(flush).completed(steps.take(steps.len() - 1)).previous == view.current,
{
    law_frame_is_drawn(view, flush, cursor, ops, steps);
    let rest = steps.skip(1);
    let last = bare_step(CallView::FlushBackend);
    assert(rest == cursor_steps(cursor, swap_of(flush)).push(last));
    assert(steps.last() == rest.last());
    assert(steps.take(steps.len() - 1) =~= steps.drop_last());
    let before = view.before_frame(flush).completed(steps.drop_last());
    lemma_few_updates(before, Update::HistoryGone, Update::HistoryGone, Update::HistoryGone);
    assert(steps.last().updates =~= seq![]);
}

/// Taking the changes of a frame moves the cursor that is noted to the last cell that is shown
/// among them, and leaves it where none is; nothing else changes.
pub proof fn law_cursor_is_at_last_change(view: TerminalView)
    ensures
        ({
            let commands = diff_commands(view.previous, view.current);
            let after = view.with_cursor_at_last_put();
            &&& after == (TerminalView { cursor_position: after.cursor_position, ..view })
            &&& (forall|i: int| 0 <= i < commands.len() ==> !((#[trigger] commands[i]) is Put))
                ==> after == view
            &&& forall|i: int|
                0 <= i < commands.len() && (#[trigger] commands[i]) is Put && (forall|k: int|
                    i < k < commands.len() ==> !((#[trigger] commands[k]) is Put))
                    ==> after.cursor_position == commands[i].position()
        }),
{
    lemma_last_put(diff_commands(view.previous, view.current));
}

/// The last of the cells that commands show.
proof fn lemma_last_put(commands: Seq<DrawCommandView>)
    ensures
        (forall|i: int| 0 <= i < commands.len() ==> !((#[trigger] commands[i]) is Put))
            ==> last_put(commands) is None,
        forall|i: int|
            0 <= i < commands.len() && (#[trigger] commands[i]) is Put && (forall|k: int|
                i < k < commands.len() ==> !((#[trigger] commands[k]) is Put)) ==> last_put(
                commands,
            ) == Some(commands[i].position()),
    decreases commands.len(),
{
    if commands.len() > 0 {
        let front = commands.drop_last();
        lemma_last_put(front);
        assert forall|i: int|
            0 <= i < commands.len() && (#[trigger] commands[i]) is Put && (forall|k: int|
                i < k < commands.len() ==> !((#[trigger] commands[k]) is Put)) implies last_put(
            commands,
        ) == Some(commands[i].position()) by {
            if i < front.len() {
                assert(front[i] == commands[i]);
                assert(!(commands[commands.len() - 1] is Put));
                assert forall|k: int| i < k < front.len() implies !((
                #[trigger] front[k]) is Put) by {
                    assert(front[k] == commands[k]);
                }
            }
        }
        if forall|i: int| 0 <= i < commands.len() ==> !((#[trigger] commands[i]) is Put) {
            assert(!(commands[commands.len() - 1] is Put));
            assert forall|i: int| 0 <= i < front.len() implies !((#[trigger] front[i]) is Put) by {
                assert(front[i] == commands[i]);
            }
        }
    }
}

/// Of the screen rows that are to be written, those that lie in the frame are, and no others:
/// nothing is written where none does.
pub proof fn law_written_rows_lie_in_frame(frame: BufferView, rows: Range<u16>)
    requires
        frame.area.y + frame.area.height <= u16::MAX,
    ensures
        forall|y: int|
            #![trigger frame.row(y - frame.area.y)]
            first_row(frame, rows) <= y < end_row(frame, rows) <==> (rows.start <= y < rows.end
                && frame.area.y <= y < frame.area.y + frame.area.height),
        !paints(frame, rows) <==> frame.area.width == 0 || rows.end <= rows.start || rows.end
            <= frame.area.y || frame.area.y + frame.area.height <= rows.start
            || frame.area.height == 0,
        !paints(frame, rows) ==> dense_frame_ops(frame, rows).len() == 0 && dense_frame_updates(
            frame,
            rows,
        ).len() == 0,
        paints(frame, rows) ==> dense_frame_ops(frame, rows) == dense_ops(
            dense_commands(frame, first_row(frame, rows), end_row(frame, rows)),
        ),
{
}

/// Writing rows of a frame notes where the last cell that is shown stands, and nothing else.
pub proof fn law_rows_note_their_last_cell(view: TerminalView, rows: Range<u16>)
    requires
        view.current.well_formed(),
        view.current.area.bounded(),
    ensures
        ({
            let frame = view.current;
            let after = view.all_updated(view.frame_updates(FrameFlush::Dense(rows)));
            let k = after.cursor_position.y - frame.area.y;
            let c = after.cursor_position.x - frame.area.x;
            let inside = |m: int|
                rows.start <= m + frame.area.y < rows.end && 0 <= m < frame.area.height;
            &&& after == (TerminalView { cursor_position: after.cursor_position, ..view })
            &&& (forall|m: int, d: int|
                inside(m) ==> !#[trigger] shows_at(frame.row(m), d)) ==> after == view
            &&& (exists|m: int, d: int| inside(m) && #[trigger] shows_at(frame.row(m), d)) ==> {
                &&& inside(k)
                &&& shows_at(frame.row(k), c)
                &&& forall|d: int| c < d ==> !#[trigger] shows_at(frame.row(k), d)
                &&& forall|m: int, d: int|
                    k < m && inside(m) ==> !#[trigger] shows_at(frame.row(m), d)
            }
        }),
{
    let frame = view.current;
    let moved = view.frame_updates(FrameFlush::Dense(rows));
    let start = first_row(frame, rows);
    let end = end_row(frame, rows);
    law_written_rows_lie_in_frame(frame, rows);
    if paints(frame, rows) {
        law_last_shown_cell_is_noted(frame, start, end);
    } else if frame.area.width == 0 {
        assert forall|m: int, d: int| 0 <= m < frame.area.height implies !#[trigger] shows_at(
            frame.row(m),
            d,
        ) by {
            lemma_row_bounds(0, frame.area.height as int, m);
        }
    }
    if moved.len() > 0 {
        assert(moved =~= seq![moved[0]]);
        lemma_few_updates(view, moved[0], moved[0], moved[0]);
    } else {
        assert(moved =~= seq![]);
        lemma_few_updates(view, Update::Swapped, Update::Swapped, Update::Swapped);
    }
}

/// What is written for a frame is what leads from the frame that the screen shows to the one that
/// is drawn next, or the repaint of the rows that lie in it.
pub proof fn law_frame_writes_its_changes(view: TerminalView, rows: Range<u16>)
    ensures
        view.frame_ops(FrameFlush::Sparse) == draw_ops(diff_commands(view.previous, view.current)),
        view.frame_updates(FrameFlush::Sparse).len() == 0,
        view.before_frame(FrameFlush::Sparse) == view.with_cursor_at_last_put(),
        view.before_frame(FrameFlush::Dense(rows)) == view,
        paints(view.current, rows) ==> view.frame_ops(FrameFlush::Dense(rows)) == dense_ops(
            dense_commands(
                view.current,
                first_row(view.current, rows),
                end_row(view.current, rows),
            ),
        ),
        !paints(view.current, rows) ==> view.frame_ops(FrameFlush::Dense(rows)).len() == 0,
        swap_of(FrameFlush::Sparse) == Update::Swapped,
        swap_of(FrameFlush::Dense(rows)) == Update::SwappedAfterDenseRows,
{
}

/// The screen keeps showing the previous frame, whatever the colours and modifiers of the frames:
/// where it does so before a frame is drawn in which every symbol shows, no cell is concealed and
/// covered cells are spaces, all alike, it does so afterwards.
pub proof fn law_screen_shows_neat_frame(
    screen: Screen,
    pen: Pen,
    view: TerminalView,
    cursor: FrameCursor,
    steps: Seq<StepView>,
)
    requires
        view.has_whole_frames(),
        view.previous.area.addressable(),
        screen.shows(view.previous),
        pen.is_plain(),
        draws(
            steps,
            view.frame_ops(FrameFlush::Sparse),
            view.frame_updates(FrameFlush::Sparse),
            cursor,
            Update::Swapped,
        ),
        is_neat(view.current),
        forall|k: int|
            0 <= k < view.previous.area.height ==> tidy(
                #[trigger] view.previous.row(k),
                view.current.row(k),
            ),
    ensures
        ({
            let ops = view.frame_ops(FrameFlush::Sparse);
            let after = view.before_frame(FrameFlush::Sparse).completed(steps);
            &&& screen.after_all(pen.all_effects(ops)).shows(after.previous)
            &&& pen.after_all(ops).is_plain()
        }),
{
    law_frame_is_drawn(
        view,
        FrameFlush::Sparse,
        cursor,
        view.frame_ops(FrameFlush::Sparse),
        steps,
    );
    law_neat_frame_is_shown(screen, pen, view.previous, view.current);
}

/// The screen keeps showing the previous frame also where only rows of a neat frame are written, as
/// long as the other rows are those of the frame before.
pub proof fn law_screen_shows_neat_rows(
    screen: Screen,
    pen: Pen,
    view: TerminalView,
    rows: Range<u16>,
    cursor: FrameCursor,
    steps: Seq<StepView>,
)
    requires
        view.has_whole_frames(),
        view.current.area.bounded(),
        screen.shows(view.previous),
        pen.is_plain(),
        draws(
            steps,
            view.frame_ops(FrameFlush::Dense(rows)),
            view.frame_updates(FrameFlush::Dense(rows)),
            cursor,
            Update::SwappedAfterDenseRows,
        ),
        forall|k: int|
            0 <= k < view.current.area.height && rows.start <= k + view.current.area.y < rows.end
                ==> is_measured(#[trigger] view.current.row(k)) && covers_alike(
                view.current.row(k),
            ),
        forall|i: int|
            0 <= i < view.current.content.len() ==> (#[trigger] view.current.content[i]).modifier.bits
                & 0xfe80 == 0,
        forall|k: int|
            0 <= k < view.current.area.height && !(rows.start <= k + view.current.area.y
                < rows.end) ==> #[trigger] view.current.row(k) == view.previous.row(k),
        view.current.area.width > 0,
    ensures
        ({
            let ops = view.frame_ops(FrameFlush::Dense(rows));
            let after = view.before_frame(FrameFlush::Dense(rows)).completed(steps);
            &&& screen.after_all(pen.all_effects(ops)).shows(after.previous)
            &&& pen.after_all(ops).is_plain()
        }),
{
    let frame = view.current;
    let start = first_row(frame, rows);
    let end = end_row(frame, rows);
    let ops = view.frame_ops(FrameFlush::Dense(rows));
    law_frame_is_drawn(view, FrameFlush::Dense(rows), cursor, ops, steps);
    if paints(frame, rows) {
        assert forall|k: int| start <= k + frame.area.y < end implies is_measured(
            #[trigger] frame.row(k),
        ) && covers_alike(frame.row(k)) by {}
        law_neat_repaint_is_shown(screen, pen, frame, start, end);
    } else {
        assert(ops =~= seq![]);
        assert(pen.all_effects(ops) =~= seq![]);
    }
    let shown = screen.after_all(pen.all_effects(ops));
    assert forall|k: int| 0 <= k < shown.lines.len() implies shows_row(
        #[trigger] shown.lines[k],
        frame.row(k),
    ) by {
        if !(paints(frame, rows) && start <= k + frame.area.y < end) {
            assert(shown.lines[k] == screen.lines[k]);
            assert(shows_row(screen.lines[k], view.previous.row(k)));
            assert(frame.row(k) == view.previous.row(k));
        }
    }
}

} // verus!
