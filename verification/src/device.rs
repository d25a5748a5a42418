//! A terminal device, and what the steps of a terminal do to it.
//!
//! The device knows nothing of what a terminal takes to be the case. The laws say that the two
//! agree: what a terminal notes of its cursor and of an erased screen is how the device is left.

use crate::ansi::{clear_sequence, cursor_style_sequence};
use crate::buffer::{is_vacant, BufferView};
use crate::geometry::{Position, Rect};
use crate::ops::Op;
use crate::session::{lemma_few_steps, lemma_few_updates, lemma_first_step};
use crate::style::{ClearType, SetCursorStyle};
use crate::terminal::{
    clear_after_position_steps, clear_scrollback_steps, clear_visible_screen_steps,
    cursor_position_step, cursor_style_step, draws, finish_steps, hide_cursor_step,
    reset_screen_steps, show_cursor_step, swap_of, CallView, FrameCursor, FrameFlush, StepView,
    TerminalView, Update, RESET_SCREEN,
};
use vstd::prelude::*;

verus! {

/// A place stands at another or comes behind it, as one reads: further right in its row, or in a
/// row below.
pub open spec fn is_from(place: Position, start: Position) -> bool {
    place.y > start.y || (place.y == start.y && place.x >= start.x)
}

/// A terminal device.
#[verifier::ext_equal]
pub struct Device {
    /// The cursor does not show.
    pub hidden: bool,
    /// Where the cursor stands, unless that is left open.
    pub cursor: Option<Position>,
    /// The screen was erased from these places on, and nothing was written since.
    pub erased: Seq<Position>,
    /// What was written, from the start.
    pub written: Seq<u8>,
    /// How much of that was sent when the writer was last flushed.
    pub sent: nat,
    /// How much of that was sent when the backend was last flushed.
    pub drawn: nat,
}

impl Device {
    /// The device after a call. What is written may leave the cursor anywhere and show anything.
    pub open spec fn after(self, call: CallView) -> Device {
        match call {
            CallView::HideCursor => Device { hidden: true, ..self },
            CallView::ShowCursor => Device { hidden: false, ..self },
            CallView::SetCursorPosition(position) => Device { cursor: Some(position), ..self },
            CallView::ClearAfterCursor => match self.cursor {
                Some(position) => Device { erased: self.erased.push(position), ..self },
                None => self,
            },
            CallView::ClearAll => Device {
                erased: self.erased.push(Position { x: 0, y: 0 }),
                ..self
            },
            CallView::Write(bytes) => Device {
                written: self.written + bytes,
                cursor: None,
                erased: seq![],
                ..self
            },
            CallView::FlushWriter => Device { sent: self.written.len(), ..self },
            CallView::FlushBackend => Device { drawn: self.written.len(), ..self },
        }
    }

    /// The device after the calls of steps.
    pub open spec fn after_all(self, steps: Seq<StepView>) -> Device
        decreases steps.len(),
    {
        if steps.len() == 0 {
            self
        } else {
            self.after_all(steps.drop_last()).after(steps.last().call)
        }
    }

    /// A place of the screen is known to show nothing.
    pub open spec fn is_blank(self, place: Position) -> bool {
        exists|i: int| 0 <= i < self.erased.len() && is_from(place, #[trigger] self.erased[i])
    }

    /// An area of the screen is known to show nothing.
    pub open spec fn is_blank_area(self, area: Rect) -> bool {
        forall|place: Position|
            area.x <= place.x < area.x + area.width && area.y <= place.y < area.y + area.height
                ==> #[trigger] self.is_blank(place)
    }

    /// The cursor is as a frame wants it: hidden without a position, and otherwise shown there.
    pub open spec fn has_cursor_of(self, cursor: FrameCursor) -> bool {
        match cursor.position {
            None => self.hidden,
            Some(position) => !self.hidden && self.cursor == Some(position),
        }
    }

    /// What a terminal notes of the cursor is how the device has it.
    pub open spec fn agrees(self, view: TerminalView) -> bool {
        &&& self.hidden == view.hidden_cursor
        &&& self.cursor is Some ==> self.cursor == Some(view.cursor_position)
    }
}

/// The first of steps apart.
proof fn lemma_first_call(device: Device, steps: Seq<StepView>)
    requires
        steps.len() > 0,
    ensures
        device.after_all(steps) == device.after(steps[0].call).after_all(steps.skip(1)),
    decreases steps.len(),
{
    reveal_with_fuel(Device::after_all, 3);
    if steps.len() == 1 {
        assert(steps.drop_last() =~= seq![]);
        assert(steps.skip(1) =~= seq![]);
    } else {
        lemma_first_call(device, steps.drop_last());
        assert(steps.drop_last().skip(1) =~= steps.skip(1).drop_last());
    }
}

/// The calls of few steps, one after the other.
proof fn lemma_few_calls(device: Device, a: StepView, b: StepView, c: StepView, d: StepView)
    ensures
        device.after_all(seq![]) == device,
        device.after_all(seq![a]) == device.after(a.call),
        device.after_all(seq![a, b]) == device.after(a.call).after(b.call),
        device.after_all(seq![a, b, c]) == device.after(a.call).after(b.call).after(c.call),
        device.after_all(seq![a, b, c, d]) == device.after(a.call).after(b.call).after(
            c.call,
        ).after(d.call),
{
    reveal_with_fuel(Device::after_all, 6);
    let none: Seq<StepView> = seq![];
    assert(seq![a].drop_last() =~= none);
    assert(seq![a, b].drop_last() =~= seq![a]);
    assert(seq![a, b, c].drop_last() =~= seq![a, b]);
    assert(seq![a, b, c, d].drop_last() =~= seq![a, b, c]);
}

/// Hiding the cursor hides it, and that is all that is done and noted.
pub proof fn law_hide_cursor(device: Device, view: TerminalView)
    ensures
        device.after_all(seq![hide_cursor_step()]) == (Device { hidden: true, ..device }),
        view.completed(seq![hide_cursor_step()]) == (TerminalView { hidden_cursor: true, ..view }),
{
    let step = hide_cursor_step();
    let noted = Update::CursorHidden(true);
    lemma_few_calls(device, step, step, step, step);
    lemma_few_steps(view, step, step, step, step);
    lemma_few_updates(view, noted, noted, noted);
}

/// Showing the cursor shows it, and that is all that is done and noted.
pub proof fn law_show_cursor(device: Device, view: TerminalView)
    ensures
        device.after_all(seq![show_cursor_step()]) == (Device { hidden: false, ..device }),
        view.completed(seq![show_cursor_step()]) == (TerminalView { hidden_cursor: false, ..view }),
{
    let step = show_cursor_step();
    let noted = Update::CursorHidden(false);
    lemma_few_calls(device, step, step, step, step);
    lemma_few_steps(view, step, step, step, step);
    lemma_few_updates(view, noted, noted, noted);
}

/// Moving the cursor leaves it at the position, column and row as they are, and that is all that
/// is done and noted.
pub proof fn law_set_cursor_position(device: Device, view: TerminalView, position: Position)
    ensures
        device.after_all(seq![cursor_position_step(position)]) == (Device {
            cursor: Some(position),
            ..device
        }),
        view.completed(seq![cursor_position_step(position)]) == (TerminalView {
            cursor_position: position,
            ..view
        }),
{
    let step = cursor_position_step(position);
    let noted = Update::CursorAt(position);
    lemma_few_calls(device, step, step, step, step);
    lemma_few_steps(view, step, step, step, step);
    lemma_few_updates(view, noted, noted, noted);
}

/// Giving the cursor a shape writes the shape's escape sequence, and notes nothing.
pub proof fn law_set_cursor_style(device: Device, view: TerminalView, style: SetCursorStyle)
    ensures
        ({
            let after = device.after_all(seq![cursor_style_step(style)]);
            &&& after.written == device.written + vstd::utf8::encode_utf8(
                cursor_style_sequence(style),
            )
            &&& after.hidden == device.hidden
            &&& after.sent == device.sent
            &&& after.drawn == device.drawn
        }),
        view.completed(seq![cursor_style_step(style)]) == view,
{
    let step = cursor_style_step(style);
    let noted = Update::HistoryGone;
    lemma_few_calls(device, step, step, step, step);
    lemma_few_steps(view, step, step, step, step);
    lemma_few_updates(view, noted, noted, noted);
}

/// No cell of a frame shows anything.
pub open spec fn is_emptied(frame: BufferView) -> bool {
    forall|i: int| 0 <= i < frame.content.len() ==> is_vacant(#[trigger] frame.content[i])
}

/// No cell of a frame is one that can be drawn.
pub open spec fn is_forgotten(frame: BufferView) -> bool {
    forall|i: int| 0 <= i < frame.content.len() ==> (#[trigger] frame.content[i]).skip
}

/// It is noted that a screen shows nothing: the frame that it shows has empty cells, and as many
/// as before.
pub open spec fn notes_blank(before: TerminalView, after: TerminalView) -> bool {
    &&& is_emptied(after.previous)
    &&& after.previous.area == before.previous.area
    &&& after.previous.content.len() == before.previous.content.len()
    &&& !after.previous_unknown
}

/// It is noted that a screen may show anything.
pub open spec fn notes_unknown(before: TerminalView, after: TerminalView) -> bool {
    &&& is_forgotten(after.previous)
    &&& after.previous.area == before.previous.area
    &&& after.previous.content.len() == before.previous.content.len()
    &&& after.previous_unknown
}

/// Erasing the screen from a position on erases just that. It is noted that the viewport shows
/// nothing exactly where it was erased from its first cell on, and else that it may show anything;
/// nothing else is noted.
pub proof fn law_clear_after_erases(device: Device, view: TerminalView, position: Position)
    ensures
        ({
            let steps = clear_after_position_steps(position, view.viewport_area);
            let area = view.viewport_area;
            let after = device.after_all(steps);
            let noted = view.completed(steps);
            let corner = Position { x: area.x, y: area.y };
            &&& after == (Device {
                cursor: Some(position),
                erased: device.erased.push(position),
                ..device
            })
            &&& noted == (TerminalView {
                previous: noted.previous,
                previous_unknown: noted.previous_unknown,
                ..view
            })
            &&& is_from(corner, position) ==> notes_blank(view, noted) && after.is_blank_area(area)
            &&& !is_from(corner, position) ==> notes_unknown(view, noted)
        }),
{
    let area = view.viewport_area;
    let steps = clear_after_position_steps(position, area);
    let after = device.after_all(steps);
    let corner = Position { x: area.x, y: area.y };
    let update = steps[1].updates[0];
    assert(steps =~= seq![steps[0], steps[1]]);
    assert(steps[0].updates =~= seq![]);
    assert(steps[1].updates =~= seq![update]);
    lemma_few_calls(device, steps[0], steps[1], steps[0], steps[0]);
    lemma_few_steps(view, steps[0], steps[1], steps[0], steps[0]);
    lemma_few_updates(view, update, update, update);
    if is_from(corner, position) {
        let n = device.erased.len() as int;
        assert(after.erased[n] == position);
        assert forall|place: Position|
            area.x <= place.x < area.x + area.width && area.y <= place.y < area.y
                + area.height implies #[trigger] after.is_blank(place) by {
            assert(is_from(place, after.erased[n]));
        }
    }
}

/// Erasing what has scrolled off the screen sends that one escape sequence, leaves the cursor at
/// the top left and notes so. The viewport may show anything; nothing else is noted.
pub proof fn law_scrollback_is_erased(device: Device, view: TerminalView)
    ensures
        ({
            let after = device.after_all(clear_scrollback_steps());
            let noted = view.completed(clear_scrollback_steps());
            &&& after.written == device.written + vstd::utf8::encode_utf8(
                clear_sequence(ClearType::Purge),
            )
            &&& after.sent == after.written.len()
            &&& after.cursor == Some(Position { x: 0, y: 0 })
            &&& after.hidden == device.hidden
            &&& noted == (TerminalView {
                cursor_position: Position { x: 0, y: 0 },
                previous: noted.previous,
                previous_unknown: noted.previous_unknown,
                ..view
            })
            &&& notes_unknown(view, noted)
        }),
{
    let steps = clear_scrollback_steps();
    let at = Update::CursorAt(Position { x: 0, y: 0 });
    assert(steps =~= seq![steps[0], steps[1], steps[2], steps[3]]);
    lemma_few_calls(device, steps[0], steps[1], steps[2], steps[3]);
    lemma_few_steps(view, steps[0], steps[1], steps[2], steps[3]);
    lemma_few_updates(view, at, at, at);
    lemma_few_updates(view.updated(at), at, at, at);
    lemma_few_updates(view.updated(at), Update::PreviousForgotten, at, at);
}

/// Erasing the screen erases every place of it, sends what was written, and leaves the cursor at
/// the top left. That is noted: no history, and nothing shown.
pub proof fn law_visible_screen_is_erased(device: Device, view: TerminalView)
    ensures
        ({
            let after = device.after_all(clear_visible_screen_steps());
            let noted = view.completed(clear_visible_screen_steps());
            &&& forall|place: Position| #[trigger] after.is_blank(place)
            &&& after.written == device.written
            &&& after.sent == after.written.len()
            &&& after.cursor == Some(Position { x: 0, y: 0 })
            &&& after.hidden == device.hidden
            &&& noted == (TerminalView {
                cursor_position: Position { x: 0, y: 0 },
                history_rows: 0,
                previous: noted.previous,
                previous_unknown: noted.previous_unknown,
                ..view
            })
            &&& notes_blank(view, noted)
        }),
{
    let steps = clear_visible_screen_steps();
    let after = device.after_all(steps);
    let at = Update::CursorAt(Position { x: 0, y: 0 });
    assert(steps =~= seq![steps[0], steps[1], steps[2], steps[3]]);
    lemma_few_calls(device, steps[0], steps[1], steps[2], steps[3]);
    lemma_few_steps(view, steps[0], steps[1], steps[2], steps[3]);
    lemma_few_updates(view, at, at, at);
    lemma_few_updates(view.updated(at), at, at, at);
    lemma_few_updates(view.updated(at), Update::HistoryGone, Update::PreviousReset, at);
    let n = device.erased.len() as int;
    assert(after.erased[n] == Position { x: 0, y: 0 });
    assert forall|place: Position| #[trigger] after.is_blank(place) by {
        assert(is_from(place, after.erased[n]));
    }
}

/// The escape sequences that reset the scrolling region and the style, move the cursor to the top
/// left, erase the screen, erase what has scrolled off it, and move the cursor to the top left.
pub open spec fn reset_sequences() -> Seq<Seq<char>> {
    seq![
        seq!['\x1B', '[', 'r'],
        seq!['\x1B', '[', '0', 'm'],
        seq!['\x1B', '[', 'H'],
        seq!['\x1B', '[', '2', 'J'],
        seq!['\x1B', '[', '3', 'J'],
        seq!['\x1B', '[', 'H'],
    ]
}

/// Erasing the screen and what has scrolled off it in one go sends the escape sequences that do
/// so, one after the other. It is noted that the cursor is at the top left, that there is no
/// history, and that nothing is shown.
pub proof fn law_screen_is_reset(device: Device, view: TerminalView)
    ensures
        ({
            let after = device.after_all(reset_screen_steps());
            let noted = view.completed(reset_screen_steps());
            &&& after.written == device.written + vstd::utf8::encode_utf8(
                reset_sequences().flatten(),
            )
            &&& after.sent == after.written.len()
            &&& after.hidden == device.hidden
            &&& noted == (TerminalView {
                cursor_position: Position { x: 0, y: 0 },
                history_rows: 0,
                previous: noted.previous,
                previous_unknown: noted.previous_unknown,
                ..view
            })
            &&& notes_blank(view, noted)
        }),
{
    let steps = reset_screen_steps();
    assert(steps =~= seq![steps[0], steps[1]]);
    lemma_few_calls(device, steps[0], steps[1], steps[0], steps[0]);
    lemma_few_steps(view, steps[0], steps[1], steps[0], steps[0]);
    lemma_few_updates(
        view,
        Update::CursorAt(Position { x: 0, y: 0 }),
        Update::HistoryGone,
        Update::PreviousReset,
    );
    reveal_strlit("\x1b[r\x1b[0m\x1b[H\x1b[2J\x1b[3J\x1b[H");
    let all = reset_sequences();
    reveal_with_fuel(Seq::flatten, 8);
    assert(all.drop_first().drop_first().drop_first().drop_first().drop_first().drop_first()
        =~= seq![]);
    assert(all.flatten() =~= all[0] + (all[1] + (all[2] + (all[3] + (all[4] + all[5])))));
    assert(RESET_SCREEN@ =~= all.flatten());
}

/// The steps that end a frame leave the cursor of the device as the frame wants it: shown at its
/// position, with its shape, where there is one, and hidden where there is none. Everything that
/// was written is sent, and nothing else is written. The cursor has its shape before it is shown,
/// and is shown before it is moved.
pub proof fn law_finished_frame_has_its_cursor(device: Device, cursor: FrameCursor, swap: Update)
    ensures
        ({
            let steps = finish_steps(cursor, swap);
            let after = device.after_all(steps);
            let shape: Seq<u8> = if cursor.position is Some {
                vstd::utf8::encode_utf8(cursor_style_sequence(cursor.style))
            } else {
                seq![]
            };
            &&& after.has_cursor_of(cursor)
            &&& after.written == device.written + shape
            &&& after.drawn == after.written.len()
            &&& cursor.position is Some ==> steps.len() == 4 && steps[0].call is Write
                && steps[1].call is ShowCursor && steps[2].call is SetCursorPosition
        }),
{
    let steps = finish_steps(cursor, swap);
    if cursor.position is Some {
        assert(steps =~= seq![steps[0], steps[1], steps[2], steps[3]]);
        lemma_few_calls(device, steps[0], steps[1], steps[2], steps[3]);
    } else {
        assert(steps =~= seq![steps[0], steps[1]]);
        lemma_few_calls(device, steps[0], steps[1], steps[0], steps[0]);
    }
}

/// Drawing a frame leaves the cursor of the device as the frame wants it, and everything that was
/// written is sent: the bytes of the frame, then the shape of the cursor where it shows.
pub proof fn law_drawn_frame_has_its_cursor(
    device: Device,
    steps: Seq<StepView>,
    ops: Seq<Op>,
    moved: Seq<Update>,
    cursor: FrameCursor,
    swap: Update,
)
    requires
        draws(steps, ops, moved, cursor, swap),
    ensures
        ({
            let after = device.after_all(steps);
            let shape: Seq<u8> = if cursor.position is Some {
                vstd::utf8::encode_utf8(cursor_style_sequence(cursor.style))
            } else {
                seq![]
            };
            &&& after.has_cursor_of(cursor)
            &&& after.written == device.written + steps[0].call->Write_0 + shape
            &&& after.drawn == after.written.len()
        }),
{
    lemma_first_call(device, steps);
    law_finished_frame_has_its_cursor(device.after(steps[0].call), cursor, swap);
}

/// What a step notes of the cursor is what its call does: that it is hidden or shown where the
/// call hides or shows it, and where it is, where the call moves it there or leaves that open.
pub open spec fn is_honest(step: StepView) -> bool {
    &&& forall|i: int|
        0 <= i < step.updates.len() ==> match #[trigger] step.updates[i] {
            Update::CursorHidden(hidden) => step.call == (if hidden {
                CallView::HideCursor
            } else {
                CallView::ShowCursor
            }),
            Update::CursorAt(position) => step.call is Write || step.call
                == CallView::SetCursorPosition(position),
            _ => true,
        }
    &&& step.call is HideCursor ==> step.updates.contains(Update::CursorHidden(true))
    &&& step.call is ShowCursor ==> step.updates.contains(Update::CursorHidden(false))
    &&& step.call matches CallView::SetCursorPosition(position) ==> step.updates.contains(
        Update::CursorAt(position),
    )
}

/// What is noted of the cursor is what the changes say of it.
proof fn lemma_noted(view: TerminalView, updates: Seq<Update>, hidden: bool, position: Position)
    requires
        forall|i: int|
            0 <= i < updates.len() ==> match #[trigger] updates[i] {
                Update::CursorHidden(value) => value == hidden,
                _ => true,
            },
    ensures
        view.all_updated(updates).hidden_cursor == (if exists|i: int|
            0 <= i < updates.len() && #[trigger] updates[i] == Update::CursorHidden(hidden) {
            hidden
        } else {
            view.hidden_cursor
        }),
        (forall|i: int|
            0 <= i < updates.len() ==> match #[trigger] updates[i] {
                Update::CursorAt(value) => value == position,
                _ => true,
            }) ==> view.all_updated(updates).cursor_position == (if exists|i: int|
            0 <= i < updates.len() && #[trigger] updates[i] == Update::CursorAt(position) {
            position
        } else {
            view.cursor_position
        }),
    decreases updates.len(),
{
    if updates.len() > 0 {
        let fewer = updates.drop_last();
        let last = updates.len() - 1;
        assert forall|i: int| 0 <= i < fewer.len() implies match #[trigger] fewer[i] {
            Update::CursorHidden(value) => value == hidden,
            _ => true,
        } by {
            assert(fewer[i] == updates[i]);
        }
        lemma_noted(view, fewer, hidden, position);
        assert(updates[last] == updates.last());
        assert(forall|i: int| 0 <= i < fewer.len() ==> #[trigger] fewer[i] == updates[i]);
        assert(forall|i: int|
            0 <= i < updates.len() ==> i == last || #[trigger] updates[i] == fewer[i]);
    }
}

/// Where what a terminal notes of the cursor is how the device has it, a step whose notes follow
/// its call keeps it so.
pub proof fn law_honest_step_keeps_agreement(device: Device, view: TerminalView, step: StepView)
    requires
        is_honest(step),
        device.agrees(view),
    ensures
        device.after(step.call).agrees(view.all_updated(step.updates)),
{
    let hidden = step.call is HideCursor;
    let position = match step.call {
        CallView::SetCursorPosition(position) => position,
        _ => view.cursor_position,
    };
    lemma_noted(view, step.updates, hidden, position);
    if hidden {
        let i = choose|i: int|
            0 <= i < step.updates.len() && step.updates[i] == Update::CursorHidden(true);
        assert(step.updates[i] == Update::CursorHidden(true));
    }
    if step.call is ShowCursor {
        let i = choose|i: int|
            0 <= i < step.updates.len() && step.updates[i] == Update::CursorHidden(false);
        assert(step.updates[i] == Update::CursorHidden(false));
    }
    if step.call is SetCursorPosition {
        let i = choose|i: int|
            0 <= i < step.updates.len() && step.updates[i] == Update::CursorAt(position);
        assert(step.updates[i] == Update::CursorAt(position));
    }
}

/// Where what a terminal notes of the cursor is how the device has it, it stays so however many
/// of steps whose notes follow their calls succeed.
pub proof fn law_honest_steps_keep_agreement(
    device: Device,
    view: TerminalView,
    steps: Seq<StepView>,
)
    requires
        forall|i: int| 0 <= i < steps.len() ==> is_honest(#[trigger] steps[i]),
        device.agrees(view),
    ensures
        device.after_all(steps).agrees(view.completed(steps)),
    decreases steps.len(),
{
    if steps.len() > 0 {
        let fewer = steps.drop_last();
        assert forall|i: int| 0 <= i < fewer.len() implies is_honest(#[trigger] fewer[i]) by {
            assert(fewer[i] == steps[i]);
        }
        law_honest_steps_keep_agreement(device, view, fewer);
        assert(is_honest(steps[steps.len() - 1]));
        law_honest_step_keeps_agreement(
            device.after_all(fewer),
            view.completed(fewer),
            steps.last(),
        );
    }
}

/// What an operation on the cursor or on the whole screen notes of the cursor follows its calls.
pub proof fn law_operations_are_honest(position: Position, style: SetCursorStyle)
    ensures
        is_honest(hide_cursor_step()),
        is_honest(show_cursor_step()),
        is_honest(cursor_position_step(position)),
        is_honest(cursor_style_step(style)),
        forall|i: int|
            0 <= i < clear_scrollback_steps().len() ==> is_honest(
                #[trigger] clear_scrollback_steps()[i],
            ),
        forall|i: int|
            0 <= i < clear_visible_screen_steps().len() ==> is_honest(
                #[trigger] clear_visible_screen_steps()[i],
            ),
{
    let top_left = Position { x: 0, y: 0 };
    assert(hide_cursor_step().updates[0] == Update::CursorHidden(true));
    assert(show_cursor_step().updates[0] == Update::CursorHidden(false));
    assert(cursor_position_step(position).updates[0] == Update::CursorAt(position));
    assert(cursor_position_step(top_left).updates[0] == Update::CursorAt(top_left));
    assert(is_honest(cursor_position_step(top_left)));
}

/// While a frame is drawn, from its first step on, what is noted of the cursor is how the device
/// has it, however many of the steps succeed.
pub proof fn law_drawing_keeps_agreement(
    device: Device,
    view: TerminalView,
    flush: FrameFlush,
    cursor: FrameCursor,
    ops: Seq<Op>,
    steps: Seq<StepView>,
    n: int,
)
    requires
        draws(steps, ops, view.frame_updates(flush), cursor, swap_of(flush)),
        device.agrees(view),
        0 < n <= steps.len(),
    ensures
        device.after_all(steps.take(n)).agrees(view.before_frame(flush).completed(steps.take(n))),
{
    let before = view.before_frame(flush);
    let taken = steps.take(n);
    let rest = taken.skip(1);
    let ending = finish_steps(cursor, swap_of(flush));
    let moved = view.frame_updates(flush);
    lemma_first_call(device, taken);
    lemma_first_step(before, taken);
    if moved.len() > 0 {
        assert(moved =~= seq![moved[0]]);
        lemma_few_updates(before, moved[0], moved[0], moved[0]);
    } else {
        assert(moved =~= seq![]);
        lemma_few_updates(before, swap_of(flush), swap_of(flush), swap_of(flush));
    }
    assert(rest =~= ending.take(n - 1));
    assert forall|i: int| 0 <= i < rest.len() implies is_honest(#[trigger] rest[i]) by {
        assert(rest[i] == ending[i]);
        if cursor.position is Some && i == 1 {
            assert(ending[i].updates[0] == Update::CursorHidden(false));
        } else if i < ending.len() - 1 && ending[i].updates.len() > 0 {
            assert(ending[i].updates[0] == ending[i].updates.first());
        }
    }
    law_honest_steps_keep_agreement(
        device.after(steps[0].call),
        before.all_updated(moved),
        rest,
    );
}

} // verus!
