//! The terminal: two frames to compare, and what is known of the cursor and the screen.
//!
//! A terminal does no input or output itself. What is to be done to the terminal device comes as
//! a list of steps, each with a call and with what changes once the call has succeeded.

use crate::ansi::{clear_text, cursor_style_text};
use crate::buffer::{clear_buffer_rows, lemma_row_bounds, Buffer, BufferView, CellView};
use crate::dense::{
    dense_commands, dense_last_put, dense_ops, draw_dense_rows, end_row, first_row, paints,
};
use crate::device::{
    is_from, law_clear_after_erases, law_drawn_frame_has_its_cursor, law_finished_frame_has_its_cursor,
    law_hide_cursor, law_screen_is_reset, law_scrollback_is_erased, law_set_cursor_position,
    law_set_cursor_style, law_show_cursor, law_visible_screen_is_erased, notes_blank, notes_unknown,
    reset_sequences, Device,
};
use crate::diff::{
    command_views, diff_buffers, diff_commands, drawn_until, lemma_last_nonblank_cell, puts,
    row_commands, rows_commands, trailing_bg, DrawCommand, DrawCommandView,
};
use crate::draw::{draw, draw_ops, placeable};
use crate::geometry::{min_int, Position, Rect, Size};
use crate::ops::{encodes, lemma_appends_nothing, Op};
use crate::screen::{lemma_puts, shows_cell_of};
use crate::style::{ClearType, SetCursorStyle};
use std::ops::Range;
use vstd::prelude::*;

verus! {

/// A call to the terminal device.
#[derive(Debug, PartialEq, Eq)]
pub enum Call {
    /// Hides the cursor.
    HideCursor,
    /// Shows the cursor.
    ShowCursor,
    /// Moves the cursor.
    SetCursorPosition(Position),
    /// Erases the screen from the cursor on.
    ClearAfterCursor,
    /// Erases the screen.
    ClearAll,
    /// Writes bytes.
    Write(Vec<u8>),
    /// Sends what has been written.
    FlushWriter,
    /// Sends what has been drawn.
    FlushBackend,
}

/// The mathematical value of a [`Call`].
#[verifier::ext_equal]
pub enum CallView {
    HideCursor,
    ShowCursor,
    SetCursorPosition(Position),
    ClearAfterCursor,
    ClearAll,
    Write(Seq<u8>),
    FlushWriter,
    FlushBackend,
}

impl View for Call {
    type V = CallView;

    open spec fn view(&self) -> CallView {
        match self {
            Call::HideCursor => CallView::HideCursor,
            Call::ShowCursor => CallView::ShowCursor,
            Call::SetCursorPosition(position) => CallView::SetCursorPosition(*position),
            Call::ClearAfterCursor => CallView::ClearAfterCursor,
            Call::ClearAll => CallView::ClearAll,
            Call::Write(bytes) => CallView::Write(bytes@),
            Call::FlushWriter => CallView::FlushWriter,
            Call::FlushBackend => CallView::FlushBackend,
        }
    }
}

/// A change of what is known of the terminal.
#[derive(Debug, Clone, Copy, PartialEq, Eq, Structural)]
pub enum Update {
    /// Whether the cursor is hidden.
    CursorHidden(bool),
    /// Where the cursor is.
    CursorAt(Position),
    /// No rows of history are on the screen.
    HistoryGone,
    /// The screen was erased: it shows a frame of empty cells.
    PreviousReset,
    /// It is not known any more what the screen shows.
    PreviousForgotten,
    /// The current frame is on the screen, and an empty one takes its place.
    Swapped,
    /// Rows of the current frame are on the screen, and the other frame takes its place.
    SwappedAfterDenseRows,
}

/// A call, and what changes once it has succeeded.
#[derive(Debug, PartialEq, Eq)]
pub struct Step {
    pub call: Call,
    pub updates: Vec<Update>,
}

/// The mathematical value of a [`Step`].
#[verifier::ext_equal]
pub struct StepView {
    pub call: CallView,
    pub updates: Seq<Update>,
}

impl View for Step {
    type V = StepView;

    open spec fn view(&self) -> StepView {
        StepView { call: self.call@, updates: self.updates@ }
    }
}

/// The values of a list of steps.
pub open spec fn step_views(steps: Seq<Step>) -> Seq<StepView> {
    steps.map_values(|step: Step| step@)
}

/// Hides the cursor.
pub open spec fn hide_cursor_step() -> StepView {
    StepView { call: CallView::HideCursor, updates: seq![Update::CursorHidden(true)] }
}

/// Shows the cursor.
pub open spec fn show_cursor_step() -> StepView {
    StepView { call: CallView::ShowCursor, updates: seq![Update::CursorHidden(false)] }
}

/// Moves the cursor.
pub open spec fn cursor_position_step(position: Position) -> StepView {
    StepView {
        call: CallView::SetCursorPosition(position),
        updates: seq![Update::CursorAt(position)],
    }
}

/// Makes a call after which nothing else is known.
pub open spec fn bare_step(call: CallView) -> StepView {
    StepView { call, updates: seq![] }
}

/// Gives the cursor a shape.
pub open spec fn cursor_style_step(style: SetCursorStyle) -> StepView {
    bare_step(
        CallView::Write(vstd::utf8::encode_utf8(crate::ansi::cursor_style_sequence(style))),
    )
}

/// The top left of the screen.
pub open spec fn home() -> Position {
    Position { x: 0, y: 0 }
}

/// The screen from a position on holds all of an area.
pub open spec fn reaches_all(position: Position, area: Rect) -> bool {
    position.y < area.y || (position.y == area.y && position.x <= area.x)
}

/// Erases the screen from a position on. What the screen shows of the viewport is only known if
/// all of it was erased.
pub open spec fn clear_after_position_steps(position: Position, viewport: Rect) -> Seq<StepView> {
    seq![
        bare_step(CallView::SetCursorPosition(position)),
        StepView {
            call: CallView::ClearAfterCursor,
            updates: seq![
                if reaches_all(position, viewport) {
                    Update::PreviousReset
                } else {
                    Update::PreviousForgotten
                },
            ],
        },
    ]
}

/// Erases what has scrolled off the screen. The screen itself is not erased, and what it shows
/// may have moved.
pub open spec fn clear_scrollback_steps() -> Seq<StepView> {
    seq![
        cursor_position_step(home()),
        bare_step(
            CallView::Write(
                vstd::utf8::encode_utf8(crate::ansi::clear_sequence(ClearType::Purge)),
            ),
        ),
        cursor_position_step(home()),
        StepView { call: CallView::FlushWriter, updates: seq![Update::PreviousForgotten] },
    ]
}

/// Erases the screen.
pub open spec fn clear_visible_screen_steps() -> Seq<StepView> {
    seq![
        cursor_position_step(home()),
        bare_step(CallView::ClearAll),
        cursor_position_step(home()),
        StepView {
            call: CallView::FlushWriter,
            updates: seq![Update::HistoryGone, Update::PreviousReset],
        },
    ]
}

/// Resets the scrolling region and the style, moves the cursor to the top left, erases the
/// screen and what has scrolled off it, and moves the cursor to the top left again.
pub const RESET_SCREEN: &'static str = "\x1b[r\x1b[0m\x1b[H\x1b[2J\x1b[3J\x1b[H";

/// Erases the screen and what has scrolled off it in one go.
pub open spec fn reset_screen_steps() -> Seq<StepView> {
    seq![
        bare_step(CallView::Write(vstd::utf8::encode_utf8(RESET_SCREEN@))),
        StepView {
            call: CallView::FlushWriter,
            updates: seq![Update::CursorAt(home()), Update::HistoryGone, Update::PreviousReset],
        },
    ]
}

impl Step {
    /// A call, and the changes that follow it.
    fn new(call: Call, updates: Vec<Update>) -> (step: Step)
        ensures
            step@ == (StepView { call: call@, updates: updates@ }),
    {
        Step { call, updates }
    }
}

/// Which rows of a frame are written.
#[derive(Debug)]
pub enum FrameFlush {
    /// What differs from the previous frame.
    Sparse,
    /// All of the given rows. Whoever renders nothing but their visible cells has to clear the
    /// rows of the frame first.
    Dense(Range<u16>),
}

/// What a frame wants of the cursor.
#[derive(Debug, Clone, Copy, PartialEq, Eq, Structural)]
pub struct FrameCursor {
    /// Where the cursor shows. Without a position it is hidden.
    pub position: Option<Position>,
    /// The shape of the cursor, where it shows.
    pub style: SetCursorStyle,
}

/// A frame that is being rendered.
pub struct Frame<'a> {
    /// Where the cursor shows after the frame was drawn. Without a position it is hidden.
    pub cursor_position: Option<Position>,
    /// The shape of the cursor after the frame was drawn.
    pub cursor_style: SetCursorStyle,
    /// The part of the screen that the frame stands for.
    pub viewport_area: Rect,
    /// The cells of the frame.
    pub buffer: &'a mut Buffer,
}

impl<'a> Frame<'a> {
    /// The part of the screen that the frame stands for. It does not change while the frame is
    /// rendered.
    pub fn area(&self) -> (area: Rect)
        ensures
            area == self.viewport_area,
    {
        self.viewport_area
    }

    /// Shows the cursor at a position after the frame was drawn.
    pub fn set_cursor_position(&mut self, position: Position)
        ensures
            *final(self) == (Frame { cursor_position: Some(position), ..*old(self) }),
    {
        self.cursor_position = Some(position);
    }

    /// Gives the cursor a shape after the frame was drawn.
    pub fn set_cursor_style(&mut self, style: SetCursorStyle)
        ensures
            *final(self) == (Frame { cursor_style: style, ..*old(self) }),
    {
        self.cursor_style = style;
    }

    /// What the frame wants of the cursor.
    pub fn cursor(&self) -> (cursor: FrameCursor)
        ensures
            cursor.position == self.cursor_position,
            cursor.style == self.cursor_style,
    {
        FrameCursor { position: self.cursor_position, style: self.cursor_style }
    }

    /// The cells of the frame.
    pub fn buffer_mut(&mut self) -> (buffer: &mut Buffer)
        ensures
            *buffer == *old(self).buffer,
            *final(self).buffer == *final(buffer),
            *final(final(self).buffer) == *final(old(self).buffer),
            final(self).cursor_position == old(self).cursor_position,
            final(self).cursor_style == old(self).cursor_style,
            final(self).viewport_area == old(self).viewport_area,
    {
        self.buffer
    }

    /// Empties screen rows of the frame, as far as they lie in it.
    pub fn clear_rows(&mut self, rows: Range<u16>)
        requires
            old(self).buffer@.well_formed(),
        ensures
            final(self).buffer@ == old(self).buffer@.with_rows_cleared(rows.start, rows.end),
            *final(final(self).buffer) == *final(old(self).buffer),
            final(self).cursor_position == old(self).cursor_position,
            final(self).cursor_style == old(self).cursor_style,
            final(self).viewport_area == old(self).viewport_area,
    {
        clear_buffer_rows(self.buffer, rows);
    }
}

/// A frame that is drawn: its cells, and the part of the screen that it stands for.
#[derive(Debug, PartialEq, Eq)]
pub struct CompletedFrame<'a> {
    /// The cells of the frame.
    pub buffer: &'a Buffer,
    /// The part of the screen that the frame stands for.
    pub area: Rect,
}

/// What it takes to draw a frame, and the frame that is drawn once everything has succeeded.
#[derive(Debug, PartialEq, Eq)]
pub struct Drawn<'a> {
    pub steps: Vec<Step>,
    pub frame: CompletedFrame<'a>,
}

/// A terminal with the frame that its screen shows and the one that is drawn next.
#[derive(Debug, PartialEq, Eq, Hash)]
pub struct Terminal {
    /// The two frames.
    buffers: [Buffer; 2],
    /// Which of the two is drawn next.
    current: usize,
    /// Whether the cursor is hidden.
    pub hidden_cursor: bool,
    /// The part of the screen that frames stand for.
    pub viewport_area: Rect,
    /// The size of the screen, when it was last asked for.
    pub last_known_screen_size: Size,
    /// Where the cursor was last put.
    pub last_known_cursor_pos: Position,
    /// The number of rows of history above the viewport.
    visible_history_rows: u16,
    /// Whether it is not known what the screen shows of the viewport.
    previous_unknown: bool,
}

/// The mathematical value of a [`Terminal`].
#[verifier::ext_equal]
pub struct TerminalView {
    /// The frame that is drawn next.
    pub current: BufferView,
    /// The frame that the screen shows.
    pub previous: BufferView,
    pub hidden_cursor: bool,
    pub viewport_area: Rect,
    pub screen_size: Size,
    pub cursor_position: Position,
    pub history_rows: u16,
    /// It is not known what the screen shows.
    pub previous_unknown: bool,
}

impl TerminalView {
    /// A new terminal: no cells, the viewport at the row of the cursor, no history.
    pub open spec fn new(screen_size: Size, cursor_position: Position) -> TerminalView {
        TerminalView {
            current: BufferView::blank(Rect::zero()),
            previous: BufferView::blank(Rect::zero()),
            hidden_cursor: false,
            viewport_area: Rect { x: 0, y: cursor_position.y, width: 0, height: 0 },
            screen_size,
            cursor_position,
            history_rows: 0,
            previous_unknown: false,
        }
    }

    /// The two frames are whole and stand for the same area.
    pub open spec fn has_whole_frames(self) -> bool {
        &&& self.current.well_formed()
        &&& self.previous.well_formed()
        &&& self.current.area == self.previous.area
    }

    /// The two frames are whole and stand for the same area, and the history fits above the
    /// viewport.
    pub open spec fn well_formed(self) -> bool {
        self.has_whole_frames() && self.history_rows <= self.viewport_area.y
    }

    /// The terminal with another viewport.
    pub open spec fn with_viewport(self, area: Rect) -> TerminalView {
        TerminalView {
            current: self.current.resized(area),
            previous: if self.previous_unknown {
                self.previous.resized(area).forgotten()
            } else {
                self.previous.resized(area)
            },
            viewport_area: area,
            history_rows: min_int(self.history_rows as int, area.y as int) as u16,
            ..self
        }
    }

    /// The terminal on a screen of another size: the viewport is the whole screen, and it is not
    /// known what that shows.
    pub open spec fn with_screen(self, screen_size: Size) -> TerminalView {
        let area = Rect { x: 0, y: 0, width: screen_size.width, height: screen_size.height };
        TerminalView { screen_size, ..self.with_viewport(area).updated(Update::PreviousForgotten) }
    }

    /// The terminal after a change.
    pub open spec fn updated(self, update: Update) -> TerminalView {
        match update {
            Update::CursorHidden(hidden) => TerminalView { hidden_cursor: hidden, ..self },
            Update::CursorAt(position) => TerminalView { cursor_position: position, ..self },
            Update::HistoryGone => TerminalView { history_rows: 0, ..self },
            Update::PreviousReset => TerminalView {
                previous: self.previous.cleared(),
                previous_unknown: false,
                ..self
            },
            Update::PreviousForgotten => TerminalView {
                previous: self.previous.forgotten(),
                previous_unknown: true,
                ..self
            },
            Update::Swapped => TerminalView {
                current: self.previous.cleared(),
                previous: self.current,
                previous_unknown: false,
                ..self
            },
            Update::SwappedAfterDenseRows => TerminalView {
                current: if self.previous_unknown {
                    self.previous.cleared()
                } else {
                    self.previous
                },
                previous: self.current,
                previous_unknown: false,
                ..self
            },
        }
    }

    /// The terminal after changes.
    pub open spec fn all_updated(self, updates: Seq<Update>) -> TerminalView
        decreases updates.len(),
    {
        if updates.len() == 0 {
            self
        } else {
            self.all_updated(updates.drop_last()).updated(updates.last())
        }
    }

    /// The terminal after the calls of the steps have succeeded.
    pub open spec fn completed(self, steps: Seq<StepView>) -> TerminalView
        decreases steps.len(),
    {
        if steps.len() == 0 {
            self
        } else {
            self.completed(steps.drop_last()).all_updated(steps.last().updates)
        }
    }
}

/// The step writes the commands.
pub open spec fn writes(step: StepView, ops: Seq<Op>) -> bool {
    &&& step.call matches CallView::Write(bytes)
    &&& encodes(ops, bytes)
}

/// Where the last of the cells is shown.
pub open spec fn last_put(commands: Seq<DrawCommandView>) -> Option<Position>
    decreases commands.len(),
{
    if commands.len() == 0 {
        None
    } else if commands.last() is Put {
        Some(commands.last().position())
    } else {
        last_put(commands.drop_last())
    }
}

/// What is written for rows of a frame. Nothing is where none of them lies in the frame.
pub open spec fn dense_frame_ops(buffer: BufferView, rows: Range<u16>) -> Seq<Op> {
    if paints(buffer, rows) {
        dense_ops(dense_commands(buffer, first_row(buffer, rows), end_row(buffer, rows)))
    } else {
        seq![]
    }
}

/// What is known after rows of a frame were written: where the last cell was shown.
pub open spec fn dense_frame_updates(buffer: BufferView, rows: Range<u16>) -> Seq<Update> {
    if paints(buffer, rows) {
        match dense_last_put(buffer, first_row(buffer, rows), end_row(buffer, rows)) {
            Some(position) => seq![Update::CursorAt(position)],
            None => seq![],
        }
    } else {
        seq![]
    }
}

/// Gives the cursor what a frame wants of it, and exchanges the frames.
pub open spec fn cursor_steps(cursor: FrameCursor, swap: Update) -> Seq<StepView> {
    match cursor.position {
        None => seq![
            StepView {
                call: CallView::HideCursor,
                updates: seq![Update::CursorHidden(true), swap],
            },
        ],
        Some(position) => seq![
            cursor_style_step(cursor.style),
            show_cursor_step(),
            StepView {
                call: CallView::SetCursorPosition(position),
                updates: seq![Update::CursorAt(position), swap],
            },
        ],
    }
}

/// Gives the cursor what a frame wants of it, exchanges the frames and sends everything.
pub open spec fn finish_steps(cursor: FrameCursor, swap: Update) -> Seq<StepView> {
    cursor_steps(cursor, swap).push(bare_step(CallView::FlushBackend))
}

/// Writes the commands, gives the cursor what the frame wants of it, exchanges the frames and
/// sends everything.
pub open spec fn draws(
    steps: Seq<StepView>,
    ops: Seq<Op>,
    moved: Seq<Update>,
    cursor: FrameCursor,
    swap: Update,
) -> bool {
    &&& steps.len() > 0
    &&& writes(steps[0], ops)
    &&& steps[0].updates == moved
    &&& steps.skip(1) == finish_steps(cursor, swap)
}

impl TerminalView {
    /// What is written for the current frame.
    pub open spec fn frame_ops(self, flush: FrameFlush) -> Seq<Op> {
        match flush {
            FrameFlush::Sparse => draw_ops(diff_commands(self.previous, self.current)),
            FrameFlush::Dense(rows) => dense_frame_ops(self.current, rows),
        }
    }

    /// What is known once the current frame was written.
    pub open spec fn frame_updates(self, flush: FrameFlush) -> Seq<Update> {
        match flush {
            FrameFlush::Sparse => seq![],
            FrameFlush::Dense(rows) => dense_frame_updates(self.current, rows),
        }
    }

    /// The cursor is taken to be where the last changed cell of the current frame is shown.
    pub open spec fn with_cursor_at_last_put(self) -> TerminalView {
        match last_put(diff_commands(self.previous, self.current)) {
            Some(position) => TerminalView { cursor_position: position, ..self },
            None => self,
        }
    }

    /// What is known when the steps of a frame are set up.
    pub open spec fn before_frame(self, flush: FrameFlush) -> TerminalView {
        match flush {
            FrameFlush::Sparse => self.with_cursor_at_last_put(),
            FrameFlush::Dense(_) => self,
        }
    }
}

impl TerminalView {
    /// The steps draw the current frame, which is the one that is drawn then.
    pub open spec fn is_drawn(
        self,
        drawn: Drawn<'_>,
        cursor: FrameCursor,
        flush: FrameFlush,
    ) -> bool {
        &&& draws(
            step_views(drawn.steps@),
            self.frame_ops(flush),
            self.frame_updates(flush),
            cursor,
            swap_of(flush),
        )
        &&& drawn.frame.buffer@ == self.current
        &&& drawn.frame.area == self.viewport_area
    }
}

/// How the frames are exchanged.
pub open spec fn swap_of(flush: FrameFlush) -> Update {
    match flush {
        FrameFlush::Sparse => Update::Swapped,
        FrameFlush::Dense(_) => Update::SwappedAfterDenseRows,
    }
}

impl View for Terminal {
    type V = TerminalView;

    closed spec fn view(&self) -> TerminalView {
        TerminalView {
            current: self.buffers@[self.current as int]@,
            previous: self.buffers@[1 - self.current]@,
            hidden_cursor: self.hidden_cursor,
            viewport_area: self.viewport_area,
            screen_size: self.last_known_screen_size,
            cursor_position: self.last_known_cursor_pos,
            history_rows: self.visible_history_rows,
            previous_unknown: self.previous_unknown,
        }
    }
}

/// The fields of a terminal are what is known of it.
proof fn law_fields_are_known(terminal: Terminal)
    ensures
        terminal@.hidden_cursor == terminal.hidden_cursor,
        terminal@.viewport_area == terminal.viewport_area,
        terminal@.screen_size == terminal.last_known_screen_size,
        terminal@.cursor_position == terminal.last_known_cursor_pos,
        terminal@.history_rows == terminal.visible_history_rows,
        terminal@.previous_unknown == terminal.previous_unknown,
        terminal.current == 0 ==> terminal@.current == terminal.buffers@[0]@ && terminal@.previous
            == terminal.buffers@[1]@,
        terminal.current == 1 ==> terminal@.current == terminal.buffers@[1]@ && terminal@.previous
            == terminal.buffers@[0]@,
{
}

/// The value of a list of steps is that of each step, in the same order.
pub proof fn law_step_views(steps: Seq<Step>, i: int)
    ensures
        step_views(steps).len() == steps.len(),
        0 <= i < steps.len() ==> step_views(steps)[i].call == steps[i].call@ && step_views(
            steps,
        )[i].updates == steps[i].updates@,
{
}

impl Clone for Terminal {
    fn clone(&self) -> (terminal: Terminal)
        ensures
            self.has_current() ==> terminal@ == self@,
            terminal.has_current() == self.has_current(),
    {
        Terminal {
            buffers: [self.buffers[0].clone(), self.buffers[1].clone()],
            current: self.current,
            hidden_cursor: self.hidden_cursor,
            viewport_area: self.viewport_area,
            last_known_screen_size: self.last_known_screen_size,
            last_known_cursor_pos: self.last_known_cursor_pos,
            visible_history_rows: self.visible_history_rows,
            previous_unknown: self.previous_unknown,
        }
    }
}

impl Default for Terminal {
    /// A terminal on a screen without cells.
    fn default() -> (terminal: Terminal)
        ensures
            terminal.well_formed(),
            terminal@ == TerminalView::new(Size { width: 0, height: 0 }, home()),
    {
        Terminal::with_screen_size_and_cursor_position(
            Size { width: 0, height: 0 },
            Position { x: 0, y: 0 },
        )
    }
}

impl Terminal {
    /// One of the two frames is drawn next.
    pub closed spec fn has_current(&self) -> bool {
        self.current < 2
    }

    /// The terminal is in order.
    pub open spec fn well_formed(&self) -> bool {
        self.has_current() && self@.well_formed()
    }

    /// A new terminal. Where the cursor could not be asked for its position, it is taken to
    /// stand at the top left.
    pub fn with_options(screen_size: Size, cursor_pos: Option<Position>) -> (terminal: Terminal)
        ensures
            terminal.well_formed(),
            terminal@ == TerminalView::new(
                screen_size,
                match cursor_pos {
                    Some(position) => position,
                    None => Position { x: 0, y: 0 },
                },
            ),
    {
        let position: Position = match cursor_pos {
            Some(position) => position,
            None => Position { x: 0, y: 0 },
        };
        Terminal::with_screen_size_and_cursor_position(screen_size, position)
    }

    /// A new terminal, whose cursor is known to stand at a position.
    pub fn with_options_and_cursor_position(
        screen_size: Size,
        cursor_pos: Position,
    ) -> (terminal: Terminal)
        ensures
            terminal.well_formed(),
            terminal@ == TerminalView::new(screen_size, cursor_pos),
    {
        Terminal::with_screen_size_and_cursor_position(screen_size, cursor_pos)
    }

    /// A new terminal.
    fn with_screen_size_and_cursor_position(screen_size: Size, cursor_pos: Position) -> (terminal:
        Terminal)
        ensures
            terminal.well_formed(),
            terminal@ == TerminalView::new(screen_size, cursor_pos),
    {
        let nowhere = Rect { x: 0, y: 0, width: 0, height: 0 };
        Terminal {
            buffers: [Buffer::empty(nowhere), Buffer::empty(nowhere)],
            current: 0,
            hidden_cursor: false,
            viewport_area: Rect::new(0, cursor_pos.y, 0, 0),
            last_known_screen_size: screen_size,
            last_known_cursor_pos: cursor_pos,
            visible_history_rows: 0,
            previous_unknown: false,
        }
    }

    /// The frame that is drawn next, to be rendered. The cursor is hidden unless the frame asks
    /// for it.
    pub fn get_frame(&mut self) -> (frame: Frame<'_>)
        requires
            old(self).has_current(),
        ensures
            frame.cursor_position is None,
            frame.cursor_style == SetCursorStyle::DefaultUserShape,
            frame.viewport_area == old(self)@.viewport_area,
            frame.buffer@ == old(self)@.current,
            final(self).has_current(),
            final(self)@ == (TerminalView { current: final(frame.buffer)@, ..old(self)@ }),
    {
        let viewport_area = self.viewport_area;
        Frame {
            cursor_position: None,
            cursor_style: SetCursorStyle::DefaultUserShape,
            viewport_area,
            buffer: self.current_buffer_mut(),
        }
    }

    /// The frame that is drawn next.
    pub fn current_buffer(&self) -> (buffer: &Buffer)
        requires
            self.has_current(),
        ensures
            buffer@ == self@.current,
    {
        &self.buffers[self.current]
    }

    /// The frame that is drawn next.
    pub fn current_buffer_mut(&mut self) -> (buffer: &mut Buffer)
        requires
            old(self).has_current(),
        ensures
            buffer@ == old(self)@.current,
            final(self).has_current(),
            final(self)@ == (TerminalView { current: final(buffer)@, ..old(self)@ }),
    {
        &mut self.buffers[self.current]
    }

    /// The frame that the screen shows.
    pub fn previous_buffer(&self) -> (buffer: &Buffer)
        requires
            self.has_current(),
        ensures
            buffer@ == self@.previous,
    {
        &self.buffers[1 - self.current]
    }

    /// The frame that the screen shows.
    pub fn previous_buffer_mut(&mut self) -> (buffer: &mut Buffer)
        requires
            old(self).has_current(),
        ensures
            buffer@ == old(self)@.previous,
            final(self).has_current(),
            final(self)@ == (TerminalView { previous: final(buffer)@, ..old(self)@ }),
    {
        &mut self.buffers[1 - self.current]
    }

    /// Gives the frames the size of the screen, notes it, and erases the screen. The viewport is
    /// the whole screen then.
    pub fn resize(&mut self, screen_size: Size) -> (steps: Vec<Step>)
        requires
            old(self).has_current(),
        ensures
            final(self).well_formed(),
            final(self)@ == old(self)@.with_screen(screen_size),
            step_views(steps@) == clear_visible_screen_steps(),
            forall|device: Device, place: Position| #[trigger]
                device.after_all(step_views(steps@)).is_blank(place),
            forall|device: Device|
                (#[trigger] device.after_all(step_views(steps@))).cursor == Some(home()),
    {
        self.set_viewport_area(
            Rect { x: 0, y: 0, width: screen_size.width, height: screen_size.height },
        );
        self.invalidate_viewport();
        self.last_known_screen_size = screen_size;
        self.clear_visible_screen()
    }

    /// Moves the viewport to another area. Rows of history that do not fit above it any more
    /// are forgotten.
    pub fn set_viewport_area(&mut self, area: Rect)
        requires
            old(self).has_current(),
        ensures
            final(self).well_formed(),
            final(self)@ == old(self)@.with_viewport(area),
    {
        self.current_buffer_mut().resize(area);
        self.previous_buffer_mut().resize(area);
        if self.previous_unknown {
            self.previous_buffer_mut().forget();
        }
        self.viewport_area = area;
        let top: u16 = area.top();
        if self.visible_history_rows > top {
            self.visible_history_rows = top;
        }
    }

    /// Resizes the terminal if the size of the screen, as it was just asked for, has changed.
    pub fn autoresize(&mut self, screen_size: Size) -> (steps: Vec<Step>)
        requires
            old(self).has_current(),
        ensures
            old(self).well_formed() ==> final(self).well_formed(),
            final(self).has_current(),
            screen_size != old(self)@.screen_size ==> final(self)@ == old(self)@.with_screen(
                screen_size,
            ) && step_views(steps@) == clear_visible_screen_steps(),
            screen_size == old(self)@.screen_size ==> *final(self) == *old(self) && steps@.len()
                == 0,
    {
        if screen_size != self.last_known_screen_size {
            self.resize(screen_size)
        } else {
            Vec::new()
        }
    }

    /// Forgets what the screen shows: the next frame repaints the whole viewport.
    pub fn invalidate_viewport(&mut self)
        requires
            old(self).has_current(),
        ensures
            final(self).has_current(),
            old(self).well_formed() ==> final(self).well_formed(),
            final(self)@ == old(self)@.updated(Update::PreviousForgotten),
    {
        self.previous_buffer_mut().forget();
        self.previous_unknown = true;
    }

    /// Notes that the screen was erased: it shows a frame of empty cells.
    fn reset_previous(&mut self)
        requires
            old(self).has_current(),
        ensures
            final(self).has_current(),
            old(self).well_formed() ==> final(self).well_formed(),
            final(self)@ == old(self)@.updated(Update::PreviousReset),
    {
        self.previous_buffer_mut().reset();
        self.previous_unknown = false;
    }

    /// The number of rows of history above the viewport.
    pub fn visible_history_rows(&self) -> (rows: u16)
        ensures
            rows == self@.history_rows,
    {
        self.visible_history_rows
    }

    /// Notes that rows of history were put above the viewport. No more of them are visible
    /// than there are rows above the viewport.
    pub fn note_history_rows_inserted(&mut self, inserted_rows: u16)
        requires
            old(self).has_current(),
        ensures
            final(self).has_current(),
            old(self).well_formed() ==> final(self).well_formed(),
            final(self)@ == (TerminalView {
                history_rows: min_int(
                    old(self)@.history_rows + inserted_rows,
                    old(self)@.viewport_area.y as int,
                ) as u16,
                ..old(self)@
            }),
            final(self)@.history_rows <= old(self)@.viewport_area.y,
            final(self)@.history_rows <= old(self)@.history_rows + inserted_rows,
            final(self)@.history_rows == old(self)@.viewport_area.y || final(self)@.history_rows
                == old(self)@.history_rows + inserted_rows,
    {
        let rows: u16 = self.visible_history_rows.saturating_add(inserted_rows);
        let top: u16 = self.viewport_area.top();
        self.visible_history_rows = if rows > top {
            top
        } else {
            rows
        };
    }

    /// Empties the previous frame, and exchanges the two.
    pub fn swap_buffers(&mut self)
        requires
            old(self).has_current(),
        ensures
            final(self).has_current(),
            old(self).well_formed() ==> final(self).well_formed(),
            final(self)@ == old(self)@.updated(Update::Swapped),
    {
        self.reset_previous();
        self.current = 1 - self.current;
    }

    /// Exchanges the two frames. The frame that is drawn next keeps its cells: a full frame
    /// replaces them, and whoever renders single rows clears those first. It is emptied only
    /// where it was not known what the screen shows.
    pub fn swap_buffers_after_dense_rows(&mut self)
        requires
            old(self).has_current(),
        ensures
            final(self).has_current(),
            old(self).well_formed() ==> final(self).well_formed(),
            final(self)@ == old(self)@.updated(Update::SwappedAfterDenseRows),
    {
        if self.previous_unknown {
            self.reset_previous();
        }
        self.current = 1 - self.current;
    }

    /// Makes a change.
    pub fn update(&mut self, update: Update)
        requires
            old(self).has_current(),
        ensures
            final(self).has_current(),
            old(self).well_formed() ==> final(self).well_formed(),
            final(self)@ == old(self)@.updated(update),
    {
        match update {
            Update::CursorHidden(hidden) => {
                self.hidden_cursor = hidden;
            },
            Update::CursorAt(position) => {
                self.last_known_cursor_pos = position;
            },
            Update::HistoryGone => {
                self.visible_history_rows = 0;
            },
            Update::PreviousReset => {
                self.reset_previous();
            },
            Update::PreviousForgotten => {
                self.invalidate_viewport();
            },
            Update::Swapped => {
                self.swap_buffers();
            },
            Update::SwappedAfterDenseRows => {
                self.swap_buffers_after_dense_rows();
            },
        }
    }

    /// Makes the changes of a step, whose call has succeeded.
    pub fn complete(&mut self, step: &Step)
        requires
            old(self).has_current(),
        ensures
            final(self).has_current(),
            old(self).well_formed() ==> final(self).well_formed(),
            final(self)@ == old(self)@.all_updated(step@.updates),
    {
        let ghost before = self@;
        let mut i: usize = 0;
        while i < step.updates.len()
            invariant
                i <= step.updates.len(),
                self.has_current(),
                old(self).well_formed() ==> self.well_formed(),
                self@ == before.all_updated(step.updates@.take(i as int)),
            decreases step.updates.len() - i,
        {
            self.update(step.updates[i]);
            assert(step.updates@.take(i + 1).drop_last() =~= step.updates@.take(i as int));
            i = i + 1;
        }
        assert(step.updates@.take(i as int) =~= step.updates@);
    }
}

/// The bytes of a text.
fn text_bytes(text: &str) -> (bytes: Vec<u8>)
    ensures
        bytes@ == vstd::utf8::encode_utf8(text@),
{
    let mut bytes: Vec<u8> = Vec::new();
    bytes.extend_from_slice(text.as_bytes());
    assert(bytes@ =~= vstd::utf8::encode_utf8(text@));
    bytes
}

impl Terminal {
    /// Hides the cursor.
    pub fn hide_cursor(&self) -> (steps: Vec<Step>)
        ensures
            step_views(steps@) == seq![hide_cursor_step()],
            forall|device: Device| #[trigger]
                device.after_all(step_views(steps@)) == (Device { hidden: true, ..device }),
            forall|view: TerminalView| #[trigger]
                view.completed(step_views(steps@)) == (TerminalView {
                    hidden_cursor: true,
                    ..view
                }),
    {
        let steps = vec![Step::new(Call::HideCursor, vec![Update::CursorHidden(true)])];
        assert(step_views(steps@) =~~= seq![hide_cursor_step()]);
        proof {
            assert forall|device: Device| #[trigger]
                device.after_all(step_views(steps@)) == (Device { hidden: true, ..device }) by {
                law_hide_cursor(device, self@);
            }
            assert forall|view: TerminalView| #[trigger]
                view.completed(step_views(steps@)) == (TerminalView {
                    hidden_cursor: true,
                    ..view
                }) by {
                law_hide_cursor(arbitrary(), view);
            }
        }
        steps
    }

    /// Shows the cursor.
    pub fn show_cursor(&self) -> (steps: Vec<Step>)
        ensures
            step_views(steps@) == seq![show_cursor_step()],
            forall|device: Device| #[trigger]
                device.after_all(step_views(steps@)) == (Device { hidden: false, ..device }),
            forall|view: TerminalView| #[trigger]
                view.completed(step_views(steps@)) == (TerminalView {
                    hidden_cursor: false,
                    ..view
                }),
    {
        let steps = vec![Step::new(Call::ShowCursor, vec![Update::CursorHidden(false)])];
        assert(step_views(steps@) =~~= seq![show_cursor_step()]);
        proof {
            assert forall|device: Device| #[trigger]
                device.after_all(step_views(steps@)) == (Device { hidden: false, ..device }) by {
                law_show_cursor(device, self@);
            }
            assert forall|view: TerminalView| #[trigger]
                view.completed(step_views(steps@)) == (TerminalView {
                    hidden_cursor: false,
                    ..view
                }) by {
                law_show_cursor(arbitrary(), view);
            }
        }
        steps
    }

    /// Gives the visible cursor a shape.
    pub fn set_cursor_style(&self, style: SetCursorStyle) -> (steps: Vec<Step>)
        ensures
            step_views(steps@) == seq![cursor_style_step(style)],
            forall|device: Device|
                (#[trigger] device.after_all(step_views(steps@))).written == device.written
                    + vstd::utf8::encode_utf8(crate::ansi::cursor_style_sequence(style)),
            forall|view: TerminalView| #[trigger] view.completed(step_views(steps@)) == view,
    {
        let bytes = text_bytes(cursor_style_text(style).as_str());
        let steps = vec![Step::new(Call::Write(bytes), vec![])];
        assert(step_views(steps@) =~~= seq![cursor_style_step(style)]);
        proof {
            assert forall|device: Device|
                (#[trigger] device.after_all(step_views(steps@))).written == device.written
                    + vstd::utf8::encode_utf8(crate::ansi::cursor_style_sequence(style)) by {
                law_set_cursor_style(device, self@, style);
            }
            assert forall|view: TerminalView| #[trigger]
                view.completed(step_views(steps@)) == view by {
                law_set_cursor_style(arbitrary(), view, style);
            }
        }
        steps
    }

    /// Gives the cursor the shape that the user has configured.
    pub fn reset_cursor_style(&self) -> (steps: Vec<Step>)
        ensures
            step_views(steps@) == seq![cursor_style_step(SetCursorStyle::DefaultUserShape)],
            forall|device: Device|
                (#[trigger] device.after_all(step_views(steps@))).written == device.written
                    + vstd::utf8::encode_utf8(
                    crate::ansi::cursor_style_sequence(SetCursorStyle::DefaultUserShape),
                ),
    {
        self.set_cursor_style(SetCursorStyle::DefaultUserShape)
    }

    /// Moves the cursor.
    pub fn set_cursor_position(&self, position: Position) -> (steps: Vec<Step>)
        ensures
            step_views(steps@) == seq![cursor_position_step(position)],
            forall|device: Device| #[trigger]
                device.after_all(step_views(steps@)) == (Device {
                    cursor: Some(position),
                    ..device
                }),
            forall|view: TerminalView| #[trigger]
                view.completed(step_views(steps@)) == (TerminalView {
                    cursor_position: position,
                    ..view
                }),
    {
        let steps = vec![
            Step::new(Call::SetCursorPosition(position), vec![Update::CursorAt(position)]),
        ];
        assert(step_views(steps@) =~~= seq![cursor_position_step(position)]);
        proof {
            assert forall|device: Device| #[trigger]
                device.after_all(step_views(steps@)) == (Device {
                    cursor: Some(position),
                    ..device
                }) by {
                law_set_cursor_position(device, self@, position);
            }
            assert forall|view: TerminalView| #[trigger]
                view.completed(step_views(steps@)) == (TerminalView {
                    cursor_position: position,
                    ..view
                }) by {
                law_set_cursor_position(arbitrary(), view, position);
            }
        }
        steps
    }

    /// Erases the screen from the viewport on, and has the next frame drawn from scratch.
    pub fn clear(&self) -> (steps: Vec<Step>)
        ensures
            step_views(steps@) == (if self@.viewport_area.cell_count() == 0 {
                Seq::<StepView>::empty()
            } else {
                clear_after_position_steps(
                    Position { x: self@.viewport_area.x, y: self@.viewport_area.y },
                    self@.viewport_area,
                )
            }),
            self@.viewport_area.width == 0 || self@.viewport_area.height == 0 ==> steps@.len() == 0,
            self@.viewport_area.width > 0 && self@.viewport_area.height > 0 ==> {
                &&& notes_blank(self@, self@.completed(step_views(steps@)))
                &&& forall|device: Device|
                    (#[trigger] device.after_all(step_views(steps@))).is_blank_area(
                        self@.viewport_area,
                    )
                &&& forall|device: Device|
                    (#[trigger] device.after_all(step_views(steps@))).erased
                        == device.erased.push(
                        Position { x: self@.viewport_area.x, y: self@.viewport_area.y },
                    )
            },
    {
        proof {
            assert(self@.viewport_area.width > 0 && self@.viewport_area.height > 0
                <==> self@.viewport_area.width * self@.viewport_area.height > 0)
                by (nonlinear_arith);
        }
        if self.viewport_area.is_empty() {
            let steps: Vec<Step> = Vec::new();
            assert(step_views(steps@) =~~= seq![]);
            return steps;
        }
        let steps = self.clear_after_position(self.viewport_area.as_position());
        proof {
            let area = self@.viewport_area;
            let corner = Position { x: area.x, y: area.y };
            if area.width > 0 && area.height > 0 {
                law_clear_after_erases(arbitrary(), self@, corner);
                assert forall|device: Device|
                    (#[trigger] device.after_all(step_views(steps@))).is_blank_area(area) by {
                    law_clear_after_erases(device, self@, corner);
                }
                assert forall|device: Device|
                    (#[trigger] device.after_all(step_views(steps@))).erased
                        == device.erased.push(corner) by {
                    law_clear_after_erases(device, self@, corner);
                }
            }
        }
        steps
    }

    /// Erases the screen from a position on, and has the next frame drawn from scratch.
    pub fn clear_after_position(&self, position: Position) -> (steps: Vec<Step>)
        ensures
            step_views(steps@) == clear_after_position_steps(position, self@.viewport_area),
            ({
                let corner = Position { x: self@.viewport_area.x, y: self@.viewport_area.y };
                &&& is_from(corner, position) ==> notes_blank(
                    self@,
                    self@.completed(step_views(steps@)),
                )
                &&& !is_from(corner, position) ==> notes_unknown(
                    self@,
                    self@.completed(step_views(steps@)),
                )
                &&& forall|device: Device| #[trigger]
                    device.after_all(step_views(steps@)) == (Device {
                        cursor: Some(position),
                        erased: device.erased.push(position),
                        ..device
                    })
            }),
    {
        let area = self.viewport_area;
        let update = if position.y < area.y || (position.y == area.y && position.x <= area.x) {
            Update::PreviousReset
        } else {
            Update::PreviousForgotten
        };
        let steps = vec![
            Step::new(Call::SetCursorPosition(position), vec![]),
            Step::new(Call::ClearAfterCursor, vec![update]),
        ];
        assert(step_views(steps@) =~~= clear_after_position_steps(position, self@.viewport_area));
        proof {
            law_clear_after_erases(arbitrary(), self@, position);
            assert forall|device: Device| #[trigger]
                device.after_all(step_views(steps@)) == (Device {
                    cursor: Some(position),
                    erased: device.erased.push(position),
                    ..device
                }) by {
                law_clear_after_erases(device, self@, position);
            }
        }
        steps
    }

    /// Erases what has scrolled off the screen, and has the next frame drawn from scratch. The
    /// cursor is moved to the top left before and after, for terminals that mind where it is.
    pub fn clear_scrollback(&self) -> (steps: Vec<Step>)
        ensures
            step_views(steps@) == (if self@.viewport_area.cell_count() == 0 {
                Seq::<StepView>::empty()
            } else {
                clear_scrollback_steps()
            }),
            self@.viewport_area.width == 0 || self@.viewport_area.height == 0 ==> steps@.len() == 0,
            self@.viewport_area.width > 0 && self@.viewport_area.height > 0 ==> {
                &&& notes_unknown(self@, self@.completed(step_views(steps@)))
                &&& self@.completed(step_views(steps@)).cursor_position == home()
                &&& forall|device: Device|
                    (#[trigger] device.after_all(step_views(steps@))).cursor == Some(home())
            },
    {
        proof {
            assert(self@.viewport_area.width > 0 && self@.viewport_area.height > 0
                <==> self@.viewport_area.width * self@.viewport_area.height > 0)
                by (nonlinear_arith);
        }
        if self.viewport_area.is_empty() {
            let steps: Vec<Step> = Vec::new();
            assert(step_views(steps@) =~~= seq![]);
            return steps;
        }
        let top_left = Position { x: 0, y: 0 };
        let bytes = text_bytes(clear_text(ClearType::Purge).as_str());
        let steps = vec![
            Step::new(Call::SetCursorPosition(top_left), vec![Update::CursorAt(top_left)]),
            Step::new(Call::Write(bytes), vec![]),
            Step::new(Call::SetCursorPosition(top_left), vec![Update::CursorAt(top_left)]),
            Step::new(Call::FlushWriter, vec![Update::PreviousForgotten]),
        ];
        assert(step_views(steps@) =~~= clear_scrollback_steps());
        proof {
            law_scrollback_is_erased(arbitrary(), self@);
            assert forall|device: Device|
                (#[trigger] device.after_all(step_views(steps@))).cursor == Some(home()) by {
                law_scrollback_is_erased(device, self@);
            }
        }
        steps
    }

    /// Erases the whole screen, and has the next frame drawn from scratch. The cursor is moved
    /// to the top left before and after.
    pub fn clear_visible_screen(&self) -> (steps: Vec<Step>)
        ensures
            step_views(steps@) == clear_visible_screen_steps(),
            forall|device: Device, place: Position| #[trigger]
                device.after_all(step_views(steps@)).is_blank(place),
            forall|device: Device|
                (#[trigger] device.after_all(step_views(steps@))).cursor == Some(home()),
            notes_blank(self@, self@.completed(step_views(steps@))),
    {
        let top_left = Position { x: 0, y: 0 };
        let steps = vec![
            Step::new(Call::SetCursorPosition(top_left), vec![Update::CursorAt(top_left)]),
            Step::new(Call::ClearAll, vec![]),
            Step::new(Call::SetCursorPosition(top_left), vec![Update::CursorAt(top_left)]),
            Step::new(Call::FlushWriter, vec![Update::HistoryGone, Update::PreviousReset]),
        ];
        assert(step_views(steps@) =~~= clear_visible_screen_steps());
        proof {
            law_visible_screen_is_erased(arbitrary(), self@);
            assert forall|device: Device, place: Position| #[trigger]
                device.after_all(step_views(steps@)).is_blank(place) by {
                law_visible_screen_is_erased(device, self@);
            }
            assert forall|device: Device|
                (#[trigger] device.after_all(step_views(steps@))).cursor == Some(home()) by {
                law_visible_screen_is_erased(device, self@);
            }
        }
        steps
    }

    /// Erases the whole screen and what has scrolled off it in one go, and has the next frame
    /// drawn from scratch.
    pub fn clear_scrollback_and_visible_screen_ansi(&self) -> (steps: Vec<Step>)
        ensures
            step_views(steps@) == (if self@.viewport_area.cell_count() == 0 {
                Seq::<StepView>::empty()
            } else {
                reset_screen_steps()
            }),
            self@.viewport_area.width == 0 || self@.viewport_area.height == 0 ==> steps@.len() == 0,
            self@.viewport_area.width > 0 && self@.viewport_area.height > 0 ==> {
                &&& notes_blank(self@, self@.completed(step_views(steps@)))
                &&& self@.completed(step_views(steps@)).cursor_position == home()
                &&& forall|device: Device|
                    (#[trigger] device.after_all(step_views(steps@))).written == device.written
                        + vstd::utf8::encode_utf8(reset_sequences().flatten())
            },
    {
        proof {
            assert(self@.viewport_area.width > 0 && self@.viewport_area.height > 0
                <==> self@.viewport_area.width * self@.viewport_area.height > 0)
                by (nonlinear_arith);
        }
        if self.viewport_area.is_empty() {
            let steps: Vec<Step> = Vec::new();
            assert(step_views(steps@) =~~= seq![]);
            return steps;
        }
        let top_left = Position { x: 0, y: 0 };
        let bytes = text_bytes(RESET_SCREEN);
        let steps = vec![
            Step::new(Call::Write(bytes), vec![]),
            Step::new(
                Call::FlushWriter,
                vec![Update::CursorAt(top_left), Update::HistoryGone, Update::PreviousReset],
            ),
        ];
        assert(step_views(steps@) =~~= reset_screen_steps());
        proof {
            law_screen_is_reset(arbitrary(), self@);
            assert forall|device: Device|
                (#[trigger] device.after_all(step_views(steps@))).written == device.written
                    + vstd::utf8::encode_utf8(reset_sequences().flatten()) by {
                law_screen_is_reset(device, self@);
            }
        }
        steps
    }
}

/// Every command between two frames of a bounded area can be said to the terminal.
proof fn lemma_placeable(a: BufferView, b: BufferView, n: int)
    requires
        a.well_formed(),
        b.well_formed(),
        a.area == b.area,
        a.area.bounded(),
        0 <= n <= a.area.height,
    ensures
        forall|i: int|
            0 <= i < rows_commands(a, b, n).len() ==> (#[trigger] rows_commands(
                a,
                b,
                n,
            )[i]).position().encodable(),
    decreases n,
{
    if n > 0 {
        lemma_placeable(a, b, n - 1);
        let prev = a.row(n - 1);
        let next = b.row(n - 1);
        let x = a.area.x as int;
        let y = a.area.y + n - 1;
        let front = rows_commands(a, b, n - 1);
        let all = rows_commands(a, b, n);
        let row = row_commands(prev, next, x, y);
        lemma_row_bounds(a.area.width as int, a.area.height as int, n - 1);
        lemma_row_placed(prev, next, x, y);
        assert forall|i: int| 0 <= i < all.len() implies (
        #[trigger] all[i]).position().encodable() by {
            if i < front.len() {
                assert(all[i] == front[i]);
            } else {
                assert(all[i] == row[i - front.len()]);
            }
        }
    }
}

/// Every command for a row stands in it.
proof fn lemma_row_placed(prev: Seq<CellView>, next: Seq<CellView>, x: int, y: int)
    requires
        prev.len() == next.len(),
        0 <= x,
        x + next.len() <= u16::MAX,
        0 <= y < u16::MAX,
    ensures
        forall|i: int|
            0 <= i < row_commands(prev, next, x, y).len() ==> (#[trigger] row_commands(
                prev,
                next,
                x,
                y,
            )[i]).position().encodable(),
{
    let last = drawn_until(next);
    lemma_last_nonblank_cell(next, trailing_bg(next));
    lemma_puts(prev, next, x, y, 0, 0, last);
    let front = puts(prev, next, x, y, 0, 0, last);
    let list = row_commands(prev, next, x, y);
    assert forall|i: int| 0 <= i < list.len() implies (
    #[trigger] list[i]).position().encodable() by {
        if i < front.len() {
            assert(list[i] == front[i]);
            assert(shows_cell_of(front[i], x, next, 0));
        }
    }
}

impl Terminal {
    /// The changes between the frame that the screen shows and the one that is drawn next. The
    /// cursor is taken to be where the last changed cell is shown.
    pub fn take_updates(&mut self) -> (updates: Vec<DrawCommand>)
        requires
            old(self).has_current(),
            old(self)@.has_whole_frames(),
            old(self)@.previous.area.addressable(),
        ensures
            final(self).has_current(),
            old(self).well_formed() ==> final(self).well_formed(),
            final(self)@ == old(self)@.with_cursor_at_last_put(),
            command_views(updates@) == diff_commands(old(self)@.previous, old(self)@.current),
    {
        let updates = diff_buffers(self.previous_buffer(), self.current_buffer());
        let ghost views = command_views(updates@);
        let mut n: usize = updates.len();
        assert(views.take(n as int) =~= views);
        while n > 0
            invariant
                n <= updates.len(),
                views == command_views(updates@),
                last_put(views) == last_put(views.take(n as int)),
                self.has_current(),
                self@ == old(self)@,
                old(self)@.has_whole_frames(),
                views == diff_commands(old(self)@.previous, old(self)@.current),
            decreases n,
        {
            assert(views.take(n as int).last() == updates[n - 1]@);
            if let DrawCommand::Put { x, y, .. } = &updates[n - 1] {
                self.last_known_cursor_pos = Position { x: *x, y: *y };
                return updates;
            }
            assert(views.take(n as int).drop_last() =~= views.take(n - 1));
            n = n - 1;
        }
        updates
    }

    /// Writes changes.
    pub fn write_updates(&self, updates: &Vec<DrawCommand>) -> (steps: Vec<Step>)
        requires
            placeable(command_views(updates@)),
        ensures
            steps@.len() == 1,
            writes(steps@[0]@, draw_ops(command_views(updates@))),
            steps@[0]@.updates == Seq::<Update>::empty(),
    {
        let mut bytes: Vec<u8> = Vec::new();
        draw(&mut bytes, updates);
        assert(bytes@.skip(0) =~= bytes@);
        let steps = vec![Step::new(Call::Write(bytes), vec![])];
        assert(steps@[0]@.updates =~= Seq::<Update>::empty());
        steps
    }

    /// Writes what differs between the frame that the screen shows and the one that is drawn
    /// next.
    pub fn flush(&mut self) -> (steps: Vec<Step>)
        requires
            old(self).has_current(),
            old(self)@.has_whole_frames(),
            old(self)@.previous.area.bounded(),
        ensures
            final(self).has_current(),
            old(self).well_formed() ==> final(self).well_formed(),
            final(self)@ == old(self)@.with_cursor_at_last_put(),
            steps@.len() == 1,
            writes(steps@[0]@, old(self)@.frame_ops(FrameFlush::Sparse)),
            steps@[0]@.updates == Seq::<Update>::empty(),
    {
        let ghost before = self@;
        let updates = self.take_updates();
        proof {
            lemma_placeable(before.previous, before.current, before.previous.area.height as int);
        }
        self.write_updates(&updates)
    }

    /// Writes screen rows of the frame that is drawn next, as far as they lie in it, and says
    /// how many runs and clearings that takes. The cursor is taken to be where the last cell is
    /// shown.
    pub fn flush_dense_rows(&self, rows: Range<u16>) -> (flushed: (Vec<Step>, usize))
        requires
            self.has_current(),
            self@.has_whole_frames(),
            self@.current.area.x + self@.current.area.width <= u16::MAX,
        ensures
            flushed.0@.len() == 1,
            writes(flushed.0@[0]@, self@.frame_ops(FrameFlush::Dense(rows))),
            flushed.0@[0]@.updates == self@.frame_updates(FrameFlush::Dense(rows)),
            flushed.1 == (if paints(self@.current, rows) {
                dense_commands(
                    self@.current,
                    first_row(self@.current, rows),
                    end_row(self@.current, rows),
                ).len()
            } else {
                0
            }),
    {
        let mut bytes: Vec<u8> = Vec::new();
        let ghost nothing = bytes@;
        proof {
            lemma_appends_nothing(nothing);
        }
        let buffer = self.current_buffer();
        let stats = draw_dense_rows(&mut bytes, buffer, Range { start: rows.start, end: rows.end });
        assert(bytes@.skip(0) =~= bytes@);
        let updates = match stats.last_put {
            Some(position) => vec![Update::CursorAt(position)],
            None => vec![],
        };
        assert(updates@ =~= self@.frame_updates(FrameFlush::Dense(rows)));
        (vec![Step::new(Call::Write(bytes), updates)], stats.commands)
    }

    /// Gives the cursor what a frame wants of it once the frame was written, exchanges the
    /// frames and sends everything.
    pub fn finish_frame(&self, cursor: FrameCursor, swap: Update) -> (steps: Vec<Step>)
        ensures
            step_views(steps@) == finish_steps(cursor, swap),
            forall|device: Device|
                (#[trigger] device.after_all(step_views(steps@))).has_cursor_of(cursor),
    {
        let mut steps: Vec<Step> = Vec::new();
        match cursor.position {
            None => {
                steps.push(Step::new(Call::HideCursor, vec![Update::CursorHidden(true), swap]));
            },
            Some(position) => {
                let bytes = text_bytes(cursor_style_text(cursor.style).as_str());
                steps.push(Step::new(Call::Write(bytes), vec![]));
                steps.push(Step::new(Call::ShowCursor, vec![Update::CursorHidden(false)]));
                steps.push(
                    Step::new(
                        Call::SetCursorPosition(position),
                        vec![Update::CursorAt(position), swap],
                    ),
                );
            },
        }
        steps.push(Step::new(Call::FlushBackend, vec![]));
        assert(step_views(steps@) =~~= finish_steps(cursor, swap));
        proof {
            assert forall|device: Device|
                (#[trigger] device.after_all(step_views(steps@))).has_cursor_of(cursor) by {
                law_finished_frame_has_its_cursor(device, cursor, swap);
            }
        }
        steps
    }
}

impl Terminal {
    /// Draws the frame that was rendered.
    pub fn draw(&mut self, cursor: FrameCursor) -> (drawn: Drawn<'_>)
        requires
            old(self).has_current(),
            old(self)@.has_whole_frames(),
            old(self)@.previous.area.bounded(),
        ensures
            final(self).has_current(),
            old(self).well_formed() ==> final(self).well_formed(),
            final(self)@ == old(self)@.before_frame(FrameFlush::Sparse),
            old(self)@.is_drawn(drawn, cursor, FrameFlush::Sparse),
            forall|device: Device|
                (#[trigger] device.after_all(step_views(drawn.steps@))).has_cursor_of(cursor),
    {
        self.draw_with_flush(cursor, FrameFlush::Sparse)
    }

    /// Draws the frame that was rendered, or rows of it.
    pub fn draw_with_flush(&mut self, cursor: FrameCursor, flush: FrameFlush) -> (drawn: Drawn<'_>)
        requires
            old(self).has_current(),
            old(self)@.has_whole_frames(),
            old(self)@.previous.area.bounded(),
        ensures
            final(self).has_current(),
            old(self).well_formed() ==> final(self).well_formed(),
            final(self)@ == old(self)@.before_frame(flush),
            old(self)@.is_drawn(drawn, cursor, flush),
            forall|device: Device|
                (#[trigger] device.after_all(step_views(drawn.steps@))).has_cursor_of(cursor),
    {
        let ghost wanted = flush;
        let mut swap = Update::Swapped;
        let mut steps = match flush {
            FrameFlush::Sparse => self.flush(),
            FrameFlush::Dense(rows) => {
                swap = Update::SwappedAfterDenseRows;
                self.flush_dense_rows(rows).0
            },
        };
        let ghost first = steps@[0]@;
        let mut rest = self.finish_frame(cursor, swap);
        let ghost finishing = rest@;
        let ghost writing = steps@;
        steps.append(&mut rest);
        proof {
            let all = step_views(steps@);
            assert(steps@ =~= writing + finishing);
            assert(all.skip(1) =~= step_views(finishing));
            assert(all[0] == first);
            assert(swap == swap_of(wanted));
        }
        proof {
            let all = step_views(steps@);
            let view = old(self)@;
            assert forall|device: Device| (#[trigger] device.after_all(all)).has_cursor_of(
                cursor,
            ) by {
                law_drawn_frame_has_its_cursor(
                    device,
                    all,
                    view.frame_ops(wanted),
                    view.frame_updates(wanted),
                    cursor,
                    swap,
                );
            }
        }
        let area = self.viewport_area;
        Drawn { steps, frame: CompletedFrame { buffer: self.current_buffer(), area } }
    }

    /// Draws the frame that was rendered, unless rendering has failed: then the error comes
    /// back, and the terminal stays as it is.
    pub fn try_draw<E>(&mut self, rendered: Result<FrameCursor, E>) -> (drawn: Result<Drawn<'_>, E>)
        requires
            rendered is Ok ==> old(self).has_current() && old(self)@.has_whole_frames() && old(
                self,
            )@.previous.area.bounded(),
        ensures
            old(self).has_current() ==> final(self).has_current(),
            old(self).well_formed() ==> final(self).well_formed(),
            match rendered {
                Err(error) => {
                    &&& drawn is Err
                    &&& drawn->Err_0 == error
                    &&& *final(self) == *old(self)
                },
                Ok(cursor) => {
                    &&& drawn is Ok
                    &&& final(self)@ == old(self)@.before_frame(FrameFlush::Sparse)
                    &&& old(self)@.is_drawn(drawn->Ok_0, cursor, FrameFlush::Sparse)
                    &&& forall|device: Device|
                        (#[trigger] device.after_all(
                            step_views((drawn->Ok_0).steps@),
                        )).has_cursor_of(cursor)
                },
            },
    {
        match rendered {
            Err(error) => Err(error),
            Ok(cursor) => Ok(self.draw(cursor)),
        }
    }

    /// Draws the frame that was rendered, or rows of it, unless rendering has failed: then the
    /// error comes back, and the terminal stays as it is.
    pub fn try_draw_with_flush<E>(&mut self, rendered: Result<(FrameCursor, FrameFlush), E>) -> (
    drawn: Result<Drawn<'_>, E>)
        requires
            rendered is Ok ==> old(self).has_current() && old(self)@.has_whole_frames() && old(
                self,
            )@.previous.area.bounded(),
        ensures
            old(self).has_current() ==> final(self).has_current(),
            old(self).well_formed() ==> final(self).well_formed(),
            match rendered {
                Err(error) => {
                    &&& drawn is Err
                    &&& drawn->Err_0 == error
                    &&& *final(self) == *old(self)
                },
                Ok((cursor, flush)) => {
                    &&& drawn is Ok
                    &&& final(self)@ == old(self)@.before_frame(flush)
                    &&& old(self)@.is_drawn(drawn->Ok_0, cursor, flush)
                    &&& forall|device: Device|
                        (#[trigger] device.after_all(
                            step_views((drawn->Ok_0).steps@),
                        )).has_cursor_of(cursor)
                },
            },
    {
        match rendered {
            Err(error) => Err(error),
            Ok((cursor, flush)) => Ok(self.draw_with_flush(cursor, flush)),
        }
    }
}

} // verus!
