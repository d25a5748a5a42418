use crossterm::cursor::SetCursorStyle as CrosstermCursorStyle;
use crossterm::terminal::{Clear, ClearType as CrosstermClearType};
use crossterm::Command;
use custom_terminal::buffer::{clear_buffer_rows, Buffer, Cell};
use custom_terminal::geometry::{Position, Rect, Size};
use custom_terminal::style::{Color, Modifier, SetCursorStyle};
use custom_terminal::terminal::{Call, FrameCursor, FrameFlush, Step, Terminal, Update};

/// A terminal device that notes what is done to it.
struct CaptureBackend {
    output: Vec<u8>,
    size: Size,
    cursor: Position,
    calls: Vec<String>,
    failing: Option<usize>,
}

impl CaptureBackend {
    fn new(width: u16, height: u16) -> Self {
        Self {
            output: Vec::new(),
            size: Size { width, height },
            cursor: Position { x: 0, y: 0 },
            calls: Vec::new(),
            failing: None,
        }
    }

    fn output(&self) -> String {
        String::from_utf8_lossy(&self.output).into_owned()
    }

    fn perform(&mut self, call: &Call) -> Result<(), String> {
        if self.failing == Some(self.calls.len()) {
            return Err("device is gone".to_owned());
        }
        self.calls.push(format!("{call:?}"));
        match call {
            Call::Write(bytes) => self.output.extend_from_slice(bytes),
            Call::SetCursorPosition(position) => self.cursor = *position,
            _ => {}
        }
        Ok(())
    }

    fn run(&mut self, terminal: &mut Terminal, steps: Vec<Step>) -> Result<(), String> {
        for step in &steps {
            self.perform(&step.call)?;
            terminal.complete(step);
        }
        Ok(())
    }
}

fn created(backend: &CaptureBackend) -> Terminal {
    Terminal::with_options(backend.size, Some(backend.cursor))
}

fn set_string(buffer: &mut Buffer, x: usize, y: usize, text: &str) {
    let width = buffer.area.width as usize;
    for (i, c) in text.chars().enumerate() {
        buffer.content[y * width + x + i].symbol = c.to_string();
    }
}

fn hidden() -> FrameCursor {
    FrameCursor {
        position: None,
        style: SetCursorStyle::DefaultUserShape,
    }
}

fn row_text(buffer: &Buffer, row: usize) -> String {
    let width = buffer.area.width as usize;
    buffer.content[row * width..(row + 1) * width]
        .iter()
        .map(Cell::symbol)
        .collect::<String>()
}

fn is_blank(buffer: &Buffer) -> bool {
    buffer.content.iter().all(|cell| *cell == Cell::empty())
}

fn ansi(command: impl Command) -> String {
    let mut text = String::new();
    command.write_ansi(&mut text).expect("write command");
    text
}

fn written(steps: &[Step]) -> String {
    steps
        .iter()
        .map(|step| match &step.call {
            Call::Write(bytes) => String::from_utf8(bytes.clone()).expect("utf8"),
            _ => String::new(),
        })
        .collect()
}

const PLAIN: &str = "\x1b[39m\x1b[49m\x1b[0m";

#[test]
fn dense_rows_update_flushed_rows_when_caller_clears_rows() {
    let area = Rect::new(0, 0, 4, 2);
    let mut backend = CaptureBackend::new(4, 2);
    let mut terminal = created(&backend);
    terminal.set_viewport_area(area);

    let mut frame = terminal.get_frame();
    set_string(frame.buffer_mut(), 0, 0, "aaaa");
    set_string(frame.buffer_mut(), 0, 1, "bbbb");
    let cursor = frame.cursor();
    let steps = terminal.draw(cursor).steps;
    backend.run(&mut terminal, steps).expect("initial draw");

    let mut frame = terminal.get_frame();
    frame.clear_rows(1..2);
    set_string(frame.buffer_mut(), 0, 1, "cccc");
    let cursor = frame.cursor();
    let steps = terminal.draw_with_flush(cursor, FrameFlush::Dense(1..2)).steps;
    backend.run(&mut terminal, steps).expect("dense draw");

    assert_eq!("cccc", row_text(terminal.previous_buffer(), 1));

    let mut frame = terminal.get_frame();
    frame.clear_rows(1..2);
    set_string(frame.buffer_mut(), 0, 1, "dddd");
    let cursor = frame.cursor();
    let steps = terminal.draw_with_flush(cursor, FrameFlush::Dense(1..2)).steps;
    backend.run(&mut terminal, steps).expect("second dense draw");

    assert_eq!("dddd", row_text(terminal.previous_buffer(), 1));
}

#[test]
fn terminal_draw_applies_requested_cursor_style() {
    let mut backend = CaptureBackend::new(2, 1);
    let mut terminal = created(&backend);
    terminal.set_viewport_area(Rect::new(0, 0, 2, 1));

    let mut frame = terminal.get_frame();
    frame.set_cursor_style(SetCursorStyle::SteadyBar);
    frame.set_cursor_position(Position { x: 0, y: 0 });
    let rendered: Result<FrameCursor, String> = Ok(frame.cursor());
    let steps = terminal.try_draw(rendered).expect("rendered").steps;
    backend.run(&mut terminal, steps).expect("draw");

    let expected = ansi(CrosstermCursorStyle::SteadyBar);
    let actual = backend.output();
    assert!(
        actual.contains(&expected),
        "expected terminal output to contain cursor style {expected:?}, got {actual:?}"
    );
}

#[test]
fn reset_cursor_style_emits_default_user_shape() {
    let mut backend = CaptureBackend::new(2, 1);
    let mut terminal = created(&backend);

    let steps = terminal.reset_cursor_style();
    backend.run(&mut terminal, steps).expect("reset cursor style");

    let expected = ansi(CrosstermCursorStyle::DefaultUserShape);
    let actual = backend.output();
    assert!(
        actual.contains(&expected),
        "expected terminal output to contain cursor style reset {expected:?}, got {actual:?}"
    );
}

#[test]
fn every_cursor_style_is_that_of_the_backend() {
    let terminal = created(&CaptureBackend::new(2, 1));
    let styles = [
        (SetCursorStyle::DefaultUserShape, CrosstermCursorStyle::DefaultUserShape),
        (SetCursorStyle::BlinkingBlock, CrosstermCursorStyle::BlinkingBlock),
        (SetCursorStyle::SteadyBlock, CrosstermCursorStyle::SteadyBlock),
        (SetCursorStyle::BlinkingUnderScore, CrosstermCursorStyle::BlinkingUnderScore),
        (SetCursorStyle::SteadyUnderScore, CrosstermCursorStyle::SteadyUnderScore),
        (SetCursorStyle::BlinkingBar, CrosstermCursorStyle::BlinkingBar),
        (SetCursorStyle::SteadyBar, CrosstermCursorStyle::SteadyBar),
    ];
    for (style, outside) in styles {
        assert_eq!(written(&terminal.set_cursor_style(style)), ansi(outside));
    }
    assert_eq!(
        written(&terminal.set_cursor_style(SetCursorStyle::SteadyBar)),
        "\x1b[6 q"
    );
}

#[test]
fn a_new_terminal_stands_at_the_cursor() {
    let size = Size { width: 80, height: 24 };
    let position = Position { x: 3, y: 9 };
    let terminal = Terminal::with_options_and_cursor_position(size, position);
    assert_eq!(
        terminal.viewport_area,
        Rect { x: 0, y: 9, width: 0, height: 0 }
    );
    assert_eq!(terminal.last_known_cursor_pos, position);
    assert_eq!(terminal.last_known_screen_size, size);
    assert_eq!(terminal.visible_history_rows(), 0);
    assert!(!terminal.hidden_cursor);
    assert_eq!(terminal.current_buffer().content.len(), 0);
    assert_eq!(terminal.previous_buffer().content.len(), 0);
}

#[test]
fn an_unknown_cursor_stands_at_the_top_left() {
    let size = Size { width: 80, height: 24 };
    let terminal = Terminal::with_options(size, None);
    assert_eq!(terminal.last_known_cursor_pos, Position { x: 0, y: 0 });
    let terminal = Terminal::with_options(size, Some(Position { x: 1, y: 2 }));
    assert_eq!(terminal.last_known_cursor_pos, Position { x: 1, y: 2 });
}

#[test]
fn a_resized_terminal_has_the_size_of_the_screen() {
    let mut backend = CaptureBackend::new(2, 1);
    let mut terminal = filled();
    let steps = terminal.resize(Size { width: 3, height: 4 });
    let area = Rect::new(0, 0, 3, 4);
    assert_eq!(terminal.last_known_screen_size, Size { width: 3, height: 4 });
    assert_eq!(terminal.current_buffer().area, area);
    assert_eq!(terminal.previous_buffer().area, area);
    assert_eq!(terminal.previous_buffer().content.len(), 12);
    assert_eq!(terminal.viewport_area, area);
    assert_eq!(terminal.visible_history_rows(), 0);
    assert_eq!(steps, terminal.clear_visible_screen());
    backend.run(&mut terminal, steps).expect("clear");
    assert!(is_blank(terminal.previous_buffer()));
}

#[test]
fn the_screen_size_is_noted_where_it_has_changed() {
    let mut terminal = created(&CaptureBackend::new(2, 1));
    terminal.set_viewport_area(Rect::new(0, 1, 2, 1));
    assert_eq!(terminal.autoresize(Size { width: 2, height: 1 }), vec![]);
    assert_eq!(terminal.viewport_area, Rect::new(0, 1, 2, 1));
    assert_eq!(terminal.autoresize(Size { width: 9, height: 8 }).len(), 4);
    assert_eq!(terminal.last_known_screen_size, Size { width: 9, height: 8 });
    assert_eq!(terminal.current_buffer().area, Rect::new(0, 0, 9, 8));
    assert_eq!(terminal.autoresize(Size { width: 9, height: 8 }), vec![]);
}

#[test]
fn history_fits_above_the_viewport() {
    let mut terminal = created(&CaptureBackend::new(2, 1));
    terminal.set_viewport_area(Rect::new(0, 5, 2, 1));
    terminal.note_history_rows_inserted(3);
    assert_eq!(terminal.visible_history_rows(), 3);
    terminal.note_history_rows_inserted(u16::MAX);
    assert_eq!(terminal.visible_history_rows(), 5);
    terminal.set_viewport_area(Rect::new(0, 2, 2, 1));
    assert_eq!(terminal.visible_history_rows(), 2);
    terminal.set_viewport_area(Rect::new(0, 7, 2, 1));
    assert_eq!(terminal.visible_history_rows(), 2);
}

#[test]
fn a_viewport_keeps_the_cells_that_it_has_room_for() {
    let mut terminal = created(&CaptureBackend::new(4, 4));
    terminal.set_viewport_area(Rect::new(0, 0, 2, 2));
    set_string(terminal.current_buffer_mut(), 0, 0, "ab");
    set_string(terminal.current_buffer_mut(), 0, 1, "cd");
    set_string(terminal.previous_buffer_mut(), 0, 0, "xy");
    terminal.set_viewport_area(Rect::new(1, 1, 3, 1));
    assert_eq!(row_text(terminal.current_buffer(), 0), "abc");
    assert_eq!(row_text(terminal.previous_buffer(), 0), "xy ");
    terminal.set_viewport_area(Rect::new(1, 1, 3, 2));
    assert_eq!(row_text(terminal.current_buffer(), 1), "   ");
    assert_eq!(terminal.current_buffer().area, Rect::new(1, 1, 3, 2));
}

#[test]
fn a_frame_starts_without_a_cursor() {
    let mut terminal = created(&CaptureBackend::new(4, 4));
    terminal.set_viewport_area(Rect::new(1, 2, 2, 1));
    let frame = terminal.get_frame();
    assert_eq!(frame.area(), Rect::new(1, 2, 2, 1));
    assert_eq!(frame.cursor(), hidden());
}

#[test]
fn a_drawn_frame_is_the_previous_one() {
    let mut backend = CaptureBackend::new(2, 1);
    let mut terminal = created(&backend);
    terminal.set_viewport_area(Rect::new(0, 0, 2, 1));
    set_string(terminal.get_frame().buffer_mut(), 0, 0, "a");
    let steps = terminal.draw(hidden()).steps;
    assert_eq!(terminal.last_known_cursor_pos, Position { x: 0, y: 0 });
    backend.run(&mut terminal, steps).expect("draw");
    assert_eq!(row_text(terminal.previous_buffer(), 0), "a ");
    assert!(is_blank(terminal.current_buffer()));
    assert!(terminal.hidden_cursor);
    assert_eq!(backend.output(), format!("\x1b[1;1Ha{PLAIN}"));
    assert_eq!(backend.calls[1..], ["HideCursor", "FlushBackend"]);
    // The same frame again.
    set_string(terminal.get_frame().buffer_mut(), 0, 0, "a");
    let steps = terminal.draw(hidden()).steps;
    assert_eq!(written(&steps), PLAIN);
}

#[test]
fn a_frame_that_wants_the_cursor_shows_it() {
    let mut backend = CaptureBackend::new(4, 1);
    let mut terminal = created(&backend);
    terminal.set_viewport_area(Rect::new(0, 0, 4, 1));
    set_string(terminal.get_frame().buffer_mut(), 1, 0, "b");
    let steps = terminal.draw(FrameCursor {
        position: Some(Position { x: 3, y: 0 }),
        style: SetCursorStyle::BlinkingBlock,
    })
    .steps;
    // The last cell that is shown, until the cursor is moved.
    assert_eq!(terminal.last_known_cursor_pos, Position { x: 1, y: 0 });
    backend.run(&mut terminal, steps).expect("draw");
    assert_eq!(terminal.last_known_cursor_pos, Position { x: 3, y: 0 });
    assert!(!terminal.hidden_cursor);
    assert_eq!(
        backend.output(),
        format!("\x1b[1;2Hb{PLAIN}\x1b[1 q")
    );
    assert_eq!(backend.calls.len(), 5);
    assert_eq!(backend.calls[2], "ShowCursor");
    assert_eq!(backend.calls[4], "FlushBackend");
}

#[test]
fn a_frame_that_could_not_be_rendered_is_not_drawn() {
    let mut terminal = created(&CaptureBackend::new(2, 1));
    terminal.set_viewport_area(Rect::new(0, 0, 2, 1));
    set_string(terminal.get_frame().buffer_mut(), 0, 0, "a");
    let failed: Result<FrameCursor, &str> = Err("no data");
    assert_eq!(terminal.try_draw(failed), Err("no data"));
    let failed: Result<(FrameCursor, FrameFlush), &str> = Err("no data");
    assert_eq!(terminal.try_draw_with_flush(failed), Err("no data"));
    assert!(is_blank(terminal.previous_buffer()));
    assert_eq!(row_text(terminal.current_buffer(), 0), "a ");
    assert_eq!(terminal.last_known_cursor_pos, Position { x: 0, y: 0 });
    assert!(!terminal.hidden_cursor);
}

#[test]
fn a_frame_that_could_not_be_sent_can_be_drawn_again() {
    for failing in 0..4 {
        let mut backend = CaptureBackend::new(2, 1);
        backend.failing = Some(failing);
        let mut terminal = created(&backend);
        terminal.set_viewport_area(Rect::new(0, 0, 2, 1));
        set_string(terminal.get_frame().buffer_mut(), 0, 0, "a");
        let steps = terminal.draw(FrameCursor {
            position: Some(Position { x: 1, y: 0 }),
            style: SetCursorStyle::SteadyBlock,
        })
        .steps;
        assert_eq!(steps.len(), 5);
        backend.run(&mut terminal, steps).expect_err("device is gone");
        assert!(is_blank(terminal.previous_buffer()));
        assert_eq!(row_text(terminal.current_buffer(), 0), "a ");
    }
}

#[test]
fn dense_rows_keep_the_other_frame() {
    let mut backend = CaptureBackend::new(2, 2);
    let mut terminal = created(&backend);
    terminal.set_viewport_area(Rect::new(0, 0, 2, 2));
    set_string(terminal.previous_buffer_mut(), 0, 0, "pp");
    set_string(terminal.current_buffer_mut(), 0, 1, "x");
    let rendered: Result<(FrameCursor, FrameFlush), String> =
        Ok((hidden(), FrameFlush::Dense(1..2)));
    let steps = terminal.try_draw_with_flush(rendered).expect("rendered").steps;
    assert_eq!(steps[0].updates, vec![Update::CursorAt(Position { x: 0, y: 1 })]);
    backend.run(&mut terminal, steps).expect("draw");
    assert_eq!(backend.output(), format!("\x1b[2;1Hx\x1b[K{PLAIN}"));
    assert_eq!(terminal.last_known_cursor_pos, Position { x: 0, y: 1 });
    assert_eq!(row_text(terminal.previous_buffer(), 1), "x ");
    assert_eq!(row_text(terminal.current_buffer(), 0), "pp");
}

#[test]
fn the_cursor_is_hidden_and_shown() {
    let mut backend = CaptureBackend::new(2, 2);
    let mut terminal = created(&backend);
    let steps = terminal.hide_cursor();
    backend.run(&mut terminal, steps).expect("hide");
    assert!(terminal.hidden_cursor);
    let steps = terminal.show_cursor();
    backend.run(&mut terminal, steps).expect("show");
    assert!(!terminal.hidden_cursor);
    let steps = terminal.set_cursor_position(Position { x: 1, y: 1 });
    backend.run(&mut terminal, steps).expect("move");
    assert_eq!(terminal.last_known_cursor_pos, Position { x: 1, y: 1 });
    assert_eq!(backend.cursor, Position { x: 1, y: 1 });
}

fn filled() -> Terminal {
    let mut terminal = created(&CaptureBackend::new(2, 8));
    terminal.set_viewport_area(Rect::new(1, 5, 2, 1));
    set_string(terminal.previous_buffer_mut(), 0, 0, "ab");
    terminal.note_history_rows_inserted(4);
    terminal.update(Update::CursorAt(Position { x: 1, y: 1 }));
    terminal
}

#[test]
fn clearing_starts_at_the_viewport() {
    let mut backend = CaptureBackend::new(2, 8);
    let mut terminal = filled();
    let steps = terminal.clear();
    backend.run(&mut terminal, steps).expect("clear");
    assert_eq!(backend.cursor, Position { x: 1, y: 5 });
    assert_eq!(backend.calls[1], "ClearAfterCursor");
    assert!(is_blank(terminal.previous_buffer()));
    assert_eq!(terminal.last_known_cursor_pos, Position { x: 1, y: 1 });
    assert_eq!(terminal.visible_history_rows(), 4);
}

#[test]
fn clearing_below_the_top_of_the_viewport_forgets_the_rest() {
    let terminal = filled();
    let last = |x, y| terminal.clear_after_position(Position { x, y })[1].updates.clone();
    assert_eq!(last(1, 5), vec![Update::PreviousReset]);
    assert_eq!(last(0, 5), vec![Update::PreviousReset]);
    assert_eq!(last(2, 5), vec![Update::PreviousForgotten]);
    assert_eq!(last(0, 6), vec![Update::PreviousForgotten]);
}

#[test]
fn clearing_starts_at_a_position() {
    let steps = filled().clear_after_position(Position { x: 0, y: 2 });
    assert_eq!(
        steps,
        vec![
            Step {
                call: Call::SetCursorPosition(Position { x: 0, y: 2 }),
                updates: vec![],
            },
            Step {
                call: Call::ClearAfterCursor,
                updates: vec![Update::PreviousReset],
            },
        ]
    );
}

#[test]
fn an_empty_viewport_is_not_cleared() {
    let terminal = created(&CaptureBackend::new(2, 2));
    assert_eq!(terminal.clear(), vec![]);
    assert_eq!(terminal.clear_scrollback(), vec![]);
    assert_eq!(terminal.clear_scrollback_and_visible_screen_ansi(), vec![]);
    assert_eq!(terminal.clear_visible_screen().len(), 4);
}

#[test]
fn scrollback_is_cleared() {
    let mut backend = CaptureBackend::new(2, 8);
    let mut terminal = filled();
    let steps = terminal.clear_scrollback();
    backend.run(&mut terminal, steps).expect("clear");
    assert_eq!(backend.output(), ansi(Clear(CrosstermClearType::Purge)));
    assert_eq!(backend.output(), "\x1b[3J");
    assert_eq!(backend.calls[3], "FlushWriter");
    assert_eq!(terminal.last_known_cursor_pos, Position { x: 0, y: 0 });
    assert_eq!(terminal.visible_history_rows(), 4);
    // The screen was not erased, so even blank cells are written again.
    assert_eq!(
        written(&terminal.flush()),
        format!("\x1b[6;2H \x1b[0m\x1b[49m\x1b[K{PLAIN}")
    );
}

#[test]
fn the_visible_screen_is_cleared() {
    let mut backend = CaptureBackend::new(2, 8);
    let mut terminal = filled();
    let steps = terminal.clear_visible_screen();
    backend.run(&mut terminal, steps).expect("clear");
    assert_eq!(backend.calls[1], "ClearAll");
    assert_eq!(backend.calls[3], "FlushWriter");
    assert_eq!(terminal.last_known_cursor_pos, Position { x: 0, y: 0 });
    assert!(is_blank(terminal.previous_buffer()));
    assert_eq!(terminal.visible_history_rows(), 0);
}

#[test]
fn history_stays_until_the_screen_is_cleared() {
    for failing in 0..4 {
        let mut backend = CaptureBackend::new(2, 8);
        backend.failing = Some(failing);
        let mut terminal = filled();
        let steps = terminal.clear_visible_screen();
        backend.run(&mut terminal, steps).expect_err("device is gone");
        assert_eq!(row_text(terminal.previous_buffer(), 0), "ab");
        assert_eq!(terminal.visible_history_rows(), 4);
    }
}

#[test]
fn everything_is_cleared_at_once() {
    let mut backend = CaptureBackend::new(2, 8);
    let mut terminal = filled();
    let steps = terminal.clear_scrollback_and_visible_screen_ansi();
    assert_eq!(steps.len(), 2);
    assert_eq!(steps[1].call, Call::FlushWriter);
    backend.run(&mut terminal, steps).expect("clear");
    assert_eq!(
        backend.output(),
        "\x1b[r\x1b[0m\x1b[H\x1b[2J\x1b[3J\x1b[H"
    );
    assert_eq!(terminal.last_known_cursor_pos, Position { x: 0, y: 0 });
    assert!(is_blank(terminal.previous_buffer()));
    assert_eq!(terminal.visible_history_rows(), 0);
}

#[test]
fn an_invalidated_viewport_is_drawn_from_scratch() {
    let mut terminal = filled();
    set_string(terminal.current_buffer_mut(), 0, 0, "ab");
    terminal.invalidate_viewport();
    assert_eq!(row_text(terminal.current_buffer(), 0), "ab");
    let steps = terminal.flush();
    assert_eq!(written(&steps), format!("\x1b[6;2Hab{PLAIN}"));
    assert_eq!(terminal.last_known_cursor_pos, Position { x: 2, y: 5 });
}

#[test]
fn blank_cells_of_an_invalidated_viewport_are_repainted() {
    let mut terminal = created(&CaptureBackend::new(3, 2));
    terminal.set_viewport_area(Rect::new(0, 0, 3, 2));
    set_string(terminal.current_buffer_mut(), 0, 1, "abc");
    terminal.invalidate_viewport();
    assert_eq!(
        written(&terminal.flush()),
        format!("\x1b[1;1H \x1b[0m\x1b[49m\x1b[K\x1b[2;1Habc{PLAIN}")
    );
    // A viewport that grows in between is repainted as a whole too.
    terminal.set_viewport_area(Rect::new(0, 0, 3, 3));
    assert_eq!(
        written(&terminal.flush()),
        format!(
            "\x1b[1;1H \x1b[0m\x1b[49m\x1b[K\x1b[2;1Habc\
             \x1b[3;1H \x1b[0m\x1b[49m\x1b[K{PLAIN}"
        )
    );
}

#[test]
fn a_forgotten_frame_is_not_rendered_into() {
    let mut terminal = filled();
    terminal.invalidate_viewport();
    terminal.swap_buffers_after_dense_rows();
    assert!(is_blank(terminal.current_buffer()));
    let mut terminal = filled();
    terminal.invalidate_viewport();
    terminal.swap_buffers();
    assert!(is_blank(terminal.current_buffer()));
}

#[test]
fn swapped_frames_are_emptied() {
    let mut terminal = filled();
    set_string(terminal.current_buffer_mut(), 0, 0, "cd");
    terminal.swap_buffers();
    assert_eq!(row_text(terminal.previous_buffer(), 0), "cd");
    assert!(is_blank(terminal.current_buffer()));
    let mut terminal = filled();
    set_string(terminal.current_buffer_mut(), 0, 0, "cd");
    terminal.swap_buffers_after_dense_rows();
    assert_eq!(row_text(terminal.previous_buffer(), 0), "cd");
    assert_eq!(row_text(terminal.current_buffer(), 0), "ab");
}

#[test]
fn rows_are_cleared_as_far_as_they_lie_in_the_buffer() {
    let mut buffer = Buffer::empty(Rect::new(0, 10, 2, 3));
    for y in 0..3 {
        set_string(&mut buffer, 0, y, "xy");
    }
    buffer.content[2].fg = Color::Red;
    buffer.content[2].modifier = Modifier { bits: 1 };
    clear_buffer_rows(&mut buffer, 0..10);
    clear_buffer_rows(&mut buffer, 13..20);
    clear_buffer_rows(&mut buffer, 12..11);
    assert_eq!(row_text(&buffer, 0), "xy");
    assert_eq!(row_text(&buffer, 2), "xy");
    clear_buffer_rows(&mut buffer, 11..12);
    assert_eq!(row_text(&buffer, 0), "xy");
    assert!(buffer.content[2] == Cell::empty());
    assert_eq!(row_text(&buffer, 1), "  ");
    assert_eq!(row_text(&buffer, 2), "xy");
    clear_buffer_rows(&mut buffer, 0..100);
    assert!(is_blank(&buffer));
}

#[test]
fn a_frame_can_be_written_in_parts() {
    let mut terminal = filled();
    set_string(terminal.current_buffer_mut(), 0, 0, "cb");
    let updates = terminal.take_updates();
    assert_eq!(updates.len(), 1);
    assert_eq!(terminal.last_known_cursor_pos, Position { x: 1, y: 5 });
    let steps = terminal.write_updates(&updates);
    assert_eq!(written(&steps), format!("\x1b[6;2Hc{PLAIN}"));
    let (steps, commands) = terminal.flush_dense_rows(5..6);
    assert_eq!(commands, 1);
    assert_eq!(written(&steps), format!("\x1b[6;2Hcb{PLAIN}"));
    let (steps, commands) = terminal.flush_dense_rows(0..5);
    assert_eq!(commands, 0);
    assert_eq!(written(&steps), "");
    let steps = terminal.finish_frame(hidden(), Update::Swapped);
    assert_eq!(
        steps,
        vec![
            Step {
                call: Call::HideCursor,
                updates: vec![Update::CursorHidden(true), Update::Swapped],
            },
            Step {
                call: Call::FlushBackend,
                updates: vec![],
            },
        ]
    );
}

#[test]
fn the_completed_frame_is_the_one_that_was_rendered() {
    let mut terminal = created(&CaptureBackend::new(2, 2));
    terminal.set_viewport_area(Rect::new(0, 1, 2, 1));
    set_string(terminal.get_frame().buffer_mut(), 0, 0, "xy");
    let rendered: Result<FrameCursor, String> = Ok(hidden());
    let drawn = terminal.try_draw(rendered).expect("rendered");
    assert_eq!(row_text(drawn.frame.buffer, 0), "xy");
    assert_eq!(drawn.frame.area, Rect::new(0, 1, 2, 1));
    let drawn = terminal.draw_with_flush(hidden(), FrameFlush::Dense(1..2));
    assert_eq!(row_text(drawn.frame.buffer, 0), "xy");
    assert_eq!(drawn.frame.area, Rect::new(0, 1, 2, 1));
}

#[test]
fn terminals_can_be_copied_and_compared() {
    let terminal = filled();
    let mut copy = terminal.clone();
    assert!(terminal == copy);
    copy.note_history_rows_inserted(1);
    assert!(terminal != copy);
    assert!(
        Terminal::default()
            == Terminal::with_options(Size { width: 0, height: 0 }, None)
    );
}

#[test]
fn a_frame_is_not_kept_from_being_changed_by_a_frame_that_is_not_whole() {
    let mut terminal = filled();
    terminal.current_buffer_mut().content.clear();
    terminal.note_history_rows_inserted(1);
    assert_eq!(terminal.visible_history_rows(), 5);
    terminal.set_viewport_area(Rect::new(0, 3, 2, 1));
    assert_eq!(terminal.current_buffer().content.len(), 2);
    assert_eq!(terminal.visible_history_rows(), 3);
}
