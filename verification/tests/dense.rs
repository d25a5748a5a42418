use crossterm::terminal::{Clear, ClearType as CrosstermClearType};
use crossterm::Command;
use custom_terminal::buffer::{Buffer, Cell};
use custom_terminal::dense::{draw_dense_rows, DenseDrawStats};
use custom_terminal::geometry::{Position, Rect};
use custom_terminal::style::{Color, Modifier, BOLD, DIM};
use ratatui::style::Style;

/// The library's buffer with the cells of a buffer of `ratatui` in default style.
fn converted(buffer: &ratatui::buffer::Buffer) -> Buffer {
    let area = Rect::new(
        buffer.area.x,
        buffer.area.y,
        buffer.area.width,
        buffer.area.height,
    );
    let content = buffer
        .content
        .iter()
        .map(|cell| Cell {
            symbol: cell.symbol().to_owned(),
            fg: Color::Reset,
            bg: Color::Reset,
            underline_color: Color::Reset,
            modifier: Modifier {
                bits: cell.modifier.bits(),
            },
            skip: cell.skip,
        })
        .collect();
    Buffer { area, content }
}

/// The bytes of a command of `crossterm`.
fn ansi(command: impl Command) -> Vec<u8> {
    let mut text = String::new();
    command.write_ansi(&mut text).expect("write command");
    text.into_bytes()
}

fn rows(lines: &[&str]) -> Buffer {
    let width = lines.iter().map(|line| line.len()).max().unwrap_or(0);
    let mut buffer = Buffer::empty(Rect::new(0, 0, width as u16, lines.len() as u16));
    for (y, line) in lines.iter().enumerate() {
        for (x, c) in line.chars().enumerate() {
            buffer.content[y * width + x].symbol = c.to_string();
        }
    }
    buffer
}

fn painted(buffer: &Buffer, rows: std::ops::Range<u16>) -> (String, DenseDrawStats) {
    let mut output = Vec::new();
    let stats = draw_dense_rows(&mut output, buffer, rows);
    (String::from_utf8(output).expect("utf8"), stats)
}

const PLAIN: &str = "\x1b[39m\x1b[49m\x1b[0m";

#[test]
fn dense_rows_rewrite_unicode_rows() {
    let area = ratatui::layout::Rect::new(0, 0, 80, 1);
    let mut next = ratatui::buffer::Buffer::empty(area);
    let mut output = Vec::new();
    let text = "CJK 中 emoji 👩🏽‍💻 👍🏽 ไทย cafe\u{301}";

    next.set_string(0, 0, text, Style::default());

    let stats = draw_dense_rows(&mut output, &converted(&next), 0..1);
    let text_bytes = text.as_bytes();
    assert!(
        output
            .windows(text_bytes.len())
            .any(|bytes| bytes == text_bytes),
        "expected repaint to rewrite unicode row; output: {:?}",
        String::from_utf8_lossy(&output)
    );
    assert_eq!(
        2,
        stats.commands,
        "expected one text run plus trailing clear; output: {:?}",
        String::from_utf8_lossy(&output)
    );
}

#[test]
fn dense_rows_clear_bottom_range_once() {
    let area = ratatui::layout::Rect::new(0, 0, 8, 3);
    let mut next = ratatui::buffer::Buffer::empty(area);
    let mut output = Vec::new();

    next.set_string(0, 0, "first", Style::default());
    next.set_string(0, 1, "二行", Style::default());

    let stats = draw_dense_rows(&mut output, &converted(&next), 0..3);

    let clear_down = ansi(Clear(CrosstermClearType::FromCursorDown));
    assert!(
        output
            .windows(clear_down.len())
            .any(|bytes| bytes == clear_down),
        "expected dense render to clear the bottom range once; output: {:?}",
        String::from_utf8_lossy(&output)
    );

    let clear_to_end = ansi(Clear(CrosstermClearType::UntilNewLine));
    assert!(
        !output
            .windows(clear_to_end.len())
            .any(|bytes| bytes == clear_to_end),
        "expected dense render to skip per-row tail clears; output: {:?}",
        String::from_utf8_lossy(&output)
    );
    assert_eq!(3, stats.commands);
}

#[test]
fn dense_rows_skip_skip_cells() {
    let area = ratatui::layout::Rect::new(0, 0, 4, 1);
    let mut next = ratatui::buffer::Buffer::empty(area);
    let mut output = Vec::new();

    next.set_string(0, 0, "abcd", Style::default());
    next.cell_mut((1, 0))
        .expect("cell should exist")
        .set_skip(true);

    let stats = draw_dense_rows(&mut output, &converted(&next), 0..1);

    assert!(
        !output.windows(1).any(|bytes| bytes == b"b"),
        "expected dense render not to write skipped cell; output: {:?}",
        String::from_utf8_lossy(&output)
    );
    assert_eq!(2, stats.commands);
}

#[test]
fn a_row_is_one_run_and_a_clearing() {
    let (output, stats) = painted(&rows(&["ab  "]), 0..1);
    assert_eq!(output, format!("\x1b[1;1Hab\x1b[K{PLAIN}"));
    assert_eq!(
        stats,
        DenseDrawStats {
            last_put: Some(Position { x: 1, y: 0 }),
            commands: 2,
        }
    );
}

#[test]
fn a_full_row_is_not_cleared() {
    let (output, stats) = painted(&rows(&["abcd"]), 0..1);
    assert_eq!(output, format!("\x1b[1;1Habcd{PLAIN}"));
    assert_eq!(stats.commands, 1);
}

#[test]
fn a_blank_row_is_only_cleared() {
    let (output, stats) = painted(&rows(&["    "]), 0..1);
    assert_eq!(output, format!("\x1b[1;1H\x1b[K{PLAIN}"));
    assert_eq!(
        stats,
        DenseDrawStats {
            last_put: None,
            commands: 1,
        }
    );
}

#[test]
fn a_change_of_style_starts_a_run() {
    let mut buffer = rows(&["abcd"]);
    buffer.content[2].modifier = Modifier { bits: BOLD };
    buffer.content[3].modifier = Modifier { bits: BOLD };
    let (output, stats) = painted(&buffer, 0..1);
    assert_eq!(output, format!("\x1b[1;1Hab\x1b[1mcd{PLAIN}"));
    assert_eq!(stats.commands, 2);
}

#[test]
fn style_ends_before_a_clearing() {
    let mut buffer = rows(&["a   "]);
    buffer.content[0].modifier = Modifier { bits: DIM };
    let (output, _) = painted(&buffer, 0..1);
    assert_eq!(output, format!("\x1b[1;1H\x1b[2ma\x1b[0m\x1b[K{PLAIN}"));
}

#[test]
fn a_clearing_takes_the_colour_at_the_end_of_the_row() {
    let mut buffer = rows(&["a   "]);
    for cell in &mut buffer.content[1..] {
        cell.bg = Color::Indexed(17);
    }
    let (output, _) = painted(&buffer, 0..1);
    assert_eq!(
        output,
        format!("\x1b[1;1Ha\x1b[48;5;17m\x1b[K{PLAIN}")
    );
}

#[test]
fn rows_down_to_the_end_are_cleared_at_once() {
    let (output, stats) = painted(&rows(&["ab  ", "c   ", "    "]), 1..3);
    assert_eq!(output, format!("\x1b[2;1H\x1b[Jc{PLAIN}"));
    assert_eq!(stats.commands, 2);
    assert_eq!(stats.last_put, Some(Position { x: 0, y: 1 }));
}

#[test]
fn rows_in_several_colours_are_cleared_one_by_one() {
    let mut buffer = rows(&["a ", "b "]);
    buffer.content[3].bg = Color::Indexed(1);
    let (output, stats) = painted(&buffer, 0..2);
    assert_eq!(
        output,
        format!("\x1b[1;1Ha\x1b[K\x1b[2;1Hb\x1b[48;5;1m\x1b[K{PLAIN}")
    );
    assert_eq!(stats.commands, 4);
}

#[test]
fn rows_outside_the_buffer_are_not_painted() {
    let buffer = rows(&["ab", "cd"]);
    let (output, stats) = painted(&buffer, 2..9);
    assert_eq!(output, "");
    assert_eq!(
        stats,
        DenseDrawStats {
            last_put: None,
            commands: 0,
        }
    );
    let (output, _) = painted(&buffer, 1..9);
    assert_eq!(output, format!("\x1b[2;1Hcd{PLAIN}"));
    assert_eq!(painted(&Buffer::empty(Rect::new(0, 0, 0, 4)), 0..4).0, "");
}

#[test]
fn wide_symbols_join_a_run() {
    let mut buffer = rows(&["a  b"]);
    buffer.content[1].symbol = "中".to_owned();
    let (output, stats) = painted(&buffer, 0..1);
    assert_eq!(output, format!("\x1b[1;1Ha中b{PLAIN}"));
    assert_eq!(stats.commands, 1);
    assert_eq!(stats.last_put, Some(Position { x: 3, y: 0 }));
}

#[test]
fn a_skipped_cell_ends_a_run() {
    let mut buffer = rows(&["abc"]);
    buffer.content[1].skip = true;
    let (output, stats) = painted(&buffer, 0..1);
    assert_eq!(output, format!("\x1b[1;1Ha\x1b[1;3Hc{PLAIN}"));
    assert_eq!(stats.commands, 2);
}
