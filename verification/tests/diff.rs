use custom_terminal::buffer::{Buffer, Cell};
use custom_terminal::diff::{diff_buffers, last_nonblank_column, DrawCommand};
use custom_terminal::geometry::Rect;
use custom_terminal::style::{Color, Modifier, BOLD};
use ratatui::style::Style;

/// The library's buffer with the cells of a buffer of `ratatui` in default style.
fn converted(buffer: &ratatui::buffer::Buffer) -> Buffer {
    let area = Rect::new(
        buffer.area.x,
        buffer.area.y,
        buffer.area.width,
        buffer.area.height,
    );
    let content = buffer
        .content
        .iter()
        .map(|cell| Cell {
            symbol: cell.symbol().to_owned(),
            fg: Color::Reset,
            bg: Color::Reset,
            underline_color: Color::Reset,
            modifier: Modifier {
                bits: cell.modifier.bits(),
            },
            skip: cell.skip,
        })
        .collect();
    Buffer { area, content }
}

fn diff(previous: &ratatui::buffer::Buffer, next: &ratatui::buffer::Buffer) -> Vec<DrawCommand> {
    diff_buffers(&converted(previous), &converted(next))
}

/// What a command does, in a form that can be compared.
fn described(commands: &[DrawCommand]) -> Vec<String> {
    commands
        .iter()
        .map(|command| match command {
            DrawCommand::Put { x, y, cell } => format!("{x},{y} {}", cell.symbol),
            DrawCommand::ClearToEnd { x, y, bg } => format!("{x},{y} clear {bg:?}"),
        })
        .collect()
}

fn row(symbols: &[&str]) -> Buffer {
    let mut buffer = Buffer::empty(Rect::new(0, 0, symbols.len() as u16, 1));
    for (i, symbol) in symbols.iter().enumerate() {
        buffer.content[i].symbol = (*symbol).to_owned();
    }
    buffer
}

#[test]
fn diff_buffers_skips_unchanged_blank_rows() {
    let area = ratatui::layout::Rect::new(0, 0, 3, 2);
    let previous = ratatui::buffer::Buffer::empty(area);
    let next = ratatui::buffer::Buffer::empty(area);

    let commands = diff(&previous, &next);

    assert!(
        commands.is_empty(),
        "expected no commands for identical buffers; commands: {commands:?}",
    );
}

#[test]
fn diff_buffers_clear_to_end_only_when_trailing_cells_changed() {
    let area = ratatui::layout::Rect::new(0, 0, 10, 1);
    let mut previous = ratatui::buffer::Buffer::empty(area);
    let mut next = ratatui::buffer::Buffer::empty(area);

    previous.set_string(0, 0, "abc", Style::default());
    next.set_string(0, 0, "a", Style::default());

    let commands = diff(&previous, &next);
    assert!(
        commands
            .iter()
            .any(|command| matches!(command, DrawCommand::ClearToEnd { x: 1, y: 0, .. })),
        "expected clear-to-end after shortened content; commands: {commands:?}",
    );
    assert!(
        commands
            .iter()
            .all(|command| !matches!(command, DrawCommand::Put { x, y: 0, .. } if *x > 0)),
        "expected trailing cells to be cleared instead of put individually; commands: {commands:?}",
    );
}

#[test]
fn diff_buffers_does_not_emit_clear_to_end_for_full_width_row() {
    let area = ratatui::layout::Rect::new(0, 0, 3, 2);
    let previous = ratatui::buffer::Buffer::empty(area);
    let mut next = ratatui::buffer::Buffer::empty(area);

    next.cell_mut((2, 0))
        .expect("cell should exist")
        .set_symbol("X");

    let commands = diff(&previous, &next);

    let clear_count = commands
        .iter()
        .filter(|command| matches!(command, DrawCommand::ClearToEnd { y, .. } if *y == 0))
        .count();
    assert_eq!(
        0, clear_count,
        "expected diff_buffers not to emit ClearToEnd; commands: {commands:?}",
    );
    assert!(
        commands
            .iter()
            .any(|command| matches!(command, DrawCommand::Put { x: 2, y: 0, .. })),
        "expected diff_buffers to update the final cell; commands: {commands:?}",
    );
}

#[test]
fn diff_buffers_clear_to_end_starts_after_wide_char() {
    let area = ratatui::layout::Rect::new(0, 0, 10, 1);
    let mut previous = ratatui::buffer::Buffer::empty(area);
    let mut next = ratatui::buffer::Buffer::empty(area);

    previous.set_string(0, 0, "中文", Style::default());
    next.set_string(0, 0, "中", Style::default());

    let commands = diff(&previous, &next);
    assert!(
        commands
            .iter()
            .any(|command| matches!(command, DrawCommand::ClearToEnd { x: 2, y: 0, .. })),
        "expected clear-to-end to start after the remaining wide char; commands: {commands:?}"
    );
}

#[test]
fn diff_buffers_updates_ascii_after_wide_char() {
    let area = ratatui::layout::Rect::new(0, 0, 10, 1);
    let previous = ratatui::buffer::Buffer::empty(area);
    let mut next = ratatui::buffer::Buffer::empty(area);

    next.set_string(0, 0, "中a", Style::default());

    let commands = diff(&previous, &next);
    assert!(
        commands.iter().any(
            |command| matches!(command, DrawCommand::Put { x: 0, y: 0, cell } if cell.symbol() == "中")
        ),
        "expected first wide char to be put; commands: {commands:?}"
    );
    assert!(
        commands.iter().any(
            |command| matches!(command, DrawCommand::Put { x: 2, y: 0, cell } if cell.symbol() == "a")
        ),
        "expected ascii after wide char to be put; commands: {commands:?}"
    );
}

#[test]
fn only_changed_cells_are_put() {
    let commands = diff_buffers(&row(&["a", "b", "c"]), &row(&["a", "x", "c"]));
    assert_eq!(described(&commands), vec!["1,0 x"]);
    assert!(commands[0].is_put());
}

#[test]
fn commands_stand_where_the_area_is() {
    let mut previous = Buffer::empty(Rect::new(5, 7, 4, 2));
    let mut next = Buffer::empty(Rect::new(5, 7, 4, 2));
    previous.content[7].symbol = "z".to_owned();
    next.content[5].symbol = "q".to_owned();
    let commands = diff_buffers(&previous, &next);
    assert_eq!(described(&commands), vec!["6,8 q", "7,8 clear Reset"]);
    assert!(!commands[1].is_put());
}

#[test]
fn rest_is_cleared_in_the_colour_at_the_end_of_the_row() {
    let previous = row(&[" ", " ", " ", " "]);
    let mut next = row(&["a", " ", " ", " "]);
    for cell in &mut next.content {
        cell.bg = Color::Blue;
    }
    let commands = diff_buffers(&previous, &next);
    assert_eq!(described(&commands), vec!["0,0 a", "1,0 clear Blue"]);
}

#[test]
fn first_cell_of_an_emptied_row_is_put() {
    let commands = diff_buffers(&row(&["a", "b", " "]), &row(&[" ", " ", " "]));
    assert_eq!(described(&commands), vec!["0,0  ", "1,0 clear Reset"]);
}

#[test]
fn modifiers_and_colours_keep_a_space_from_being_blank() {
    let mut cells = row(&["a", " ", " ", " "]).content;
    assert_eq!(last_nonblank_column(&cells, Color::Reset), Some(0));
    assert_eq!(last_nonblank_column(&cells, Color::Red), Some(3));
    cells[1].bg = Color::Red;
    assert_eq!(last_nonblank_column(&cells, Color::Reset), Some(1));
    cells[2].modifier = Modifier { bits: BOLD };
    assert_eq!(last_nonblank_column(&cells, Color::Reset), Some(2));
    cells[2].symbol = "中".to_owned();
    assert_eq!(last_nonblank_column(&cells, Color::Reset), Some(3));
    assert_eq!(last_nonblank_column(&cells[3..], Color::Reset), None);
    assert_eq!(last_nonblank_column(&cells[..0], Color::Reset), None);
}

#[test]
fn cells_behind_a_replaced_wide_symbol_are_put() {
    // The old symbol covers the second column, whose cell is the same in both rows.
    let commands = diff_buffers(&row(&["中", " ", "x"]), &row(&["a", " ", "x"]));
    assert_eq!(described(&commands), vec!["0,0 a", "1,0  "]);
}

#[test]
fn cells_under_a_wide_symbol_are_not_put() {
    let commands = diff_buffers(&row(&["a", "b", "x"]), &row(&["中", "b", "y"]));
    assert_eq!(described(&commands), vec!["0,0 中", "2,0 y"]);
}

#[test]
fn skipped_cells_are_not_put() {
    let previous = row(&["a", "b"]);
    let mut next = row(&["x", "y"]);
    next.content[0].skip = true;
    let commands = diff_buffers(&previous, &next);
    assert_eq!(described(&commands), vec!["1,0 y"]);
}

#[test]
fn an_underline_colour_is_a_difference() {
    let previous = row(&["a"]);
    let mut next = row(&["a"]);
    next.content[0].underline_color = Color::Red;
    assert_eq!(described(&diff_buffers(&previous, &next)), vec!["0,0 a"]);
}

#[test]
fn nothing_is_left_of_a_row_without_columns() {
    let previous = Buffer::empty(Rect::new(0, 0, 0, 3));
    let next = Buffer::empty(Rect::new(0, 0, 0, 3));
    assert!(diff_buffers(&previous, &next).is_empty());
}

#[test]
fn symbols_without_columns_step_one_cell() {
    let commands = diff_buffers(&row(&["a", "b"]), &row(&["\u{301}", "c"]));
    assert_eq!(described(&commands), vec!["0,0 \u{301}", "1,0 c"]);
}
