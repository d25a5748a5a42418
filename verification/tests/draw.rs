use crossterm::style::{
    Attribute as CrosstermAttribute, Colors, SetAttribute, SetBackgroundColor, SetColors,
};
use crossterm::Command;
use custom_terminal::buffer::Cell;
use custom_terminal::diff::DrawCommand;
use custom_terminal::draw::draw;
use custom_terminal::modifier_diff::ModifierDiff;
use custom_terminal::style::{
    Color, Modifier, BOLD, CROSSED_OUT, DIM, HIDDEN, ITALIC, RAPID_BLINK, REVERSED, SLOW_BLINK,
    UNDERLINED,
};

const PLAIN: &str = "\x1b[39m\x1b[49m\x1b[0m";

/// The text of a command of `crossterm`.
fn ansi(command: impl Command) -> String {
    let mut text = String::new();
    command.write_ansi(&mut text).expect("write command");
    text
}

fn cell(symbol: &str) -> Cell {
    let mut cell = Cell::empty();
    cell.symbol = symbol.to_owned();
    cell
}

fn put(x: u16, y: u16, cell: Cell) -> DrawCommand {
    DrawCommand::Put { x, y, cell }
}

fn drawn(commands: Vec<DrawCommand>) -> String {
    let mut output = Vec::new();
    draw(&mut output, &commands);
    String::from_utf8(output).expect("utf8")
}

fn switched(from: u16, to: u16) -> String {
    let mut output = Vec::new();
    ModifierDiff {
        from: Modifier { bits: from },
        to: Modifier { bits: to },
    }
    .queue(&mut output);
    String::from_utf8(output).expect("utf8")
}

/// Every colour, with the one of `ratatui` that it stands for.
fn colors() -> Vec<(Color, ratatui::style::Color)> {
    vec![
        (Color::Reset, ratatui::style::Color::Reset),
        (Color::Black, ratatui::style::Color::Black),
        (Color::Red, ratatui::style::Color::Red),
        (Color::Green, ratatui::style::Color::Green),
        (Color::Yellow, ratatui::style::Color::Yellow),
        (Color::Blue, ratatui::style::Color::Blue),
        (Color::Magenta, ratatui::style::Color::Magenta),
        (Color::Cyan, ratatui::style::Color::Cyan),
        (Color::Gray, ratatui::style::Color::Gray),
        (Color::DarkGray, ratatui::style::Color::DarkGray),
        (Color::LightRed, ratatui::style::Color::LightRed),
        (Color::LightGreen, ratatui::style::Color::LightGreen),
        (Color::LightYellow, ratatui::style::Color::LightYellow),
        (Color::LightBlue, ratatui::style::Color::LightBlue),
        (Color::LightMagenta, ratatui::style::Color::LightMagenta),
        (Color::LightCyan, ratatui::style::Color::LightCyan),
        (Color::White, ratatui::style::Color::White),
        (Color::Rgb(1, 20, 255), ratatui::style::Color::Rgb(1, 20, 255)),
        (Color::Indexed(0), ratatui::style::Color::Indexed(0)),
        (Color::Indexed(208), ratatui::style::Color::Indexed(208)),
    ]
}

#[test]
fn no_commands_bring_plain_text() {
    assert_eq!(drawn(vec![]), PLAIN);
}

#[test]
fn a_cell_is_printed_where_it_stands() {
    assert_eq!(
        drawn(vec![put(4, 2, cell("a"))]),
        format!("\x1b[3;5Ha{PLAIN}")
    );
    assert_eq!(
        drawn(vec![put(65534, 65534, cell("a"))]),
        format!("\x1b[65535;65535Ha{PLAIN}")
    );
    assert_eq!(
        drawn(vec![put(0, 0, cell("中\u{301}"))]),
        format!("\x1b[1;1H中\u{301}{PLAIN}")
    );
}

#[test]
fn the_cursor_is_not_moved_to_the_next_column() {
    assert_eq!(
        drawn(vec![
            put(0, 0, cell("a")),
            put(1, 0, cell("b")),
            put(3, 0, cell("c")),
            put(4, 1, cell("d")),
        ]),
        format!("\x1b[1;1Hab\x1b[1;4Hc\x1b[2;5Hd{PLAIN}")
    );
}

#[test]
fn the_rest_of_a_line_is_cleared_in_its_colour() {
    let clear = DrawCommand::ClearToEnd {
        x: 1,
        y: 0,
        bg: Color::Indexed(4),
    };
    assert_eq!(
        drawn(vec![put(0, 0, cell("a")), clear]),
        format!("\x1b[1;1Ha\x1b[0m\x1b[48;5;4m\x1b[K{PLAIN}")
    );
}

#[test]
fn colours_are_set_once() {
    let mut red = cell("a");
    red.fg = Color::Indexed(1);
    let mut more = cell("b");
    more.fg = Color::Indexed(1);
    let mut other = cell("c");
    other.bg = Color::Indexed(2);
    assert_eq!(
        drawn(vec![put(0, 0, red), put(1, 0, more), put(2, 0, other)]),
        format!("\x1b[1;1H\x1b[38;5;1;49mab\x1b[39;48;5;2mc{PLAIN}")
    );
}

#[test]
fn colours_are_those_of_the_backend() {
    for (fg, outside_fg) in colors() {
        for (bg, outside_bg) in colors() {
            let mut styled = cell("x");
            styled.fg = fg;
            styled.bg = bg;
            let expected = if fg == Color::Reset && bg == Color::Reset {
                String::new()
            } else {
                ansi(SetColors(Colors::new(outside_fg.into(), outside_bg.into())))
            };
            assert_eq!(
                drawn(vec![put(0, 0, styled)]),
                format!("\x1b[1;1H{expected}x{PLAIN}")
            );
        }
    }
}

#[test]
fn clearing_colours_are_those_of_the_backend() {
    for (bg, outside) in colors() {
        let clear = DrawCommand::ClearToEnd { x: 0, y: 0, bg };
        let expected = ansi(SetBackgroundColor(outside.into()));
        assert_eq!(
            drawn(vec![clear]),
            format!("\x1b[1;1H\x1b[0m{expected}\x1b[K{PLAIN}")
        );
    }
}

#[test]
fn a_cleared_line_forgets_modifiers() {
    let mut bold = cell("a");
    bold.modifier = Modifier { bits: BOLD };
    let mut again = cell("b");
    again.modifier = Modifier { bits: BOLD };
    let clear = DrawCommand::ClearToEnd {
        x: 1,
        y: 0,
        bg: Color::Reset,
    };
    assert_eq!(
        drawn(vec![put(0, 0, bold), clear, put(0, 1, again)]),
        format!("\x1b[1;1H\x1b[1ma\x1b[0m\x1b[49m\x1b[K\x1b[2;1H\x1b[1mb{PLAIN}")
    );
}

#[test]
fn modifiers_are_switched_on_and_off() {
    let switches = [
        (BOLD, CrosstermAttribute::Bold, CrosstermAttribute::NormalIntensity),
        (DIM, CrosstermAttribute::Dim, CrosstermAttribute::NormalIntensity),
        (ITALIC, CrosstermAttribute::Italic, CrosstermAttribute::NoItalic),
        (UNDERLINED, CrosstermAttribute::Underlined, CrosstermAttribute::NoUnderline),
        (SLOW_BLINK, CrosstermAttribute::SlowBlink, CrosstermAttribute::NoBlink),
        (RAPID_BLINK, CrosstermAttribute::RapidBlink, CrosstermAttribute::NoBlink),
        (REVERSED, CrosstermAttribute::Reverse, CrosstermAttribute::NoReverse),
        (CROSSED_OUT, CrosstermAttribute::CrossedOut, CrosstermAttribute::NotCrossedOut),
    ];
    for (flag, on, off) in switches {
        assert_eq!(switched(0, flag), ansi(SetAttribute(on)));
        assert_eq!(switched(flag, 0), ansi(SetAttribute(off)));
        assert_eq!(switched(flag, flag), "");
    }
    assert_eq!(switched(0, HIDDEN), "");
}

#[test]
fn faint_text_stays_faint_when_it_is_no_longer_bold() {
    assert_eq!(switched(BOLD | DIM, DIM), "\x1b[22m\x1b[2m");
}

#[test]
fn bold_text_stays_bold_when_it_is_no_longer_faint() {
    assert_eq!(switched(BOLD | DIM, BOLD), "\x1b[22m\x1b[1m");
}

#[test]
fn text_keeps_blinking_in_the_way_that_stays() {
    assert_eq!(switched(SLOW_BLINK | RAPID_BLINK, SLOW_BLINK), "\x1b[25m\x1b[5m");
    assert_eq!(switched(SLOW_BLINK | RAPID_BLINK, RAPID_BLINK), "\x1b[25m\x1b[6m");
    assert_eq!(switched(SLOW_BLINK, RAPID_BLINK), "\x1b[25m\x1b[6m");
}

#[test]
fn only_the_necessary_changes_are_sent() {
    assert_eq!(switched(BOLD, DIM), "\x1b[22m\x1b[2m");
    assert_eq!(switched(DIM, BOLD), "\x1b[22m\x1b[1m");
    assert_eq!(switched(BOLD | DIM, 0), "\x1b[22m");
    assert_eq!(switched(SLOW_BLINK | RAPID_BLINK, 0), "\x1b[25m");
    assert_eq!(switched(BOLD | DIM, BOLD | DIM), "");
}

#[test]
fn modifiers_go_before_others_come() {
    assert_eq!(
        switched(REVERSED | ITALIC | CROSSED_OUT, BOLD | UNDERLINED | DIM),
        "\x1b[27m\x1b[23m\x1b[29m\x1b[1m\x1b[4m\x1b[2m"
    );
}

#[test]
fn modifier_bits_are_those_of_the_backend() {
    assert_eq!(BOLD, ratatui::style::Modifier::BOLD.bits());
    assert_eq!(DIM, ratatui::style::Modifier::DIM.bits());
    assert_eq!(ITALIC, ratatui::style::Modifier::ITALIC.bits());
    assert_eq!(UNDERLINED, ratatui::style::Modifier::UNDERLINED.bits());
    assert_eq!(SLOW_BLINK, ratatui::style::Modifier::SLOW_BLINK.bits());
    assert_eq!(RAPID_BLINK, ratatui::style::Modifier::RAPID_BLINK.bits());
    assert_eq!(REVERSED, ratatui::style::Modifier::REVERSED.bits());
    assert_eq!(HIDDEN, ratatui::style::Modifier::HIDDEN.bits());
    assert_eq!(CROSSED_OUT, ratatui::style::Modifier::CROSSED_OUT.bits());
}

#[test]
fn colours_have_numbers() {
    let numbers = [
        (Color::Black, "38;5;0"),
        (Color::Red, "38;5;1"),
        (Color::Green, "38;5;2"),
        (Color::Yellow, "38;5;3"),
        (Color::Blue, "38;5;4"),
        (Color::Magenta, "38;5;5"),
        (Color::Cyan, "38;5;6"),
        (Color::Gray, "38;5;7"),
        (Color::DarkGray, "38;5;8"),
        (Color::LightRed, "38;5;9"),
        (Color::LightGreen, "38;5;10"),
        (Color::LightYellow, "38;5;11"),
        (Color::LightBlue, "38;5;12"),
        (Color::LightMagenta, "38;5;13"),
        (Color::LightCyan, "38;5;14"),
        (Color::White, "38;5;15"),
        (Color::Rgb(1, 20, 255), "38;2;1;20;255"),
        (Color::Indexed(208), "38;5;208"),
    ];
    for (fg, number) in numbers {
        let mut styled = cell("x");
        styled.fg = fg;
        assert_eq!(
            drawn(vec![put(0, 0, styled)]),
            format!("\x1b[1;1H\x1b[{number};49mx{PLAIN}")
        );
    }
}
