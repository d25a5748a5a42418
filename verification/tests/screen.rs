use custom_terminal::buffer::Buffer;
use custom_terminal::dense::draw_dense_rows;
use custom_terminal::diff::diff_buffers;
use custom_terminal::draw::draw;
use custom_terminal::geometry::Rect;
use custom_terminal::style::{Color, Modifier, BOLD, ITALIC};
use custom_terminal::width::display_width;

/// A column of a screen: a symbol, or what follows of one, with the style it was printed in.
type Slot = (String, String);

/// A small terminal, which knows the sequences that frames are written with.
struct Screen {
    lines: Vec<Vec<Slot>>,
    x: usize,
    y: usize,
    style: Vec<String>,
}

fn space(style: &str) -> Slot {
    (" ".to_owned(), style.to_owned())
}

impl Screen {
    fn new(width: usize, height: usize) -> Self {
        Screen {
            lines: vec![vec![space(""); width]; height],
            x: 0,
            y: 0,
            style: Vec::new(),
        }
    }

    fn style(&self) -> String {
        self.style.join(";")
    }

    /// Turns the symbol at a column into spaces.
    fn cut(&mut self, column: usize) {
        let line = &mut self.lines[self.y];
        let mut start = column;
        while line[start].0.is_empty() && start > 0 {
            start -= 1;
        }
        let columns = display_width(&line[start].0).max(1);
        for slot in line.iter_mut().skip(start).take(columns) {
            slot.0 = " ".to_owned();
        }
    }

    fn print(&mut self, symbol: &str) {
        let style = self.style();
        for i in 0..display_width(symbol) {
            if self.x < self.lines[self.y].len() {
                self.cut(self.x);
                let shown = if i == 0 { symbol } else { "" };
                self.lines[self.y][self.x] = (shown.to_owned(), style.clone());
            }
            self.x += 1;
        }
    }

    fn erase(&mut self, line: usize, from: usize) {
        let background: Vec<String> = self
            .style
            .iter()
            .filter(|code| code.starts_with("48"))
            .cloned()
            .collect();
        let blank = space(&background.join(";"));
        for slot in self.lines[line].iter_mut().skip(from) {
            *slot = blank.clone();
        }
    }

    fn control(&mut self, arguments: &str, end: char) {
        match end {
            'H' => {
                let mut numbers = arguments.split(';').map(|n| n.parse::<usize>().expect("number"));
                self.y = numbers.next().expect("row") - 1;
                self.x = numbers.next().expect("column") - 1;
            }
            'K' => self.erase(self.y, self.x),
            'J' => {
                self.erase(self.y, self.x);
                for line in self.y + 1..self.lines.len() {
                    self.erase(line, 0);
                }
            }
            'm' if arguments == "0" => self.style.clear(),
            'm' if arguments == "39" => self.style.retain(|code| !code.starts_with("38")),
            'm' if arguments == "49" => self.style.retain(|code| !code.starts_with("48")),
            'm' if arguments == "22" => self.style.retain(|code| code != "1" && code != "2"),
            'm' if arguments == "23" => self.style.retain(|code| code != "3"),
            'm' => self.style.push(arguments.to_owned()),
            _ => panic!("unknown sequence {arguments}{end}"),
        }
    }

    fn write(&mut self, bytes: &[u8]) {
        let text = std::str::from_utf8(bytes).expect("utf8");
        let mut chars = text.chars();
        while let Some(c) = chars.next() {
            if c != '\x1b' {
                self.print(&c.to_string());
                continue;
            }
            assert_eq!(chars.next(), Some('['));
            let mut arguments = String::new();
            for c in chars.by_ref() {
                if c.is_ascii_alphabetic() {
                    self.control(&arguments, c);
                    break;
                }
                arguments.push(c);
            }
        }
    }

    fn text(&self) -> Vec<String> {
        self.lines
            .iter()
            .map(|line| line.iter().map(|slot| slot.0.as_str()).collect())
            .collect()
    }

    fn flush(&mut self, previous: &Buffer, next: &Buffer) {
        let mut bytes = Vec::new();
        draw(&mut bytes, &diff_buffers(previous, next));
        self.write(&bytes);
        assert!(self.style.is_empty());
    }

    fn repaint(&mut self, buffer: &Buffer, rows: std::ops::Range<u16>) {
        let mut bytes = Vec::new();
        draw_dense_rows(&mut bytes, buffer, rows);
        self.write(&bytes);
        assert!(self.style.is_empty());
    }
}

/// A frame with the lines; a cell that a wide symbol covers is empty.
fn frame(lines: &[&str], width: u16) -> Buffer {
    let mut buffer = Buffer::empty(Rect::new(0, 0, width, lines.len() as u16));
    for (y, line) in lines.iter().enumerate() {
        let mut x = y * width as usize;
        for c in line.chars() {
            buffer.content[x].symbol = c.to_string();
            x += display_width(&buffer.content[x].symbol).max(1);
        }
    }
    buffer
}

/// What a screen with the frame shows.
fn shown(lines: &[&str], width: u16) -> Vec<String> {
    let mut screen = Screen::new(width as usize, lines.len());
    for (y, line) in lines.iter().enumerate() {
        screen.x = 0;
        screen.y = y;
        for c in line.chars() {
            screen.print(&c.to_string());
        }
    }
    screen.text()
}

fn follow(frames: &[&[&str]], width: u16) {
    let height = frames[0].len();
    let mut previous = Buffer::empty(Rect::new(0, 0, width, height as u16));
    let mut screen = Screen::new(width as usize, height);
    for lines in frames {
        let next = frame(lines, width);
        screen.flush(&previous, &next);
        assert_eq!(screen.text(), shown(lines, width));
        previous = next;
    }
}

#[test]
fn frames_without_wide_symbols_follow_each_other() {
    follow(
        &[
            &["abc def", "", "x     y"],
            &["abc", "hello", "x"],
            &["", "hollow", "     yz"],
            &["1234567", "", ""],
            &["", "", ""],
        ],
        7,
    );
}

#[test]
fn frames_with_wide_symbols_follow_each_other() {
    follow(
        &[
            &["中文字", "a中b"],
            &["中文", "中中中"],
            &["a", "xy中z"],
            &["中", ""],
            &["", "中"],
            &["abcdef", "abcdef"],
            &["中文字", "a中b"],
        ],
        6,
    );
}

#[test]
fn a_frame_shows_after_the_screen_was_erased() {
    let mut screen = Screen::new(4, 2);
    screen.write(b"junk");
    screen.write(b"\x1b[1;1H\x1b[J");
    let next = frame(&["ab", "中"], 4);
    let mut previous = frame(&["old", "old"], 4);
    previous.reset();
    screen.flush(&previous, &next);
    assert_eq!(screen.text(), shown(&["ab", "中"], 4));
}

#[test]
fn a_repaint_shows_whatever_was_there_before() {
    let lines = ["中a", "", "bc中", "d"];
    for from in 0..4 {
        let mut screen = Screen::new(5, 4);
        for y in 0..4 {
            screen.write(format!("\x1b[{};1H中文x", y + 1).as_bytes());
        }
        let before = screen.text();
        screen.repaint(&frame(&lines, 5), from..4);
        for (y, line) in screen.text().iter().enumerate() {
            if y < from as usize {
                assert_eq!(line, &before[y]);
            } else {
                assert_eq!(line, &shown(&lines, 5)[y]);
            }
        }
    }
}

#[test]
fn a_repaint_leaves_other_rows_alone() {
    let mut screen = Screen::new(3, 3);
    screen.repaint(&frame(&["aaa", "bbb", "ccc"], 3), 0..3);
    screen.repaint(&frame(&["x", "y", "z"], 3), 1..2);
    assert_eq!(screen.text(), vec!["aaa", "y  ", "ccc"]);
}

#[test]
fn styles_follow() {
    let previous = Buffer::empty(Rect::new(0, 0, 4, 1));
    let mut next = frame(&["abcd"], 4);
    next.content[0].modifier = Modifier { bits: BOLD };
    next.content[1].modifier = Modifier {
        bits: BOLD | ITALIC,
    };
    next.content[2].modifier = Modifier { bits: ITALIC };
    let mut screen = Screen::new(4, 1);
    screen.flush(&previous, &next);
    let styles: Vec<&str> = screen.lines[0].iter().map(|slot| slot.1.as_str()).collect();
    assert_eq!(styles, vec!["1", "1;3", "3", ""]);
    let mut screen = Screen::new(4, 1);
    screen.repaint(&next, 0..1);
    let styles: Vec<&str> = screen.lines[0].iter().map(|slot| slot.1.as_str()).collect();
    assert_eq!(styles, vec!["1", "1;3", "3", ""]);
}

#[test]
fn a_line_is_cleared_in_the_colour_of_its_end() {
    let previous = frame(&["abcd"], 4);
    let mut next = frame(&["a"], 4);
    for cell in &mut next.content {
        cell.bg = Color::Indexed(3);
    }
    let mut bytes = Vec::new();
    draw(&mut bytes, &diff_buffers(&previous, &next));
    let mut screen = Screen::new(4, 1);
    screen.write(&bytes);
    for slot in &screen.lines[0][1..] {
        assert_eq!(slot, &space("48;5;3"));
    }
}

#[test]
fn the_same_frame_is_silent() {
    let buffer = frame(&["a中", "b"], 4);
    let mut bytes = Vec::new();
    draw(
        &mut bytes,
        &diff_buffers(&buffer, &frame(&["a中", "b"], 4)),
    );
    assert_eq!(bytes, b"\x1b[39m\x1b[49m\x1b[0m");
}

#[test]
fn a_colour_is_set_again_after_a_cleared_line() {
    let previous = frame(&["xx", "xx"], 2);
    let mut next = frame(&["a", "b"], 2);
    next.content[0].fg = Color::Indexed(1);
    next.content[2].fg = Color::Indexed(1);
    let mut bytes = Vec::new();
    draw(&mut bytes, &diff_buffers(&previous, &next));
    let text = String::from_utf8(bytes).expect("utf8");
    assert_eq!(
        text,
        "\x1b[1;1H\x1b[38;5;1;49ma\x1b[0m\x1b[49m\x1b[K\
         \x1b[2;1H\x1b[38;5;1;49mb\x1b[0m\x1b[49m\x1b[K\x1b[39m\x1b[49m\x1b[0m"
    );
}

#[test]
fn a_frame_shows_on_a_screen_that_was_forgotten() {
    let mut screen = Screen::new(4, 3);
    for y in 1..4 {
        screen.write(format!("\x1b[{y};1H中文").as_bytes());
    }
    let next = frame(&["ab", "", "x中"], 4);
    let mut previous = frame(&["", "", ""], 4);
    previous.forget();
    screen.flush(&previous, &next);
    assert_eq!(screen.text(), shown(&["ab", "", "x中"], 4));
}
