use custom_terminal::width::{display_width, strip_osc_sequences};

#[test]
fn space_is_one_column() {
    assert_eq!(display_width(" "), 1);
}

#[test]
fn printable_ascii_is_one_column() {
    for c in '!'..='~' {
        assert_eq!(display_width(&c.to_string()), 1);
    }
}

#[test]
fn unicode_is_measured() {
    assert_eq!(display_width("中"), 2);
    assert_eq!(display_width("中文"), 4);
    assert_eq!(display_width("abc"), 3);
    assert_eq!(display_width(""), 0);
    assert_eq!(display_width("\u{301}"), 0);
    assert_eq!(display_width("e\u{301}"), 1);
}

#[test]
fn operating_system_commands_are_not_measured() {
    assert_eq!(
        display_width("\x1B]8;;https://example.com\x07link\x1B]8;;\x07"),
        4
    );
    assert_eq!(display_width("a\x1B]0;title\x07中"), 3);
    assert_eq!(display_width("\x1B]8;;https://example.com\x07x\x1B]8;;\x07"), 1);
    assert_eq!(display_width("\x1B]8;;https://example.com\x07 "), 1);
    assert_eq!(display_width("\x1B]8;;https://example.com\x07\x1B]8;;\x07"), 0);
}

#[test]
fn operating_system_commands_are_stripped() {
    assert_eq!(strip_osc_sequences("ab\x1B]8;;x\x07cd"), "abcd");
    assert_eq!(strip_osc_sequences("\x1B]1\x07\x1B]2\x07z"), "z");
    // Without an end, the rest of the text belongs to the command.
    assert_eq!(strip_osc_sequences("ab\x1B]8;;x"), "ab");
    // Other escape sequences stay.
    assert_eq!(strip_osc_sequences("a\x1B[1mb"), "a\x1B[1mb");
    assert_eq!(strip_osc_sequences("a\x1B"), "a\x1B");
    assert_eq!(strip_osc_sequences("a\x07b"), "a\x07b");
}
