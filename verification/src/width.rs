//! The number of columns that a cell's symbol takes up on the screen.

use unicode_width::UnicodeWidthStr;
use vstd::prelude::*;

verus! {

/// The character that starts an escape sequence.
pub const ESC: char = '\x1B';

/// The character that ends an operating system command.
pub const BEL: char = '\x07';

/// The number of columns that `unicode_width` counts for the characters of a string.
pub uninterp spec fn unicode_columns(text: Seq<char>) -> usize;

/// `UnicodeWidthStr::width`: the columns of a string. The tables behind it take pages to
/// state; the result depends on the characters alone. Of its values, one is claimed: a single
/// printable ASCII character takes up one column.
#[verifier::external_body]
fn unicode_width(text: &str) -> (columns: usize)
    ensures
        columns == unicode_columns(text@),
        text@.len() == 1 && ' ' <= text@[0] <= '~' ==> columns == 1,
{
    UnicodeWidthStr::width(text)
}

/// `String::push`: appends one character.
pub assume_specification[ String::push ](text: &mut String, c: char)
    ensures
        final(text)@ == old(text)@.push(c),
;

/// What is left of a text that stands inside an operating system command: what follows the
/// first [`BEL`], and nothing where there is none.
pub open spec fn after_bel(text: Seq<char>) -> Seq<char>
    decreases text.len(),
{
    if text.len() == 0 {
        text
    } else if text[0] == BEL {
        text.drop_first()
    } else {
        after_bel(text.drop_first())
    }
}

/// Whether an operating system command starts at the head of the text.
pub open spec fn starts_osc(text: Seq<char>) -> bool {
    text.len() >= 2 && text[0] == ESC && text[1] == ']'
}

/// Leaving an operating system command never makes a text longer.
pub proof fn lemma_after_bel_len(text: Seq<char>)
    ensures
        after_bel(text).len() <= text.len(),
    decreases text.len(),
{
    if text.len() > 0 && text[0] != BEL {
        lemma_after_bel_len(text.drop_first());
    }
}

/// The text without its operating system commands, `ESC ] ... BEL`.
pub open spec fn strip_osc(text: Seq<char>) -> Seq<char>
    decreases text.len(),
{
    if text.len() == 0 {
        text
    } else if starts_osc(text) {
        proof {
            lemma_after_bel_len(text.skip(2));
        }
        strip_osc(after_bel(text.skip(2)))
    } else {
        seq![text[0]] + strip_osc(text.drop_first())
    }
}

/// Whether the text is one printable ASCII character other than the space.
pub open spec fn is_ascii_graphic(text: Seq<char>) -> bool {
    text.len() == 1 && '!' <= text[0] <= '~'
}

/// The number of columns that a text without operating system commands takes up: one for a space
/// or a printable ASCII character, and otherwise what `unicode_width` counts.
pub open spec fn visible_columns(text: Seq<char>) -> int {
    if text == seq![' '] || is_ascii_graphic(text) {
        1
    } else {
        unicode_columns(text) as int
    }
}

/// The number of columns that a symbol takes up: one for a space or a printable ASCII
/// character, and otherwise those of the symbol without its operating system commands.
pub open spec fn columns(symbol: Seq<char>) -> int {
    if symbol == seq![' '] || is_ascii_graphic(symbol) {
        1
    } else {
        visible_columns(strip_osc(symbol))
    }
}

/// A text without escape characters holds no operating system command.
pub proof fn lemma_strip_without_escape(text: Seq<char>)
    requires
        !text.contains(ESC),
    ensures
        strip_osc(text) == text,
    decreases text.len(),
{
    if text.len() > 0 {
        assert(text[0] != ESC);
        let rest = text.drop_first();
        assert forall|i: int| 0 <= i < rest.len() implies rest[i] != ESC by {
            assert(rest[i] == text[i + 1]);
        }
        lemma_strip_without_escape(rest);
        assert(seq![text[0]] + rest =~= text);
    }
}

/// Leaving an operating system command leads behind its end.
proof fn lemma_after_bel_ends(payload: Seq<char>, rest: Seq<char>)
    requires
        !payload.contains(BEL),
    ensures
        after_bel(payload + seq![BEL] + rest) == rest,
    decreases payload.len(),
{
    let text = payload + seq![BEL] + rest;
    if payload.len() == 0 {
        assert(text.drop_first() =~= rest);
    } else {
        let fewer = payload.drop_first();
        assert(payload.contains(payload[0]));
        assert forall|i: int| 0 <= i < fewer.len() implies fewer[i] != BEL by {
            assert(payload.contains(payload[i + 1]));
        }
        lemma_after_bel_ends(fewer, rest);
        assert(text.drop_first() =~= fewer + seq![BEL] + rest);
    }
}

/// A text without escape characters stays in front of what is left of the text behind it.
proof fn lemma_strip_behind(front: Seq<char>, rest: Seq<char>)
    requires
        !front.contains(ESC),
    ensures
        strip_osc(front + rest) == front + strip_osc(rest),
    decreases front.len(),
{
    if front.len() == 0 {
        assert(front + rest =~= rest);
        assert(front + strip_osc(rest) =~= strip_osc(rest));
    } else {
        let fewer = front.drop_first();
        assert(front.contains(front[0]));
        assert forall|i: int| 0 <= i < fewer.len() implies fewer[i] != ESC by {
            assert(front.contains(front[i + 1]));
        }
        lemma_strip_behind(fewer, rest);
        assert((front + rest).drop_first() =~= fewer + rest);
        assert(seq![front[0]] + (fewer + strip_osc(rest)) =~= front + strip_osc(rest));
    }
}

/// An operating system command takes no part in what is measured of a text.
proof fn lemma_osc_is_stripped(front: Seq<char>, payload: Seq<char>, rest: Seq<char>)
    requires
        !front.contains(ESC),
        !payload.contains(BEL),
    ensures
        strip_osc(front + seq![ESC, ']'] + payload + seq![BEL] + rest) == strip_osc(front + rest),
{
    let command = seq![ESC, ']'] + payload + seq![BEL] + rest;
    lemma_strip_behind(front, command);
    lemma_strip_behind(front, rest);
    assert(front + seq![ESC, ']'] + payload + seq![BEL] + rest =~= front + command);
    assert(command.skip(2) =~= payload + seq![BEL] + rest);
    lemma_after_bel_ends(payload, rest);
}

/// An operating system command takes up no columns, whatever its payload and wherever it stands:
/// a text is as wide with it as without it.
pub proof fn law_osc_has_no_columns(front: Seq<char>, payload: Seq<char>, rest: Seq<char>)
    requires
        !front.contains(ESC),
        !payload.contains(BEL),
    ensures
        columns(front + seq![ESC, ']'] + payload + seq![BEL] + rest) == columns(front + rest),
{
    let text = front + seq![ESC, ']'] + payload + seq![BEL] + rest;
    let visible = front + rest;
    lemma_osc_is_stripped(front, payload, rest);
    assert(text.len() >= 3);
    assert(seq![' '].len() == 1);
    if visible == seq![' '] || is_ascii_graphic(visible) {
        assert(visible[0] != ESC);
        assert(visible.len() == 1);
        assert(!visible.contains(ESC));
        lemma_strip_without_escape(visible);
    }
}

/// An operating system command starts at a place of the text.
pub open spec fn osc_at(text: Seq<char>, i: int) -> bool {
    0 <= i && i + 1 < text.len() && text[i] == '\x1B' && text[i + 1] == ']'
}

/// No operating system command starts in the text.
pub open spec fn is_visible(text: Seq<char>) -> bool {
    forall|i: int| !#[trigger] osc_at(text, i)
}

/// A text in which no operating system command starts stays in front of what is left of the
/// text behind it.
proof fn lemma_visible_stays(front: Seq<char>, rest: Seq<char>)
    requires
        is_visible(front),
        rest.len() > 0 ==> rest[0] != ']',
    ensures
        strip_osc(front + rest) == front + strip_osc(rest),
    decreases front.len(),
{
    if front.len() == 0 {
        assert(front + rest =~= rest);
        assert(front + strip_osc(rest) =~= strip_osc(rest));
    } else {
        let fewer = front.drop_first();
        let all = front + rest;
        assert forall|i: int| !#[trigger] osc_at(fewer, i) by {
            if osc_at(fewer, i) {
                assert(osc_at(front, i + 1));
            }
        }
        assert(!osc_at(front, 0));
        assert(!starts_osc(all)) by {
            if starts_osc(all) && front.len() > 1 {
                assert(all[1] == front[1]);
            }
        }
        lemma_visible_stays(fewer, rest);
        assert(all.drop_first() =~= fewer + rest);
        assert(seq![front[0]] + (fewer + strip_osc(rest)) =~= front + strip_osc(rest));
    }
}

/// Without an end, the rest of a text belongs to the operating system command.
proof fn lemma_after_no_bel(payload: Seq<char>)
    requires
        !payload.contains('\x07'),
    ensures
        after_bel(payload).len() == 0,
    decreases payload.len(),
{
    if payload.len() > 0 {
        let fewer = payload.drop_first();
        assert(payload.contains(payload[0]));
        assert forall|i: int| 0 <= i < fewer.len() implies fewer[i] != '\x07' by {
            assert(payload.contains(payload[i + 1]));
        }
        lemma_after_no_bel(fewer);
    }
}

/// Exactly the operating system commands are stripped: a text in which none starts stays as it
/// is, one is taken out from `ESC ]` to the first `BEL` behind it, and one without an end takes
/// the rest of the text with it. As every text is made up in this way, nothing else can be
/// stripped and nothing be left.
pub proof fn law_strip_osc(front: Seq<char>, payload: Seq<char>, rest: Seq<char>)
    requires
        is_visible(front),
        !payload.contains('\x07'),
    ensures
        strip_osc(front) == front,
        strip_osc(front + seq!['\x1B', ']'] + payload + seq!['\x07'] + rest) == front + strip_osc(
            rest,
        ),
        strip_osc(front + seq!['\x1B', ']'] + payload) == front,
{
    let none: Seq<char> = seq![];
    lemma_visible_stays(front, none);
    assert(front + none =~= front);
    assert(strip_osc(none) =~= none);
    let command = seq!['\x1B', ']'] + payload + seq!['\x07'] + rest;
    lemma_visible_stays(front, command);
    assert(front + seq!['\x1B', ']'] + payload + seq!['\x07'] + rest =~= front + command);
    assert(command.skip(2) =~= payload + seq!['\x07'] + rest);
    lemma_after_bel_ends(payload, rest);
    let open = seq!['\x1B', ']'] + payload;
    lemma_visible_stays(front, open);
    assert(front + seq!['\x1B', ']'] + payload =~= front + open);
    assert(open.skip(2) =~= payload);
    lemma_after_no_bel(payload);
    assert(strip_osc(after_bel(payload)) =~= none);
}

/// The text is a single printable ASCII character.
pub open spec fn is_printable(text: Seq<char>) -> bool {
    text.len() == 1 && ' ' <= text[0] <= '~'
}

/// A printable ASCII character takes up one column, and so does it with operating system
/// commands around it. Every other symbol takes up what `unicode_width` counts for it without
/// its operating system commands, and, where it has none, for the symbol itself.
pub proof fn law_columns_are_those_of_unicode(symbol: Seq<char>)
    ensures
        is_printable(symbol) || is_printable(strip_osc(symbol)) ==> columns(symbol) == 1,
        !is_printable(symbol) && !is_printable(strip_osc(symbol)) ==> columns(symbol)
            == unicode_columns(strip_osc(symbol)),
        !is_printable(symbol) && is_visible(symbol) ==> columns(symbol) == unicode_columns(symbol),
{
    let visible = strip_osc(symbol);
    assert(seq![' '].len() == 1 && seq![' '][0] == ' ');
    if is_printable(symbol) && symbol[0] == ' ' {
        assert(symbol =~= seq![' ']);
    }
    if is_printable(visible) && visible[0] == ' ' {
        assert(visible =~= seq![' ']);
    }
    if is_visible(symbol) {
        let none: Seq<char> = seq![];
        law_strip_osc(symbol, none, none);
    }
}

/// Whether a string holds an escape character.
fn contains_escape(text: &str) -> (found: bool)
    ensures
        found == text@.contains(ESC),
{
    let mut chars = text.chars();
    let ghost mut seen: int = 0;
    assert(text@.skip(0) =~= text@);
    loop
        invariant
            vstd::std_specs::iter::IteratorSpec::obeys_prophetic_iter_laws(&chars),
            0 <= seen <= text@.len(),
            vstd::std_specs::iter::IteratorSpec::remaining(&chars) == text@.skip(seen),
            forall|i: int| 0 <= i < seen ==> text@[i] != ESC,
        decreases text@.len() - seen,
    {
        match chars.next() {
            None => {
                return false;
            },
            Some(c) => {
                assert(c == text@[seen]);
                if c == ESC {
                    return true;
                }
                proof {
                    assert(text@.skip(seen).drop_first() =~= text@.skip(seen + 1));
                    seen = seen + 1;
                }
            },
        }
    }
}

/// The string without its operating system commands, `ESC ] ... BEL`.
pub fn strip_osc_sequences(text: &str) -> (visible: String)
    ensures
        visible@ == strip_osc(text@),
{
    let mut visible = String::new();
    let mut chars = text.chars();
    let mut head: Option<char> = chars.next();
    // What is still to be stripped: the head, where there is one, and what follows it.
    let ghost mut rest = text@;
    loop
        invariant
            vstd::std_specs::iter::IteratorSpec::obeys_prophetic_iter_laws(&chars),
            strip_osc(text@) == visible@ + strip_osc(rest),
            match head {
                None => rest.len() == 0,
                Some(c) => rest.len() > 0 && rest[0] == c && vstd::std_specs::iter::IteratorSpec::remaining(&chars)
                    == rest.drop_first(),
            },
        decreases rest.len(),
    {
        match head {
            None => {
                assert(visible@ + strip_osc(rest) =~= visible@);
                return visible;
            },
            Some(c) => {
                let next = chars.next();
                let ghost tail = rest.drop_first();
                if c == ESC && next == Some(']') {
                    let ghost mut inside = tail.drop_first();
                    assert(inside =~= rest.skip(2));
                    let mut open = true;
                    while open
                        invariant
                            vstd::std_specs::iter::IteratorSpec::obeys_prophetic_iter_laws(&chars),
                            open ==> vstd::std_specs::iter::IteratorSpec::remaining(&chars) == inside && after_bel(rest.skip(2))
                                == after_bel(inside),
                            !open ==> vstd::std_specs::iter::IteratorSpec::remaining(&chars) == after_bel(rest.skip(2)),
                        decreases (if open { inside.len() + 1 } else { 0 }),
                    {
                        match chars.next() {
                            None => {
                                open = false;
                            },
                            Some(skipped) => {
                                if skipped == BEL {
                                    open = false;
                                } else {
                                    proof {
                                        inside = inside.drop_first();
                                    }
                                }
                            },
                        }
                    }
                    head = chars.next();
                    proof {
                        lemma_after_bel_len(rest.skip(2));
                        rest = after_bel(rest.skip(2));
                    }
                } else {
                    visible.push(c);
                    head = next;
                    proof {
                        assert(visible@ + strip_osc(tail) =~= visible@.drop_last() + (seq![c]
                            + strip_osc(tail)));
                        rest = tail;
                    }
                }
            },
        }
    }
}

/// Returns the display width of a cell symbol, ignoring OSC escape sequences.
///
/// OSC sequences (e.g. OSC 8 hyperlinks: `\x1B]8;;URL\x07`) are terminal control sequences
/// that take up no columns. `UnicodeWidthStr::width` counts the printable characters in
/// their payload (like `]`, `8`, `;` and those of a URL), so they are stripped first.
pub fn display_width(symbol: &str) -> (width: usize)
    ensures
        width == columns(symbol@),
        is_printable(symbol@) ==> width == 1,
        !is_printable(symbol@) ==> width == unicode_columns(strip_osc(symbol@)),
        !is_printable(symbol@) && is_visible(symbol@) ==> width == unicode_columns(symbol@),
{
    proof {
        law_columns_are_those_of_unicode(symbol@);
        if is_visible(symbol@) {
            law_strip_osc(symbol@, seq![], seq![]);
        }
    }
    let mut chars = symbol.chars();
    let first = chars.next();
    let second = chars.next();
    match (first, second) {
        (Some(c), None) => {
            assert(symbol@ =~= seq![c]);
            if ' ' <= c && c <= '~' {
                return 1;
            }
        },
        _ => {
            assert(symbol@.len() != 1);
            assert(seq![' '].len() == 1);
        },
    }
    // Fast path: no escape sequences present.
    if !contains_escape(symbol) {
        proof {
            lemma_strip_without_escape(symbol@);
        }
        return unicode_width(symbol);
    }
    let visible = strip_osc_sequences(symbol);
    proof {
        if visible@ == seq![' '] {
            assert(visible@[0] == ' ');
        }
    }
    unicode_width(visible.as_str())
}

} // verus!
