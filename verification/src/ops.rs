//! Terminal commands, and what it means that bytes encode them.

use crate::ansi::{
    attribute_number, attribute_text, background_text, clear_sequence, clear_text,
    color_parameters, colors_sequence, colors_text, decimal, joined, move_to_sequence,
    move_to_text, print_text, reset_foreground_text,
};
use crate::geometry::Position;
use crate::style::{Attribute, ClearType, Color};
use vstd::prelude::*;

verus! {

/// A command to the terminal.
#[verifier::ext_equal]
pub enum Op {
    /// Moves the cursor.
    MoveTo(Position),
    /// Sets or resets text attributes.
    SetAttribute(Attribute),
    /// Sets the foreground and the background colour.
    SetColors(Color, Color),
    /// Sets the foreground colour to the terminal's own.
    ResetForeground,
    /// Sets the background colour.
    SetBackground(Color),
    /// Erases a part of the screen.
    Clear(ClearType),
    /// Shows symbols, one after the other from where the cursor stands.
    Print(Seq<Seq<char>>),
}

/// Which colours of a command were written while colours were switched on.
pub struct Shown {
    pub fg: bool,
    pub bg: bool,
}

/// The symbols, one after the other.
pub open spec fn joined_symbols(symbols: Seq<Seq<char>>) -> Seq<u8>
    decreases symbols.len(),
{
    if symbols.len() == 0 {
        seq![]
    } else {
        joined_symbols(symbols.drop_last()) + vstd::utf8::encode_utf8(symbols.last())
    }
}

impl Op {
    /// The command has an escape sequence: the cursor goes to no row or column that cannot be
    /// counted from one.
    pub open spec fn encodable(self) -> bool {
        match self {
            Op::MoveTo(position) => position.encodable(),
            _ => true,
        }
    }

    /// The bytes that are written for the command.
    pub open spec fn bytes(self, shown: Shown) -> Seq<u8> {
        match self {
            Op::MoveTo(position) => vstd::utf8::encode_utf8(
                crate::ansi::move_to_sequence(position),
            ),
            Op::SetAttribute(attribute) => vstd::utf8::encode_utf8(
                crate::ansi::attribute_sequence(attribute),
            ),
            Op::SetColors(fg, bg) => vstd::utf8::encode_utf8(
                crate::ansi::colors_sequence(fg, bg, shown.fg, shown.bg),
            ),
            Op::ResetForeground => vstd::utf8::encode_utf8(
                crate::ansi::foreground_sequence(Color::Reset, shown.fg),
            ),
            Op::SetBackground(bg) => vstd::utf8::encode_utf8(
                crate::ansi::background_sequence(bg, shown.bg),
            ),
            Op::Clear(clear_type) => vstd::utf8::encode_utf8(
                crate::ansi::clear_sequence(clear_type),
            ),
            Op::Print(symbols) => joined_symbols(symbols),
        }
    }
}

/// The bytes of the commands, one after the other; `shown` says of each command which of its
/// colours were written.
pub open spec fn ops_bytes(ops: Seq<Op>, shown: Seq<Shown>) -> Seq<u8>
    decreases ops.len(),
{
    if ops.len() == 0 {
        seq![]
    } else {
        ops_bytes(ops.drop_last(), shown.drop_last()) + ops.last().bytes(shown.last())
    }
}

/// The bytes are those of the commands, for some account of which colours were switched on.
pub open spec fn encodes(ops: Seq<Op>, bytes: Seq<u8>) -> bool {
    exists|shown: Seq<Shown>| shown.len() == ops.len() && bytes == #[trigger] ops_bytes(ops, shown)
}

/// What was written beyond `before` encodes the commands.
pub open spec fn appends(before: Seq<u8>, after: Seq<u8>, ops: Seq<Op>) -> bool {
    &&& before.len() <= after.len()
    &&& after.take(before.len() as int) == before
    &&& encodes(ops, after.skip(before.len() as int))
}

/// The bytes of two lists of commands, one after the other.
pub proof fn lemma_ops_bytes_concat(a: Seq<Op>, b: Seq<Op>, s: Seq<Shown>, t: Seq<Shown>)
    requires
        a.len() == s.len(),
        b.len() == t.len(),
    ensures
        ops_bytes(a + b, s + t) == ops_bytes(a, s) + ops_bytes(b, t),
    decreases b.len(),
{
    if b.len() == 0 {
        assert(a + b =~= a);
        assert(s + t =~= s);
        assert(ops_bytes(a, s) + ops_bytes(b, t) =~= ops_bytes(a, s));
    } else {
        lemma_ops_bytes_concat(a, b.drop_last(), s, t.drop_last());
        assert((a + b).drop_last() =~= a + b.drop_last());
        assert((s + t).drop_last() =~= s + t.drop_last());
        assert(ops_bytes(a + b, s + t) =~= ops_bytes(a, s) + ops_bytes(b, t));
    }
}

/// Writing nothing encodes no command.
pub proof fn lemma_appends_nothing(bytes: Seq<u8>)
    ensures
        appends(bytes, bytes, seq![]),
{
    let none: Seq<Shown> = seq![];
    assert(bytes.take(bytes.len() as int) =~= bytes);
    assert(bytes.skip(bytes.len() as int) =~= ops_bytes(seq![], none));
}

/// What is written in two goes encodes the commands of both.
pub proof fn lemma_appends_trans(
    before: Seq<u8>,
    between: Seq<u8>,
    after: Seq<u8>,
    a: Seq<Op>,
    b: Seq<Op>,
)
    requires
        appends(before, between, a),
        appends(between, after, b),
    ensures
        appends(before, after, a + b),
{
    let first = between.skip(before.len() as int);
    let second = after.skip(between.len() as int);
    let s = choose|s: Seq<Shown>| s.len() == a.len() && first == #[trigger] ops_bytes(a, s);
    let t = choose|t: Seq<Shown>| t.len() == b.len() && second == #[trigger] ops_bytes(b, t);
    lemma_ops_bytes_concat(a, b, s, t);
    assert(between =~= before + first);
    assert(after =~= between + second);
    assert(after.take(before.len() as int) =~= before);
    assert(after.skip(before.len() as int) =~= first + second);
    assert((s + t).len() == (a + b).len());
}

/// What is written for one command.
proof fn lemma_appends_one(before: Seq<u8>, op: Op, shown: Shown)
    ensures
        appends(before, before + op.bytes(shown), seq![op]),
{
    let after = before + op.bytes(shown);
    let all: Seq<Shown> = seq![shown];
    assert(after.take(before.len() as int) =~= before);
    assert(seq![op].drop_last() =~= seq![]);
    assert(all.drop_last() =~= seq![]);
    assert(ops_bytes(seq![op], all) =~= op.bytes(shown)) by {
        assert(ops_bytes(seq![op].drop_last(), all.drop_last()) =~= seq![]);
    }
    assert(after.skip(before.len() as int) =~= op.bytes(shown));
}

/// Writes a text.
fn write_text(writer: &mut Vec<u8>, text: String)
    ensures
        final(writer)@ == old(writer)@ + vstd::utf8::encode_utf8(text@),
{
    writer.extend_from_slice(text.as_str().as_bytes());
}

/// Writes the command that moves the cursor.
pub fn queue_move_to(writer: &mut Vec<u8>, position: Position)
    requires
        position.encodable(),
    ensures
        appends(old(writer)@, final(writer)@, seq![Op::MoveTo(position)]),
{
    let ghost before = writer@;
    write_text(writer, move_to_text(position));
    proof {
        lemma_appends_one(before, Op::MoveTo(position), Shown { fg: true, bg: true });
    }
}

/// Writes the command that sets an attribute.
pub fn queue_attribute(writer: &mut Vec<u8>, attribute: Attribute)
    ensures
        appends(old(writer)@, final(writer)@, seq![Op::SetAttribute(attribute)]),
{
    let ghost before = writer@;
    write_text(writer, attribute_text(attribute));
    proof {
        lemma_appends_one(before, Op::SetAttribute(attribute), Shown { fg: true, bg: true });
    }
}

/// Writes the command that sets both colours.
pub fn queue_colors(writer: &mut Vec<u8>, fg: Color, bg: Color)
    ensures
        appends(old(writer)@, final(writer)@, seq![Op::SetColors(fg, bg)]),
{
    let ghost before = writer@;
    let text = colors_text(fg, bg);
    proof {
        let (fg_shown, bg_shown) = choose|fg_shown: bool, bg_shown: bool|
            text@ == #[trigger] crate::ansi::colors_sequence(fg, bg, fg_shown, bg_shown);
        lemma_appends_one(before, Op::SetColors(fg, bg), Shown { fg: fg_shown, bg: bg_shown });
    }
    write_text(writer, text);
}

/// Writes the command that sets the background colour.
pub fn queue_background(writer: &mut Vec<u8>, bg: Color)
    ensures
        appends(old(writer)@, final(writer)@, seq![Op::SetBackground(bg)]),
{
    let ghost before = writer@;
    let text = background_text(bg);
    proof {
        let shown = choose|shown: bool|
            text@ == #[trigger] crate::ansi::background_sequence(bg, shown);
        lemma_appends_one(before, Op::SetBackground(bg), Shown { fg: true, bg: shown });
    }
    write_text(writer, text);
}

/// Writes the command that erases a part of the screen.
pub fn queue_clear(writer: &mut Vec<u8>, clear_type: ClearType)
    ensures
        appends(old(writer)@, final(writer)@, seq![Op::Clear(clear_type)]),
{
    let ghost before = writer@;
    write_text(writer, clear_text(clear_type));
    proof {
        lemma_appends_one(before, Op::Clear(clear_type), Shown { fg: true, bg: true });
    }
}

/// Writes a symbol.
pub fn queue_print(writer: &mut Vec<u8>, symbol: &str)
    ensures
        appends(old(writer)@, final(writer)@, seq![Op::Print(seq![symbol@])]),
{
    let ghost before = writer@;
    write_text(writer, print_text(symbol));
    proof {
        let symbols = seq![symbol@];
        assert(symbols.drop_last() =~= seq![]);
        assert(joined_symbols(symbols) =~= vstd::utf8::encode_utf8(symbol@)) by {
            assert(joined_symbols(symbols.drop_last()) =~= seq![]);
        }
        lemma_appends_one(before, Op::Print(symbols), Shown { fg: true, bg: true });
    }
}

/// Writes the bytes of symbols that follow each other.
pub(crate) fn write_symbols(writer: &mut Vec<u8>, bytes: &Vec<u8>, Ghost(symbols): Ghost<Seq<Seq<char>>>)
    requires
        bytes@ == joined_symbols(symbols),
    ensures
        appends(old(writer)@, final(writer)@, seq![Op::Print(symbols)]),
{
    let ghost before = writer@;
    writer.extend_from_slice(bytes.as_slice());
    proof {
        lemma_appends_one(before, Op::Print(symbols), Shown { fg: true, bg: true });
        assert(writer@ =~= before + bytes@);
    }
}

/// The commands that bring the terminal's own colours and plain text back.
pub open spec fn plain_ops() -> Seq<Op> {
    seq![Op::ResetForeground, Op::SetBackground(Color::Reset), Op::SetAttribute(Attribute::Reset)]
}

/// Writes the commands that bring the terminal's own colours and plain text back.
pub fn queue_plain(writer: &mut Vec<u8>)
    ensures
        appends(old(writer)@, final(writer)@, plain_ops()),
{
    let ghost before = writer@;
    let text = reset_foreground_text();
    proof {
        let shown = choose|shown: bool|
            text@ == #[trigger] crate::ansi::foreground_sequence(Color::Reset, shown);
        lemma_appends_one(before, Op::ResetForeground, Shown { fg: shown, bg: true });
    }
    write_text(writer, text);
    let ghost second = writer@;
    queue_background(writer, Color::Reset);
    let ghost third = writer@;
    queue_attribute(writer, Attribute::Reset);
    proof {
        let a = seq![Op::ResetForeground];
        let b = seq![Op::SetBackground(Color::Reset)];
        let c = seq![Op::SetAttribute(Attribute::Reset)];
        lemma_appends_trans(before, second, third, a, b);
        lemma_appends_trans(before, third, writer@, a + b, c);
        assert(a + b + c =~= plain_ops());
    }
}

/// The characters of an escape sequence of a command: how a terminal is told to move the cursor to
/// a row and a column, both counted from one, to set an attribute or colours by their numbers, or
/// to erase.
pub open spec fn escape_characters(op: Op, shown: Shown) -> Seq<char> {
    let escape = seq!['\x1B', '['];
    match op {
        Op::MoveTo(position) => escape + decimal(position.y + 1) + seq![';'] + decimal(
            position.x + 1,
        ) + seq!['H'],
        Op::SetAttribute(attribute) => escape + decimal(attribute_number(attribute)) + seq!['m'],
        Op::SetColors(fg, bg) => escape + color_parameters(30, fg, shown.fg) + seq![';']
            + color_parameters(40, bg, shown.bg) + seq!['m'],
        Op::ResetForeground => escape + color_parameters(30, Color::Reset, shown.fg) + seq!['m'],
        Op::SetBackground(bg) => escape + color_parameters(40, bg, shown.bg) + seq!['m'],
        Op::Clear(ClearType::Purge) => escape + seq!['3', 'J'],
        Op::Clear(ClearType::FromCursorDown) => escape + seq!['J'],
        Op::Clear(ClearType::UntilNewLine) => escape + seq!['K'],
        Op::Print(symbols) => symbols.flatten(),
    }
}

/// Every command but the one that shows symbols is written as the characters of its escape
/// sequence.
pub proof fn law_bytes_are_those_of_escape_sequences(op: Op, shown: Shown)
    requires
        !(op is Print),
    ensures
        op.bytes(shown) == vstd::utf8::encode_utf8(escape_characters(op, shown)),
{
    let escape: Seq<char> = seq!['\x1B', '['];
    match op {
        Op::MoveTo(position) => {
            let y = position.y + 1;
            let x = position.x + 1;
            reveal_with_fuel(joined, 3);
            assert(seq![y, x].drop_last() =~= seq![y]);
            assert(move_to_sequence(position) =~= escape_characters(op, shown));
        },
        Op::SetColors(fg, bg) => {
            assert(colors_sequence(fg, bg, shown.fg, shown.bg) =~= escape_characters(op, shown));
        },
        Op::Clear(clear_type) => {
            assert(decimal(3) =~= seq!['3']);
            assert(clear_sequence(clear_type) =~= escape_characters(op, shown));
        },
        _ => {},
    }
}

/// Symbols are written one after the other, and so are commands: what is written for two lists is
/// what is written for the one and then for the other; one symbol is written as it is.
pub proof fn law_bytes_follow_each_other(
    symbols: Seq<Seq<char>>,
    more: Seq<Seq<char>>,
    symbol: Seq<char>,
    ops: Seq<Op>,
    rest: Seq<Op>,
    bytes: Seq<u8>,
    others: Seq<u8>,
)
    requires
        encodes(ops, bytes),
        encodes(rest, others),
    ensures
        joined_symbols(symbols + more) == joined_symbols(symbols) + joined_symbols(more),
        joined_symbols(seq![symbol]) == vstd::utf8::encode_utf8(symbol),
        joined_symbols(seq![]) == Seq::<u8>::empty(),
        encodes(ops + rest, bytes + others),
    decreases more.len(),
{
    let s = choose|s: Seq<Shown>| s.len() == ops.len() && bytes == #[trigger] ops_bytes(ops, s);
    let t = choose|t: Seq<Shown>|
        t.len() == rest.len() && others == #[trigger] ops_bytes(rest, t);
    lemma_ops_bytes_concat(ops, rest, s, t);
    assert((s + t).len() == (ops + rest).len());
    reveal_with_fuel(joined_symbols, 2);
    assert(seq![symbol].drop_last() =~= seq![]);
    assert(joined_symbols(seq![symbol]) =~= vstd::utf8::encode_utf8(symbol));
    if more.len() == 0 {
        assert(symbols + more =~= symbols);
        assert(joined_symbols(symbols) + joined_symbols(more) =~= joined_symbols(symbols));
    } else {
        law_bytes_follow_each_other(
            symbols,
            more.drop_last(),
            symbol,
            ops,
            rest,
            bytes,
            others,
        );
        assert((symbols + more).drop_last() =~= symbols + more.drop_last());
        assert(joined_symbols(symbols + more) =~= joined_symbols(symbols) + joined_symbols(more));
    }
}

/// Bytes encode one command exactly where they are those of the command, for some account of which
/// colours were switched on, and no command exactly where there are none.
pub proof fn law_encoded_command(op: Op, bytes: Seq<u8>)
    ensures
        encodes(seq![op], bytes) <==> exists|shown: Shown| bytes == #[trigger] op.bytes(shown),
        encodes(seq![], bytes) <==> bytes.len() == 0,
{
    let none: Seq<Shown> = seq![];
    let empty: Seq<Op> = seq![];
    reveal_with_fuel(ops_bytes, 2);
    assert(seq![op].drop_last() =~= empty);
    if encodes(seq![op], bytes) {
        let all = choose|all: Seq<Shown>|
            all.len() == 1 && bytes == #[trigger] ops_bytes(seq![op], all);
        assert(all.drop_last() =~= none);
        assert(bytes =~= op.bytes(all.last()));
    }
    if exists|shown: Shown| bytes == #[trigger] op.bytes(shown) {
        let shown = choose|shown: Shown| bytes == #[trigger] op.bytes(shown);
        let all: Seq<Shown> = seq![shown];
        assert(all.drop_last() =~= none);
        assert(bytes =~= ops_bytes(seq![op], all));
    }
    if bytes.len() == 0 {
        assert(bytes =~= ops_bytes(empty, none));
    }
}

} // verus!
