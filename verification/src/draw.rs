//! The bytes that carry the changes of a frame to the terminal.

use crate::diff::{command_views, DrawCommand, DrawCommandView};
use crate::geometry::Position;
use crate::modifier_diff::ModifierDiff;
use crate::ops::{
    appends, lemma_appends_nothing, lemma_appends_trans, plain_ops, queue_attribute,
    queue_background, queue_clear, queue_colors, queue_move_to, queue_plain, queue_print, Op,
};
use crate::style::{Attribute, ClearType, Color, Modifier};
use vstd::prelude::*;

verus! {

impl DrawCommandView {
    /// Where the command takes effect.
    pub open spec fn position(self) -> Position {
        match self {
            DrawCommandView::Put { x, y, .. } => Position { x, y },
            DrawCommandView::ClearToEnd { x, y, .. } => Position { x, y },
        }
    }
}

/// A command takes effect at its column and its row.
pub proof fn law_command_stands_at_its_place(command: DrawCommand)
    ensures
        match command {
            DrawCommand::Put { x, y, cell } => {
                &&& command@ == (DrawCommandView::Put { x, y, cell: cell@ })
                &&& command@.position() == Position { x, y }
            },
            DrawCommand::ClearToEnd { x, y, bg } => {
                &&& command@ == (DrawCommandView::ClearToEnd { x, y, bg })
                &&& command@.position() == Position { x, y }
            },
        },
{
}

/// The value of a list of commands is that of each command, in the same order.
pub proof fn law_command_views(commands: Seq<DrawCommand>, i: int)
    ensures
        command_views(commands).len() == commands.len(),
        0 <= i < commands.len() ==> command_views(commands)[i] == commands[i]@,
{
}

/// What is known of the terminal while commands are written.
pub struct DrawState {
    /// The foreground colour that was set last.
    pub fg: Color,
    /// The background colour that was set last.
    pub bg: Color,
    /// The modifiers in force.
    pub modifier: Modifier,
    /// Where the last command took effect.
    pub last_pos: Option<Position>,
}

impl DrawState {
    /// Before the first command: the terminal's own colours, plain text, the cursor anywhere.
    pub open spec fn initial() -> DrawState {
        DrawState {
            fg: Color::Reset,
            bg: Color::Reset,
            modifier: Modifier::none(),
            last_pos: None,
        }
    }

    /// The position is one column to the right of the last command's.
    pub open spec fn continues(self, position: Position) -> bool {
        match self.last_pos {
            None => false,
            Some(last) => position.x == last.x + 1 && position.y == last.y,
        }
    }

    /// The cursor is moved, unless the command stands one column after the last.
    pub open spec fn move_ops(self, position: Position) -> Seq<Op> {
        if self.continues(position) {
            seq![]
        } else {
            seq![Op::MoveTo(position)]
        }
    }

    /// The modifiers are changed, where the cell wants others.
    pub open spec fn modifier_ops(self, modifier: Modifier) -> Seq<Op> {
        if modifier != self.modifier {
            (ModifierDiff { from: self.modifier, to: modifier }).ops()
        } else {
            seq![]
        }
    }

    /// The colours are set, where the cell wants others.
    pub open spec fn color_ops(self, fg: Color, bg: Color) -> Seq<Op> {
        if fg != self.fg || bg != self.bg {
            seq![Op::SetColors(fg, bg)]
        } else {
            seq![]
        }
    }

    /// What is written for a command.
    pub open spec fn ops(self, command: DrawCommandView) -> Seq<Op> {
        self.move_ops(command.position()) + match command {
            DrawCommandView::Put { cell, .. } => self.modifier_ops(cell.modifier)
                + self.color_ops(cell.fg, cell.bg) + seq![Op::Print(seq![cell.symbol])],
            DrawCommandView::ClearToEnd { bg, .. } => seq![
                Op::SetAttribute(Attribute::Reset),
                Op::SetBackground(bg),
                Op::Clear(ClearType::UntilNewLine),
            ],
        }
    }

    /// What is known after a command.
    pub open spec fn after(self, command: DrawCommandView) -> DrawState {
        match command {
            DrawCommandView::Put { cell, .. } => DrawState {
                fg: cell.fg,
                bg: cell.bg,
                modifier: cell.modifier,
                last_pos: Some(command.position()),
            },
            DrawCommandView::ClearToEnd { bg, .. } => DrawState {
                fg: Color::Reset,
                bg,
                modifier: Modifier::none(),
                last_pos: Some(command.position()),
            },
        }
    }
}

/// What is known after the commands.
pub open spec fn state_after(commands: Seq<DrawCommandView>) -> DrawState
    decreases commands.len(),
{
    if commands.len() == 0 {
        DrawState::initial()
    } else {
        state_after(commands.drop_last()).after(commands.last())
    }
}

/// What is written for the commands, one after the other.
pub open spec fn commands_ops(commands: Seq<DrawCommandView>) -> Seq<Op>
    decreases commands.len(),
{
    if commands.len() == 0 {
        seq![]
    } else {
        commands_ops(commands.drop_last()) + state_after(commands.drop_last()).ops(commands.last())
    }
}

/// What is written for the commands, and the return to plain text.
pub open spec fn draw_ops(commands: Seq<DrawCommandView>) -> Seq<Op> {
    commands_ops(commands) + plain_ops()
}

/// Every position that the cursor is moved to can be said to the terminal, and a column
/// follows that of every command but the last.
pub open spec fn placeable(commands: Seq<DrawCommandView>) -> bool {
    forall|i: int|
        0 <= i < commands.len() ==> {
            let position = (#[trigger] commands[i]).position();
            &&& i + 1 < commands.len() ==> position.x < u16::MAX
            &&& position.encodable() || state_after(commands.take(i)).continues(position)
        }
}

/// Writes the commands.
pub fn draw(writer: &mut Vec<u8>, commands: &Vec<DrawCommand>)
    requires
        placeable(command_views(commands@)),
    ensures
        appends(old(writer)@, final(writer)@, draw_ops(command_views(commands@))),
{
    let ghost views = command_views(commands@);
    let ghost before = writer@;
    let mut fg: Color = Color::Reset;
    let mut bg: Color = Color::Reset;
    let mut modifier: Modifier = Modifier::empty();
    let mut last_pos: Option<Position> = None;
    let mut i: usize = 0;
    proof {
        lemma_appends_nothing(before);
        assert(views.take(0) =~= seq![]);
    }
    while i < commands.len()
        invariant
            i <= commands.len(),
            views == command_views(commands@),
            placeable(views),
            state_after(views.take(i as int)) == (DrawState { fg, bg, modifier, last_pos }),
            appends(before, writer@, commands_ops(views.take(i as int))),
        decreases commands.len() - i,
    {
        let ghost state = DrawState { fg, bg, modifier, last_pos };
        let ghost done = commands_ops(views.take(i as int));
        let ghost start = writer@;
        let ghost view = views[i as int];
        let command = &commands[i];
        assert(view == command@);
        let position: Position = match command {
            DrawCommand::Put { x, y, .. } => Position { x: *x, y: *y },
            DrawCommand::ClearToEnd { x, y, .. } => Position { x: *x, y: *y },
        };
        // Move the cursor if the previous location was not one column to the left.
        let continues: bool = match last_pos {
            Some(last) => {
                proof {
                    assert(views.take(i as int).last() == views[i - 1]);
                    assert(views[i - 1].position() == last);
                }
                position.x == last.x + 1 && position.y == last.y
            },
            None => false,
        };
        if !continues {
            queue_move_to(writer, position);
        } else {
            proof {
                lemma_appends_nothing(start);
            }
        }
        last_pos = Some(position);
        let ghost moved = writer@;
        match command {
            DrawCommand::Put { cell, .. } => {
                if cell.modifier != modifier {
                    let diff = ModifierDiff { from: modifier, to: cell.modifier };
                    diff.queue(writer);
                    modifier = cell.modifier;
                } else {
                    proof {
                        lemma_appends_nothing(moved);
                    }
                }
                let ghost modified = writer@;
                if cell.fg != fg || cell.bg != bg {
                    queue_colors(writer, cell.fg, cell.bg);
                    fg = cell.fg;
                    bg = cell.bg;
                } else {
                    proof {
                        lemma_appends_nothing(modified);
                    }
                }
                let ghost colored = writer@;
                queue_print(writer, cell.symbol());
                proof {
                    let a = state.modifier_ops(cell.modifier);
                    let b = state.color_ops(cell.fg, cell.bg);
                    let c = seq![Op::Print(seq![cell@.symbol])];
                    lemma_appends_trans(moved, modified, colored, a, b);
                    lemma_appends_trans(moved, colored, writer@, a + b, c);
                    lemma_appends_trans(start, moved, writer@, state.move_ops(position), a + b + c);
                }
            },
            DrawCommand::ClearToEnd { bg: clear_bg, .. } => {
                queue_attribute(writer, Attribute::Reset);
                let ghost plain = writer@;
                modifier = Modifier::empty();
                fg = Color::Reset;
                queue_background(writer, *clear_bg);
                let ghost colored = writer@;
                bg = *clear_bg;
                queue_clear(writer, ClearType::UntilNewLine);
                proof {
                    let a = seq![Op::SetAttribute(Attribute::Reset)];
                    let b = seq![Op::SetBackground(*clear_bg)];
                    let c = seq![Op::Clear(ClearType::UntilNewLine)];
                    lemma_appends_trans(moved, plain, colored, a, b);
                    lemma_appends_trans(moved, colored, writer@, a + b, c);
                    lemma_appends_trans(start, moved, writer@, state.move_ops(position), a + b + c);
                    assert(state.move_ops(position) + (a + b + c) =~= state.ops(view));
                }
            },
        }
        proof {
            lemma_appends_trans(before, start, writer@, done, state.ops(view));
            let taken = views.take(i + 1);
            assert(taken.drop_last() =~= views.take(i as int));
            assert(taken.last() == view);
        }
        i = i + 1;
    }
    let ghost written = writer@;
    queue_plain(writer);
    proof {
        assert(views.take(commands.len() as int) =~= views);
        lemma_appends_trans(before, written, writer@, commands_ops(views), plain_ops());
    }
}

} // verus!
