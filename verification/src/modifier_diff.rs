//! The attributes that lead from one set of text modifiers to another.

use crate::ops::{appends, lemma_appends_nothing, lemma_appends_trans, queue_attribute, Op};
use crate::style::{
    Attribute, Modifier, BOLD, CROSSED_OUT, DIM, ITALIC, RAPID_BLINK, REVERSED, SLOW_BLINK,
    UNDERLINED,
};
use vstd::prelude::*;

verus! {

/// Two sets of text modifiers: the one in force and the one that is wanted.
///
/// Only what differs between the two has to be said to the terminal.
pub struct ModifierDiff {
    pub from: Modifier,
    pub to: Modifier,
}

/// The list with one more attribute at its end, if the condition holds.
#[verifier::opaque]
pub open spec fn push_when(list: Seq<Attribute>, condition: bool, attribute: Attribute) -> Seq<
    Attribute,
> {
    if condition {
        list.push(attribute)
    } else {
        list
    }
}

impl ModifierDiff {
    /// The modifier goes.
    pub open spec fn removes(self, flag: u16) -> bool {
        self.from.has(flag) && !self.to.has(flag)
    }

    /// The modifier comes.
    pub open spec fn adds(self, flag: u16) -> bool {
        self.to.has(flag) && !self.from.has(flag)
    }

    /// The modifier stays.
    pub open spec fn keeps(self, flag: u16) -> bool {
        self.from.has(flag) && self.to.has(flag)
    }

    /// What switches off the modifiers that go. Bold and faint share a switch, and so do the two
    /// kinds of blinking: what stays of such a pair is switched on again.
    pub open spec fn switches_off(self) -> Seq<Attribute> {
        let blinks = self.removes(SLOW_BLINK) || self.removes(RAPID_BLINK);
        let list = push_when(seq![], self.removes(REVERSED), Attribute::NoReverse);
        let list = push_when(list, self.removes(BOLD), Attribute::NormalIntensity);
        let list = push_when(list, self.removes(BOLD) && self.keeps(DIM), Attribute::Dim);
        let list = push_when(list, self.removes(ITALIC), Attribute::NoItalic);
        let list = push_when(list, self.removes(UNDERLINED), Attribute::NoUnderline);
        let list = push_when(
            list,
            self.removes(DIM) && !self.removes(BOLD),
            Attribute::NormalIntensity,
        );
        let list = push_when(list, self.removes(DIM) && self.keeps(BOLD), Attribute::Bold);
        let list = push_when(list, self.removes(CROSSED_OUT), Attribute::NotCrossedOut);
        let list = push_when(list, blinks, Attribute::NoBlink);
        let list = push_when(
            list,
            self.removes(RAPID_BLINK) && self.keeps(SLOW_BLINK),
            Attribute::SlowBlink,
        );
        push_when(
            list,
            self.removes(SLOW_BLINK) && self.keeps(RAPID_BLINK),
            Attribute::RapidBlink,
        )
    }

    /// What switches off the modifiers that go, and then what switches on those that come.
    pub open spec fn switches(self) -> Seq<Attribute> {
        let list = self.switches_off();
        let list = push_when(list, self.adds(REVERSED), Attribute::Reverse);
        let list = push_when(list, self.adds(BOLD), Attribute::Bold);
        let list = push_when(list, self.adds(ITALIC), Attribute::Italic);
        let list = push_when(list, self.adds(UNDERLINED), Attribute::Underlined);
        let list = push_when(list, self.adds(DIM), Attribute::Dim);
        let list = push_when(list, self.adds(CROSSED_OUT), Attribute::CrossedOut);
        let list = push_when(list, self.adds(SLOW_BLINK), Attribute::SlowBlink);
        push_when(list, self.adds(RAPID_BLINK), Attribute::RapidBlink)
    }

    /// The attributes to set, in their order.
    fn attributes(&self) -> (list: Vec<Attribute>)
        ensures
            list@ == self.switches(),
    {
        let mut list: Vec<Attribute> = Vec::new();
        let removed = self.from.difference(self.to);
        let added = self.to.difference(self.from);
        proof {
            reveal(push_when);
            lemma_difference(self.from, self.to);
            lemma_difference(self.to, self.from);
            assert(list@ =~= seq![]);
        }
        if removed.contains(REVERSED) {
            list.push(Attribute::NoReverse);
        }
        if removed.contains(BOLD) {
            list.push(Attribute::NormalIntensity);
            if self.from.contains(DIM) && self.to.contains(DIM) {
                list.push(Attribute::Dim);
            }
        }
        if removed.contains(ITALIC) {
            list.push(Attribute::NoItalic);
        }
        if removed.contains(UNDERLINED) {
            list.push(Attribute::NoUnderline);
        }
        if removed.contains(DIM) && !removed.contains(BOLD) {
            list.push(Attribute::NormalIntensity);
        }
        if removed.contains(DIM) && self.from.contains(BOLD) && self.to.contains(BOLD) {
            list.push(Attribute::Bold);
        }
        if removed.contains(CROSSED_OUT) {
            list.push(Attribute::NotCrossedOut);
        }
        if removed.contains(SLOW_BLINK) || removed.contains(RAPID_BLINK) {
            list.push(Attribute::NoBlink);
        }
        if removed.contains(RAPID_BLINK) && self.from.contains(SLOW_BLINK) && self.to.contains(
            SLOW_BLINK,
        ) {
            list.push(Attribute::SlowBlink);
        }
        if removed.contains(SLOW_BLINK) && self.from.contains(RAPID_BLINK) && self.to.contains(
            RAPID_BLINK,
        ) {
            list.push(Attribute::RapidBlink);
        }
        assert(list@ == self.switches_off());
        if added.contains(REVERSED) {
            list.push(Attribute::Reverse);
        }
        if added.contains(BOLD) {
            list.push(Attribute::Bold);
        }
        if added.contains(ITALIC) {
            list.push(Attribute::Italic);
        }
        if added.contains(UNDERLINED) {
            list.push(Attribute::Underlined);
        }
        if added.contains(DIM) {
            list.push(Attribute::Dim);
        }
        if added.contains(CROSSED_OUT) {
            list.push(Attribute::CrossedOut);
        }
        if added.contains(SLOW_BLINK) {
            list.push(Attribute::SlowBlink);
        }
        if added.contains(RAPID_BLINK) {
            list.push(Attribute::RapidBlink);
        }
        list
    }

    /// The commands that lead from the one set to the other.
    pub open spec fn ops(self) -> Seq<Op> {
        self.switches().map_values(|attribute: Attribute| Op::SetAttribute(attribute))
    }

    /// Writes the commands that lead from the one set to the other.
    pub fn queue(self, writer: &mut Vec<u8>)
        ensures
            appends(old(writer)@, final(writer)@, self.ops()),
    {
        let list = self.attributes();
        let ghost before = writer@;
        let ghost wanted = self.ops();
        let mut i: usize = 0;
        proof {
            lemma_appends_nothing(before);
            assert(wanted.take(0) =~= seq![]);
        }
        while i < list.len()
            invariant
                i <= list.len(),
                wanted.len() == list.len(),
                forall|j: int|
                    0 <= j < list.len() ==> #[trigger] wanted[j] == Op::SetAttribute(list[j]),
                appends(before, writer@, wanted.take(i as int)),
            decreases list.len() - i,
        {
            let ghost between = writer@;
            queue_attribute(writer, list[i]);
            proof {
                let one = seq![wanted[i as int]];
                lemma_appends_trans(before, between, writer@, wanted.take(i as int), one);
                assert(wanted.take(i as int) + one =~= wanted.take(i + 1));
            }
            i = i + 1;
        }
        assert(wanted.take(list.len() as int) =~= wanted);
    }
}

/// A modifier is in the difference of two sets if it is in the first and not in the second.
proof fn lemma_difference(a: Modifier, b: Modifier)
    ensures
        forall|flag: u16|
            is_single(flag) ==> #[trigger] (Modifier { bits: a.bits & !b.bits }).has(flag) == (
            a.has(flag) && !b.has(flag)),
        is_single(BOLD),
        is_single(DIM),
        is_single(ITALIC),
        is_single(UNDERLINED),
        is_single(SLOW_BLINK),
        is_single(RAPID_BLINK),
        is_single(REVERSED),
        is_single(CROSSED_OUT),
{
    assert forall|flag: u16| is_single(flag) implies #[trigger] (Modifier {
        bits: a.bits & !b.bits,
    }).has(flag) == (a.has(flag) && !b.has(flag)) by {
        let x = a.bits;
        let y = b.bits;
        assert(((x & !y) & flag == flag) == (x & flag == flag && !(y & flag == flag)))
            by (bit_vector)
            requires
                flag != 0 && flag & ((flag - 1) as u16) == 0,
        ;
    }
    assert(1u16 & 0u16 == 0 && 2u16 & 1u16 == 0 && 4u16 & 3u16 == 0 && 8u16 & 7u16 == 0 && 0x10u16
        & 0xfu16 == 0 && 0x20u16 & 0x1fu16 == 0 && 0x40u16 & 0x3fu16 == 0 && 0x100u16 & 0xffu16
        == 0) by (bit_vector);
}

/// Exactly one bit is set.
spec fn is_single(flag: u16) -> bool {
    flag != 0 && flag & ((flag - 1) as u16) == 0
}

} // verus!
