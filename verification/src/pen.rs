//! What terminal commands do: a model of the terminal's pen, and the proof that the bytes of a
//! frame have the effects that its commands ask for.

use crate::diff::DrawCommandView;
use crate::draw::{commands_ops, draw_ops, state_after};
use crate::modifier_diff::{push_when, ModifierDiff};
use crate::ops::{plain_ops, Op};
use crate::screen::{look, look_of, Look};
use crate::style::{
    Attribute, ClearType, Color, Modifier, BOLD, CROSSED_OUT, DIM, ITALIC, RAPID_BLINK, REVERSED,
    SLOW_BLINK, UNDERLINED,
};
use crate::width::columns;
use vstd::prelude::*;

verus! {

/// The modifiers in force after an attribute was set.
pub open spec fn switched(modifier: Modifier, attribute: Attribute) -> Modifier {
    let bits = modifier.bits;
    Modifier {
        bits: match attribute {
            Attribute::Reset => 0,
            Attribute::Bold => bits | BOLD,
            Attribute::Dim => bits | DIM,
            Attribute::Italic => bits | ITALIC,
            Attribute::Underlined => bits | UNDERLINED,
            Attribute::SlowBlink => bits | SLOW_BLINK,
            Attribute::RapidBlink => bits | RAPID_BLINK,
            Attribute::Reverse => bits | REVERSED,
            Attribute::CrossedOut => bits | CROSSED_OUT,
            Attribute::NormalIntensity => bits & !BOLD & !DIM,
            Attribute::NoItalic => bits & !ITALIC,
            Attribute::NoUnderline => bits & !UNDERLINED,
            Attribute::NoBlink => bits & !SLOW_BLINK & !RAPID_BLINK,
            Attribute::NoReverse => bits & !REVERSED,
            Attribute::NotCrossedOut => bits & !CROSSED_OUT,
        },
    }
}

/// The modifiers in force after attributes were set one after the other.
#[verifier::opaque]
pub open spec fn all_switched(modifier: Modifier, attributes: Seq<Attribute>) -> Modifier
    decreases attributes.len(),
{
    if attributes.len() == 0 {
        modifier
    } else {
        switched(all_switched(modifier, attributes.drop_last()), attributes.last())
    }
}

impl ModifierDiff {
    /// The attributes can lead from the one set to the other: there is none for concealed text.
    pub open spec fn is_separable(self) -> bool {
        self.from.bits & 0xfe80 == self.to.bits & 0xfe80
    }
}

/// The list without one of the attributes.
#[verifier::opaque]
pub open spec fn without(list: Seq<Attribute>, left_out: Option<Attribute>) -> Seq<Attribute>
    decreases list.len(),
{
    if list.len() == 0 {
        list
    } else if left_out == Some(list.last()) {
        without(list.drop_last(), left_out)
    } else {
        without(list.drop_last(), left_out).push(list.last())
    }
}

/// A list of which nothing is left out.
proof fn lemma_without_none(list: Seq<Attribute>)
    ensures
        without(list, None) == list,
    decreases list.len(),
{
    reveal_with_fuel(without, 2);
    if list.len() > 0 {
        lemma_without_none(list.drop_last());
        assert(list.drop_last().push(list.last()) =~= list);
    }
}

/// One more attribute, if the condition holds.
proof fn lemma_push_when(
    modifier: Modifier,
    list: Seq<Attribute>,
    condition: bool,
    attribute: Attribute,
    left_out: Option<Attribute>,
)
    ensures
        all_switched(modifier, without(push_when(list, condition, attribute), left_out)) == (
        if condition && left_out != Some(attribute) {
            switched(all_switched(modifier, without(list, left_out)), attribute)
        } else {
            all_switched(modifier, without(list, left_out))
        }),
{
    reveal(push_when);
    reveal_with_fuel(without, 2);
    reveal_with_fuel(all_switched, 2);
    let kept = without(list, left_out);
    assert(list.push(attribute).drop_last() =~= list);
    assert(kept.push(attribute).drop_last() =~= kept);
}

/// What a list with one more attribute holds, if the condition holds.
proof fn lemma_push_holds(list: Seq<Attribute>, condition: bool, attribute: Attribute)
    ensures
        forall|other: Attribute| #[trigger]
            push_when(list, condition, attribute).contains(other) == (list.contains(other) || (
            condition && other == attribute)),
        list.no_duplicates() && !(condition && list.contains(attribute)) ==> push_when(
            list,
            condition,
            attribute,
        ).no_duplicates(),
{
    reveal(push_when);
    let all = push_when(list, condition, attribute);
    assert forall|other: Attribute| #[trigger] all.contains(other) == (list.contains(other) || (
    condition && other == attribute)) by {
        if all.contains(other) {
            let i = choose|i: int| 0 <= i < all.len() && all[i] == other;
            if i < list.len() {
                assert(list[i] == other);
            }
        }
        if list.contains(other) {
            let i = choose|i: int| 0 <= i < list.len() && list[i] == other;
            assert(all[i] == other);
        }
        if condition {
            assert(all[list.len() as int] == attribute);
        }
    }
}

impl ModifierDiff {
    /// The attribute is among those that are set.
    spec fn sets(self, attribute: Attribute) -> bool {
        let diff = self;
        match attribute {
            Attribute::Reset => false,
            Attribute::NoReverse => diff.removes(REVERSED),
            Attribute::NormalIntensity => diff.removes(BOLD) || (diff.removes(DIM) && !diff.removes(BOLD)),
            Attribute::Dim => (diff.removes(BOLD) && diff.keeps(DIM)) || diff.adds(DIM),
            Attribute::NoItalic => diff.removes(ITALIC),
            Attribute::NoUnderline => diff.removes(UNDERLINED),
            Attribute::Bold => (diff.removes(DIM) && diff.keeps(BOLD)) || diff.adds(BOLD),
            Attribute::NotCrossedOut => diff.removes(CROSSED_OUT),
            Attribute::NoBlink => diff.removes(SLOW_BLINK) || diff.removes(RAPID_BLINK),
            Attribute::SlowBlink => (diff.removes(RAPID_BLINK) && diff.keeps(SLOW_BLINK)) || diff.adds(SLOW_BLINK),
            Attribute::RapidBlink => (diff.removes(SLOW_BLINK) && diff.keeps(RAPID_BLINK)) || diff.adds(RAPID_BLINK),
            Attribute::Reverse => diff.adds(REVERSED),
            Attribute::Italic => diff.adds(ITALIC),
            Attribute::Underlined => diff.adds(UNDERLINED),
            Attribute::CrossedOut => diff.adds(CROSSED_OUT),
        }
    }
}

/// Which attributes are set. None is set twice.
#[verifier::rlimit(50)]
proof fn lemma_switches_hold(diff: ModifierDiff)
    ensures
        forall|attribute: Attribute| #[trigger]
            diff.switches().contains(attribute) == diff.sets(attribute),
        diff.switches().no_duplicates(),
{
    let l0: Seq<Attribute> = seq![];
    let l1 = push_when(l0, diff.removes(REVERSED), Attribute::NoReverse);
    let l2 = push_when(l1, diff.removes(BOLD), Attribute::NormalIntensity);
    let l3 = push_when(l2, diff.removes(BOLD) && diff.keeps(DIM), Attribute::Dim);
    let l4 = push_when(l3, diff.removes(ITALIC), Attribute::NoItalic);
    let l5 = push_when(l4, diff.removes(UNDERLINED), Attribute::NoUnderline);
    let l6 = push_when(l5, diff.removes(DIM) && !diff.removes(BOLD), Attribute::NormalIntensity);
    let l7 = push_when(l6, diff.removes(DIM) && diff.keeps(BOLD), Attribute::Bold);
    let l8 = push_when(l7, diff.removes(CROSSED_OUT), Attribute::NotCrossedOut);
    let l9 = push_when(l8, diff.removes(SLOW_BLINK) || diff.removes(RAPID_BLINK), Attribute::NoBlink);
    let l10 = push_when(l9, diff.removes(RAPID_BLINK) && diff.keeps(SLOW_BLINK), Attribute::SlowBlink);
    let l11 = push_when(l10, diff.removes(SLOW_BLINK) && diff.keeps(RAPID_BLINK), Attribute::RapidBlink);
    let l12 = push_when(l11, diff.adds(REVERSED), Attribute::Reverse);
    let l13 = push_when(l12, diff.adds(BOLD), Attribute::Bold);
    let l14 = push_when(l13, diff.adds(ITALIC), Attribute::Italic);
    let l15 = push_when(l14, diff.adds(UNDERLINED), Attribute::Underlined);
    let l16 = push_when(l15, diff.adds(DIM), Attribute::Dim);
    let l17 = push_when(l16, diff.adds(CROSSED_OUT), Attribute::CrossedOut);
    let l18 = push_when(l17, diff.adds(SLOW_BLINK), Attribute::SlowBlink);
    let l19 = push_when(l18, diff.adds(RAPID_BLINK), Attribute::RapidBlink);
    assert(l19 == diff.switches());
    lemma_push_holds(l0, diff.removes(REVERSED), Attribute::NoReverse);
    lemma_push_holds(l1, diff.removes(BOLD), Attribute::NormalIntensity);
    lemma_push_holds(l2, diff.removes(BOLD) && diff.keeps(DIM), Attribute::Dim);
    lemma_push_holds(l3, diff.removes(ITALIC), Attribute::NoItalic);
    lemma_push_holds(l4, diff.removes(UNDERLINED), Attribute::NoUnderline);
    lemma_push_holds(l5, diff.removes(DIM) && !diff.removes(BOLD), Attribute::NormalIntensity);
    lemma_push_holds(l6, diff.removes(DIM) && diff.keeps(BOLD), Attribute::Bold);
    lemma_push_holds(l7, diff.removes(CROSSED_OUT), Attribute::NotCrossedOut);
    lemma_push_holds(l8, diff.removes(SLOW_BLINK) || diff.removes(RAPID_BLINK), Attribute::NoBlink);
    lemma_push_holds(l9, diff.removes(RAPID_BLINK) && diff.keeps(SLOW_BLINK), Attribute::SlowBlink);
    lemma_push_holds(l10, diff.removes(SLOW_BLINK) && diff.keeps(RAPID_BLINK), Attribute::RapidBlink);
    lemma_push_holds(l11, diff.adds(REVERSED), Attribute::Reverse);
    lemma_push_holds(l12, diff.adds(BOLD), Attribute::Bold);
    lemma_push_holds(l13, diff.adds(ITALIC), Attribute::Italic);
    lemma_push_holds(l14, diff.adds(UNDERLINED), Attribute::Underlined);
    lemma_push_holds(l15, diff.adds(DIM), Attribute::Dim);
    lemma_push_holds(l16, diff.adds(CROSSED_OUT), Attribute::CrossedOut);
    lemma_push_holds(l17, diff.adds(SLOW_BLINK), Attribute::SlowBlink);
    lemma_push_holds(l18, diff.adds(RAPID_BLINK), Attribute::RapidBlink);
}

/// The attributes, with one of them left out or none, switch from the one set of modifiers to
/// the other exactly where attributes can do so and nothing that is set was left out.
#[verifier::rlimit(50)]
proof fn lemma_switches(diff: ModifierDiff, left_out: Option<Attribute>)
    ensures
        all_switched(diff.from, without(diff.switches(), left_out)) == diff.to <==> {
            &&& diff.is_separable()
            &&& left_out matches Some(attribute) ==> !diff.sets(attribute)
        },
{
    let m = diff.from;
    let f = diff.from.bits;
    let t = diff.to.bits;
    let l0: Seq<Attribute> = seq![];
    let c1 = diff.removes(REVERSED);
    let c2 = diff.removes(BOLD);
    let c3 = diff.removes(BOLD) && diff.keeps(DIM);
    let c4 = diff.removes(ITALIC);
    let c5 = diff.removes(UNDERLINED);
    let c6 = diff.removes(DIM) && !diff.removes(BOLD);
    let c7 = diff.removes(DIM) && diff.keeps(BOLD);
    let c8 = diff.removes(CROSSED_OUT);
    let c9 = diff.removes(SLOW_BLINK) || diff.removes(RAPID_BLINK);
    let c10 = diff.removes(RAPID_BLINK) && diff.keeps(SLOW_BLINK);
    let c11 = diff.removes(SLOW_BLINK) && diff.keeps(RAPID_BLINK);
    let c12 = diff.adds(REVERSED);
    let c13 = diff.adds(BOLD);
    let c14 = diff.adds(ITALIC);
    let c15 = diff.adds(UNDERLINED);
    let c16 = diff.adds(DIM);
    let c17 = diff.adds(CROSSED_OUT);
    let c18 = diff.adds(SLOW_BLINK);
    let c19 = diff.adds(RAPID_BLINK);
    let l1 = push_when(l0, c1, Attribute::NoReverse);
    let l2 = push_when(l1, c2, Attribute::NormalIntensity);
    let l3 = push_when(l2, c3, Attribute::Dim);
    let l4 = push_when(l3, c4, Attribute::NoItalic);
    let l5 = push_when(l4, c5, Attribute::NoUnderline);
    let l6 = push_when(l5, c6, Attribute::NormalIntensity);
    let l7 = push_when(l6, c7, Attribute::Bold);
    let l8 = push_when(l7, c8, Attribute::NotCrossedOut);
    let l9 = push_when(l8, c9, Attribute::NoBlink);
    let l10 = push_when(l9, c10, Attribute::SlowBlink);
    let l11 = push_when(l10, c11, Attribute::RapidBlink);
    let l12 = push_when(l11, c12, Attribute::Reverse);
    let l13 = push_when(l12, c13, Attribute::Bold);
    let l14 = push_when(l13, c14, Attribute::Italic);
    let l15 = push_when(l14, c15, Attribute::Underlined);
    let l16 = push_when(l15, c16, Attribute::Dim);
    let l17 = push_when(l16, c17, Attribute::CrossedOut);
    let l18 = push_when(l17, c18, Attribute::SlowBlink);
    let l19 = push_when(l18, c19, Attribute::RapidBlink);
    assert(l19 == diff.switches());
    let b0 = f;
    let b1 = all_switched(m, without(l1, left_out)).bits;
    let b2 = all_switched(m, without(l2, left_out)).bits;
    let b3 = all_switched(m, without(l3, left_out)).bits;
    let b4 = all_switched(m, without(l4, left_out)).bits;
    let b5 = all_switched(m, without(l5, left_out)).bits;
    let b6 = all_switched(m, without(l6, left_out)).bits;
    let b7 = all_switched(m, without(l7, left_out)).bits;
    let b8 = all_switched(m, without(l8, left_out)).bits;
    let b9 = all_switched(m, without(l9, left_out)).bits;
    let b10 = all_switched(m, without(l10, left_out)).bits;
    let b11 = all_switched(m, without(l11, left_out)).bits;
    let b12 = all_switched(m, without(l12, left_out)).bits;
    let b13 = all_switched(m, without(l13, left_out)).bits;
    let b14 = all_switched(m, without(l14, left_out)).bits;
    let b15 = all_switched(m, without(l15, left_out)).bits;
    let b16 = all_switched(m, without(l16, left_out)).bits;
    let b17 = all_switched(m, without(l17, left_out)).bits;
    let b18 = all_switched(m, without(l18, left_out)).bits;
    let b19 = all_switched(m, without(l19, left_out)).bits;
    let no_reverse = left_out != Some(Attribute::NoReverse);
    let normal_intensity = left_out != Some(Attribute::NormalIntensity);
    let dim = left_out != Some(Attribute::Dim);
    let no_italic = left_out != Some(Attribute::NoItalic);
    let no_underline = left_out != Some(Attribute::NoUnderline);
    let bold = left_out != Some(Attribute::Bold);
    let not_crossed_out = left_out != Some(Attribute::NotCrossedOut);
    let no_blink = left_out != Some(Attribute::NoBlink);
    let slow_blink = left_out != Some(Attribute::SlowBlink);
    let rapid_blink = left_out != Some(Attribute::RapidBlink);
    let reverse = left_out != Some(Attribute::Reverse);
    let italic = left_out != Some(Attribute::Italic);
    let underlined = left_out != Some(Attribute::Underlined);
    let crossed_out = left_out != Some(Attribute::CrossedOut);
    assert(all_switched(m, without(l0, left_out)).bits == b0) by {
        reveal_with_fuel(without, 2);
        reveal_with_fuel(all_switched, 2);
    }
    assert(b1 == (if c1 && no_reverse {
        b0 & !0x40u16
    } else {
        b0
    })) by {
        lemma_push_when(m, l0, c1, Attribute::NoReverse, left_out);
    }
    assert(b2 == (if c2 && normal_intensity {
        b1 & !1u16 & !2u16
    } else {
        b1
    })) by {
        lemma_push_when(m, l1, c2, Attribute::NormalIntensity, left_out);
    }
    assert(b3 == (if c3 && dim {
        b2 | 2
    } else {
        b2
    })) by {
        lemma_push_when(m, l2, c3, Attribute::Dim, left_out);
    }
    assert(b4 == (if c4 && no_italic {
        b3 & !4u16
    } else {
        b3
    })) by {
        lemma_push_when(m, l3, c4, Attribute::NoItalic, left_out);
    }
    assert(b5 == (if c5 && no_underline {
        b4 & !8u16
    } else {
        b4
    })) by {
        lemma_push_when(m, l4, c5, Attribute::NoUnderline, left_out);
    }
    assert(b6 == (if c6 && normal_intensity {
        b5 & !1u16 & !2u16
    } else {
        b5
    })) by {
        lemma_push_when(m, l5, c6, Attribute::NormalIntensity, left_out);
    }
    assert(b7 == (if c7 && bold {
        b6 | 1
    } else {
        b6
    })) by {
        lemma_push_when(m, l6, c7, Attribute::Bold, left_out);
    }
    assert(b8 == (if c8 && not_crossed_out {
        b7 & !0x100u16
    } else {
        b7
    })) by {
        lemma_push_when(m, l7, c8, Attribute::NotCrossedOut, left_out);
    }
    assert(b9 == (if c9 && no_blink {
        b8 & !0x10u16 & !0x20u16
    } else {
        b8
    })) by {
        lemma_push_when(m, l8, c9, Attribute::NoBlink, left_out);
    }
    assert(b10 == (if c10 && slow_blink {
        b9 | 0x10
    } else {
        b9
    })) by {
        lemma_push_when(m, l9, c10, Attribute::SlowBlink, left_out);
    }
    assert(b11 == (if c11 && rapid_blink {
        b10 | 0x20
    } else {
        b10
    })) by {
        lemma_push_when(m, l10, c11, Attribute::RapidBlink, left_out);
    }
    assert(b12 == (if c12 && reverse {
        b11 | 0x40
    } else {
        b11
    })) by {
        lemma_push_when(m, l11, c12, Attribute::Reverse, left_out);
    }
    assert(b13 == (if c13 && bold {
        b12 | 1
    } else {
        b12
    })) by {
        lemma_push_when(m, l12, c13, Attribute::Bold, left_out);
    }
    assert(b14 == (if c14 && italic {
        b13 | 4
    } else {
        b13
    })) by {
        lemma_push_when(m, l13, c14, Attribute::Italic, left_out);
    }
    assert(b15 == (if c15 && underlined {
        b14 | 8
    } else {
        b14
    })) by {
        lemma_push_when(m, l14, c15, Attribute::Underlined, left_out);
    }
    assert(b16 == (if c16 && dim {
        b15 | 2
    } else {
        b15
    })) by {
        lemma_push_when(m, l15, c16, Attribute::Dim, left_out);
    }
    assert(b17 == (if c17 && crossed_out {
        b16 | 0x100
    } else {
        b16
    })) by {
        lemma_push_when(m, l16, c17, Attribute::CrossedOut, left_out);
    }
    assert(b18 == (if c18 && slow_blink {
        b17 | 0x10
    } else {
        b17
    })) by {
        lemma_push_when(m, l17, c18, Attribute::SlowBlink, left_out);
    }
    assert(b19 == (if c19 && rapid_blink {
        b18 | 0x20
    } else {
        b18
    })) by {
        lemma_push_when(m, l18, c19, Attribute::RapidBlink, left_out);
    }
    assert((b19 == t) == (f & 0xfe80 == t & 0xfe80
        && (no_reverse || !(c1))
        && (normal_intensity || !(c2 || c6))
        && (dim || !(c3 || c16))
        && (no_italic || !(c4))
        && (no_underline || !(c5))
        && (bold || !(c7 || c13))
        && (not_crossed_out || !(c8))
        && (no_blink || !(c9))
        && (slow_blink || !(c10 || c18))
        && (rapid_blink || !(c11 || c19))
        && (reverse || !(c12))
        && (italic || !(c14))
        && (underlined || !(c15))
        && (crossed_out || !(c17)))) by (bit_vector)
        requires
            b0 == f,
            c1 == ((f & 0x40 == 0x40 && !(t & 0x40 == 0x40))),
            c2 == ((f & 1 == 1 && !(t & 1 == 1))),
            c3 == ((f & 1 == 1 && !(t & 1 == 1)) && (f & 2 == 2 && t & 2 == 2)),
            c4 == ((f & 4 == 4 && !(t & 4 == 4))),
            c5 == ((f & 8 == 8 && !(t & 8 == 8))),
            c6 == ((f & 2 == 2 && !(t & 2 == 2)) && !(f & 1 == 1 && !(t & 1 == 1))),
            c7 == ((f & 2 == 2 && !(t & 2 == 2)) && (f & 1 == 1 && t & 1 == 1)),
            c8 == ((f & 0x100 == 0x100 && !(t & 0x100 == 0x100))),
            c9 == ((f & 0x10 == 0x10 && !(t & 0x10 == 0x10)) || (f & 0x20 == 0x20 && !(t & 0x20 == 0x20))),
            c10 == ((f & 0x20 == 0x20 && !(t & 0x20 == 0x20)) && (f & 0x10 == 0x10 && t & 0x10 == 0x10)),
            c11 == ((f & 0x10 == 0x10 && !(t & 0x10 == 0x10)) && (f & 0x20 == 0x20 && t & 0x20 == 0x20)),
            c12 == ((t & 0x40 == 0x40 && !(f & 0x40 == 0x40))),
            c13 == ((t & 1 == 1 && !(f & 1 == 1))),
            c14 == ((t & 4 == 4 && !(f & 4 == 4))),
            c15 == ((t & 8 == 8 && !(f & 8 == 8))),
            c16 == ((t & 2 == 2 && !(f & 2 == 2))),
            c17 == ((t & 0x100 == 0x100 && !(f & 0x100 == 0x100))),
            c18 == ((t & 0x10 == 0x10 && !(f & 0x10 == 0x10))),
            c19 == ((t & 0x20 == 0x20 && !(f & 0x20 == 0x20))),
            b1 == (if c1 && no_reverse { b0 & !0x40u16 } else { b0 }),
            b2 == (if c2 && normal_intensity { b1 & !1u16 & !2u16 } else { b1 }),
            b3 == (if c3 && dim { b2 | 2 } else { b2 }),
            b4 == (if c4 && no_italic { b3 & !4u16 } else { b3 }),
            b5 == (if c5 && no_underline { b4 & !8u16 } else { b4 }),
            b6 == (if c6 && normal_intensity { b5 & !1u16 & !2u16 } else { b5 }),
            b7 == (if c7 && bold { b6 | 1 } else { b6 }),
            b8 == (if c8 && not_crossed_out { b7 & !0x100u16 } else { b7 }),
            b9 == (if c9 && no_blink { b8 & !0x10u16 & !0x20u16 } else { b8 }),
            b10 == (if c10 && slow_blink { b9 | 0x10 } else { b9 }),
            b11 == (if c11 && rapid_blink { b10 | 0x20 } else { b10 }),
            b12 == (if c12 && reverse { b11 | 0x40 } else { b11 }),
            b13 == (if c13 && bold { b12 | 1 } else { b12 }),
            b14 == (if c14 && italic { b13 | 4 } else { b13 }),
            b15 == (if c15 && underlined { b14 | 8 } else { b14 }),
            b16 == (if c16 && dim { b15 | 2 } else { b15 }),
            b17 == (if c17 && crossed_out { b16 | 0x100 } else { b16 }),
            b18 == (if c18 && slow_blink { b17 | 0x10 } else { b17 }),
            b19 == (if c19 && rapid_blink { b18 | 0x20 } else { b18 }),
    ;
}

/// The attributes that are set switch from the one set of modifiers to the other, exactly where
/// attributes can do so.
pub proof fn law_modifier_diff(diff: ModifierDiff)
    ensures
        all_switched(diff.from, diff.switches()) == diff.to <==> diff.is_separable(),
{
    lemma_switches(diff, None);
    lemma_without_none(diff.switches());
}

/// Only the necessary changes are sent: no attribute is set twice, and without any one of those
/// that are set the modifiers would not be the wanted ones.
pub proof fn law_modifier_diff_is_necessary(diff: ModifierDiff, attribute: Attribute)
    requires
        diff.switches().contains(attribute),
    ensures
        diff.switches().no_duplicates(),
        all_switched(diff.from, without(diff.switches(), Some(attribute))) != diff.to,
{
    lemma_switches(diff, Some(attribute));
    lemma_switches_hold(diff);
}

/// A set of modifiers without those that no attribute switches.
pub open spec fn switchable(modifier: Modifier) -> Modifier {
    Modifier { bits: modifier.bits & 0x17f }
}

/// A flag that can be switched is in a set exactly where it is in its switchable part.
proof fn lemma_switchable(modifier: Modifier)
    ensures
        forall|flag: u16|
            flag & 0x17f == flag ==> #[trigger] switchable(modifier).has(flag) == modifier.has(
                flag,
            ),
{
    let bits = modifier.bits;
    assert forall|flag: u16| flag & 0x17f == flag implies #[trigger] switchable(modifier).has(flag)
        == modifier.has(flag) by {
        assert((bits & 0x17f) & flag == bits & flag) by (bit_vector)
            requires
                flag & 0x17f == flag,
        ;
    }
}

/// What is set to switch from one set of modifiers to another depends only on the modifiers that
/// attributes switch, and leads from those of the one set to those of the other.
pub proof fn law_modifier_diff_is_of_switchable(diff: ModifierDiff)
    ensures
        diff.switches() == (ModifierDiff {
            from: switchable(diff.from),
            to: switchable(diff.to),
        }).switches(),
        all_switched(switchable(diff.from), diff.switches()) == switchable(diff.to),
{
    let plain = ModifierDiff { from: switchable(diff.from), to: switchable(diff.to) };
    lemma_switchable(diff.from);
    lemma_switchable(diff.to);
    assert(0x1u16 & 0x17f == 0x1 && 0x2u16 & 0x17f == 0x2 && 0x4u16 & 0x17f == 0x4 && 0x8u16 & 0x17f
        == 0x8 && 0x10u16 & 0x17f == 0x10 && 0x20u16 & 0x17f == 0x20 && 0x40u16 & 0x17f == 0x40
        && 0x100u16 & 0x17f == 0x100) by (bit_vector);
    assert(diff.switches() == plain.switches());
    let f = diff.from.bits;
    let t = diff.to.bits;
    assert((f & 0x17f) & 0xfe80 == 0 && (t & 0x17f) & 0xfe80 == 0) by (bit_vector);
    law_modifier_diff(plain);
}

/// A change of the screen.
#[verifier::ext_equal]
pub enum Effect {
    /// A symbol shows at a place.
    Show { x: int, y: int, look: Look },
    /// A part of the screen, which a place belongs to, is erased.
    Erase { x: int, y: int, bg: Color, clear_type: ClearType },
}

/// Where the terminal writes, and in which style.
pub struct Pen {
    pub x: int,
    pub y: int,
    pub fg: Color,
    pub bg: Color,
    pub modifier: Modifier,
}

/// The number of columns that symbols take up next to each other.
pub open spec fn total_columns(symbols: Seq<Seq<char>>) -> int
    decreases symbols.len(),
{
    if symbols.len() == 0 {
        0
    } else {
        total_columns(symbols.drop_last()) + columns(symbols.last())
    }
}

impl Pen {
    /// The terminal's own colours and plain text.
    pub open spec fn is_plain(self) -> bool {
        self.fg == Color::Reset && self.bg == Color::Reset && self.modifier == Modifier::none()
    }

    /// The pen after a command.
    pub open spec fn after(self, op: Op) -> Pen {
        match op {
            Op::MoveTo(position) => Pen { x: position.x as int, y: position.y as int, ..self },
            Op::SetAttribute(Attribute::Reset) => Pen {
                fg: Color::Reset,
                bg: Color::Reset,
                modifier: Modifier::none(),
                ..self
            },
            Op::SetAttribute(attribute) => Pen {
                modifier: switched(self.modifier, attribute),
                ..self
            },
            Op::SetColors(fg, bg) => Pen { fg, bg, ..self },
            Op::ResetForeground => Pen { fg: Color::Reset, ..self },
            Op::SetBackground(bg) => Pen { bg, ..self },
            Op::Clear(_) => self,
            Op::Print(symbols) => Pen { x: self.x + total_columns(symbols), ..self },
        }
    }

    /// What the screen shows when symbols are printed: each behind the one before.
    pub open spec fn prints(self, symbols: Seq<Seq<char>>) -> Seq<Effect>
        decreases symbols.len(),
    {
        if symbols.len() == 0 {
            seq![]
        } else {
            self.prints(symbols.drop_last()).push(
                Effect::Show {
                    x: self.x + total_columns(symbols.drop_last()),
                    y: self.y,
                    look: look(symbols.last(), self.fg, self.bg, self.modifier),
                },
            )
        }
    }

    /// What a command does to the screen.
    pub open spec fn effects(self, op: Op) -> Seq<Effect> {
        match op {
            Op::Clear(clear_type) => seq![
                Effect::Erase { x: self.x, y: self.y, bg: self.bg, clear_type },
            ],
            Op::Print(symbols) => self.prints(symbols),
            _ => seq![],
        }
    }

    /// The pen after commands.
    pub open spec fn after_all(self, ops: Seq<Op>) -> Pen
        decreases ops.len(),
    {
        if ops.len() == 0 {
            self
        } else {
            self.after_all(ops.drop_last()).after(ops.last())
        }
    }

    /// What commands do to the screen.
    pub open spec fn all_effects(self, ops: Seq<Op>) -> Seq<Effect>
        decreases ops.len(),
    {
        if ops.len() == 0 {
            seq![]
        } else {
            self.all_effects(ops.drop_last()) + self.after_all(ops.drop_last()).effects(ops.last())
        }
    }
}

/// Commands after commands.
pub proof fn lemma_all_concat(pen: Pen, a: Seq<Op>, b: Seq<Op>)
    ensures
        pen.after_all(a + b) == pen.after_all(a).after_all(b),
        pen.all_effects(a + b) == pen.all_effects(a) + pen.after_all(a).all_effects(b),
    decreases b.len(),
{
    if b.len() == 0 {
        assert(a + b =~= a);
        assert(pen.all_effects(a) + pen.after_all(a).all_effects(b) =~= pen.all_effects(a));
    } else {
        lemma_all_concat(pen, a, b.drop_last());
        assert((a + b).drop_last() =~= a + b.drop_last());
        assert(pen.all_effects(a + b) =~= pen.all_effects(a) + pen.after_all(a).all_effects(b));
    }
}

/// One command.
pub proof fn lemma_all_one(pen: Pen, op: Op)
    ensures
        pen.after_all(seq![op]) == pen.after(op),
        pen.all_effects(seq![op]) == pen.effects(op),
{
    let none: Seq<Op> = seq![];
    assert(seq![op].drop_last() =~= none);
    assert(pen.after_all(none) == pen);
    assert(pen.all_effects(none) =~= seq![]);
    assert(pen.all_effects(seq![op]) =~= pen.effects(op));
}

/// Attributes change the modifiers and nothing else.
pub proof fn lemma_all_attributes(pen: Pen, attributes: Seq<Attribute>)
    requires
        !attributes.contains(Attribute::Reset),
    ensures
        ({
            let ops = attributes.map_values(|attribute: Attribute| Op::SetAttribute(attribute));
            &&& pen.after_all(ops) == (Pen {
                modifier: all_switched(pen.modifier, attributes),
                ..pen
            })
            &&& pen.all_effects(ops) == Seq::<Effect>::empty()
        }),
    decreases attributes.len(),
{
    reveal_with_fuel(all_switched, 2);
    let ops = attributes.map_values(|attribute: Attribute| Op::SetAttribute(attribute));
    if attributes.len() > 0 {
        let front = attributes.drop_last();
        assert forall|i: int| 0 <= i < front.len() implies front[i] != Attribute::Reset by {
            assert(attributes.contains(attributes[i]));
        }
        assert(attributes.contains(attributes.last()));
        lemma_all_attributes(pen, front);
        assert(ops.drop_last() =~= front.map_values(
            |attribute: Attribute| Op::SetAttribute(attribute),
        ));
    }
}

/// Whatever was written before, the pen is plain again at the end.
pub proof fn law_plain_at_end(pen: Pen, ops: Seq<Op>)
    ensures
        pen.after_all(ops + plain_ops()).is_plain(),
        pen.all_effects(ops + plain_ops()) == pen.all_effects(ops),
{
    lemma_all_concat(pen, ops, plain_ops());
    let styled = pen.after_all(ops);
    let a = seq![Op::ResetForeground];
    let b = seq![Op::SetBackground(Color::Reset)];
    let c = seq![Op::SetAttribute(Attribute::Reset)];
    assert(plain_ops() =~= a + b + c);
    lemma_all_concat(styled, a + b, c);
    lemma_all_concat(styled, a, b);
    lemma_all_one(styled, a[0]);
    lemma_all_one(styled.after_all(a), b[0]);
    lemma_all_one(styled.after_all(a + b), c[0]);
    assert(pen.all_effects(ops + plain_ops()) =~= pen.all_effects(ops));
}

/// The pen takes up the wanted modifiers.
pub proof fn lemma_modifier_ops(pen: Pen, to: Modifier, ops: Seq<Op>)
    requires
        ({
            let diff = ModifierDiff { from: pen.modifier, to };
            &&& diff.is_separable()
            &&& ops == (if to != pen.modifier {
                diff.ops()
            } else {
                seq![]
            })
        }),
    ensures
        pen.after_all(ops) == (Pen { modifier: to, ..pen }),
        pen.all_effects(ops) == Seq::<Effect>::empty(),
{
    let diff = ModifierDiff { from: pen.modifier, to };
    if to != pen.modifier {
        law_modifier_diff(diff);
        lemma_switches_hold(diff);
        lemma_all_attributes(pen, diff.switches());
    }
}

/// What a command does to the screen.
pub open spec fn effect_of(command: DrawCommandView) -> Effect {
    match command {
        DrawCommandView::Put { x, y, cell } => Effect::Show {
            x: x as int,
            y: y as int,
            look: look_of(cell),
        },
        DrawCommandView::ClearToEnd { x, y, bg } => Effect::Erase {
            x: x as int,
            y: y as int,
            bg,
            clear_type: ClearType::UntilNewLine,
        },
    }
}

/// What commands do to the screen.
pub open spec fn effects_of(commands: Seq<DrawCommandView>) -> Seq<Effect> {
    commands.map_values(|command: DrawCommandView| effect_of(command))
}

/// A command one column behind the one before stands where that has left the cursor: behind a
/// symbol of one column.
pub open spec fn stands_at_cursor(done: Seq<DrawCommandView>, command: DrawCommandView) -> bool {
    state_after(done).continues(command.position()) ==> done.last() is Put && columns(
        done.last()->cell.symbol,
    ) == 1
}

/// The modifiers of a cell can be reached from those in force.
pub open spec fn reaches_modifiers(done: Seq<DrawCommandView>, command: DrawCommandView) -> bool {
    command matches DrawCommandView::Put { cell, .. } ==> (ModifierDiff {
        from: state_after(done).modifier,
        to: cell.modifier,
    }).is_separable()
}

/// Every command stands where the cursor is when it is written.
pub open spec fn cursor_follows(commands: Seq<DrawCommandView>) -> bool
    decreases commands.len(),
{
    commands.len() == 0 || {
        let done = commands.drop_last();
        &&& cursor_follows(done)
        &&& stands_at_cursor(done, commands.last())
    }
}

/// Every cell is shown with its modifiers.
pub open spec fn modifiers_follow(commands: Seq<DrawCommandView>) -> bool
    decreases commands.len(),
{
    commands.len() == 0 || {
        let done = commands.drop_last();
        &&& modifiers_follow(done)
        &&& reaches_modifiers(done, commands.last())
    }
}

/// The pen agrees with what is known of the terminal.
spec fn agrees(pen: Pen, commands: Seq<DrawCommandView>) -> bool {
    let state = state_after(commands);
    &&& pen.modifier == state.modifier
    &&& pen.bg == state.bg
    &&& pen.fg == state.fg
    &&& commands.len() > 0 ==> {
        let position = commands.last().position();
        &&& pen.y == position.y
        &&& pen.x == match commands.last() {
            DrawCommandView::Put { cell, .. } => position.x + columns(cell.symbol),
            DrawCommandView::ClearToEnd { .. } => position.x as int,
        }
    }
}

/// The cursor is where the next command takes effect.
proof fn lemma_move_ops(pen: Pen, done: Seq<DrawCommandView>, command: DrawCommandView)
    requires
        agrees(pen, done),
        stands_at_cursor(done, command),
    ensures
        ({
            let ops = state_after(done).move_ops(command.position());
            let position = command.position();
            &&& pen.after_all(ops) == (Pen { x: position.x as int, y: position.y as int, ..pen })
            &&& pen.all_effects(ops) == Seq::<Effect>::empty()
        }),
{
    let position = command.position();
    if state_after(done).continues(position) {
        assert(done.len() > 0);
        assert(state_after(done).last_pos == Some(done.last().position()));
    } else {
        lemma_all_one(pen, Op::MoveTo(position));
    }
}

/// A single symbol.
proof fn lemma_print_one(pen: Pen, symbol: Seq<char>)
    ensures
        total_columns(seq![symbol]) == columns(symbol),
        pen.prints(seq![symbol]) == seq![
            Effect::Show {
                x: pen.x,
                y: pen.y,
                look: look(symbol, pen.fg, pen.bg, pen.modifier),
            },
        ],
{
    let none: Seq<Seq<char>> = seq![];
    assert(seq![symbol].drop_last() =~= none);
    assert(total_columns(none) == 0);
    assert(pen.prints(none) =~= seq![]);
    assert(pen.prints(seq![symbol]) =~= seq![
        Effect::Show { x: pen.x, y: pen.y, look: look(symbol, pen.fg, pen.bg, pen.modifier) },
    ]);
}

/// What is written for a command does what the command asks for.
proof fn lemma_step(pen: Pen, done: Seq<DrawCommandView>, command: DrawCommandView)
    requires
        agrees(pen, done),
        stands_at_cursor(done, command),
        reaches_modifiers(done, command),
    ensures
        agrees(pen.after_all(state_after(done).ops(command)), done.push(command)),
        pen.all_effects(state_after(done).ops(command)) == seq![effect_of(command)],
{
    let state = state_after(done);
    let moves = state.move_ops(command.position());
    let moved = pen.after_all(moves);
    lemma_move_ops(pen, done, command);
    assert(done.push(command).drop_last() =~= done);
    match command {
        DrawCommandView::Put { cell, .. } => {
            let a = state.modifier_ops(cell.modifier);
            let b = state.color_ops(cell.fg, cell.bg);
            let c = seq![Op::Print(seq![cell.symbol])];
            lemma_all_concat(pen, moves, a + b + c);
            lemma_all_concat(moved, a + b, c);
            lemma_all_concat(moved, a, b);
            lemma_modifier_ops(moved, cell.modifier, a);
            let modified = moved.after_all(a);
            if b.len() > 0 {
                lemma_all_one(modified, b[0]);
                assert(b =~= seq![b[0]]);
            } else {
                assert(b =~= seq![]);
            }
            let colored = modified.after_all(b);
            lemma_all_one(colored, c[0]);
            lemma_print_one(colored, cell.symbol);
            assert(state.ops(command) =~= moves + (a + b + c));
            assert(pen.all_effects(state.ops(command)) =~= seq![effect_of(command)]);
        },
        DrawCommandView::ClearToEnd { bg, .. } => {
            let a = seq![Op::SetAttribute(Attribute::Reset)];
            let b = seq![Op::SetBackground(bg)];
            let c = seq![Op::Clear(ClearType::UntilNewLine)];
            lemma_all_concat(pen, moves, a + b + c);
            lemma_all_concat(moved, a + b, c);
            lemma_all_concat(moved, a, b);
            lemma_all_one(moved, a[0]);
            lemma_all_one(moved.after_all(a), b[0]);
            lemma_all_one(moved.after_all(a + b), c[0]);
            assert(state.ops(command) =~= moves + (a + b + c));
            assert(pen.all_effects(state.ops(command)) =~= seq![effect_of(command)]);
        },
    }
}

/// What is written for commands does what they ask for.
proof fn lemma_steps(pen: Pen, commands: Seq<DrawCommandView>)
    requires
        pen.is_plain(),
        cursor_follows(commands),
        modifiers_follow(commands),
    ensures
        agrees(pen.after_all(commands_ops(commands)), commands),
        pen.all_effects(commands_ops(commands)) == effects_of(commands),
    decreases commands.len(),
{
    if commands.len() > 0 {
        let done = commands.drop_last();
        let command = commands.last();
        lemma_steps(pen, done);
        let between = pen.after_all(commands_ops(done));
        lemma_step(between, done, command);
        assert(done.push(command) =~= commands);
        lemma_all_concat(pen, commands_ops(done), state_after(done).ops(command));
        assert(effects_of(done) + seq![effect_of(command)] =~= effects_of(commands));
    } else {
        assert(effects_of(commands) =~= seq![]);
    }
}

/// Where no cell is concealed, every cell is shown with its modifiers.
pub proof fn law_modifiers_follow(commands: Seq<DrawCommandView>)
    requires
        forall|i: int|
            0 <= i < commands.len() && (#[trigger] commands[i]) is Put
                ==> commands[i]->cell.modifier.bits & 0xfe80 == 0,
    ensures
        modifiers_follow(commands),
        state_after(commands).modifier.bits & 0xfe80 == 0,
    decreases commands.len(),
{
    assert(0u16 & 0xfe80 == 0) by (bit_vector);
    if commands.len() > 0 {
        let done = commands.drop_last();
        assert forall|i: int| 0 <= i < done.len() && (#[trigger] done[i]) is Put implies
            done[i]->cell.modifier.bits & 0xfe80 == 0 by {
            assert(done[i] == commands[i]);
        }
        law_modifiers_follow(done);
        assert(commands[commands.len() - 1] == commands.last());
    }
}

/// What is written for commands does to the screen exactly what they ask for, and leaves the
/// pen plain, wherever the cursor stands at the start.
pub proof fn law_draw_effects(pen: Pen, commands: Seq<DrawCommandView>)
    requires
        pen.is_plain(),
        cursor_follows(commands),
        modifiers_follow(commands),
    ensures
        pen.all_effects(draw_ops(commands)) == effects_of(commands),
        pen.after_all(draw_ops(commands)).is_plain(),
{
    lemma_steps(pen, commands);
    law_plain_at_end(pen, commands_ops(commands));
}

/// A command one column behind another stands behind a symbol of one column.
pub open spec fn behind(left: DrawCommandView, right: DrawCommandView) -> bool {
    right.position().x == left.position().x + 1 && right.position().y == left.position().y
        ==> left is Put && columns(left->cell.symbol) == 1
}

/// Every command that stands one column behind the one before stands behind a symbol of one
/// column.
pub open spec fn all_behind(commands: Seq<DrawCommandView>) -> bool {
    forall|i: int, k: int|
        0 <= i && k == i + 1 && k < commands.len() ==> behind(
            #[trigger] commands[i],
            #[trigger] commands[k],
        )
}

/// Then the cursor always stands where the next command takes effect.
pub proof fn lemma_cursor_follows(commands: Seq<DrawCommandView>)
    requires
        all_behind(commands),
    ensures
        cursor_follows(commands),
    decreases commands.len(),
{
    if commands.len() > 0 {
        let done = commands.drop_last();
        let n = done.len() as int;
        assert forall|i: int, k: int| 0 <= i && k == i + 1 && k < done.len() implies behind(
            #[trigger] done[i],
            #[trigger] done[k],
        ) by {
            assert(done[i] == commands[i]);
            assert(done[k] == commands[k]);
        }
        lemma_cursor_follows(done);
        if n > 0 {
            assert(done.last() == commands[n - 1]);
            assert(behind(commands[n - 1], commands[n]));
            assert(state_after(done).last_pos == Some(done.last().position()));
        }
    }
}

/// No cell that is shown is concealed.
pub open spec fn all_unconcealed(commands: Seq<DrawCommandView>) -> bool {
    forall|i: int|
        0 <= i < commands.len() && (#[trigger] commands[i]) is Put
            ==> commands[i]->cell.modifier.bits & 0xfe80 == 0
}

/// What is written for commands does to the screen exactly what they ask for, and leaves the
/// pen plain, wherever the cursor stands at the start: a command that stands one column behind
/// the one before stands behind a symbol of one column, and no cell is concealed.
pub proof fn law_draw_is_faithful(pen: Pen, commands: Seq<DrawCommandView>)
    requires
        pen.is_plain(),
        all_behind(commands),
        all_unconcealed(commands),
    ensures
        pen.all_effects(draw_ops(commands)) == effects_of(commands),
        pen.after_all(draw_ops(commands)).is_plain(),
{
    lemma_cursor_follows(commands);
    law_modifiers_follow(commands);
    law_draw_effects(pen, commands);
}

/// Modifiers that stay need no attribute.
pub proof fn lemma_no_switches(diff: ModifierDiff)
    requires
        diff.from == diff.to,
    ensures
        diff.switches().len() == 0,
{
    lemma_switches_hold(diff);
    if diff.switches().len() > 0 {
        let first = diff.switches()[0];
        assert(diff.switches().contains(first));
        assert(diff.sets(first));
    }
}

/// A command stands one column behind the last of those before it.
pub open spec fn is_next_to(done: Seq<DrawCommandView>, command: DrawCommandView) -> bool {
    &&& done.len() > 0
    &&& command.position().x == done.last().position().x + 1
    &&& command.position().y == done.last().position().y
}

/// For one more command, what was written before stays, and only what is needed is added: the
/// cursor is moved exactly where the command does not stand one column behind the one before, and
/// to the command's place; for a cell, its colours are set exactly where they are not in force,
/// attributes exactly as far as its modifiers are not in force, and its symbol is printed last;
/// for a clearing, the style is reset, the background colour set and the line erased.
pub proof fn law_draw_sends_what_is_needed(
    pen: Pen,
    done: Seq<DrawCommandView>,
    command: DrawCommandView,
)
    requires
        pen.is_plain(),
        all_behind(done.push(command)),
        all_unconcealed(done.push(command)),
    ensures
        ({
            let written = commands_ops(done);
            let all = commands_ops(done.push(command));
            let sent = all.skip(written.len() as int);
            let before = pen.after_all(written);
            let moves: int = if is_next_to(done, command) {
                0
            } else {
                1
            };
            &&& written.len() <= all.len() && all.take(written.len() as int) == written
            &&& moves == 1 ==> sent.len() > 0 && sent[0] == Op::MoveTo(command.position())
            &&& match command {
                DrawCommandView::Put { cell, .. } => {
                    let switches = (ModifierDiff {
                        from: before.modifier,
                        to: cell.modifier,
                    }).switches();
                    let colors: int = if before.fg != cell.fg || before.bg != cell.bg {
                        1
                    } else {
                        0
                    };
                    &&& sent.len() == moves + switches.len() + colors + 1
                    &&& forall|i: int|
                        0 <= i < switches.len() ==> sent[moves + i] == Op::SetAttribute(
                            #[trigger] switches[i],
                        )
                    &&& colors == 1 ==> sent[sent.len() - 2] == Op::SetColors(cell.fg, cell.bg)
                    &&& sent.last() == Op::Print(seq![cell.symbol])
                },
                DrawCommandView::ClearToEnd { bg, .. } => {
                    sent.skip(moves) == seq![
                        Op::SetAttribute(Attribute::Reset),
                        Op::SetBackground(bg),
                        Op::Clear(ClearType::UntilNewLine),
                    ]
                },
            }
        }),
{
    let longer = done.push(command);
    let written = commands_ops(done);
    let all = commands_ops(longer);
    let state = state_after(done);
    let before = pen.after_all(written);
    assert(longer.drop_last() =~= done);
    assert forall|i: int, k: int| 0 <= i && k == i + 1 && k < done.len() implies behind(
        #[trigger] done[i],
        #[trigger] done[k],
    ) by {
        assert(done[i] == longer[i]);
        assert(done[k] == longer[k]);
    }
    assert forall|i: int| 0 <= i < done.len() && (#[trigger] done[i]) is Put implies
        done[i]->cell.modifier.bits & 0xfe80 == 0 by {
        assert(done[i] == longer[i]);
    }
    lemma_cursor_follows(done);
    law_modifiers_follow(done);
    lemma_steps(pen, done);
    let sent = all.skip(written.len() as int);
    assert(all == written + state.ops(command));
    assert(sent =~= state.ops(command));
    assert(all.take(written.len() as int) =~= written);
    if done.len() > 0 {
        assert(state.last_pos == Some(done.last().position()));
    } else {
        assert(state.last_pos is None);
    }
    assert(state.continues(command.position()) == is_next_to(done, command));
    if let DrawCommandView::Put { cell, .. } = command {
        let diff = ModifierDiff { from: state.modifier, to: cell.modifier };
        if cell.modifier == state.modifier {
            lemma_no_switches(diff);
        }
        assert(diff.ops().len() == diff.switches().len());
        assert(longer.last() == command);
    }
}

/// A style: the colours and modifiers of text.
pub struct Style {
    pub fg: Color,
    pub bg: Color,
    pub modifier: Modifier,
}

/// The style in which commands leave off: that of the last cell, or plain text on the background
/// colour of the last clearing.
pub open spec fn style_after(done: Seq<DrawCommandView>) -> Style {
    if done.len() == 0 {
        Style { fg: Color::Reset, bg: Color::Reset, modifier: Modifier { bits: 0 } }
    } else {
        match done.last() {
            DrawCommandView::Put { cell, .. } => Style {
                fg: cell.fg,
                bg: cell.bg,
                modifier: cell.modifier,
            },
            DrawCommandView::ClearToEnd { bg, .. } => Style {
                fg: Color::Reset,
                bg,
                modifier: Modifier { bits: 0 },
            },
        }
    }
}

/// For one more command, whatever the commands are, what was written before stays, and what is
/// added depends on the command before only: the cursor is moved exactly where the command does
/// not stand one column behind that one; for a cell, its colours are set exactly where they are
/// not those of the style that one leaves off in, attributes exactly as far as its modifiers are
/// not, and its symbol is printed last; for a clearing, the style is reset, the background colour
/// set and the line erased.
pub proof fn law_draw_goes_by_the_last_command(
    done: Seq<DrawCommandView>,
    command: DrawCommandView,
)
    ensures
        ({
            let written = commands_ops(done);
            let all = commands_ops(done.push(command));
            let sent = all.skip(written.len() as int);
            let before = style_after(done);
            let moves: int = if is_next_to(done, command) {
                0
            } else {
                1
            };
            &&& written.len() <= all.len() && all.take(written.len() as int) == written
            &&& moves == 1 ==> sent.len() > 0 && sent[0] == Op::MoveTo(command.position())
            &&& match command {
                DrawCommandView::Put { cell, .. } => {
                    let switches = (ModifierDiff {
                        from: before.modifier,
                        to: cell.modifier,
                    }).switches();
                    let colors: int = if before.fg != cell.fg || before.bg != cell.bg {
                        1
                    } else {
                        0
                    };
                    &&& sent.len() == moves + switches.len() + colors + 1
                    &&& forall|i: int|
                        0 <= i < switches.len() ==> sent[moves + i] == Op::SetAttribute(
                            #[trigger] switches[i],
                        )
                    &&& colors == 1 ==> sent[sent.len() - 2] == Op::SetColors(cell.fg, cell.bg)
                    &&& sent.last() == Op::Print(seq![cell.symbol])
                },
                DrawCommandView::ClearToEnd { bg, .. } => {
                    sent.skip(moves) == seq![
                        Op::SetAttribute(Attribute::Reset),
                        Op::SetBackground(bg),
                        Op::Clear(ClearType::UntilNewLine),
                    ]
                },
            }
        }),
        draw_ops(done) == commands_ops(done) + seq![
            Op::ResetForeground,
            Op::SetBackground(Color::Reset),
            Op::SetAttribute(Attribute::Reset),
        ],
{
    let longer = done.push(command);
    let written = commands_ops(done);
    let all = commands_ops(longer);
    let state = state_after(done);
    assert(longer.drop_last() =~= done);
    let sent = all.skip(written.len() as int);
    assert(all == written + state.ops(command));
    assert(sent =~= state.ops(command));
    assert(all.take(written.len() as int) =~= written);
    if done.len() > 0 {
        assert(state.last_pos == Some(done.last().position()));
    } else {
        assert(state.last_pos is None);
    }
    assert(state.continues(command.position()) == is_next_to(done, command));
    if let DrawCommandView::Put { cell, .. } = command {
        let diff = ModifierDiff { from: state.modifier, to: cell.modifier };
        if cell.modifier == state.modifier {
            lemma_no_switches(diff);
        }
        assert(diff.ops().len() == diff.switches().len());
    }
}

} // verus!
