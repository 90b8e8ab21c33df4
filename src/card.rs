//! Card faces, their point values and their text labels.

use vstd::prelude::*;
use vstd::string::{StrSliceExecFns, StringExecFns};

use crate::text::{decimal, decimal_string, lower_of, lowercase};

verus! {

/// The color printed on (or, for wilds, chosen for) a card.
#[derive(Debug, Clone, Copy, PartialEq, Eq, Structural)]
pub enum Color {
    Red,
    Yellow,
    Green,
    Blue,
    Wild,
}

/// The face value of a card.
#[derive(Debug, Clone, Copy, PartialEq, Eq, Structural)]
pub enum Value {
    Number(u8),
    Skip,
    Reverse,
    DrawTwo,
    Wild,
    WildDrawFour,
}

/// One card instance; `id` is stable and unique within a deck.
#[derive(Debug, Clone, Copy, PartialEq, Eq, Structural)]
pub struct Card {
    pub id: usize,
    pub color: Color,
    pub value: Value,
}

/// Points a card left in hand counts at the end of a round.
pub open spec fn points(v: Value) -> int {
    match v {
        Value::Number(n) => n as int,
        Value::Skip | Value::Reverse | Value::DrawTwo => 20,
        Value::Wild | Value::WildDrawFour => 50,
    }
}

/// Points of all cards in `s`.
pub open spec fn hand_points(s: Seq<Card>) -> int
    decreases s.len(),
{
    if s.len() == 0 {
        0
    } else {
        hand_points(s.drop_last()) + points(s.last().value)
    }
}

/// `x`, or `u64::MAX` when larger.
pub open spec fn capped(x: int) -> int {
    if x <= u64::MAX {
        x
    } else {
        u64::MAX as int
    }
}

/// The points a hand counts at the end of a round, capped at `u64::MAX`.
pub fn hand_score(hand: &Vec<Card>) -> (r: u64)
    ensures
        r == capped(hand_points(hand@)),
{
    let mut total: u64 = 0;
    let mut i: usize = 0;
    while i < hand.len()
        invariant
            i <= hand@.len(),
            total == capped(hand_points(hand@.take(i as int))),
        decreases hand@.len() - i,
    {
        proof {
            assert(hand@.take(i as int + 1).drop_last() =~= hand@.take(i as int));
            assert(hand@.take(i as int + 1).last() == hand@[i as int]);
        }
        let p = hand[i].value.to_points();
        total = total.saturating_add(p as u64);
        i = i + 1;
    }
    assert(hand@.take(i as int) =~= hand@);
    total
}

/// Wild and Wild-Draw-Four take a chosen color when played.
pub open spec fn is_wild_value(v: Value) -> bool {
    v is Wild || v is WildDrawFour
}

/// A card may go on `top` when it is a wild, or shares color or value with it.
pub open spec fn can_play_on(card: Card, top: Card) -> bool {
    is_wild_value(card.value) || card.color == top.color || card.value == top.value
}

/// The text form of a value: its digit for a number, else a lowercase word.
pub open spec fn value_label(v: Value) -> Seq<char> {
    match v {
        Value::Number(n) => decimal(n as nat),
        Value::Skip => "skip"@,
        Value::Reverse => "reverse"@,
        Value::DrawTwo => "draw_two"@,
        Value::Wild => "wild"@,
        Value::WildDrawFour => "wild_draw_four"@,
    }
}

/// Whether `t` is a single ASCII digit.
pub open spec fn is_digit_label(t: Seq<char>) -> bool {
    t.len() == 1 && '0' <= t[0] <= '9'
}

/// The value named by an already lowercased label, if any: one of the words,
/// or a single digit from 0 to 9.
pub open spec fn value_of_label(t: Seq<char>) -> Option<Value> {
    if t == "skip"@ {
        Some(Value::Skip)
    } else if t == "reverse"@ {
        Some(Value::Reverse)
    } else if t == "draw_two"@ {
        Some(Value::DrawTwo)
    } else if t == "wild"@ {
        Some(Value::Wild)
    } else if t == "wild_draw_four"@ {
        Some(Value::WildDrawFour)
    } else {
        if is_digit_label(t) {
            Some(Value::Number((t[0] as u32 - '0' as u32) as u8))
        } else {
            None
        }
    }
}

impl Value {
    /// The label a client sees for this value.
    pub fn label(&self) -> (r: String)
        ensures
            r@ == value_label(*self),
    {
        match self {
            Value::Number(n) => decimal_string(*n as usize),
            Value::Skip => String::from_str("skip"),
            Value::Reverse => String::from_str("reverse"),
            Value::DrawTwo => String::from_str("draw_two"),
            Value::Wild => String::from_str("wild"),
            Value::WildDrawFour => String::from_str("wild_draw_four"),
        }
    }

    /// Reads a label that is already in lowercase.
    pub fn from_lowercase_label(t: &String) -> (r: Option<Value>)
        ensures
            r == value_of_label(t@),
    {
        if *t == String::from_str("skip") {
            Some(Value::Skip)
        } else if *t == String::from_str("reverse") {
            Some(Value::Reverse)
        } else if *t == String::from_str("draw_two") {
            Some(Value::DrawTwo)
        } else if *t == String::from_str("wild") {
            Some(Value::Wild)
        } else if *t == String::from_str("wild_draw_four") {
            Some(Value::WildDrawFour)
        } else {
            let s = t.as_str();
            if s.unicode_len() != 1 {
                return None;
            }
            let c = s.get_char(0);
            if '0' <= c && c <= '9' {
                Some(Value::Number((c as u32 - '0' as u32) as u8))
            } else {
                None
            }
        }
    }

    /// Reads a label a client sent, in any letter case.
    pub fn from_label(s: &str) -> (r: Option<Value>)
        ensures
            r == value_of_label(lower_of(s@)),
    {
        let t = lowercase(s);
        Value::from_lowercase_label(&t)
    }

    pub fn to_points(&self) -> (r: i32)
        ensures
            r == points(*self),
    {
        match self {
            Value::Number(n) => *n as i32,
            Value::Skip => 20,
            Value::Reverse => 20,
            Value::DrawTwo => 20,
            Value::Wild => 50,
            Value::WildDrawFour => 50,
        }
    }

    pub fn is_wild(&self) -> (r: bool)
        ensures
            r == is_wild_value(*self),
    {
        match self {
            Value::Wild | Value::WildDrawFour => true,
            _ => false,
        }
    }
}

impl Card {
    /// Whether this card may be played on `top`.
    pub fn can_play_on(&self, top: &Card) -> (r: bool)
        ensures
            r == can_play_on(*self, *top),
    {
        self.value.is_wild() || self.color == top.color || self.value == top.value
    }
}

} // verus!
