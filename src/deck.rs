//! The 108-card deck: its fixed composition, drawing from the tail, shuffling.

use rand::seq::SliceRandom;
use vstd::prelude::*;

use crate::card::{is_wild_value, Card, Color, Value};

verus! {

/// Number of cards in a fresh deck.
pub const DECK_SIZE: usize = 108;

/// The concrete color of the `k`-th block of 25 cards.
pub open spec fn block_color(k: int) -> Color {
    if k == 0 {
        Color::Red
    } else if k == 1 {
        Color::Yellow
    } else if k == 2 {
        Color::Green
    } else {
        Color::Blue
    }
}

/// The face at offset `o` of a color block: one 0, two each of 1..9, then two
/// Skips, two Reverses and two Draw-Twos.
pub open spec fn block_value(o: int) -> Value {
    if o == 0 {
        Value::Number(0)
    } else if o < 19 {
        Value::Number(((o + 1) / 2) as u8)
    } else if o < 21 {
        Value::Skip
    } else if o < 23 {
        Value::Reverse
    } else {
        Value::DrawTwo
    }
}

/// The card at position `i` of a fresh, unshuffled deck; its id is `i`.
pub open spec fn standard_card(i: int) -> Card {
    if i < 100 {
        Card { id: i as usize, color: block_color(i / 25), value: block_value(i % 25) }
    } else if i < 104 {
        Card { id: i as usize, color: Color::Wild, value: Value::Wild }
    } else {
        Card { id: i as usize, color: Color::Wild, value: Value::WildDrawFour }
    }
}

/// The cards of a fresh deck, in construction order.
pub open spec fn standard_deck() -> Seq<Card> {
    Seq::new(DECK_SIZE as nat, |i: int| standard_card(i))
}

/// How many cards of `s` satisfy `p`.
pub open spec fn count_where(s: Seq<Card>, p: spec_fn(Card) -> bool) -> nat
    decreases s.len(),
{
    if s.len() == 0 {
        0
    } else {
        count_where(s.drop_last(), p) + if p(s.last()) {
            1nat
        } else {
            0nat
        }
    }
}

/// Cards of `s` with color `c` and value `v`.
pub open spec fn count_face(s: Seq<Card>, c: Color, v: Value) -> nat {
    count_where(s, |x: Card| x.color == c && x.value == v)
}

/// Cards of `s` with color `c`.
pub open spec fn count_color(s: Seq<Card>, c: Color) -> nat {
    count_where(s, |x: Card| x.color == c)
}

/// Number cards of `s` with color `c`.
pub open spec fn count_numbers(s: Seq<Card>, c: Color) -> nat {
    count_where(s, |x: Card| x.color == c && x.value is Number)
}

/// Index of the block of 25 cards that holds a concrete color.
pub open spec fn block_index(c: Color) -> int {
    match c {
        Color::Red => 0,
        Color::Yellow => 1,
        Color::Green => 2,
        _ => 3,
    }
}

/// When the cards satisfying `p` are exactly those at positions `lo..hi`,
/// there are `hi - lo` of them.
proof fn lemma_count_range(s: Seq<Card>, p: spec_fn(Card) -> bool, lo: int, hi: int)
    requires
        0 <= lo <= hi <= s.len(),
        forall|i: int| 0 <= i < s.len() ==> (p(#[trigger] s[i]) <==> lo <= i < hi),
    ensures
        count_where(s, p) == hi - lo,
    decreases s.len(),
{
    if s.len() > 0 {
        let n = s.len() - 1;
        let t = s.drop_last();
        let lo2 = if lo < n {
            lo
        } else {
            n
        };
        let hi2 = if hi < n {
            hi
        } else {
            n
        };
        assert forall|i: int| 0 <= i < t.len() implies (p(#[trigger] t[i]) <==> lo2 <= i < hi2) by {
            assert(t[i] == s[i]);
        }
        lemma_count_range(t, p, lo2, hi2);
        assert(p(s.last()) <==> lo <= n < hi) by {
            assert(s.last() == s[n]);
        }
    }
}

/// A fresh deck holds 108 cards: for each of the four concrete colors 25
/// cards, of which 19 are numbers (one 0 and two each of 1 to 9), two Skips,
/// two Reverses and two Draw-Twos; then four Wilds and four Wild-Draw-Fours,
/// both colored Wild.
pub proof fn lemma_fresh_deck_composition()
    ensures
        standard_deck().len() == DECK_SIZE,
        forall|c: Color| c != Color::Wild ==> #[trigger] count_color(standard_deck(), c) == 25,
        forall|c: Color| c != Color::Wild ==> #[trigger] count_numbers(standard_deck(), c) == 19,
        forall|c: Color| c != Color::Wild ==> #[trigger] count_face(standard_deck(), c, Value::Number(0)) == 1,
        forall|c: Color, n: u8|
            c != Color::Wild && 1 <= n <= 9 ==> #[trigger] count_face(standard_deck(), c, Value::Number(n)) == 2,
        forall|c: Color| c != Color::Wild ==> #[trigger] count_face(standard_deck(), c, Value::Skip) == 2,
        forall|c: Color| c != Color::Wild ==> #[trigger] count_face(standard_deck(), c, Value::Reverse) == 2,
        forall|c: Color| c != Color::Wild ==> #[trigger] count_face(standard_deck(), c, Value::DrawTwo) == 2,
        count_color(standard_deck(), Color::Wild) == 8,
        count_face(standard_deck(), Color::Wild, Value::Wild) == 4,
        count_face(standard_deck(), Color::Wild, Value::WildDrawFour) == 4,
{
    let d = standard_deck();
    assert forall|c: Color| c != Color::Wild implies #[trigger] count_color(d, c) == 25 by {
        let b = 25 * block_index(c);
        lemma_count_range(d, |x: Card| x.color == c, b, b + 25);
    }
    assert forall|c: Color| c != Color::Wild implies #[trigger] count_numbers(d, c) == 19 by {
        let b = 25 * block_index(c);
        lemma_count_range(d, |x: Card| x.color == c && x.value is Number, b, b + 19);
    }
    assert forall|c: Color| c != Color::Wild implies #[trigger] count_face(d, c, Value::Number(0)) == 1 by {
        let b = 25 * block_index(c);
        lemma_count_range(d, |x: Card| x.color == c && x.value == Value::Number(0), b, b + 1);
    }
    assert forall|c: Color, n: u8| c != Color::Wild && 1 <= n <= 9 implies #[trigger] count_face(
        d,
        c,
        Value::Number(n),
    ) == 2 by {
        let b = 25 * block_index(c) + 2 * n - 1;
        lemma_count_range(d, |x: Card| x.color == c && x.value == Value::Number(n), b, b + 2);
    }
    assert forall|c: Color| c != Color::Wild implies #[trigger] count_face(d, c, Value::Skip) == 2 by {
        let b = 25 * block_index(c) + 19;
        lemma_count_range(d, |x: Card| x.color == c && x.value == Value::Skip, b, b + 2);
    }
    assert forall|c: Color| c != Color::Wild implies #[trigger] count_face(d, c, Value::Reverse) == 2 by {
        let b = 25 * block_index(c) + 21;
        lemma_count_range(d, |x: Card| x.color == c && x.value == Value::Reverse, b, b + 2);
    }
    assert forall|c: Color| c != Color::Wild implies #[trigger] count_face(d, c, Value::DrawTwo) == 2 by {
        let b = 25 * block_index(c) + 23;
        lemma_count_range(d, |x: Card| x.color == c && x.value == Value::DrawTwo, b, b + 2);
    }
    lemma_count_range(d, |x: Card| x.color == Color::Wild, 100, 108);
    lemma_count_range(d, |x: Card| x.color == Color::Wild && x.value == Value::Wild, 100, 104);
    lemma_count_range(d, |x: Card| x.color == Color::Wild && x.value == Value::WildDrawFour, 104, 108);
}

/// Any reordering of a fresh deck holds a number card.
pub proof fn lemma_shuffled_deck_has_number(s: Seq<Card>)
    requires
        s.to_multiset() == standard_deck().to_multiset(),
    ensures
        exists|j: int| 0 <= j < s.len() && (#[trigger] s[j]).value is Number,
{
    broadcast use vstd::seq_lib::group_to_multiset_ensures;

    let sd = standard_deck();
    let c0 = standard_card(0);
    assert(sd[0] == c0);
    assert(sd.contains(c0));
    assert(sd.to_multiset().count(c0) > 0);
    assert(s.contains(c0));
    let j = choose|j: int| 0 <= j < s.len() && s[j] == c0;
    assert(s[j].value is Number);
}

/// Every Wild and Wild-Draw-Four in `s` carries color Wild.
pub open spec fn wilds_uncolored(s: Seq<Card>) -> bool {
    forall|i: int| 0 <= i < s.len() && is_wild_value((#[trigger] s[i]).value) ==> s[i].color == Color::Wild
}

/// Reordering keeps wilds uncolored.
pub proof fn lemma_wilds_uncolored_perm(a: Seq<Card>, b: Seq<Card>)
    requires
        a.to_multiset() == b.to_multiset(),
        wilds_uncolored(a),
    ensures
        wilds_uncolored(b),
{
    broadcast use vstd::seq_lib::group_to_multiset_ensures;

    assert forall|i: int| 0 <= i < b.len() && is_wild_value((#[trigger] b[i]).value) implies b[i].color
        == Color::Wild by {
        assert(b.contains(b[i]));
        assert(b.to_multiset().count(b[i]) > 0);
        assert(a.contains(b[i]));
        let j = choose|j: int| 0 <= j < a.len() && a[j] == b[i];
    }
}

/// A deck: an ordered sequence of cards drawn from the tail.
#[derive(Debug)]
pub struct Deck {
    pub cards: Vec<Card>,
}

fn standard_card_at(i: usize) -> (r: Card)
    requires
        i < DECK_SIZE,
    ensures
        r == standard_card(i as int),
{
    if i < 100 {
        let k = i / 25;
        let o = i % 25;
        let color = if k == 0 {
            Color::Red
        } else if k == 1 {
            Color::Yellow
        } else if k == 2 {
            Color::Green
        } else {
            Color::Blue
        };
        let value = if o == 0 {
            Value::Number(0)
        } else if o < 19 {
            Value::Number(((o + 1) / 2) as u8)
        } else if o < 21 {
            Value::Skip
        } else if o < 23 {
            Value::Reverse
        } else {
            Value::DrawTwo
        };
        Card { id: i, color, value }
    } else if i < 104 {
        Card { id: i, color: Color::Wild, value: Value::Wild }
    } else {
        Card { id: i, color: Color::Wild, value: Value::WildDrawFour }
    }
}

/// Relies on `rand`'s `SliceRandom::shuffle` with the thread-local generator:
/// it only swaps elements, so the result is a permutation of the input.
#[verifier::external_body]
fn shuffle_cards(cards: &mut Vec<Card>)
    ensures
        final(cards)@.to_multiset() == old(cards)@.to_multiset(),
{
    cards.shuffle(&mut rand::thread_rng());
}

impl Deck {
    /// The full deck in construction order, ids `0..108`.
    pub fn new() -> (d: Deck)
        ensures
            d.cards@ == standard_deck(),
    {
        let mut cards: Vec<Card> = Vec::new();
        let mut i: usize = 0;
        while i < DECK_SIZE
            invariant
                i <= DECK_SIZE,
                cards@ == standard_deck().take(i as int),
            decreases DECK_SIZE - i,
        {
            let c = standard_card_at(i);
            cards.push(c);
            i = i + 1;
            assert(cards@ =~= standard_deck().take(i as int));
        }
        assert(cards@ =~= standard_deck());
        Deck { cards }
    }

    /// Puts the cards in a random order; the same cards stay in the deck.
    pub fn shuffle(&mut self)
        ensures
            final(self).cards@.to_multiset() == old(self).cards@.to_multiset(),
            final(self).cards@.len() == old(self).cards@.len(),
    {
        let ghost before = self.cards@;
        shuffle_cards(&mut self.cards);
        proof {
            broadcast use vstd::seq_lib::group_to_multiset_ensures;

            assert(before.len() == before.to_multiset().len());
            assert(self.cards@.len() == self.cards@.to_multiset().len());
        }
    }

    /// Removes and returns the top (last) card, or `None` when empty.
    pub fn draw(&mut self) -> (r: Option<Card>)
        ensures
            old(self).cards@.len() == 0 ==> r is None && final(self).cards@ == old(self).cards@,
            old(self).cards@.len() > 0 ==> r == Some(old(self).cards@.last())
                && final(self).cards@ == old(self).cards@.drop_last(),
    {
        self.cards.pop()
    }

    /// Draws up to `n` cards, top first; fewer when the deck runs out.
    pub fn draw_n(&mut self, n: usize) -> (r: Vec<Card>)
        ensures
            ({
                let len = old(self).cards@.len();
                let k = if n <= len {
                    n as int
                } else {
                    len as int
                };
                &&& r@ == old(self).cards@.subrange(len - k, len as int).reverse()
                &&& final(self).cards@ == old(self).cards@.take(len - k)
            }),
    {
        let ghost start = self.cards@;
        let mut drawn: Vec<Card> = Vec::new();
        let mut i: usize = 0;
        while i < n
            invariant
                i <= n,
                drawn@.len() <= i,
                drawn@.len() <= start.len(),
                self.cards@ == start.take(start.len() - drawn@.len()),
                drawn@ == start.subrange(start.len() - drawn@.len(), start.len() as int).reverse(),
                drawn@.len() < i ==> drawn@.len() == start.len(),
            decreases n - i,
        {
            match self.draw() {
                Some(c) => {
                    drawn.push(c);
                    assert(drawn@ =~= start.subrange(
                        start.len() - drawn@.len(),
                        start.len() as int,
                    ).reverse());
                    assert(self.cards@ =~= start.take(start.len() - drawn@.len()));
                },
                None => {},
            }
            i = i + 1;
        }
        drawn
    }

    pub fn is_empty(&self) -> (r: bool)
        ensures
            r == (self.cards@.len() == 0),
    {
        self.cards.is_empty()
    }
}

} // verus!
