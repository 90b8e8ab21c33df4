//! Moving cards: reshuffling the discard pile, drawing, and playing.

use vstd::multiset::Multiset;
use vstd::prelude::*;

use crate::card::{can_play_on, capped, is_wild_value, Card, Color, Value};
use crate::error::GameError;
use crate::deck::DECK_SIZE;
use crate::events::Event;
use crate::game_state::{
    all_hands_empty, others_points, lemma_hands_total_empty, lemma_hands_total_update, lemma_next_is_seated,
    lemma_outbox_extends_refl, lemma_outbox_extends_trans, GameState,
};
use crate::player::copy_cards;
use crate::playerpool::{holds_player, pool_ids, slot_of, PlayerConnection};
use crate::turns::{advance, eligible, lemma_advance_frame, next_eligible, same_seating};

verus! {

/// A card as it returns to the deck: a wild loses its chosen color.
pub open spec fn reset_card(c: Card) -> Card {
    if is_wild_value(c.value) {
        Card { color: Color::Wild, ..c }
    } else {
        c
    }
}

/// Every card of `s` as it returns to the deck.
pub open spec fn reset_wilds(s: Seq<Card>) -> Seq<Card> {
    s.map_values(|c: Card| reset_card(c))
}

/// The ids of the cards of `s`, in order.
pub open spec fn ids_of(s: Seq<Card>) -> Seq<usize> {
    s.map_values(|c: Card| c.id)
}

/// Resetting wild colours keeps every id.
pub proof fn lemma_reset_keeps_ids(s: Seq<Card>)
    ensures
        ids_of(reset_wilds(s)) == ids_of(s),
{
    assert(ids_of(reset_wilds(s)) =~= ids_of(s));
}

/// Cards that are a reordering of each other have the same ids.
pub proof fn lemma_ids_perm(a: Seq<Card>, b: Seq<Card>)
    requires
        a.to_multiset() == b.to_multiset(),
    ensures
        ids_of(a).to_multiset() == ids_of(b).to_multiset(),
    decreases a.len(),
{
    broadcast use vstd::seq_lib::group_to_multiset_ensures;
    broadcast use vstd::multiset::group_multiset_axioms;

    if a.len() == 0 {
        assert(a.to_multiset().len() == a.len());
        assert(b.to_multiset().len() == b.len());
        assert(b.len() == 0);
        assert(ids_of(a) =~= ids_of(b));
    } else {
        let x = a.last();
        assert(a =~= a.drop_last().push(x));
        assert(a.to_multiset().count(x) > 0);
        assert(b.contains(x));
        let j = choose|j: int| 0 <= j < b.len() && b[j] == x;
        let b2 = b.remove(j);
        assert(b2.to_multiset() =~= b.to_multiset().remove(x));
        assert(a.drop_last().to_multiset() =~= a.to_multiset().remove(x));
        lemma_ids_perm(a.drop_last(), b2);
        assert(ids_of(a) =~= ids_of(a.drop_last()).push(x.id));
        assert(ids_of(b2) =~= ids_of(b).remove(j));
        assert(ids_of(b)[j] == x.id);
        assert(ids_of(b2).to_multiset() =~= ids_of(b).to_multiset().remove(x.id));
        assert(ids_of(a).to_multiset() =~= ids_of(a.drop_last()).to_multiset().insert(x.id));
        assert(ids_of(b).to_multiset().count(x.id) > 0) by {
            assert(ids_of(b).contains(x.id));
        }
        assert(ids_of(a).to_multiset() =~= ids_of(b).to_multiset());
    }
}

/// Cards that can still be drawn: the deck, and the discard pile below its top.
pub open spec fn drawable(g: GameState) -> int {
    g.deck.cards@.len() + g.discard_pile@.len() - 1
}


/// Whether `k` is the first position in `hand` of a card with id `id`.
pub open spec fn is_first_card(hand: Seq<Card>, id: usize, k: int) -> bool {
    &&& 0 <= k < hand.len()
    &&& hand[k].id == id
    &&& forall|j: int| 0 <= j < k ==> #[trigger] hand[j].id != id
}

/// Some card of `hand` has id `id`.
pub open spec fn holds_card(hand: Seq<Card>, id: usize) -> bool {
    exists|k: int| 0 <= k < hand.len() && #[trigger] hand[k].id == id
}

/// The first position in `hand` of the card with id `id`.
pub open spec fn card_slot(hand: Seq<Card>, id: usize) -> int {
    choose|k: int| is_first_card(hand, id, k)
}

/// Takes the declared `cards` out of `hand` one by one, each matched by id to
/// the first such card left: the hand's instances taken, in play order, and
/// the cards left. `None` when some id is not found.
pub open spec fn take_played(hand: Seq<Card>, cards: Seq<Card>) -> Option<(Seq<Card>, Seq<Card>)>
    decreases cards.len(),
{
    if cards.len() == 0 {
        Some((Seq::empty(), hand))
    } else {
        match take_played(hand, cards.drop_last()) {
            None => None,
            Some((taken, left)) => {
                let id = cards.last().id;
                if holds_card(left, id) {
                    let k = card_slot(left, id);
                    Some((taken.push(left[k]), left.remove(k)))
                } else {
                    None
                }
            },
        }
    }
}

/// A hand's card as played for the declared card `d`: a wild takes the
/// declared color, any other card keeps its own.
pub open spec fn as_played(h: Card, d: Card) -> Card {
    if is_wild_value(h.value) {
        Card { color: d.color, ..h }
    } else {
        h
    }
}

/// The cards as they land on the discard pile.
pub open spec fn played_cards(taken: Seq<Card>, cards: Seq<Card>) -> Seq<Card> {
    Seq::new(taken.len(), |i: int| as_played(taken[i], cards[i]))
}

/// A legal set on `top`: its first card matches the top, all cards share the
/// first card's value, and every wild carries a chosen concrete color.
pub open spec fn set_is_legal(p: Seq<Card>, top: Card) -> bool {
    &&& p.len() > 0
    &&& can_play_on(p[0], top)
    &&& forall|i: int| 0 <= i < p.len() ==> (#[trigger] p[i]).value == p[0].value
    &&& forall|i: int| 0 <= i < p.len() && is_wild_value((#[trigger] p[i]).value) ==> p[i].color != Color::Wild
}

/// The hand of the participant seated with id `pid`.
pub open spec fn hand_of(g: GameState, pid: usize) -> Seq<Card> {
    g.conns()[slot_of(g.conns(), pid)].player.hand@
}

/// Why `pid` may not play `cards` now, checked in this order; `None` when
/// the play is accepted.
pub open spec fn play_error(g: GameState, pid: usize, cards: Seq<Card>) -> Option<GameError> {
    if cards.len() == 0 {
        Some(GameError::InvalidPlay)
    } else if !g.is_turn_of(pid) {
        Some(GameError::NotYourTurn)
    } else if !holds_player(g.conns(), pid) {
        Some(GameError::PlayerNotFound)
    } else {
        match take_played(hand_of(g, pid), cards) {
            None => Some(GameError::CardNotInHand),
            Some((taken, _)) => if set_is_legal(played_cards(taken, cards), g.top()) {
                None
            } else {
                Some(GameError::InvalidPlay)
            },
        }
    }
}

/// Cards a player must draw for a set of `k` cards of value `v`.
pub open spec fn penalty(v: Value, k: int) -> int {
    let per: int = if v is DrawTwo {
        2
    } else if v is WildDrawFour {
        4
    } else {
        0
    };
    if per * k <= usize::MAX {
        per * k
    } else {
        usize::MAX as int
    }
}

/// Taking cards keeps count: each taken card leaves the hand.
pub proof fn lemma_take_played_len(hand: Seq<Card>, cards: Seq<Card>)
    requires
        take_played(hand, cards) is Some,
    ensures
        take_played(hand, cards).unwrap().0.len() == cards.len(),
        take_played(hand, cards).unwrap().1.len() + cards.len() == hand.len(),
    decreases cards.len(),
{
    if cards.len() > 0 {
        lemma_take_played_len(hand, cards.drop_last());
        let (taken, left) = take_played(hand, cards.drop_last())->0;
        let k = choose|k: int| 0 <= k < left.len() && #[trigger] left[k].id == cards.last().id;
        lemma_card_slot(left, cards.last().id, k);
    }
}

/// A card present in `hand` has a first slot.
pub proof fn lemma_card_slot(hand: Seq<Card>, id: usize, k: int)
    requires
        0 <= k < hand.len(),
        hand[k].id == id,
    ensures
        is_first_card(hand, id, card_slot(hand, id)),
    decreases k,
{
    if exists|j: int| 0 <= j < k && #[trigger] hand[j].id == id {
        let j = choose|j: int| 0 <= j < k && #[trigger] hand[j].id == id;
        lemma_card_slot(hand, id, j);
    } else {
        assert(is_first_card(hand, id, k));
    }
}

proof fn lemma_card_slot_unique(hand: Seq<Card>, id: usize, k: int)
    requires
        is_first_card(hand, id, k),
    ensures
        card_slot(hand, id) == k,
{
    lemma_card_slot(hand, id, k);
    let f = card_slot(hand, id);
    if f < k {
        assert(hand[f].id != id);
    } else if k < f {
        assert(hand[k].id != id);
    }
}

/// The first position in `hand` of a card with id `id`.
pub fn find_card(hand: &Vec<Card>, id: usize) -> (r: Option<usize>)
    ensures
        r is None <==> !holds_card(hand@, id),
        r is Some ==> is_first_card(hand@, id, r->0 as int) && r->0 == card_slot(hand@, id),
{
    let mut i: usize = 0;
    while i < hand.len()
        invariant
            i <= hand@.len(),
            forall|j: int| 0 <= j < i ==> #[trigger] hand@[j].id != id,
        decreases hand@.len() - i,
    {
        if hand[i].id == id {
            proof {
                lemma_card_slot_unique(hand@, id, i as int);
            }
            return Some(i);
        }
        i = i + 1;
    }
    None
}

/// Takes the declared cards out of a copy of `hand`: the instances taken and
/// the cards left, or `None` when an id is missing.
pub fn take_played_cards(hand: &Vec<Card>, cards: &Vec<Card>) -> (r: Option<(Vec<Card>, Vec<Card>)>)
    ensures
        r is None <==> take_played(hand@, cards@) is None,
        r is Some ==> take_played(hand@, cards@) == Some((r.unwrap().0@, r.unwrap().1@)),
{
    let mut left = copy_cards(hand);
    let mut taken: Vec<Card> = Vec::new();
    let mut i: usize = 0;
    while i < cards.len()
        invariant
            i <= cards@.len(),
            take_played(hand@, cards@.take(i as int)) == Some((taken@, left@)),
        decreases cards@.len() - i,
    {
        let ghost before = cards@.take(i as int);
        proof {
            assert(cards@.take(i as int + 1).drop_last() =~= before);
            assert(cards@.take(i as int + 1).last() == cards@[i as int]);
        }
        match find_card(&left, cards[i].id) {
            Some(k) => {
                let c = left.remove(k);
                taken.push(c);
            },
            None => {
                proof {
                    lemma_take_none_stays(hand@, cards@, i as int + 1);
                }
                return None;
            },
        }
        i = i + 1;
    }
    proof {
        assert(cards@.take(i as int) =~= cards@);
    }
    Some((taken, left))
}

/// Once an id is missing, taking more cards still fails.
proof fn lemma_take_none_stays(hand: Seq<Card>, cards: Seq<Card>, n: int)
    requires
        0 <= n <= cards.len(),
        take_played(hand, cards.take(n)) is None,
    ensures
        take_played(hand, cards) is None,
    decreases cards.len() - n,
{
    if n < cards.len() {
        assert(cards.take(n + 1).drop_last() =~= cards.take(n));
        lemma_take_none_stays(hand, cards, n + 1);
    } else {
        assert(cards.take(n) =~= cards);
    }
}

/// The taken cards as they land on the discard pile.
pub fn as_played_cards(taken: &Vec<Card>, cards: &Vec<Card>) -> (r: Vec<Card>)
    requires
        taken@.len() == cards@.len(),
    ensures
        r@ == played_cards(taken@, cards@),
{
    let mut r: Vec<Card> = Vec::new();
    let mut i: usize = 0;
    while i < taken.len()
        invariant
            i <= taken@.len(),
            taken@.len() == cards@.len(),
            r@ == played_cards(taken@, cards@).take(i as int),
        decreases taken@.len() - i,
    {
        let h = taken[i];
        let c = if h.value.is_wild() {
            Card { id: h.id, color: cards[i].color, value: h.value }
        } else {
            h
        };
        r.push(c);
        i = i + 1;
        assert(r@ =~= played_cards(taken@, cards@).take(i as int));
    }
    assert(r@ =~= played_cards(taken@, cards@));
    r
}

/// Whether `p` is a legal set on `top`.
pub fn is_legal_set(p: &Vec<Card>, top: &Card) -> (r: bool)
    ensures
        r == set_is_legal(p@, *top),
{
    if p.len() == 0 {
        return false;
    }
    if !p[0].can_play_on(top) {
        return false;
    }
    let mut i: usize = 0;
    while i < p.len()
        invariant
            i <= p@.len(),
            p@.len() > 0,
            forall|j: int| 0 <= j < i ==> (#[trigger] p@[j]).value == p@[0].value,
            forall|j: int| 0 <= j < i && is_wild_value((#[trigger] p@[j]).value) ==> p@[j].color != Color::Wild,
        decreases p@.len() - i,
    {
        if p[i].value != p[0].value {
            return false;
        }
        if p[i].value.is_wild() && p[i].color == Color::Wild {
            return false;
        }
        i = i + 1;
    }
    true
}


/// The event at position `j` of `g`'s outbox announces that `pid` played `p`
/// to everyone seated in `c`.
pub open spec fn announces_play(g: GameState, j: int, pid: usize, p: Seq<Card>, c: Seq<PlayerConnection>) -> bool {
    let o = g.game_player_pool.outbox@;
    &&& 0 <= j < o.len()
    &&& o[j].recipients@ == pool_ids(c)
    &&& o[j].event matches Event::CardPlayed(who, cs) && who == pid && cs@ == p
}

/// Where the turn stands after the effects of `k` cards of value `v`
/// played by `pid`, before the turn advances: each Skip passes over one
/// player, and so does each Reverse when only two players take turns.
pub open spec fn turn_after_effects(c: Seq<PlayerConnection>, pid: usize, v: Value, k: int, dir: int) -> usize {
    if v is Skip || (v is Reverse && eligible(c).len() == 2) {
        advance(c, pid, dir, k as nat)
    } else {
        pid
    }
}

/// The direction after `k` cards of value `v`: each Reverse flips it.
pub open spec fn direction_after(v: Value, k: int, dir: int) -> int {
    if v is Reverse && k % 2 == 1 {
        -dir
    } else {
        dir
    }
}

/// What an accepted play of `cards` by `pid` leads to, from `g0` to `g`.
pub open spec fn play_succeeded(g: GameState, g0: GameState, pid: usize, cards: Seq<Card>) -> bool {
    let c0 = g0.conns();
    let c = g.conns();
    let i = slot_of(c0, pid);
    let taken = take_played(hand_of(g0, pid), cards).unwrap().0;
    let left = take_played(hand_of(g0, pid), cards).unwrap().1;
    let p = played_cards(taken, cards);
    let k = cards.len() as int;
    let v = p[0].value;
    let d = g0.direction as int;
    let o = g.game_player_pool.outbox@;
    let n0 = g0.game_player_pool.outbox@.len() as int;
    &&& g.outbox_extends(g0)
    &&& same_seating(c, c0)
    &&& g.id == g0.id
    &&& exists|j: int| n0 <= j && #[trigger] announces_play(g, j, pid, p, c0)
    &&& if left.len() == 0 && !c0[i].player.is_spectator {
        // The player has emptied their hand and wins the round: everyone
        // learns the cards played, then the winner; the turn does not pass.
        &&& !g.round_in_progress
        &&& g.is_waiting_for_players
        &&& all_hands_empty(c)
        &&& g.total_cards() == DECK_SIZE
        &&& n0 + 2 <= o.len()
        &&& announces_play(g, o.len() - 2, pid, p, c0)
        &&& o.last().event == Event::WinnerFound(pid, capped(others_points(c0, i)) as u64)
        &&& o.last().recipients@ == pool_ids(c0)
        &&& forall|j: int| n0 <= j < o.len() ==> !((#[trigger] o[j]).event is YourTurn)
    } else {
        let t = next_eligible(c0, pid, d);
        let ti = slot_of(c0, t);
        let pen = penalty(v, k);
        let m = if pen <= drawable(g0) {
            pen
        } else {
            drawable(g0)
        };
        let d0 = g0.deck.cards@;
        let len = d0.len() as int;
        let base = if ti == i {
            left
        } else {
            c0[ti].player.hand@
        };
        let dir1 = direction_after(v, k, d);
        &&& g.round_in_progress
        &&& g.total_cards() == g0.total_cards()
        &&& g.direction == dir1
        &&& g.player_to_play == next_eligible(c0, turn_after_effects(c0, pid, v, k, dir1), dir1)
        &&& pen <= len ==> g.discard_pile@ == g0.discard_pile@ + p && g.deck.cards@ == d0.take(len - pen)
        &&& pen > len ==> g.discard_pile@ == seq![g0.top()] + p
        &&& (pen == 0 || ti != i) ==> c[i].player.hand@ == left
        &&& forall|j: int|
            0 <= j < c0.len() && j != i && (pen == 0 || j != ti) ==> #[trigger] c[j] == c0[j]
        &&& pen > 0 ==> holds_player(c0, t) && c[ti].player.hand@.len() == m + base.len()
            && c[ti].player.hand@.take(base.len() as int) == base
        &&& 0 < pen <= len ==> c[ti].player.hand@ == base + d0.subrange(len - pen, len).reverse()
        &&& pen > len ==> c[ti].player.hand@.subrange(base.len() as int, c[ti].player.hand@.len() as int).to_multiset().add(
            g.deck.cards@.to_multiset(),
        ) == d0.to_multiset().add(reset_wilds(g0.discard_pile@.drop_last()).to_multiset())
        &&& eligible(c0).len() > 0 ==> o.last().event == Event::YourTurn(g.player_to_play)
            && o.last().recipients@ == seq![g.player_to_play]
    }
}

/// What an accepted draw by `pid` leads to, from `g0` to `g`: one card more
/// in their hand, the deck's top card when the deck is not empty (else the
/// discard pile below its top was reshuffled into the deck first), and the
/// turn passed on with a your-turn notice.
pub open spec fn drew_own(g: GameState, g0: GameState, pid: usize) -> bool {
    let c0 = g0.conns();
    let c = g.conns();
    let i = slot_of(c0, pid);
    let d0 = g0.deck.cards@;
    let o = g.game_player_pool.outbox@;
    &&& same_seating(c, c0)
    &&& c[i].player.hand@.len() == c0[i].player.hand@.len() + 1
    &&& c[i].player.hand@.take(c0[i].player.hand@.len() as int) == c0[i].player.hand@
    &&& forall|j: int| 0 <= j < c0.len() && j != i ==> #[trigger] c[j] == c0[j]
    &&& d0.len() > 0 ==> c[i].player.hand@ == c0[i].player.hand@.push(d0.last()) && g.deck.cards@
        == d0.drop_last() && g.discard_pile == g0.discard_pile
    &&& d0.len() == 0 ==> g.discard_pile@ == seq![g0.top()]
    &&& g.total_cards() == g0.total_cards()
    &&& g.player_to_play == g0.next_player_spec()
    &&& g.round_in_progress
    &&& g.direction == g0.direction
    &&& g.id == g0.id
    &&& g.outbox_extends(g0)
    &&& eligible(c0).len() > 0 ==> o.last().event == Event::YourTurn(g.player_to_play) && o.last().recipients@
        == seq![g.player_to_play]
}

/// Why `pid` may not draw now, checked in this order; `None` when the draw
/// is accepted.
pub open spec fn draw_error(g: GameState, pid: usize) -> Option<GameError> {
    if !g.is_turn_of(pid) {
        Some(GameError::NotYourTurn)
    } else if !holds_player(g.conns(), pid) {
        Some(GameError::PlayerNotFound)
    } else if drawable(g) <= 0 {
        Some(GameError::DeckEmpty)
    } else {
        None
    }
}

/// Once a play has won the round, no play and no draw is accepted until a
/// new round starts: the round is over, so it is nobody's turn.
pub proof fn lemma_winner_finality(
    g: GameState,
    g0: GameState,
    pid: usize,
    cards: Seq<Card>,
    next_pid: usize,
    next_cards: Seq<Card>,
)
    requires
        play_error(g0, pid, cards) is None,
        play_succeeded(g, g0, pid, cards),
        take_played(hand_of(g0, pid), cards).unwrap().1.len() == 0,
        !g0.conns()[slot_of(g0.conns(), pid)].player.is_spectator,
    ensures
        !g.round_in_progress,
        play_error(g, next_pid, next_cards) is Some,
        draw_error(g, next_pid) is Some,
        exists|j: int|
            g0.game_player_pool.outbox@.len() <= j < g.game_player_pool.outbox@.len()
                && (#[trigger] g.game_player_pool.outbox@[j]).event == Event::WinnerFound(
                pid,
                capped(others_points(g0.conns(), slot_of(g0.conns(), pid))) as u64,
            ),
{
}

/// Two Reverses played together leave the direction as it was, and the
/// turn passes to the same player as after a plain card.
pub proof fn lemma_double_reverse(g: GameState, g0: GameState, pid: usize, cards: Seq<Card>)
    requires
        play_error(g0, pid, cards) is None,
        play_succeeded(g, g0, pid, cards),
        cards.len() == 2,
        played_cards(take_played(hand_of(g0, pid), cards).unwrap().0, cards)[0].value is Reverse,
        g.round_in_progress,
        g0.wf(),
    ensures
        g.direction == g0.direction,
        g.player_to_play == next_eligible(g0.conns(), pid, g0.direction as int),
{
    lemma_take_played_len(hand_of(g0, pid), cards);
    let c0 = g0.conns();
    let d = g0.direction as int;
    if eligible(c0).len() == 2 {
        let a = next_eligible(c0, pid, d);
        crate::turns::lemma_next_in_cycle(c0, pid, d);
        crate::turns::lemma_two_cycle(c0, a, d);
        assert(advance(c0, pid, d, 0) == pid);
        assert(advance(c0, pid, d, 1) == a);
        assert(advance(c0, pid, d, 2) == next_eligible(c0, a, d));
    }
}

/// An event queued before a call is still in place after it.
pub proof fn lemma_outbox_kept(g: GameState, g0: GameState, j: int)
    requires
        g.outbox_extends(g0),
        0 <= j < g0.game_player_pool.outbox@.len(),
    ensures
        g.game_player_pool.outbox@[j] == g0.game_player_pool.outbox@[j],
{
    assert(g.game_player_pool.outbox@.take(g0.game_player_pool.outbox@.len() as int)[j]
        == g.game_player_pool.outbox@[j]);
}

impl GameState {
    /// Turns every Wild and Wild-Draw-Four in the deck back to color Wild.
    pub fn reset_played_wild_cards(&mut self)
        ensures
            final(self).deck.cards@ == reset_wilds(old(self).deck.cards@),
            final(self).discard_pile == old(self).discard_pile,
            final(self).game_player_pool == old(self).game_player_pool,
            final(self).id == old(self).id,
            final(self).player_to_play == old(self).player_to_play,
            final(self).direction == old(self).direction,
            final(self).round_in_progress == old(self).round_in_progress,
            final(self).is_waiting_for_players == old(self).is_waiting_for_players,
    {
        let mut i: usize = 0;
        while i < self.deck.cards.len()
            invariant
                i <= self.deck.cards@.len(),
                self.deck.cards@.len() == old(self).deck.cards@.len(),
                forall|j: int| 0 <= j < i ==> #[trigger] self.deck.cards@[j] == reset_card(old(self).deck.cards@[j]),
                forall|j: int| i <= j < self.deck.cards@.len() ==> #[trigger] self.deck.cards@[j] == old(self).deck.cards@[j],
                self.discard_pile == old(self).discard_pile,
                self.game_player_pool == old(self).game_player_pool,
                self.id == old(self).id,
                self.player_to_play == old(self).player_to_play,
                self.direction == old(self).direction,
                self.round_in_progress == old(self).round_in_progress,
                self.is_waiting_for_players == old(self).is_waiting_for_players,
            decreases self.deck.cards@.len() - i,
        {
            let c = self.deck.cards[i];
            if c.value.is_wild() {
                self.deck.cards.set(i, Card { id: c.id, color: Color::Wild, value: c.value });
            }
            i = i + 1;
        }
        assert(self.deck.cards@ =~= reset_wilds(old(self).deck.cards@));
    }

    /// Moves the discard pile, all but its top, into the deck, resets the
    /// color of its wilds, and shuffles the deck.
    pub fn shuffle_discard_into_deck(&mut self)
        requires
            old(self).discard_pile@.len() > 0,
        ensures
            final(self).discard_pile@ == seq![old(self).top()],
            final(self).deck.cards@.to_multiset() == reset_wilds(
                old(self).deck.cards@ + old(self).discard_pile@.drop_last(),
            ).to_multiset(),
            final(self).deck.cards@.len() == drawable(*old(self)),
            final(self).total_cards() == old(self).total_cards(),
            ids_of(final(self).deck.cards@ + final(self).discard_pile@).to_multiset() == ids_of(
                old(self).deck.cards@ + old(self).discard_pile@,
            ).to_multiset(),
            final(self).game_player_pool == old(self).game_player_pool,
            final(self).id == old(self).id,
            final(self).player_to_play == old(self).player_to_play,
            final(self).direction == old(self).direction,
            final(self).round_in_progress == old(self).round_in_progress,
            final(self).is_waiting_for_players == old(self).is_waiting_for_players,
    {
        let top = self.discard_pile.pop();
        self.deck.cards.append(&mut self.discard_pile);
        self.reset_played_wild_cards();
        self.deck.shuffle();
        match top {
            Some(c) => self.discard_pile.push(c),
            None => {},
        }
        assert(self.discard_pile@ =~= seq![old(self).top()]);
        proof {
            broadcast use vstd::seq_lib::lemma_multiset_commutative;
            broadcast use vstd::multiset::group_multiset_axioms;
            broadcast use vstd::seq_lib::group_to_multiset_ensures;

            let rest = old(self).deck.cards@ + old(self).discard_pile@.drop_last();
            lemma_ids_perm(self.deck.cards@, reset_wilds(rest));
            lemma_reset_keeps_ids(rest);
            let top = seq![old(self).top()];
            assert(ids_of(self.deck.cards@ + self.discard_pile@) =~= ids_of(self.deck.cards@) + ids_of(top));
            assert(old(self).deck.cards@ + old(self).discard_pile@ =~= rest + top);
            assert(ids_of(rest + top) =~= ids_of(rest) + ids_of(top));
        }
    }

    /// Sends `player_id` their record and tells everyone seated which cards
    /// they played.
    pub(crate) fn announce_play(&mut self, player_id: usize, played: Vec<Card>)
        ensures
            final(self).same_table(*old(self)),
            final(self).outbox_extends(*old(self)),
            announces_play(
                *final(self),
                final(self).game_player_pool.outbox@.len() - 1,
                player_id,
                played@,
                old(self).conns(),
            ),
            final(self).game_player_pool.outbox@.len() > old(self).game_player_pool.outbox@.len(),
            forall|j: int|
                old(self).game_player_pool.outbox@.len() <= j < final(self).game_player_pool.outbox@.len()
                    ==> !((#[trigger] final(self).game_player_pool.outbox@[j]).event is YourTurn),
    {
        let ghost g0 = *self;
        match self.game_player_pool.get_player_by_id(player_id) {
            Some(p) => {
                self.update_single_player(&p);
            },
            None => {},
        }
        let ghost g1 = *self;
        self.game_player_pool.broadcast_message(Event::CardPlayed(player_id, played));
        proof {
            let o = self.game_player_pool.outbox@;
            let o1 = g1.game_player_pool.outbox@;
            assert forall|j: int|
                g0.game_player_pool.outbox@.len() <= j < o.len() implies !((#[trigger] o[j]).event is YourTurn) by {
                if j < o1.len() {
                    assert(o[j] == o.drop_last()[j]);
                    assert(o1[j] == o1.last());
                }
            }
        }
        proof {
            let o = self.game_player_pool.outbox@;
            let n = g0.game_player_pool.outbox@.len() as int;
            assert(o.take(n) =~= g1.game_player_pool.outbox@.take(n));
            assert(g1.game_player_pool.outbox@.take(n) =~= g0.game_player_pool.outbox@);
        }
    }

    /// Plays `cards` for `player_id` (see `play_error` for when it is
    /// refused). The cards leave the hand; a player who empties their hand
    /// wins and the round ends at once. Otherwise each card's effect applies
    /// in play order: Draw-Twos and Wild-Draw-Fours make the next player draw
    /// two or four each, Skips pass the turn over one player each, Reverses
    /// flip the direction; then the cards go on the discard pile and the turn
    /// advances. A refused play changes nothing.
    pub fn play_cards(&mut self, player_id: usize, cards: Vec<Card>) -> (r: Result<(), GameError>)
        requires
            old(self).wf(),
        ensures
            final(self).wf(),
            r is Ok <==> play_error(*old(self), player_id, cards@) is None,
            r is Err ==> r == Err::<(), GameError>(play_error(*old(self), player_id, cards@).unwrap())
                && *final(self) == *old(self),
            r is Ok ==> play_succeeded(*final(self), *old(self), player_id, cards@),
    {
        if cards.len() == 0 {
            return Err(GameError::InvalidPlay);
        }
        if !(self.round_in_progress && self.player_to_play == player_id) {
            return Err(GameError::NotYourTurn);
        }
        let slot = match self.game_player_pool.find(player_id) {
            Some(i) => i,
            None => {
                return Err(GameError::PlayerNotFound);
            },
        };
        let (taken, left) = match take_played_cards(&self.game_player_pool.connections[slot].player.hand, &cards) {
            Some(x) => x,
            None => {
                return Err(GameError::CardNotInHand);
            },
        };
        proof {
            lemma_take_played_len(hand_of(*self, player_id), cards@);
        }
        let played = as_played_cards(&taken, &cards);
        let top = self.discard_pile[self.discard_pile.len() - 1];
        if !is_legal_set(&played, &top) {
            return Err(GameError::InvalidPlay);
        }
        let ghost g0 = *self;
        let ghost c0 = self.conns();
        let k = played.len();
        let v = played[0].value;
        let wins = left.len() == 0 && !self.game_player_pool.connections[slot].player.is_spectator;
        let score: u64 = if wins {
            self.score_for(slot)
        } else {
            0
        };
        self.set_hand_at(slot, left);
        proof {
            let c1 = self.conns();
            lemma_hands_total_update(c0, slot as int, c1[slot as int]);
            assert(c0.update(slot as int, c1[slot as int]) =~= c1);
            assert(same_seating(c1, c0));
            crate::turns::lemma_seating_frame(c1, c0);
            assert forall|a: int, b: int|
                0 <= a < c1.len() && 0 <= b < c1.len() && #[trigger] c1[a].player.id == #[trigger] c1[b].player.id
                    implies a == b by {
                assert(c0[a].player.id == c1[a].player.id);
                assert(c0[b].player.id == c1[b].player.id);
            }
        }
        if wins {
            let ghost g1 = *self;
            self.announce_play(player_id, copy_cards(&played));
            let ghost j = self.game_player_pool.outbox@.len() - 1;
            let ghost g2 = *self;
            self.game_player_pool.broadcast_message(Event::WinnerFound(player_id, score));
            let ghost g3 = *self;
            self.end_round();
            proof {
                lemma_outbox_extends_refl(g0);
                assert(g1.outbox_extends(g0));
                lemma_outbox_extends_trans(g2, g1, g0);
                assert(g3.outbox_extends(g2)) by {
                    let n = g2.game_player_pool.outbox@.len() as int;
                    assert(g3.game_player_pool.outbox@.take(n) =~= g2.game_player_pool.outbox@);
                }
                lemma_outbox_extends_trans(g3, g2, g0);
                assert(self.game_player_pool.outbox == g3.game_player_pool.outbox);
                lemma_outbox_kept(g3, g2, j);
                assert(pool_ids(g1.conns()) =~= pool_ids(c0));
                assert(announces_play(*self, j, player_id, played@, c0));
                let w = g3.game_player_pool.outbox@.len() - 1;
                assert(self.game_player_pool.outbox@[w].event == Event::WinnerFound(player_id, score));
                let o = self.game_player_pool.outbox@;
                assert(j == o.len() - 2);
                assert forall|x: int| g0.game_player_pool.outbox@.len() <= x < o.len() implies !((#[trigger] o[x]).event is YourTurn) by {
                    if x < o.len() - 1 {
                        assert(o[x] == g2.game_player_pool.outbox@[x]);
                    }
                }
                lemma_hands_total_empty(self.conns());
            }
            return Ok(());
        }
        let ghost g1 = *self;
        let ghost c1 = self.conns();
        proof {
            lemma_outbox_extends_refl(g0);
            assert(g1.outbox_extends(g0));
            assert(drawable(g1) == drawable(g0));
            assert(g1.total_cards() + k == g0.total_cards());
            crate::playerpool::lemma_slot_of(c0, player_id);
            let t = next_eligible(c0, player_id, g0.direction as int);
            lemma_next_is_seated(c0, player_id, g0.direction as int);
            if holds_player(c0, t) {
                crate::playerpool::lemma_slot_of(c0, t);
                crate::playerpool::lemma_slot_of_unique(c1, slot_of(c0, t));
            }
        }
        self.apply_effects(v, k);
        let ghost g2 = *self;
        proof {
            lemma_advance_frame(c1, c0, player_id, self.direction as int, k as nat);
            crate::turns::lemma_seating_frame(self.conns(), c0);
        }
        let mut on_pile = copy_cards(&played);
        self.discard_pile.append(&mut on_pile);
        let ghost g3 = *self;
        self.announce_play(player_id, played);
        let ghost j = self.game_player_pool.outbox@.len() - 1;
        let ghost g4 = *self;
        self.next_turn();
        proof {
            assert(g2.outbox_extends(g1)) by {
                lemma_outbox_extends_refl(g1);
            }
            assert(g3.outbox_extends(g2)) by {
                lemma_outbox_extends_refl(g2);
            }
            lemma_outbox_extends_trans(g2, g1, g0);
            lemma_outbox_extends_trans(g3, g2, g0);
            lemma_outbox_extends_trans(g4, g3, g0);
            lemma_outbox_extends_trans(*self, g4, g0);
            assert(pool_ids(g3.conns()) =~= pool_ids(c0));
            lemma_outbox_kept(*self, g4, j);
            assert(announces_play(*self, j, player_id, played@, c0));
            crate::turns::lemma_seating_frame(self.conns(), c0);
            if penalty(v, k as int) <= g0.deck.cards@.len() {
                assert(self.discard_pile@ =~= g0.discard_pile@ + played@);
            } else {
                assert(self.discard_pile@ =~= seq![g0.top()] + played@);
            }
            assert(g2.total_cards() == g1.total_cards());
        }
        Ok(())
    }

    /// Passes the turn over `k` players in the current direction.
    pub(crate) fn pass_over(&mut self, k: usize)
        ensures
            *final(self) == (GameState { player_to_play: final(self).player_to_play, ..*old(self) }),
            final(self).player_to_play == advance(
                old(self).conns(),
                old(self).player_to_play,
                old(self).direction as int,
                k as nat,
            ),
    {
        let mut s: usize = 0;
        while s < k
            invariant
                s <= k,
                *self == (GameState { player_to_play: self.player_to_play, ..*old(self) }),
                self.player_to_play == advance(old(self).conns(), old(self).player_to_play, old(self).direction as int, s as nat),
            decreases k - s,
        {
            self.player_to_play = self.get_next_player_id();
            s = s + 1;
        }
    }

    /// Applies the effects of `k` cards of value `v` played by the player to
    /// play, before the turn advances: the next player draws two per
    /// Draw-Two and four per Wild-Draw-Four; each Skip passes over one
    /// player; each Reverse flips the direction and, when only two players
    /// take turns, passes over one player as a Skip does.
    pub(crate) fn apply_effects(&mut self, v: Value, k: usize)
        requires
            old(self).wf(),
            k >= 1,
            holds_player(old(self).conns(), old(self).player_to_play),
        ensures
            final(self).wf(),
            final(self).id == old(self).id,
            final(self).round_in_progress == old(self).round_in_progress,
            final(self).is_waiting_for_players == old(self).is_waiting_for_players,
            final(self).top() == old(self).top(),
            final(self).total_cards() == old(self).total_cards(),
            same_seating(final(self).conns(), old(self).conns()),
            final(self).game_player_pool.outbox == old(self).game_player_pool.outbox,
            final(self).direction == direction_after(v, k as int, old(self).direction as int),
            final(self).player_to_play == turn_after_effects(
                old(self).conns(),
                old(self).player_to_play,
                v,
                k as int,
                final(self).direction as int,
            ),
            ({
                let c1 = old(self).conns();
                let c = final(self).conns();
                let pen = penalty(v, k as int);
                let d0 = old(self).deck.cards@;
                let len = d0.len() as int;
                let t = next_eligible(c1, old(self).player_to_play, old(self).direction as int);
                let ti = slot_of(c1, t);
                let m = if pen <= drawable(*old(self)) {
                    pen
                } else {
                    drawable(*old(self))
                };
                &&& pen <= len ==> final(self).deck.cards@ == d0.take(len - pen) && final(self).discard_pile
                    == old(self).discard_pile
                &&& pen > len ==> final(self).discard_pile@ == seq![old(self).top()]
                &&& pen == 0 ==> c == c1
                &&& pen > 0 ==> {
                    &&& holds_player(c1, t)
                    &&& forall|j: int| 0 <= j < c1.len() && j != ti ==> #[trigger] c[j] == c1[j]
                    &&& c[ti].player.hand@.len() == c1[ti].player.hand@.len() + m
                    &&& c[ti].player.hand@.take(c1[ti].player.hand@.len() as int) == c1[ti].player.hand@
                    &&& pen <= len ==> c[ti].player.hand@ == c1[ti].player.hand@ + d0.subrange(len - pen, len).reverse()
                    &&& pen > len ==> c[ti].player.hand@.subrange(
                        c1[ti].player.hand@.len() as int,
                        c[ti].player.hand@.len() as int,
                    ).to_multiset().add(final(self).deck.cards@.to_multiset()) == d0.to_multiset().add(
                        reset_wilds(old(self).discard_pile@.drop_last()).to_multiset(),
                    )
                }
            }),
    {
        let ghost g1 = *self;
        if matches!(v, Value::DrawTwo) || matches!(v, Value::WildDrawFour) {
            let per: usize = if matches!(v, Value::DrawTwo) {
                2
            } else {
                4
            };
            let count: usize = if k <= usize::MAX / per {
                k * per
            } else {
                usize::MAX
            };
            proof {
                let kk = k as int;
                let pp = per as int;
                assert(kk <= (usize::MAX as int) / pp <==> pp * kk <= usize::MAX as int) by (nonlinear_arith)
                    requires
                        pp == 2 || pp == 4,
                        kk >= 0,
                ;
                assert(count == penalty(v, k as int));
            }
            let target = self.get_next_player_id();
            proof {
                lemma_next_is_seated(self.conns(), self.player_to_play, self.direction as int);
                assert(holds_player(self.conns(), target));
                crate::playerpool::lemma_slot_of(self.conns(), target);
            }
            let r = self.draw_cards(target, count, false);
            proof {
                if r.is_err() {
                    broadcast use vstd::seq_lib::group_to_multiset_ensures;
                    broadcast use vstd::multiset::group_multiset_axioms;

                    assert(g1.discard_pile@ =~= seq![g1.top()]);
                    let h = self.conns()[slot_of(g1.conns(), target)].player.hand@;
                    assert(h.subrange(h.len() as int, h.len() as int) =~= Seq::<Card>::empty());
                    assert(g1.discard_pile@.drop_last() =~= Seq::<Card>::empty());
                    assert(reset_wilds(g1.discard_pile@.drop_last()) =~= Seq::<Card>::empty());
                    assert(g1.deck.cards@ =~= Seq::<Card>::empty());
                    assert(Seq::<Card>::empty().to_multiset().add(Seq::<Card>::empty().to_multiset())
                        =~= Seq::<Card>::empty().to_multiset().add(Seq::<Card>::empty().to_multiset()));
                }
            }
        } else if matches!(v, Value::Skip) {
            self.pass_over(k);
        } else if matches!(v, Value::Reverse) {
            let mut s: usize = 0;
            while s < k
                invariant
                    s <= k,
                    *self == (GameState { direction: self.direction, ..g1 }),
                    self.direction as int == if s % 2 == 1 {
                        -(g1.direction as int)
                    } else {
                        g1.direction as int
                    },
                    g1.direction == 1 || g1.direction == -1,
                decreases k - s,
            {
                self.direction = -self.direction;
                s = s + 1;
            }
            let cycle = crate::turns::eligible_ids(&self.game_player_pool.connections);
            if cycle.len() == 2 {
                self.pass_over(k);
            }
        }
    }

    /// The player to play draws one card, the discard pile being reshuffled
    /// into the deck first when the deck is empty; then the turn passes.
    /// A refused draw changes nothing.
    pub fn draw_card(&mut self, player_id: usize) -> (r: Result<(), GameError>)
        requires
            old(self).wf(),
        ensures
            final(self).wf(),
            r is Ok <==> draw_error(*old(self), player_id) is None,
            r is Err ==> r == Err::<(), GameError>(draw_error(*old(self), player_id).unwrap())
                && *final(self) == *old(self),
            r is Ok ==> drew_own(*final(self), *old(self), player_id),
    {
        if !(self.round_in_progress && self.player_to_play == player_id) {
            return Err(GameError::NotYourTurn);
        }
        if self.game_player_pool.find(player_id).is_none() {
            return Err(GameError::PlayerNotFound);
        }
        if self.deck.is_empty() && self.discard_pile.len() <= 1 {
            return Err(GameError::DeckEmpty);
        }
        let ghost g0 = *self;
        let _ = self.draw_cards(player_id, 1, true);
        proof {
            crate::turns::lemma_seating_frame(self.conns(), g0.conns());
            let c0 = g0.conns();
            let c = self.conns();
            let i = slot_of(c0, player_id);
            let h = c[i].player.hand@;
            let h0 = c0[i].player.hand@;
            let d0 = g0.deck.cards@;
            if d0.len() > 0 {
                assert(d0.subrange(d0.len() - 1, d0.len() as int).reverse() =~= seq![d0.last()]);
                assert(h.subrange(h0.len() as int, h.len() as int) == seq![d0.last()]);
                assert(h =~= h0.push(d0.last())) by {
                    assert(h[h0.len() as int] == h.subrange(h0.len() as int, h.len() as int)[0]);
                    assert forall|x: int| 0 <= x < h0.len() implies h[x] == h0[x] by {
                        assert(h.take(h0.len() as int)[x] == h[x]);
                    }
                }
                assert(d0.take(d0.len() - 1) =~= d0.drop_last());
            }
        }
        Ok(())
    }

    /// Draws up to `count` cards into `player_id`'s hand from the top of the
    /// deck, reshuffling the discard pile into the deck whenever the deck runs
    /// out; fewer cards arrive only when deck and discard pile (below its top)
    /// are exhausted. With `advance_turn` this is the participant's own draw:
    /// it must be their turn, and the turn then passes. See `draw_cards_error`
    /// for when it is refused; a refused draw changes nothing.
    pub fn draw_cards(&mut self, player_id: usize, count: usize, advance_turn: bool) -> (r: Result<(), GameError>)
        requires
            old(self).wf(),
        ensures
            final(self).wf(),
            r is Ok <==> draw_cards_error(*old(self), player_id, count, advance_turn) is None,
            r is Err ==> r == Err::<(), GameError>(
                draw_cards_error(*old(self), player_id, count, advance_turn).unwrap(),
            ) && *final(self) == *old(self),
            r is Ok ==> {
                let c0 = old(self).conns();
                let c1 = final(self).conns();
                let i = slot_of(c0, player_id);
                let h0 = c0[i].player.hand@.len() as int;
                let h1 = c1[i].player.hand@.len() as int;
                let drawn = c1[i].player.hand@.subrange(h0, h1);
                let d0 = old(self).deck.cards@;
                let len = d0.len() as int;
                let m = if count <= drawable(*old(self)) {
                    count as int
                } else {
                    drawable(*old(self))
                };
                &&& same_seating(c1, c0)
                &&& h1 == h0 + m
                &&& c1[i].player.hand@.take(h0) == c0[i].player.hand@
                &&& forall|j: int| 0 <= j < c0.len() && j != i ==> #[trigger] c1[j] == c0[j]
                &&& count <= len ==> {
                    &&& drawn == d0.subrange(len - count, len).reverse()
                    &&& final(self).deck.cards@ == d0.take(len - count)
                    &&& final(self).discard_pile == old(self).discard_pile
                }
                &&& count > len ==> {
                    &&& final(self).discard_pile@ == seq![old(self).top()]
                    &&& drawn.to_multiset().add(final(self).deck.cards@.to_multiset()) == d0.to_multiset().add(
                        reset_wilds(old(self).discard_pile@.drop_last()).to_multiset(),
                    )
                    &&& ids_of(drawn + final(self).deck.cards@).to_multiset() == ids_of(
                        d0 + old(self).discard_pile@.drop_last(),
                    ).to_multiset()
                }
                &&& final(self).total_cards() == old(self).total_cards()
                &&& final(self).top() == old(self).top()
                &&& final(self).id == old(self).id
                &&& final(self).direction == old(self).direction
                &&& final(self).round_in_progress == old(self).round_in_progress
                &&& final(self).is_waiting_for_players == old(self).is_waiting_for_players
                &&& final(self).outbox_extends(*old(self))
                &&& !advance_turn ==> final(self).player_to_play == old(self).player_to_play
                    && final(self).game_player_pool.outbox == old(self).game_player_pool.outbox
                &&& advance_turn ==> {
                    let o = final(self).game_player_pool.outbox@;
                    &&& final(self).player_to_play == old(self).next_player_spec()
                    &&& eligible(c0).len() > 0 ==> o.last().event == Event::YourTurn(final(self).player_to_play)
                        && o.last().recipients@ == seq![final(self).player_to_play]
                }
            },
    {
        if advance_turn && !(self.round_in_progress && self.player_to_play == player_id) {
            return Err(GameError::NotYourTurn);
        }
        let slot = match self.game_player_pool.find(player_id) {
            Some(i) => i,
            None => {
                return Err(GameError::PlayerNotFound);
            },
        };
        if count > 0 && self.deck.is_empty() && self.discard_pile.len() <= 1 {
            return Err(GameError::DeckEmpty);
        }
        let ghost g0 = *self;
        let ghost d0 = self.deck.cards@;
        let ghost p0 = self.discard_pile@;
        let ghost len = d0.len() as int;
        let ghost avail: int = drawable(*self);
        let ghost mut resh: bool = false;
        let mut drawn: Vec<Card> = Vec::new();
        let mut t: usize = 0;
        proof {
            broadcast use vstd::seq_lib::group_to_multiset_ensures;

            assert(drawn@.to_multiset().add(self.deck.cards@.to_multiset()) =~= d0.to_multiset().add(
                Multiset::empty(),
            ));
            assert(d0.take(len) =~= d0);
            assert(d0.subrange(len, len).reverse() =~= drawn@);
        }
        while t < count
            invariant
                t <= count,
                self.wf(),
                self.game_player_pool == g0.game_player_pool,
                self.id == g0.id,
                self.player_to_play == g0.player_to_play,
                self.direction == g0.direction,
                self.round_in_progress == g0.round_in_progress,
                self.is_waiting_for_players == g0.is_waiting_for_players,
                self.top() == g0.top(),
                avail == drawable(g0),
                d0 == g0.deck.cards@,
                p0 == g0.discard_pile@,
                len == d0.len(),
                drawn@.len() == if t <= avail {
                    t as int
                } else {
                    avail
                },
                drawable(*self) == avail - drawn@.len(),
                !resh ==> self.discard_pile == g0.discard_pile && self.deck.cards@ == d0.take(len - drawn@.len())
                    && drawn@ == d0.subrange(len - drawn@.len(), len).reverse(),
                resh ==> self.discard_pile@ == seq![g0.top()] && len < count,
                !resh && drawn@.len() < t ==> p0.len() <= 1,
                drawn@.to_multiset().add(self.deck.cards@.to_multiset()) == d0.to_multiset().add(
                    if resh {
                        reset_wilds(p0.drop_last()).to_multiset()
                    } else {
                        Multiset::empty()
                    },
                ),
            decreases count - t,
        {
            if self.deck.is_empty() && self.discard_pile.len() > 1 {
                proof {
                    broadcast use vstd::seq_lib::group_to_multiset_ensures;

                    assert(!resh);
                    assert(d0.take(len - drawn@.len()).len() == 0);
                    assert(d0.subrange(0, len) =~= d0);
                    d0.lemma_reverse_to_multiset();
                }
                self.shuffle_discard_into_deck();
                proof {
                    broadcast use vstd::seq_lib::group_to_multiset_ensures;

                    assert(Seq::<Card>::empty() + p0.drop_last() =~= p0.drop_last());
                    assert(g0.deck.cards@.take(0) =~= Seq::<Card>::empty());
                    resh = true;
                    assert(drawn@.to_multiset().add(self.deck.cards@.to_multiset()) =~= d0.to_multiset().add(
                        reset_wilds(p0.drop_last()).to_multiset(),
                    ));
                }
            }
            let ghost before = self.deck.cards@;
            let ghost drawn_before = drawn@;
            match self.deck.draw() {
                Some(c) => {
                    drawn.push(c);
                    proof {
                        broadcast use vstd::seq_lib::group_to_multiset_ensures;

                        assert(before =~= self.deck.cards@.push(c));
                        assert(drawn@ =~= drawn_before.push(c));
                        let extra = if resh {
                            reset_wilds(p0.drop_last()).to_multiset()
                        } else {
                            Multiset::empty()
                        };
                        assert(drawn@.to_multiset().add(self.deck.cards@.to_multiset()) =~= d0.to_multiset().add(extra));
                        if !resh {
                            let n = drawn_before.len() as int;
                            assert(self.deck.cards@ =~= d0.take(len - drawn@.len()));
                            assert(drawn@ =~= d0.subrange(len - drawn@.len(), len).reverse());
                        }
                    }
                },
                None => {},
            }
            t = t + 1;
        }
        let mut hand = copy_cards(&self.game_player_pool.connections[slot].player.hand);
        let ghost old_hand = hand@;
        let ghost drawn_seq = drawn@;
        let ghost c_mid = self.conns();
        hand.append(&mut drawn);
        proof {
            assert(hand@.take(old_hand.len() as int) =~= old_hand);
            assert(hand@.subrange(old_hand.len() as int, hand@.len() as int) =~= drawn_seq);
            if count as int <= len {
                assert(!resh);
            }
        }
        self.set_hand_at(slot, hand);
        proof {
            let c1 = self.conns();
            lemma_hands_total_update(c_mid, slot as int, c1[slot as int]);
            assert(c_mid.update(slot as int, c1[slot as int]) =~= c1);
            assert(same_seating(c1, c_mid));
            crate::playerpool::lemma_slot_of_unique(c1, slot as int);
            assert forall|a: int, b: int|
                0 <= a < c1.len() && 0 <= b < c1.len() && #[trigger] c1[a].player.id == #[trigger] c1[b].player.id
                    implies a == b by {
                assert(c_mid[a].player.id == c1[a].player.id);
                assert(c_mid[b].player.id == c1[b].player.id);
            }
            crate::turns::lemma_seating_frame(c1, c_mid);
        }
        if advance_turn {
            let ghost before_turn = *self;
            self.next_turn();
            proof {
                let o = self.game_player_pool.outbox@;
                let o0 = g0.game_player_pool.outbox@;
                assert(o.take(o0.len() as int) =~= o0) by {
                    assert(before_turn.game_player_pool.outbox@ == o0);
                    assert(o.take(o0.len() as int) =~= o.take(before_turn.game_player_pool.outbox@.len() as int).take(o0.len() as int));
                }
            }
        } else {
            proof {
                let o = self.game_player_pool.outbox@;
                assert(o.take(o.len() as int) =~= o);
            }
        }
        proof {
            if count as int > len {
                broadcast use vstd::seq_lib::lemma_multiset_commutative;
                broadcast use vstd::multiset::group_multiset_axioms;

                let rest = p0.drop_last();
                let dk = self.deck.cards@;
                if !resh {
                    assert(rest =~= Seq::<Card>::empty());
                    assert(reset_wilds(rest) =~= Seq::<Card>::empty());
                }
                assert(drawn_seq.to_multiset().add(dk.to_multiset()) == d0.to_multiset().add(
                    reset_wilds(rest).to_multiset(),
                ));
                assert((drawn_seq + dk).to_multiset() =~= drawn_seq.to_multiset().add(dk.to_multiset()));
                assert((d0 + reset_wilds(rest)).to_multiset() =~= d0.to_multiset().add(
                    reset_wilds(rest).to_multiset(),
                ));
                lemma_ids_perm(drawn_seq + dk, d0 + reset_wilds(rest));
                lemma_reset_keeps_ids(rest);
                assert(ids_of(d0 + reset_wilds(rest)) =~= ids_of(d0) + ids_of(reset_wilds(rest)));
                assert(ids_of(d0 + rest) =~= ids_of(d0) + ids_of(rest));
            }
        }
        Ok(())
    }
}

/// Why `pid` may not draw `count` cards, checked in this order; `None` when
/// the draw is accepted. The turn matters only for a participant's own draw.
pub open spec fn draw_cards_error(g: GameState, pid: usize, count: usize, own_draw: bool) -> Option<GameError> {
    if own_draw && !g.is_turn_of(pid) {
        Some(GameError::NotYourTurn)
    } else if !holds_player(g.conns(), pid) {
        Some(GameError::PlayerNotFound)
    } else if count > 0 && drawable(g) <= 0 {
        Some(GameError::DeckEmpty)
    } else {
        None
    }
}

} // verus!
