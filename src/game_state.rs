//! One room's engine: deck, discard pile, turn order, direction of play and
//! the round lifecycle.

use vstd::multiset::Multiset;
use vstd::prelude::*;

use crate::card::{can_play_on, capped, hand_points, hand_score, is_wild_value, Card, Value};
use crate::deck::{lemma_wilds_uncolored_perm, standard_deck, wilds_uncolored, Deck, DECK_SIZE};
use crate::events::{Event, GameSnapshot, Outbound};
use crate::player::{same_player, Player};
use crate::playerpool::{holds_player, pool_ids, slot_of, PlayerConnection, PlayerPool};
use crate::turns::{eligible, lemma_eligible_members, next_eligible, next_eligible_id};

verus! {

/// Most participants a room seats.
pub const MAX_PLAYERS: usize = 6;

/// Cards dealt to each non-spectator at the start of a round.
pub const HAND_SIZE: usize = 7;

/// Cards held in all hands of `c`.
pub open spec fn hands_total(c: Seq<PlayerConnection>) -> nat
    decreases c.len(),
{
    if c.len() == 0 {
        0
    } else {
        hands_total(c.drop_last()) + c.last().player.hand@.len()
    }
}

/// Points in the hands of all seats of `c` but seat `skip`.
pub open spec fn others_points(c: Seq<PlayerConnection>, skip: int) -> int
    decreases c.len(),
{
    if c.len() == 0 {
        0
    } else {
        others_points(c.drop_last(), skip) + if c.len() - 1 == skip {
            0
        } else {
            hand_points(c.last().player.hand@)
        }
    }
}

/// The cards of all hands of `c`, seat by seat.
pub open spec fn hand_cards(c: Seq<PlayerConnection>) -> Seq<Card>
    decreases c.len(),
{
    if c.len() == 0 {
        Seq::empty()
    } else {
        hand_cards(c.drop_last()) + c.last().player.hand@
    }
}

/// Every card of a room: deck, discard pile and hands.
pub open spec fn all_cards(g: GameState) -> Seq<Card> {
    g.deck.cards@ + g.discard_pile@ + hand_cards(g.conns())
}

/// Replacing one hand swaps that hand's cards in the room's hands.
pub proof fn lemma_hand_cards_update(c: Seq<PlayerConnection>, i: int, x: PlayerConnection)
    requires
        0 <= i < c.len(),
    ensures
        hand_cards(c.update(i, x)).to_multiset().add(c[i].player.hand@.to_multiset()) == hand_cards(
            c,
        ).to_multiset().add(x.player.hand@.to_multiset()),
    decreases c.len(),
{
    broadcast use vstd::seq_lib::lemma_multiset_commutative;
    broadcast use vstd::multiset::group_multiset_axioms;

    let u = c.update(i, x);
    if i == c.len() - 1 {
        assert(u.drop_last() =~= c.drop_last());
        assert(hand_cards(u) == hand_cards(c.drop_last()) + x.player.hand@);
        assert(hand_cards(c) == hand_cards(c.drop_last()) + c[i].player.hand@);
        assert(hand_cards(u).to_multiset().add(c[i].player.hand@.to_multiset()) =~= hand_cards(c).to_multiset().add(
            x.player.hand@.to_multiset(),
        ));
    } else {
        assert(u.drop_last() =~= c.drop_last().update(i, x));
        lemma_hand_cards_update(c.drop_last(), i, x);
        assert(c.drop_last()[i] == c[i]);
        assert(u.last() == c.last());
        let a = hand_cards(u.drop_last()).to_multiset();
        let b = hand_cards(c.drop_last()).to_multiset();
        let l = c.last().player.hand@.to_multiset();
        let hi = c[i].player.hand@.to_multiset();
        let xm = x.player.hand@.to_multiset();
        assert(a.add(hi) == b.add(xm));
        assert(hand_cards(u).to_multiset() =~= a.add(l));
        assert(hand_cards(c).to_multiset() =~= b.add(l));
        assert(a.add(l).add(hi) =~= a.add(hi).add(l));
        assert(b.add(xm).add(l) =~= b.add(l).add(xm));
    }
}

/// With all hands empty, the hands hold no card.
pub proof fn lemma_hand_cards_empty(c: Seq<PlayerConnection>)
    requires
        all_hands_empty(c),
    ensures
        hand_cards(c) == Seq::<Card>::empty(),
    decreases c.len(),
{
    if c.len() > 0 {
        assert(c.last() == c[c.len() - 1]);
        assert(all_hands_empty(c.drop_last())) by {
            assert forall|i: int| 0 <= i < c.drop_last().len() implies (#[trigger] c.drop_last()[i]).player.hand@.len() == 0 by {
                assert(c.drop_last()[i] == c[i]);
            }
        }
        lemma_hand_cards_empty(c.drop_last());
        assert(hand_cards(c) =~= Seq::<Card>::empty());
    }
}

/// Whether every hand of `c` is empty.
pub open spec fn all_hands_empty(c: Seq<PlayerConnection>) -> bool {
    forall|i: int| 0 <= i < c.len() ==> (#[trigger] c[i]).player.hand@.len() == 0
}

/// `c` with the hand at seat `i` replaced.
pub open spec fn with_hand(c: Seq<PlayerConnection>, i: int, hand: Vec<Card>) -> Seq<PlayerConnection> {
    c.update(i, PlayerConnection { player: Player { hand, ..c[i].player } })
}

/// Replacing one hand changes the total by the difference in size.
pub proof fn lemma_hands_total_update(c: Seq<PlayerConnection>, i: int, x: PlayerConnection)
    requires
        0 <= i < c.len(),
    ensures
        hands_total(c.update(i, x)) == hands_total(c) - c[i].player.hand@.len()
            + x.player.hand@.len(),
    decreases c.len(),
{
    let u = c.update(i, x);
    if i == c.len() - 1 {
        assert(u.drop_last() =~= c.drop_last());
    } else {
        assert(u.drop_last() =~= c.drop_last().update(i, x));
        lemma_hands_total_update(c.drop_last(), i, x);
    }
}

/// With all hands empty the total is zero.
pub proof fn lemma_hands_total_empty(c: Seq<PlayerConnection>)
    requires
        all_hands_empty(c),
    ensures
        hands_total(c) == 0,
    decreases c.len(),
{
    if c.len() > 0 {
        assert(c.last() == c[c.len() - 1]);
        assert(all_hands_empty(c.drop_last())) by {
            assert forall|i: int| 0 <= i < c.drop_last().len() implies (#[trigger] c.drop_last()[i]).player.hand@.len() == 0 by {
                assert(c.drop_last()[i] == c[i]);
            }
        }
        lemma_hands_total_empty(c.drop_last());
    }
}

/// Whether some non-spectator at seat `i` of `c` holds no card.
pub open spec fn is_winner_seat(c: Seq<PlayerConnection>, i: int) -> bool {
    0 <= i < c.len() && !c[i].player.is_spectator && c[i].player.hand@.len() == 0
}

/// The state of one room.
#[derive(Debug)]
pub struct GameState {
    pub id: usize,
    pub deck: Deck,
    pub discard_pile: Vec<Card>,
    pub player_to_play: usize,
    /// 1 for seating order, -1 for reverse.
    pub direction: i8,
    pub round_in_progress: bool,
    pub is_waiting_for_players: bool,
    pub game_player_pool: PlayerPool,
}

impl GameState {
    pub open spec fn conns(&self) -> Seq<PlayerConnection> {
        self.game_player_pool.connections@
    }

    /// The card that the next play must match.
    pub open spec fn top(&self) -> Card {
        self.discard_pile@.last()
    }

    /// Unique seats, at most six of them, a non-empty discard pile, a
    /// direction of 1 or -1, and at least two non-spectators while a round
    /// runs.
    pub open spec fn wf(&self) -> bool {
        &&& self.game_player_pool.wf()
        &&& self.conns().len() <= MAX_PLAYERS
        &&& self.discard_pile@.len() > 0
        &&& (self.direction == 1 || self.direction == -1)
        &&& self.round_in_progress ==> eligible(self.conns()).len() >= 2
    }

    /// Cards in the deck, on the discard pile and in all hands.
    pub open spec fn total_cards(&self) -> nat {
        self.deck.cards@.len() + self.discard_pile@.len() + hands_total(self.conns())
    }

    /// Whether `pid` may act now.
    pub open spec fn is_turn_of(&self, pid: usize) -> bool {
        self.round_in_progress && self.player_to_play == pid
    }

    /// The participant who plays after the current one.
    pub open spec fn next_player_spec(&self) -> usize {
        next_eligible(self.conns(), self.player_to_play, self.direction as int)
    }

    /// Everything but the outbox is as in `other`.
    pub open spec fn same_table(&self, other: GameState) -> bool {
        &&& self.id == other.id
        &&& self.deck == other.deck
        &&& self.discard_pile == other.discard_pile
        &&& self.player_to_play == other.player_to_play
        &&& self.direction == other.direction
        &&& self.round_in_progress == other.round_in_progress
        &&& self.is_waiting_for_players == other.is_waiting_for_players
        &&& self.game_player_pool.connections == other.game_player_pool.connections
    }

    /// Every event queued before the call is still queued, in order.
    pub open spec fn outbox_extends(&self, other: GameState) -> bool {
        &&& other.game_player_pool.outbox@.len() <= self.game_player_pool.outbox@.len()
        &&& self.game_player_pool.outbox@.take(other.game_player_pool.outbox@.len() as int)
            == other.game_player_pool.outbox@
    }

    /// A room with a freshly shuffled deck and one card turned up, waiting
    /// for players.
    pub fn new(id: usize, player_pool: PlayerPool) -> (g: GameState)
        requires
            player_pool.wf(),
            player_pool.connections@.len() <= MAX_PLAYERS,
        ensures
            g.wf(),
            g.id == id,
            g.player_to_play == 0,
            g.direction == 1,
            !g.round_in_progress,
            g.is_waiting_for_players,
            g.game_player_pool == player_pool,
            g.deck.cards@.len() == DECK_SIZE - 1,
            g.discard_pile@.len() == 1,
            (g.deck.cards@ + g.discard_pile@).to_multiset() == standard_deck().to_multiset(),
    {
        let mut deck = Deck::new();
        deck.shuffle();
        let ghost shuffled = deck.cards@;
        let first = deck.draw();
        let mut discard_pile: Vec<Card> = Vec::new();
        match first {
            Some(c) => discard_pile.push(c),
            None => {},
        }
        proof {
            assert(deck.cards@ + discard_pile@ =~= shuffled);
        }
        GameState {
            id,
            deck,
            discard_pile,
            player_to_play: 0,
            direction: 1,
            round_in_progress: false,
            is_waiting_for_players: true,
            game_player_pool: player_pool,
        }
    }

    /// Replaces the hand at seat `i`.
    pub(crate) fn set_hand_at(&mut self, i: usize, hand: Vec<Card>)
        requires
            i < old(self).conns().len(),
        ensures
            final(self).conns() == with_hand(old(self).conns(), i as int, hand),
            eligible(final(self).conns()) == eligible(old(self).conns()),
            final(self).game_player_pool.outbox == old(self).game_player_pool.outbox,
            final(self).id == old(self).id,
            final(self).deck == old(self).deck,
            final(self).discard_pile == old(self).discard_pile,
            final(self).player_to_play == old(self).player_to_play,
            final(self).direction == old(self).direction,
            final(self).round_in_progress == old(self).round_in_progress,
            final(self).is_waiting_for_players == old(self).is_waiting_for_players,
    {
        let mut conn = self.game_player_pool.connections.remove(i);
        conn.player.hand = hand;
        self.game_player_pool.connections.insert(i, conn);
        assert(self.conns() =~= with_hand(old(self).conns(), i as int, hand));
        proof {
            crate::turns::lemma_seating_frame(self.conns(), old(self).conns());
        }
    }

    /// Empties every hand.
    pub(crate) fn clear_hands(&mut self)
        requires
            old(self).wf(),
        ensures
            final(self).wf(),
            all_hands_empty(final(self).conns()),
            hands_total(final(self).conns()) == 0,
            hand_cards(final(self).conns()) == Seq::<Card>::empty(),
            crate::turns::same_seating(final(self).conns(), old(self).conns()),
            final(self).game_player_pool.outbox == old(self).game_player_pool.outbox,
            final(self).id == old(self).id,
            final(self).deck == old(self).deck,
            final(self).discard_pile == old(self).discard_pile,
            final(self).player_to_play == old(self).player_to_play,
            final(self).direction == old(self).direction,
            final(self).round_in_progress == old(self).round_in_progress,
            final(self).is_waiting_for_players == old(self).is_waiting_for_players,
    {
        let mut i: usize = 0;
        while i < self.game_player_pool.connections.len()
            invariant
                i <= self.conns().len(),
                self.wf(),
                crate::turns::same_seating(self.conns(), old(self).conns()),
                forall|j: int| 0 <= j < i ==> (#[trigger] self.conns()[j]).player.hand@.len() == 0,
                self.game_player_pool.outbox == old(self).game_player_pool.outbox,
                self.id == old(self).id,
                self.deck == old(self).deck,
                self.discard_pile == old(self).discard_pile,
                self.player_to_play == old(self).player_to_play,
                self.direction == old(self).direction,
                self.round_in_progress == old(self).round_in_progress,
                self.is_waiting_for_players == old(self).is_waiting_for_players,
            decreases self.conns().len() - i,
        {
            let ghost c = self.conns();
            self.set_hand_at(i, Vec::new());
            proof {
                let c1 = self.conns();
                assert forall|a: int, b: int|
                    0 <= a < c1.len() && 0 <= b < c1.len() && #[trigger] c1[a].player.id == #[trigger] c1[b].player.id
                        implies a == b by {
                    assert(c[a].player.id == c1[a].player.id);
                    assert(c[b].player.id == c1[b].player.id);
                }
            }
            i = i + 1;
        }
        proof {
            lemma_hands_total_empty(self.conns());
            lemma_hand_cards_empty(self.conns());
        }
    }

    /// A freshly shuffled deck, the first card of it turned up.
    pub(crate) fn reset_deck(&mut self)
        ensures
            final(self).deck.cards@.len() == DECK_SIZE - 1,
            final(self).discard_pile@.len() == 1,
            (final(self).deck.cards@ + final(self).discard_pile@).to_multiset() == standard_deck().to_multiset(),
            final(self).game_player_pool == old(self).game_player_pool,
            final(self).id == old(self).id,
            final(self).player_to_play == old(self).player_to_play,
            final(self).direction == old(self).direction,
            final(self).round_in_progress == old(self).round_in_progress,
            final(self).is_waiting_for_players == old(self).is_waiting_for_players,
    {
        let mut deck = Deck::new();
        deck.shuffle();
        let ghost shuffled = deck.cards@;
        let mut discard: Vec<Card> = Vec::new();
        match deck.draw() {
            Some(c) => discard.push(c),
            None => {},
        }
        proof {
            assert(deck.cards@ + discard@ =~= shuffled);
        }
        self.deck = deck;
        self.discard_pile = discard;
    }

    /// Ends the round: hands are cleared, a fresh deck is shuffled and a card
    /// turned up, and the room waits for players; the turn goes to the first
    /// non-spectator, if any.
    pub fn end_round(&mut self)
        requires
            old(self).wf(),
        ensures
            final(self).wf(),
            !final(self).round_in_progress,
            final(self).is_waiting_for_players,
            all_hands_empty(final(self).conns()),
            crate::turns::same_seating(final(self).conns(), old(self).conns()),
            final(self).total_cards() == DECK_SIZE,
            final(self).discard_pile@.len() == 1,
            (final(self).deck.cards@ + final(self).discard_pile@).to_multiset() == standard_deck().to_multiset(),
            final(self).id == old(self).id,
            final(self).direction == old(self).direction,
            final(self).game_player_pool.outbox == old(self).game_player_pool.outbox,
            eligible(old(self).conns()).len() > 0 ==> final(self).player_to_play == eligible(
                old(self).conns(),
            )[0],
            eligible(old(self).conns()).len() == 0 ==> final(self).player_to_play
                == old(self).player_to_play,
    {
        self.clear_hands();
        self.reset_deck();
        self.round_in_progress = false;
        self.is_waiting_for_players = true;
        let ids = crate::turns::eligible_ids(&self.game_player_pool.connections);
        proof {
            crate::turns::lemma_seating_frame(self.conns(), old(self).conns());
        }
        if ids.len() > 0 {
            self.player_to_play = ids[0];
        }
    }

    /// Checks for a round to start: with no round running and at least two
    /// non-spectators seated, it starts one.
    pub fn check_and_start_round(&mut self)
        requires
            old(self).wf(),
        ensures
            final(self).wf(),
            final(self).outbox_extends(*old(self)),
            (!old(self).round_in_progress && eligible(old(self).conns()).len() >= 2)
                ==> round_started(*final(self), *old(self)),
            !(!old(self).round_in_progress && eligible(old(self).conns()).len() >= 2) ==> {
                &&& final(self).same_table(*old(self))
                &&& final(self).game_player_pool.outbox == old(self).game_player_pool.outbox
            },
    {
        proof {
            lemma_outbox_extends_refl(*self);
        }
        if !self.round_in_progress {
            let ids = crate::turns::eligible_ids(&self.game_player_pool.connections);
            if ids.len() >= 2 {
                self.start_round();
            }
        }
    }

    /// Starts a round when at least two non-spectators are seated: a fresh
    /// shuffled deck, direction reset to 1, a number card turned up, seven
    /// cards to each non-spectator, and the first of them to play.
    pub fn start_round(&mut self)
        requires
            old(self).wf(),
        ensures
            final(self).wf(),
            final(self).outbox_extends(*old(self)),
            eligible(old(self).conns()).len() >= 2 ==> round_started(*final(self), *old(self)),
            eligible(old(self).conns()).len() >= 2 ==> {
                let o = final(self).game_player_pool.outbox@;
                let n0 = old(self).game_player_pool.outbox@.len() as int;
                let e = eligible(old(self).conns());
                &&& o.len() == n0 + e.len() + 2
                &&& forall|k: int|
                    0 <= k < e.len() ==> is_hand_update_for(#[trigger] o[n0 + k], final(self).conns(), e[k])
                &&& o[n0 + e.len()].event is UpdateGameState
                &&& o[n0 + e.len()].recipients@ == pool_ids(final(self).conns())
                &&& o.last().recipients@ == seq![final(self).player_to_play]
                &&& o.last().event == Event::YourTurn(final(self).player_to_play)
            },
            eligible(old(self).conns()).len() < 2 ==> final(self).same_table(*old(self))
                && final(self).game_player_pool.outbox == old(self).game_player_pool.outbox,
    {
        let ids = crate::turns::eligible_ids(&self.game_player_pool.connections);
        if ids.len() < 2 {
            proof {
                lemma_outbox_extends_refl(*self);
            }
            return;
        }
        let ghost g0 = *self;
        self.round_in_progress = true;
        self.is_waiting_for_players = false;
        self.direction = 1;
        self.clear_hands();
        self.deck = Deck::new();
        self.deck.shuffle();
        proof {
            crate::deck::lemma_shuffled_deck_has_number(self.deck.cards@);
        }
        let ghost shuffled = self.deck.cards@;
        proof {
            assert(wilds_uncolored(standard_deck()));
            lemma_wilds_uncolored_perm(standard_deck(), shuffled);
        }
        self.reset_played_wild_cards();
        proof {
            assert(self.deck.cards@ =~= shuffled);
            assert(wilds_uncolored(self.deck.cards@));
            let j = choose|j: int| 0 <= j < shuffled.len() && (#[trigger] shuffled[j]).value is Number;
            assert(self.deck.cards@[j] == crate::game_state_card_management::reset_card(shuffled[j]));
        }
        self.turn_up_number_card();
        proof {
            assert(all_cards(*self) =~= self.deck.cards@ + self.discard_pile@);
        }
        self.deal_cards();
        proof {
            crate::turns::lemma_seating_frame(self.conns(), g0.conns());
        }
        self.player_to_play = ids[0];
        let ghost before_events = *self;
        self.send_player_hands();
        let ghost after_hands = self.game_player_pool.outbox@;
        self.update_game_state();
        let ghost after_state = self.game_player_pool.outbox@;
        let ptp = self.player_to_play;
        proof {
            lemma_eligible_members(self.conns());
            let i = choose|i: int|
                0 <= i < self.conns().len() && #[trigger] self.conns()[i].player.id == #[trigger] eligible(
                    self.conns(),
                )[0] && !self.conns()[i].player.is_spectator;
            assert(self.conns()[i].player.id == ptp);
        }
        match self.game_player_pool.get_player_by_id(ptp) {
            Some(p) => self.game_player_pool.send_message(&p, Event::YourTurn(ptp)),
            None => {},
        }
        proof {
            let o = self.game_player_pool.outbox@;
            let o0 = g0.game_player_pool.outbox@;
            let n0 = o0.len() as int;
            let e = eligible(g0.conns());
            assert(before_events.game_player_pool.outbox@ == o0);
            assert(o.take(o0.len() as int) =~= o0);
            crate::turns::lemma_seating_frame(before_events.conns(), g0.conns());
            assert forall|k: int| 0 <= k < e.len() implies is_hand_update_for(
                #[trigger] o[n0 + k],
                self.conns(),
                e[k],
            ) by {
                assert(o[n0 + k] == after_state[n0 + k]);
                assert(after_state[n0 + k] == after_hands[n0 + k]);
            }
            assert(o[n0 + e.len()] == after_state[n0 + e.len()]);
            assert(pool_ids(self.conns()) =~= pool_ids(before_events.conns()));
        }
    }
}

/// `o` sends participant `id` their own record as seated in `c`, hand
/// included.
pub open spec fn is_hand_update_for(o: Outbound, c: Seq<PlayerConnection>, id: usize) -> bool {
    &&& o.recipients@ == seq![id]
    &&& o.event matches Event::UpdatePlayer(p) && p.id == id && same_player(p, c[slot_of(c, id)].player)
}

/// What a started round looks like, relative to the state before.
pub open spec fn round_started(g: GameState, g0: GameState) -> bool {
    g.id == g0.id && round_started_over(g, g0.conns())
}

/// A round has started over the seating `c0`: direction 1, a number card
/// alone on the discard pile, seven cards in each non-spectator's hand, none
/// in a spectator's, the rest in the deck, and the first non-spectator to play.
pub open spec fn round_started_over(g: GameState, c0: Seq<PlayerConnection>) -> bool {
    &&& g.round_in_progress
    &&& !g.is_waiting_for_players
    &&& g.direction == 1
    &&& crate::turns::same_seating(g.conns(), c0)
    &&& g.top().value is Number
    &&& wilds_uncolored(g.deck.cards@)
    &&& all_cards(g).to_multiset() == standard_deck().to_multiset()
    &&& g.discard_pile@.len() == 1
    &&& g.total_cards() == DECK_SIZE
    &&& forall|i: int|
        0 <= i < g.conns().len() ==> (#[trigger] g.conns()[i]).player.hand@.len() == if g.conns()[i].player.is_spectator {
            0
        } else {
            HAND_SIZE
        }
    &&& g.player_to_play == eligible(c0)[0]
}

impl GameState {

    /// Draws from the deck until a number card comes up and makes it the
    /// whole discard pile; the other cards drawn go back and the deck is
    /// shuffled.
    pub(crate) fn turn_up_number_card(&mut self)
        requires
            old(self).deck.cards@.len() == DECK_SIZE,
            exists|j: int|
                0 <= j < old(self).deck.cards@.len() && (#[trigger] old(self).deck.cards@[j]).value is Number,
            wilds_uncolored(old(self).deck.cards@),
        ensures
            wilds_uncolored(final(self).deck.cards@),
            (final(self).deck.cards@ + final(self).discard_pile@).to_multiset() == old(self).deck.cards@.to_multiset(),
            final(self).deck.cards@.len() == DECK_SIZE - 1,
            final(self).discard_pile@.len() == 1,
            final(self).top().value is Number,
            final(self).game_player_pool == old(self).game_player_pool,
            final(self).id == old(self).id,
            final(self).player_to_play == old(self).player_to_play,
            final(self).direction == old(self).direction,
            final(self).round_in_progress == old(self).round_in_progress,
            final(self).is_waiting_for_players == old(self).is_waiting_for_players,
    {
        let mut set_aside: Vec<Card> = Vec::new();
        let mut found = false;
        proof {
            broadcast use vstd::seq_lib::group_to_multiset_ensures;
            broadcast use vstd::multiset::group_multiset_axioms;

            assert(set_aside@.to_multiset() =~= Multiset::empty());
            assert(self.deck.cards@.to_multiset().add(set_aside@.to_multiset()).add(Multiset::empty())
                =~= old(self).deck.cards@.to_multiset());
        }
        while !found && !self.deck.is_empty()
            invariant
                !found ==> exists|j: int|
                    0 <= j < self.deck.cards@.len() && (#[trigger] self.deck.cards@[j]).value is Number,
                found ==> self.discard_pile@.len() == 1 && self.top().value is Number,
                wilds_uncolored(self.deck.cards@),
                wilds_uncolored(set_aside@),
                self.deck.cards@.to_multiset().add(set_aside@.to_multiset()).add(
                    if found {
                        self.discard_pile@.to_multiset()
                    } else {
                        Multiset::empty()
                    },
                ) == old(self).deck.cards@.to_multiset(),
                self.deck.cards@.len() + set_aside@.len() + (if found {
                    1int
                } else {
                    0int
                }) == DECK_SIZE,
                self.game_player_pool == old(self).game_player_pool,
                self.id == old(self).id,
                self.player_to_play == old(self).player_to_play,
                self.direction == old(self).direction,
                self.round_in_progress == old(self).round_in_progress,
                self.is_waiting_for_players == old(self).is_waiting_for_players,
            decreases self.deck.cards@.len(),
        {
            let ghost before = self.deck.cards@;
            let ghost aside_before = set_aside@;
            match self.deck.draw() {
                Some(c) => {
                    proof {
                        broadcast use vstd::seq_lib::group_to_multiset_ensures;
                        broadcast use vstd::multiset::group_multiset_axioms;

                        assert(before =~= self.deck.cards@.push(c));
                    }
                    if matches!(c.value, Value::Number(_)) {
                        let mut d: Vec<Card> = Vec::new();
                        d.push(c);
                        self.discard_pile = d;
                        found = true;
                        proof {
                            broadcast use vstd::seq_lib::group_to_multiset_ensures;
                            broadcast use vstd::multiset::group_multiset_axioms;

                            assert(self.discard_pile@ =~= Seq::<Card>::empty().push(c));
                            assert(self.deck.cards@.to_multiset().add(set_aside@.to_multiset()).add(
                                self.discard_pile@.to_multiset(),
                            ) =~= old(self).deck.cards@.to_multiset());
                        }
                    } else {
                        set_aside.push(c);
                        proof {
                            broadcast use vstd::seq_lib::group_to_multiset_ensures;
                            broadcast use vstd::multiset::group_multiset_axioms;

                            assert(set_aside@ =~= aside_before.push(c));
                            assert(self.deck.cards@.to_multiset().add(set_aside@.to_multiset()).add(
                                Multiset::empty(),
                            ) =~= old(self).deck.cards@.to_multiset());
                        }
                        proof {
                            assert(c == before[before.len() - 1]);
                            assert(set_aside@.last() == c);
                            let j = choose|j: int|
                                0 <= j < before.len() && (#[trigger] before[j]).value is Number;
                            assert(j != before.len() - 1);
                            assert(self.deck.cards@[j] == before[j]);
                        }
                    }
                },
                None => {},
            }
        }
        let ghost joined = self.deck.cards@ + set_aside@;
        proof {
            broadcast use vstd::seq_lib::lemma_multiset_commutative;
            broadcast use vstd::multiset::group_multiset_axioms;

            assert(found);
            assert(joined.to_multiset() =~= self.deck.cards@.to_multiset().add(set_aside@.to_multiset()));
        }
        self.deck.cards.append(&mut set_aside);
        proof {
            assert(self.deck.cards@ == joined);
        }
        self.deck.shuffle();
        proof {
            broadcast use vstd::seq_lib::lemma_multiset_commutative;
            broadcast use vstd::multiset::group_multiset_axioms;

            lemma_wilds_uncolored_perm(joined, self.deck.cards@);
            assert((self.deck.cards@ + self.discard_pile@).to_multiset() =~= old(self).deck.cards@.to_multiset());
        }
    }

    /// Deals each non-spectator a fresh hand of seven cards from the top of
    /// the deck, in seating order; a hand is short only when the deck runs
    /// out. Spectators' seats stay as they are.
    pub fn deal_cards(&mut self)
        requires
            old(self).wf(),
        ensures
            final(self).wf(),
            crate::turns::same_seating(final(self).conns(), old(self).conns()),
            forall|i: int|
                0 <= i < old(self).conns().len() && (#[trigger] old(self).conns()[i]).player.is_spectator
                    ==> final(self).conns()[i] == old(self).conns()[i],
            old(self).deck.cards@.len() >= HAND_SIZE * MAX_PLAYERS ==> forall|i: int|
                0 <= i < final(self).conns().len() && !(#[trigger] final(self).conns()[i]).player.is_spectator
                    ==> final(self).conns()[i].player.hand@.len() == HAND_SIZE,
            all_hands_empty(old(self).conns()) ==> final(self).total_cards() == old(self).total_cards(),
            wilds_uncolored(old(self).deck.cards@) ==> wilds_uncolored(final(self).deck.cards@),
            all_hands_empty(old(self).conns()) ==> all_cards(*final(self)).to_multiset() == all_cards(
                *old(self),
            ).to_multiset(),
            final(self).discard_pile == old(self).discard_pile,
            final(self).game_player_pool.outbox == old(self).game_player_pool.outbox,
            final(self).id == old(self).id,
            final(self).player_to_play == old(self).player_to_play,
            final(self).direction == old(self).direction,
            final(self).round_in_progress == old(self).round_in_progress,
            final(self).is_waiting_for_players == old(self).is_waiting_for_players,
    {
        let ghost c0 = self.conns();
        let ghost big = old(self).deck.cards@.len() >= HAND_SIZE * MAX_PLAYERS;
        let mut i: usize = 0;
        while i < self.game_player_pool.connections.len()
            invariant
                i <= self.conns().len(),
                c0 == old(self).conns(),
                big == (old(self).deck.cards@.len() >= HAND_SIZE * MAX_PLAYERS),
                self.wf(),
                crate::turns::same_seating(self.conns(), c0),
                self.deck.cards@.len() + 7 * i >= old(self).deck.cards@.len(),
                all_hands_empty(c0) ==> self.total_cards() == old(self).total_cards(),
                wilds_uncolored(old(self).deck.cards@) ==> wilds_uncolored(self.deck.cards@),
                all_hands_empty(c0) ==> all_cards(*self).to_multiset() == all_cards(*old(self)).to_multiset(),
                forall|j: int|
                    0 <= j < i && (#[trigger] self.conns()[j]).player.is_spectator ==> self.conns()[j] == c0[j],
                big ==> forall|j: int|
                    0 <= j < i && !(#[trigger] self.conns()[j]).player.is_spectator ==> self.conns()[j].player.hand@.len()
                        == HAND_SIZE,
                forall|j: int| i <= j < self.conns().len() ==> #[trigger] self.conns()[j] == c0[j],
                self.discard_pile == old(self).discard_pile,
                self.game_player_pool.outbox == old(self).game_player_pool.outbox,
                self.id == old(self).id,
                self.player_to_play == old(self).player_to_play,
                self.direction == old(self).direction,
                self.round_in_progress == old(self).round_in_progress,
                self.is_waiting_for_players == old(self).is_waiting_for_players,
            decreases self.conns().len() - i,
        {
            if !self.game_player_pool.connections[i].player.is_spectator {
                let ghost c = self.conns();
                let ghost deck_before = self.deck.cards@;
                let hand = self.deck.draw_n(HAND_SIZE);
                proof {
                    if wilds_uncolored(deck_before) {
                        assert forall|x: int| 0 <= x < self.deck.cards@.len() && is_wild_value((#[trigger] self.deck.cards@[x]).value) implies self.deck.cards@[x].color == crate::card::Color::Wild by {
                            assert(self.deck.cards@[x] == deck_before[x]);
                        }
                    }
                }
                self.set_hand_at(i, hand);
                proof {
                    let c1 = self.conns();
                    lemma_hands_total_update(c, i as int, c1[i as int]);
                    assert(c.update(i as int, c1[i as int]) =~= c1);
                    assert forall|a: int, b: int|
                        0 <= a < c1.len() && 0 <= b < c1.len() && #[trigger] c1[a].player.id
                            == #[trigger] c1[b].player.id implies a == b by {
                        assert(c[a].player.id == c1[a].player.id);
                        assert(c[b].player.id == c1[b].player.id);
                    }
                    if all_hands_empty(c0) {
                        broadcast use vstd::seq_lib::lemma_multiset_commutative;
                        broadcast use vstd::multiset::group_multiset_axioms;
                        broadcast use vstd::seq_lib::group_to_multiset_ensures;

                        assert(c[i as int].player.hand@.len() == 0);
                        assert(c[i as int].player.hand@ =~= Seq::<Card>::empty());
                        lemma_hand_cards_update(c, i as int, c1[i as int]);
                        let d = deck_before;
                        let len = d.len() as int;
                        let m = len - self.deck.cards@.len();
                        let tail = d.subrange(len - m, len);
                        assert(d =~= self.deck.cards@ + tail);
                        tail.lemma_reverse_to_multiset();
                        let a = self.deck.cards@.to_multiset();
                        let t = tail.to_multiset();
                        let pm = self.discard_pile@.to_multiset();
                        let h0 = hand_cards(c).to_multiset();
                        let h1 = hand_cards(c1).to_multiset();
                        assert(h1 =~= h0.add(t));
                        assert(all_cards(*self).to_multiset() =~= a.add(pm).add(h1));
                        assert(d.to_multiset() =~= a.add(t));
                    }
                }
            }
            i = i + 1;
        }
    }

    /// Sends each non-spectator their private record, in seating order.
    pub fn send_player_hands(&mut self)
        requires
            old(self).wf(),
        ensures
            final(self).same_table(*old(self)),
            final(self).outbox_extends(*old(self)),
            ({
                let n0 = old(self).game_player_pool.outbox@.len() as int;
                let o = final(self).game_player_pool.outbox@;
                let e = eligible(old(self).conns());
                &&& o.len() == n0 + e.len()
                &&& forall|k: int|
                    0 <= k < e.len() ==> is_hand_update_for(#[trigger] o[n0 + k], old(self).conns(), e[k])
            }),
    {
        let ghost n0 = self.game_player_pool.outbox@.len() as int;
        proof {
            lemma_outbox_extends_refl(*self);
        }
        let mut i: usize = 0;
        while i < self.game_player_pool.connections.len()
            invariant
                i <= self.conns().len(),
                self.same_table(*old(self)),
                self.outbox_extends(*old(self)),
                n0 == old(self).game_player_pool.outbox@.len(),
                old(self).wf(),
                self.game_player_pool.outbox@.len() == n0 + eligible(self.conns().take(i as int)).len(),
                forall|k: int|
                    0 <= k < eligible(self.conns().take(i as int)).len() ==> is_hand_update_for(
                        #[trigger] self.game_player_pool.outbox@[n0 + k],
                        self.conns(),
                        eligible(self.conns().take(i as int))[k],
                    ),
            decreases self.conns().len() - i,
        {
            let ghost c = self.conns();
            proof {
                assert(c.take(i as int + 1).drop_last() =~= c.take(i as int));
                assert(c.take(i as int + 1).last() == c[i as int]);
            }
            if !self.game_player_pool.connections[i].player.is_spectator {
                let p = self.game_player_pool.connections[i].player.snapshot();
                let ghost o0 = self.game_player_pool.outbox@;
                proof {
                    assert(holds_player(c, p.id)) by {
                        assert(c[i as int].player.id == p.id);
                    }
                    crate::playerpool::lemma_slot_of_unique(c, i as int);
                }
                self.update_single_player(&p);
                proof {
                    let o = self.game_player_pool.outbox@;
                    let n = old(self).game_player_pool.outbox@.len() as int;
                    assert(o.take(n) =~= o0.take(n));
                    assert forall|k: int| 0 <= k < o0.len() implies o[k] == o0[k] by {
                        assert(o.drop_last()[k] == o[k]);
                    }
                }
            }
            i = i + 1;
        }
        proof {
            assert(self.conns().take(i as int) =~= self.conns());
        }
    }

    /// The round's score for the player at seat `skip`: the points left in
    /// everyone else's hand, capped at `u64::MAX`.
    pub fn score_for(&self, skip: usize) -> (r: u64)
        ensures
            r == capped(others_points(self.conns(), skip as int)),
    {
        let mut total: u64 = 0;
        let mut i: usize = 0;
        while i < self.game_player_pool.connections.len()
            invariant
                i <= self.conns().len(),
                total == capped(others_points(self.conns().take(i as int), skip as int)),
            decreases self.conns().len() - i,
        {
            proof {
                assert(self.conns().take(i as int + 1).drop_last() =~= self.conns().take(i as int));
                assert(self.conns().take(i as int + 1).last() == self.conns()[i as int]);
            }
            if i != skip {
                let h = hand_score(&self.game_player_pool.connections[i].player.hand);
                total = total.saturating_add(h);
            }
            i = i + 1;
        }
        assert(self.conns().take(i as int) =~= self.conns());
        total
    }

    /// The participant who plays after the current one, if any is eligible.
    pub fn get_next_player_id(&self) -> (r: usize)
        ensures
            r == self.next_player_spec(),
    {
        next_eligible_id(&self.game_player_pool.connections, self.player_to_play, self.direction)
    }

    /// The record of the participant who plays next; `None` when no seat is
    /// eligible to play.
    pub fn get_next_player(&self) -> (r: Option<Player>)
        ensures
            eligible(self.conns()).len() == 0 ==> r is None,
            r is Some ==> r->0.id == self.next_player_spec(),
            eligible(self.conns()).len() > 0 ==> r is Some && holds_player(
                self.conns(),
                self.next_player_spec(),
            ) && same_player(
                r->0,
                self.conns()[slot_of(self.conns(), self.next_player_spec())].player,
            ),
    {
        if crate::turns::eligible_ids(&self.game_player_pool.connections).len() == 0 {
            return None;
        }
        let next = self.get_next_player_id();
        proof {
            lemma_next_is_seated(self.conns(), self.player_to_play, self.direction as int);
        }
        self.game_player_pool.get_player_by_id(next)
    }

    /// The first non-spectator holding no card, if any.
    pub fn check_winner(&self) -> (r: Option<usize>)
        ensures
            r is None <==> !exists|i: int| is_winner_seat(self.conns(), i),
            r is Some ==> exists|i: int|
                is_winner_seat(self.conns(), i) && #[trigger] self.conns()[i].player.id == r->0
                    && forall|j: int| 0 <= j < i ==> !is_winner_seat(self.conns(), j),
    {
        let mut i: usize = 0;
        while i < self.game_player_pool.connections.len()
            invariant
                i <= self.conns().len(),
                forall|j: int| 0 <= j < i ==> !#[trigger] is_winner_seat(self.conns(), j),
            decreases self.conns().len() - i,
        {
            let p = &self.game_player_pool.connections[i].player;
            if p.hand.len() == 0 && !p.is_spectator {
                assert(is_winner_seat(self.conns(), i as int));
                return Some(p.id);
            }
            i = i + 1;
        }
        None
    }

    /// Whether `card` may go on the top of the discard pile.
    pub fn is_valid_play(&self, card: &Card) -> (r: bool)
        requires
            self.discard_pile@.len() > 0,
        ensures
            r == can_play_on(*card, self.top()),
    {
        let top = &self.discard_pile[self.discard_pile.len() - 1];
        card.can_play_on(top)
    }

    /// Queues `player`'s private record for that participant.
    pub fn update_single_player(&mut self, player: &Player)
        ensures
            final(self).same_table(*old(self)),
            !holds_player(old(self).conns(), player.id) ==> final(self).game_player_pool.outbox@
                == old(self).game_player_pool.outbox@,
            holds_player(old(self).conns(), player.id) ==> {
                let o = final(self).game_player_pool.outbox@;
                &&& o.len() == old(self).game_player_pool.outbox@.len() + 1
                &&& o.drop_last() == old(self).game_player_pool.outbox@
                &&& o.last().recipients@ == seq![player.id]
                &&& o.last().event matches Event::UpdatePlayer(p) && same_player(p, *player)
            },
    {
        let snapshot = player.snapshot();
        self.game_player_pool.send_message(player, Event::UpdatePlayer(snapshot));
    }

    /// Broadcasts the public state of the room.
    pub fn update_game_state(&mut self)
        requires
            old(self).discard_pile@.len() > 0,
        ensures
            final(self).same_table(*old(self)),
            final(self).game_player_pool.outbox@.drop_last() == old(self).game_player_pool.outbox@,
            final(self).game_player_pool.outbox@.len() == old(self).game_player_pool.outbox@.len() + 1,
            final(self).game_player_pool.outbox@.last().recipients@ == pool_ids(old(self).conns()),
            final(self).game_player_pool.outbox@.last().event == Event::UpdateGameState(
                GameSnapshot {
                    id: old(self).id,
                    round_in_progress: old(self).round_in_progress,
                    player_to_play: old(self).player_to_play,
                    direction: old(self).direction,
                    top_card: old(self).top(),
                    deck_size: old(self).deck.cards@.len() as usize,
                    player_count: old(self).conns().len() as usize,
                },
            ),
    {
        let snapshot = GameSnapshot {
            id: self.id,
            round_in_progress: self.round_in_progress,
            player_to_play: self.player_to_play,
            direction: self.direction,
            top_card: self.discard_pile[self.discard_pile.len() - 1],
            deck_size: self.deck.cards.len(),
            player_count: self.game_player_pool.connections.len(),
        };
        self.game_player_pool.broadcast_message(Event::UpdateGameState(snapshot));
    }

    /// Hands the turn to the next eligible participant, sends them their hand
    /// and a your-turn notice. Nothing happens when no seat is eligible.
    pub fn next_turn(&mut self)
        requires
            old(self).wf(),
        ensures
            final(self).wf(),
            final(self).player_to_play == old(self).next_player_spec(),
            final(self).outbox_extends(*old(self)),
            ({
                let g = GameState { player_to_play: final(self).player_to_play, ..*old(self) };
                final(self).same_table(g)
            }),
            eligible(old(self).conns()).len() > 0 ==> {
                let o = final(self).game_player_pool.outbox@;
                &&& o.len() == old(self).game_player_pool.outbox@.len() + 2
                &&& is_hand_update_for(o[o.len() - 2], final(self).conns(), final(self).player_to_play)
                &&& o.last().recipients@ == seq![final(self).player_to_play]
                &&& o.last().event == Event::YourTurn(final(self).player_to_play)
            },
    {
        let next = self.get_next_player();
        match next {
            Some(p) => {
                let ghost before = self.game_player_pool.outbox@;
                self.update_single_player(&p);
                self.player_to_play = p.id;
                let ghost mid = self.game_player_pool.outbox@;
                self.game_player_pool.send_message(&p, Event::YourTurn(p.id));
                proof {
                    let o = self.game_player_pool.outbox@;
                    assert(o.take(before.len() as int) =~= before) by {
                        assert(mid.take(before.len() as int) =~= before);
                    }
                    assert(o[o.len() - 2] == mid.last());
                }
            },
            None => {
                proof {
                    assert(self.game_player_pool.outbox@.take(
                        self.game_player_pool.outbox@.len() as int,
                    ) =~= self.game_player_pool.outbox@);
                }
            },
        }
    }
}

/// A state's outbox extends itself.
pub proof fn lemma_outbox_extends_refl(g: GameState)
    ensures
        g.outbox_extends(g),
{
    assert(g.game_player_pool.outbox@.take(g.game_player_pool.outbox@.len() as int)
        =~= g.game_player_pool.outbox@);
}

/// Extending the outbox is transitive.
pub proof fn lemma_outbox_extends_trans(a: GameState, b: GameState, c: GameState)
    requires
        a.outbox_extends(b),
        b.outbox_extends(c),
    ensures
        a.outbox_extends(c),
{
    let n = c.game_player_pool.outbox@.len() as int;
    assert(a.game_player_pool.outbox@.take(n) =~= a.game_player_pool.outbox@.take(
        b.game_player_pool.outbox@.len() as int,
    ).take(n));
}

/// When anyone is eligible, the next player is seated.
pub proof fn lemma_next_is_seated(c: Seq<PlayerConnection>, cur: usize, dir: int)
    ensures
        eligible(c).len() > 0 ==> holds_player(c, next_eligible(c, cur, dir)),
{
    lemma_eligible_members(c);
    let e = eligible(c);
    if e.len() > 0 {
        let n = next_eligible(c, cur, dir);
        crate::turns::lemma_next_position(c, cur, dir);
        let k = choose|k: int| 0 <= k < e.len() && e[k] == n;
        let i = choose|i: int|
            0 <= i < c.len() && #[trigger] c[i].player.id == #[trigger] e[k] && !c[i].player.is_spectator;
        assert(c[i].player.id == n);
    }
}

} // verus!
