//! Seating and unseating participants, and the room's participant updates.

use vstd::prelude::*;

use crate::error::GameError;
use crate::events::Event;
use crate::game_state::{
    lemma_outbox_extends_refl, lemma_outbox_extends_trans, round_started_over, GameState,
    MAX_PLAYERS,
};
use crate::player::{Player, SerializablePlayer};
use crate::playerpool::{holds_player, pool_ids, slot_of, PlayerConnection};
use crate::turns::{eligible, next_eligible, same_seating};

verus! {

/// The public list of `c`: each seat's id, name and number of cards.
pub open spec fn summaries_match(r: Seq<SerializablePlayer>, c: Seq<PlayerConnection>) -> bool {
    &&& r.len() == c.len()
    &&& forall|i: int|
        0 <= i < c.len() ==> (#[trigger] r[i]).id == c[i].player.id && r[i].name@ == c[i].player.name@
            && r[i].card_count == c[i].player.hand@.len()
}

impl GameState {
    pub fn get_player_count(&self) -> (r: usize)
        ensures
            r == self.conns().len(),
    {
        self.game_player_pool.connections.len()
    }

    /// The public records of everyone seated, in seating order.
    pub fn player_summaries(&self) -> (r: Vec<SerializablePlayer>)
        ensures
            summaries_match(r@, self.conns()),
    {
        let mut r: Vec<SerializablePlayer> = Vec::new();
        let mut i: usize = 0;
        while i < self.game_player_pool.connections.len()
            invariant
                i <= self.conns().len(),
                summaries_match(r@, self.conns().take(i as int)),
            decreases self.conns().len() - i,
        {
            r.push(self.game_player_pool.connections[i].player.to_serializable());
            i = i + 1;
        }
        assert(self.conns().take(i as int) =~= self.conns());
        r
    }

    /// Broadcasts the public list of participants.
    pub fn update_list_of_players(&mut self)
        ensures
            final(self).same_table(*old(self)),
            final(self).game_player_pool.outbox@.drop_last() == old(self).game_player_pool.outbox@,
            final(self).game_player_pool.outbox@.len() == old(self).game_player_pool.outbox@.len() + 1,
            final(self).game_player_pool.outbox@.last().recipients@ == pool_ids(old(self).conns()),
            final(self).game_player_pool.outbox@.last().event matches Event::UpdatePlayers(list)
                && summaries_match(list@, old(self).conns()),
    {
        let list = self.player_summaries();
        self.game_player_pool.broadcast_message(Event::UpdatePlayers(list));
    }

    /// The records of the non-spectators, in seating order.
    pub fn get_all_players_in_game(&self) -> (r: Vec<Player>)
        ensures
            r@.len() == eligible(self.conns()).len(),
            forall|k: int| 0 <= k < r@.len() ==> (#[trigger] r@[k]).id == eligible(self.conns())[k]
                && !r@[k].is_spectator,
    {
        let mut r: Vec<Player> = Vec::new();
        let mut i: usize = 0;
        while i < self.game_player_pool.connections.len()
            invariant
                i <= self.conns().len(),
                r@.len() == eligible(self.conns().take(i as int)).len(),
                forall|k: int| 0 <= k < r@.len() ==> (#[trigger] r@[k]).id == eligible(self.conns().take(i as int))[k]
                    && !r@[k].is_spectator,
            decreases self.conns().len() - i,
        {
            proof {
                assert(self.conns().take(i as int + 1).drop_last() =~= self.conns().take(i as int));
                assert(self.conns().take(i as int + 1).last() == self.conns()[i as int]);
            }
            if !self.game_player_pool.connections[i].player.is_spectator {
                r.push(self.game_player_pool.connections[i].player.snapshot());
            }
            i = i + 1;
        }
        assert(self.conns().take(i as int) =~= self.conns());
        r
    }

    /// Seats `player`: refused when six are seated or the id is already
    /// seated. The newcomer brings no cards and is a spectator while a round
    /// runs; the first participant of an empty room is the one to play.
    /// Everyone gets the new participant list, and a round starts when none
    /// runs and two non-spectators are seated.
    pub fn add_player(&mut self, player: Player) -> (r: Result<(), GameError>)
        requires
            old(self).wf(),
        ensures
            final(self).wf(),
            old(self).conns().len() >= MAX_PLAYERS ==> r == Err::<(), GameError>(GameError::GameFull)
                && *final(self) == *old(self),
            old(self).conns().len() < MAX_PLAYERS && holds_player(old(self).conns(), player.id) ==> r
                == Err::<(), GameError>(GameError::AlreadyInGame) && *final(self) == *old(self),
            old(self).conns().len() < MAX_PLAYERS && !holds_player(old(self).conns(), player.id) ==> {
                let c0 = old(self).conns();
                let c = final(self).conns();
                let n = c0.len() as int;
                &&& r is Ok
                &&& c.len() == n + 1
                &&& pool_ids(c) == pool_ids(c0).push(player.id)
                &&& same_seating(c.take(n), c0)
                &&& c[n].player.is_spectator == old(self).round_in_progress
                &&& final(self).outbox_extends(*old(self))
                &&& final(self).game_player_pool.outbox@.len() > old(self).game_player_pool.outbox@.len()
                &&& ({
                    let o = final(self).game_player_pool.outbox@[old(self).game_player_pool.outbox@.len() as int];
                    &&& o.recipients@ == pool_ids(c)
                    &&& o.event matches Event::UpdatePlayers(list) && list@.len() == c.len() && (forall|k: int|
                        0 <= k < n ==> (#[trigger] list@[k]).id == c0[k].player.id && list@[k].name@
                            == c0[k].player.name@ && list@[k].card_count == c0[k].player.hand@.len())
                        && list@[n].id == player.id && list@[n].name@ == player.name@ && list@[n].card_count == 0
                })
                &&& final(self).id == old(self).id
                &&& if !old(self).round_in_progress && eligible(c).len() >= 2 {
                    round_started_over(*final(self), c)
                } else {
                    &&& c.take(n) == c0
                    &&& c[n].player.name@ == player.name@
                    &&& c[n].player.current_game == player.current_game
                    &&& c[n].player.hand@.len() == 0
                    &&& final(self).round_in_progress == old(self).round_in_progress
                    &&& final(self).deck == old(self).deck
                    &&& final(self).discard_pile == old(self).discard_pile
                    &&& final(self).direction == old(self).direction
                    &&& final(self).player_to_play == if n == 0 {
                        player.id
                    } else {
                        old(self).player_to_play
                    }
                }
            },
    {
        if self.game_player_pool.connections.len() >= MAX_PLAYERS {
            return Err(GameError::GameFull);
        }
        if self.game_player_pool.find(player.id).is_some() {
            return Err(GameError::AlreadyInGame);
        }
        let ghost g0 = *self;
        let new_id = player.id;
        let mut seated = player;
        seated.is_spectator = self.round_in_progress;
        seated.hand = Vec::new();
        self.game_player_pool.register_connection(seated);
        if self.game_player_pool.connections.len() == 1 {
            self.player_to_play = new_id;
        }
        let ghost g1 = *self;
        proof {
            assert(g1.conns().drop_last() =~= g0.conns());
        }
        self.update_list_of_players();
        let ghost g2 = *self;
        self.check_and_start_round();
        proof {
            let c0 = g0.conns();
            let c = self.conns();
            let n = c0.len() as int;
            assert(g1.conns().take(n) =~= c0);
            assert(pool_ids(g1.conns()) =~= pool_ids(c0).push(player.id));
            assert(g1.wf()) by {
                assert(g1.game_player_pool.wf());
            }
            lemma_outbox_extends_refl(g0);
            assert(g1.outbox_extends(g0));
            assert(g2.outbox_extends(g1)) by {
                let m = g1.game_player_pool.outbox@.len() as int;
                assert(g2.game_player_pool.outbox@.take(m) =~= g1.game_player_pool.outbox@);
            }
            lemma_outbox_extends_trans(g2, g1, g0);
            lemma_outbox_extends_trans(*self, g2, g0);
            let n0 = g0.game_player_pool.outbox@.len() as int;
            assert(self.game_player_pool.outbox@[n0] == g2.game_player_pool.outbox@[n0]) by {
                assert(self.game_player_pool.outbox@.take(g2.game_player_pool.outbox@.len() as int)[n0]
                    == self.game_player_pool.outbox@[n0]);
            }
            assert(same_seating(c, g1.conns()));
            assert forall|k: int| 0 <= k < n implies #[trigger] g1.conns()[k] == c0[k] by {
                assert(g1.conns().take(n)[k] == g1.conns()[k]);
            }
            crate::turns::lemma_seating_frame(c, g2.conns());
            assert(pool_ids(c) =~= pool_ids(g1.conns()));
            assert(same_seating(c.take(n), c0)) by {
                assert forall|i: int| 0 <= i < n implies (#[trigger] c.take(n)[i]).player.id == c0[i].player.id
                    && c.take(n)[i].player.is_spectator == c0[i].player.is_spectator by {
                    assert(c.take(n)[i] == c[i]);
                    assert(g1.conns()[i] == c0[i]);
                }
            }
        }
        Ok(())
    }

    /// Unseats participant `player_id`. When they were the one to play, the
    /// turn first passes to the next eligible participant; with fewer than two non-spectators left the room goes
    /// back to waiting. Everyone left gets the new participant list.
    pub fn remove_player(&mut self, player_id: usize) -> (r: Result<(), GameError>)
        requires
            old(self).wf(),
        ensures
            final(self).wf(),
            !holds_player(old(self).conns(), player_id) ==> r == Err::<(), GameError>(
                GameError::PlayerNotFound,
            ) && *final(self) == *old(self),
            holds_player(old(self).conns(), player_id) ==> {
                let c0 = old(self).conns();
                let i = slot_of(c0, player_id);
                &&& r is Ok
                &&& final(self).conns() == c0.remove(i)
                &&& c0[i].player.is_spectator ==> {
                    &&& eligible(final(self).conns()) == eligible(c0)
                    &&& final(self).round_in_progress == old(self).round_in_progress
                    &&& old(self).player_to_play != player_id ==> final(self).player_to_play
                        == old(self).player_to_play
                }
                &&& !holds_player(final(self).conns(), player_id)
                &&& final(self).player_to_play == if old(self).player_to_play == player_id {
                    next_eligible(c0, player_id, old(self).direction as int)
                } else {
                    old(self).player_to_play
                }
                &&& final(self).round_in_progress == (old(self).round_in_progress && eligible(
                    final(self).conns(),
                ).len() >= 2)
                &&& (eligible(final(self).conns()).len() < 2 ==> final(self).is_waiting_for_players)
                &&& final(self).deck == old(self).deck
                &&& final(self).discard_pile == old(self).discard_pile
                &&& final(self).direction == old(self).direction
                &&& final(self).id == old(self).id
                &&& final(self).outbox_extends(*old(self))
                &&& final(self).game_player_pool.outbox@.len() == old(self).game_player_pool.outbox@.len() + 1
                &&& final(self).game_player_pool.outbox@.last().recipients@ == pool_ids(final(self).conns())
                &&& final(self).game_player_pool.outbox@.last().event matches Event::UpdatePlayers(list)
                    && summaries_match(list@, final(self).conns())
            },
    {
        let i = match self.game_player_pool.find(player_id) {
            Some(i) => i,
            None => {
                return Err(GameError::PlayerNotFound);
            },
        };
        let ghost g0 = *self;
        if self.player_to_play == player_id {
            self.player_to_play = self.get_next_player_id();
        }
        self.game_player_pool.connections.remove(i);
        proof {
            let c = self.conns();
            let c0 = g0.conns();
            assert forall|a: int, b: int|
                0 <= a < c.len() && 0 <= b < c.len() && #[trigger] c[a].player.id == #[trigger] c[b].player.id
                    implies a == b by {
                let a0 = if a < i {
                    a
                } else {
                    a + 1
                };
                let b0 = if b < i {
                    b
                } else {
                    b + 1
                };
                assert(c[a] == c0[a0]);
                assert(c[b] == c0[b0]);
            }
            crate::playerpool::lemma_slot_of_unique(c0, i as int);
            if holds_player(c, player_id) {
                let j = choose|j: int| 0 <= j < c.len() && #[trigger] c[j].player.id == player_id;
                let j0 = if j < i { j } else { j + 1 };
                assert(c[j] == c0[j0]);
            }
        }
        proof {
            crate::playerpool::lemma_slot_of_unique(g0.conns(), i as int);
            if g0.conns()[i as int].player.is_spectator {
                crate::turns::lemma_eligible_remove_spectator(g0.conns(), i as int);
            }
        }
        let remaining = crate::turns::eligible_ids(&self.game_player_pool.connections);
        if remaining.len() < 2 {
            self.round_in_progress = false;
            self.is_waiting_for_players = true;
        }
        let ghost g1 = *self;
        self.update_list_of_players();
        proof {
            lemma_outbox_extends_refl(g0);
            assert(g1.outbox_extends(g0));
            let m = g1.game_player_pool.outbox@.len() as int;
            assert(self.game_player_pool.outbox@.take(m) =~= g1.game_player_pool.outbox@);
            lemma_outbox_extends_trans(*self, g1, g0);
        }
        Ok(())
    }
}

} // verus!
