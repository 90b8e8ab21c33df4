//! The lobby: the table of rooms, every connected participant, and the
//! routing of participants into and out of rooms.

use vstd::prelude::*;

use crate::error::GameError;
use crate::events::{Event, GameSummary, Outbound};
use crate::game_state::{GameState, MAX_PLAYERS};
use crate::player::Player;
use crate::playerpool::{holds_player, pool_ids, slot_of, PlayerConnection, PlayerPool};

verus! {

/// Room ids strictly increase along `games`.
pub open spec fn ids_increasing(games: Seq<GameState>) -> bool {
    forall|a: int, b: int| 0 <= a < b < games.len() ==> (#[trigger] games[a]).id < (#[trigger] games[b]).id
}

/// Some room of `games` has id `id`.
pub open spec fn has_game(games: Seq<GameState>, id: usize) -> bool {
    exists|i: int| 0 <= i < games.len() && #[trigger] games[i].id == id
}

/// The position of room `id` (meaningful when it exists).
pub open spec fn game_index(games: Seq<GameState>, id: usize) -> int {
    choose|i: int| 0 <= i < games.len() && games[i].id == id
}

/// The lobby's list entry for `g`.
pub open spec fn summary_of(g: GameState) -> GameSummary {
    GameSummary { id: g.id, player_count: g.conns().len() as usize, round_in_progress: g.round_in_progress }
}

/// Ids of the connected participants who are in no room, in order.
pub open spec fn lobby_ids(c: Seq<PlayerConnection>) -> Seq<usize>
    decreases c.len(),
{
    if c.len() == 0 {
        Seq::empty()
    } else {
        let r = lobby_ids(c.drop_last());
        if c.last().player.current_game is None {
            r.push(c.last().player.id)
        } else {
            r
        }
    }
}

/// Why participant `pid` may not join room `game_id`, checked in this order;
/// `None` when the join is accepted.
pub open spec fn join_error(l: Lobby, game_id: usize, pid: usize) -> Option<GameError> {
    let c = l.player_pool.connections@;
    if !has_game(l.games@, game_id) {
        Some(GameError::GameNotFound)
    } else if !holds_player(c, pid) {
        Some(GameError::PlayerNotFound)
    } else if c[slot_of(c, pid)].player.current_game is Some || c[slot_of(c, pid)].player.is_spectator {
        Some(GameError::AlreadyInGame)
    } else {
        let room = l.games@[game_index(l.games@, game_id)];
        if room.conns().len() >= MAX_PLAYERS {
            Some(GameError::GameFull)
        } else if holds_player(room.conns(), pid) {
            Some(GameError::AlreadyInGame)
        } else {
            None
        }
    }
}

/// Messages queued in the rooms of `games`, room by room.
pub open spec fn room_messages(games: Seq<GameState>) -> Seq<Outbound>
    decreases games.len(),
{
    if games.len() == 0 {
        Seq::empty()
    } else {
        room_messages(games.drop_last()) + games.last().game_player_pool.outbox@
    }
}

/// `g` is room `g0` after participant `pid` left it: the same room without
/// that participant's seat, or unchanged when they did not sit there.
pub open spec fn left_room(g: GameState, g0: GameState, pid: usize) -> bool {
    &&& g.id == g0.id
    &&& !holds_player(g.conns(), pid)
    &&& if holds_player(g0.conns(), pid) {
        g.conns() == g0.conns().remove(slot_of(g0.conns(), pid))
    } else {
        g == g0
    }
}

/// Every room of `gs` is one of the first `upto` rooms of `gs0`, which
/// participant `pid` left.
pub open spec fn rooms_left_by(gs: Seq<GameState>, gs0: Seq<GameState>, upto: int, pid: usize) -> bool {
    forall|j: int|
        0 <= j < gs.len() ==> exists|k: int|
            0 <= k < upto && k < gs0.len() && #[trigger] gs0[k].id == (#[trigger] gs[j]).id && left_room(
                gs[j],
                gs0[k],
                pid,
            )
}

/// What an accepted join of room `game_id` by `pid` leads to, from `l0` to
/// `l`: the room seats them last, other rooms are unchanged, and their record
/// names the room.
pub open spec fn joined(l: Lobby, l0: Lobby, game_id: usize, pid: usize) -> bool {
    let gi = game_index(l0.games@, game_id);
    let c = l.player_pool.connections@;
    &&& l.games@.len() == l0.games@.len()
    &&& forall|j: int| 0 <= j < l0.games@.len() && j != gi ==> #[trigger] l.games@[j] == l0.games@[j]
    &&& l.games@[gi].id == game_id
    &&& pool_ids(l.games@[gi].conns()) == pool_ids(l0.games@[gi].conns()).push(pid)
    &&& holds_player(c, pid)
    &&& c[slot_of(c, pid)].player.current_game == Some(game_id)
    &&& pool_ids(c) == pool_ids(l0.player_pool.connections@)
}

/// With increasing ids, the room found for an id is the one at `i`.
pub proof fn lemma_game_index(games: Seq<GameState>, i: int)
    requires
        ids_increasing(games),
        0 <= i < games.len(),
    ensures
        game_index(games, games[i].id) == i,
{
    let k = game_index(games, games[i].id);
    assert(0 <= k < games.len() && games[k].id == games[i].id);
    if k < i {
        assert(games[k].id < games[i].id);
    } else if i < k {
        assert(games[i].id < games[k].id);
    }
}

/// The room table and everyone connected.
#[derive(Debug)]
pub struct Lobby {
    /// Rooms in order of creation.
    pub games: Vec<GameState>,
    /// The id the next room gets; ids start at 1 and only increase.
    pub next_game_id: usize,
    /// Every connected participant, with the room each is in.
    pub player_pool: PlayerPool,
}

impl Lobby {
    /// Rooms are well formed, their ids increase and stay below the next id,
    /// which is at least 1; the participant pool has unique ids.
    pub open spec fn wf(&self) -> bool {
        &&& self.player_pool.wf()
        &&& forall|i: int| 0 <= i < self.games@.len() ==> (#[trigger] self.games@[i]).wf()
        &&& ids_increasing(self.games@)
        &&& forall|i: int| 0 <= i < self.games@.len() ==> (#[trigger] self.games@[i]).id < self.next_game_id
        &&& self.next_game_id >= 1
    }

    pub fn new(player_pool: PlayerPool) -> (l: Lobby)
        requires
            player_pool.wf(),
        ensures
            l.wf(),
            l.games@.len() == 0,
            l.next_game_id == 1,
            l.player_pool == player_pool,
    {
        Lobby { games: Vec::new(), next_game_id: 1, player_pool }
    }

    /// The position of room `id`, if it exists.
    pub fn find_game(&self, id: usize) -> (r: Option<usize>)
        ensures
            r is None <==> !has_game(self.games@, id),
            r is Some ==> r.unwrap() < self.games@.len() && self.games@[r.unwrap() as int].id == id,
    {
        let mut i: usize = 0;
        while i < self.games.len()
            invariant
                i <= self.games@.len(),
                forall|j: int| 0 <= j < i ==> #[trigger] self.games@[j].id != id,
            decreases self.games@.len() - i,
        {
            if self.games[i].id == id {
                return Some(i);
            }
            i = i + 1;
        }
        None
    }

    /// Connected participants who are in no room, in connection order.
    pub fn get_all_players_in_lobby(&self) -> (r: Vec<Player>)
        ensures
            r@.len() == lobby_ids(self.player_pool.connections@).len(),
            forall|k: int| 0 <= k < r@.len() ==> (#[trigger] r@[k]).id == lobby_ids(self.player_pool.connections@)[k]
                && r@[k].current_game is None,
    {
        let c = &self.player_pool.connections;
        let mut r: Vec<Player> = Vec::new();
        let mut i: usize = 0;
        while i < c.len()
            invariant
                i <= c@.len(),
                r@.len() == lobby_ids(c@.take(i as int)).len(),
                forall|k: int| 0 <= k < r@.len() ==> (#[trigger] r@[k]).id == lobby_ids(c@.take(i as int))[k]
                    && r@[k].current_game is None,
            decreases c@.len() - i,
        {
            proof {
                assert(c@.take(i as int + 1).drop_last() =~= c@.take(i as int));
                assert(c@.take(i as int + 1).last() == c@[i as int]);
            }
            if c[i].player.current_game.is_none() {
                r.push(c[i].player.snapshot());
            }
            i = i + 1;
        }
        assert(c@.take(i as int) =~= c@);
        r
    }

    /// Every room with its player count and whether a round runs, in
    /// creation order.
    pub fn list_games(&self) -> (r: Vec<GameSummary>)
        ensures
            r@.len() == self.games@.len(),
            forall|i: int| 0 <= i < r@.len() ==> #[trigger] r@[i] == summary_of(self.games@[i]),
    {
        let mut r: Vec<GameSummary> = Vec::new();
        let mut i: usize = 0;
        while i < self.games.len()
            invariant
                i <= self.games@.len(),
                r@.len() == i,
                forall|j: int| 0 <= j < i ==> #[trigger] r@[j] == summary_of(self.games@[j]),
            decreases self.games@.len() - i,
        {
            let g = &self.games[i];
            r.push(
                GameSummary {
                    id: g.id,
                    player_count: g.get_player_count(),
                    round_in_progress: g.round_in_progress,
                },
            );
            i = i + 1;
        }
        r
    }

    /// Sends the room list to everyone in the lobby (in no room).
    pub fn broadcast_lobby_gamelist(&mut self) -> (r: Result<(), GameError>)
        ensures
            r is Ok,
            final(self).games == old(self).games,
            final(self).next_game_id == old(self).next_game_id,
            final(self).player_pool.connections == old(self).player_pool.connections,
            final(self).player_pool.outbox@.drop_last() == old(self).player_pool.outbox@,
            final(self).player_pool.outbox@.len() == old(self).player_pool.outbox@.len() + 1,
            final(self).player_pool.outbox@.last().recipients@ == lobby_ids(old(self).player_pool.connections@),
            final(self).player_pool.outbox@.last().event matches Event::LobbyGames(list) && list@.len()
                == old(self).games@.len() && forall|i: int|
                0 <= i < list@.len() ==> #[trigger] list@[i] == summary_of(old(self).games@[i]),
    {
        let games = self.list_games();
        let players = self.get_all_players_in_lobby();
        let mut recipients: Vec<usize> = Vec::new();
        let mut i: usize = 0;
        while i < players.len()
            invariant
                i <= players@.len(),
                recipients@ == players@.take(i as int).map_values(|p: Player| p.id),
            decreases players@.len() - i,
        {
            recipients.push(players[i].id);
            i = i + 1;
            assert(recipients@ =~= players@.take(i as int).map_values(|p: Player| p.id));
        }
        proof {
            assert(recipients@ =~= lobby_ids(self.player_pool.connections@));
        }
        let ghost before = self.player_pool.outbox@;
        self.player_pool.outbox.push(Outbound { recipients, event: Event::LobbyGames(games) });
        assert(self.player_pool.outbox@.drop_last() =~= before);
        Ok(())
    }

    /// Registers a newly connected participant and sends them their record
    /// and the room list. Refused when the id is already connected.
    pub fn connect(&mut self, player: Player) -> (r: Result<(), GameError>)
        requires
            old(self).wf(),
        ensures
            final(self).wf(),
            final(self).games == old(self).games,
            final(self).next_game_id == old(self).next_game_id,
            holds_player(old(self).player_pool.connections@, player.id) ==> r == Err::<(), GameError>(
                GameError::AlreadyInGame,
            ) && final(self).player_pool == old(self).player_pool,
            !holds_player(old(self).player_pool.connections@, player.id) ==> {
                &&& r is Ok
                &&& pool_ids(final(self).player_pool.connections@) == pool_ids(
                    old(self).player_pool.connections@,
                ).push(player.id)
                &&& final(self).player_pool.outbox@.len() == old(self).player_pool.outbox@.len() + 2
                &&& final(self).player_pool.outbox@.last().recipients@ == seq![player.id]
                &&& final(self).player_pool.outbox@.last().event matches Event::LobbyGames(list)
                    && list@.len() == old(self).games@.len() && forall|i: int|
                    0 <= i < list@.len() ==> #[trigger] list@[i] == summary_of(old(self).games@[i])
            },
    {
        if self.player_pool.find(player.id).is_some() {
            return Err(GameError::AlreadyInGame);
        }
        let me = player.snapshot();
        self.player_pool.register_connection(player);
        proof {
            assert(pool_ids(self.player_pool.connections@) =~= pool_ids(old(self).player_pool.connections@).push(me.id));
            assert(self.player_pool.connections@.last().player.id == me.id);
            assert(holds_player(self.player_pool.connections@, me.id));
        }
        self.player_pool.send_message(&me, Event::Identity(me.snapshot()));
        let games = self.list_games();
        self.player_pool.send_message(&me, Event::LobbyGames(games));
        Ok(())
    }

    /// Seats participant `player_id` in room `game_id` (see `join_error` for
    /// when it is refused), records the room on the participant, tells them
    /// they joined, and sends the lobby the new room list.
    pub fn join_game(&mut self, game_id: usize, player_id: usize) -> (r: Result<(), GameError>)
        requires
            old(self).wf(),
        ensures
            final(self).wf(),
            r is Ok <==> join_error(*old(self), game_id, player_id) is None,
            r is Err ==> r == Err::<(), GameError>(join_error(*old(self), game_id, player_id).unwrap())
                && final(self).games@ == old(self).games@ && final(self).player_pool == old(self).player_pool
                && final(self).next_game_id == old(self).next_game_id,
            r is Ok ==> joined(*final(self), *old(self), game_id, player_id),
            r is Ok ==> {
                let o = final(self).player_pool.outbox@;
                &&& o.len() == old(self).player_pool.outbox@.len() + 2
                &&& o[o.len() - 2].recipients@ == seq![player_id]
                &&& o[o.len() - 2].event == Event::YouJoinedGame(game_id)
                &&& o.last().recipients@ == lobby_ids(final(self).player_pool.connections@)
                &&& o.last().event matches Event::LobbyGames(list) && list@.len() == final(self).games@.len()
                    && forall|i: int| 0 <= i < list@.len() ==> #[trigger] list@[i] == summary_of(final(self).games@[i])
            },
    {
        let gi = match self.find_game(game_id) {
            Some(i) => i,
            None => {
                return Err(GameError::GameNotFound);
            },
        };
        proof {
            lemma_game_index(self.games@, gi as int);
        }
        let pi = match self.player_pool.find(player_id) {
            Some(i) => i,
            None => {
                return Err(GameError::PlayerNotFound);
            },
        };
        let mut record = self.player_pool.connections[pi].player.snapshot();
        match record.join_game(game_id) {
            Ok(()) => {},
            Err(e) => {
                return Err(e);
            },
        }
        let ghost l0 = *self;
        let mut room = self.games.remove(gi);
        let res = room.add_player(record.snapshot());
        match res {
            Err(e) => {
                self.games.insert(gi, room);
                assert(self.games@ =~= l0.games@);
                return Err(e);
            },
            Ok(()) => {},
        }
        self.games.insert(gi, room);
        proof {
            assert(self.games@ =~= l0.games@.update(gi as int, room));
            let g = self.games@;
            assert forall|a: int, b: int| 0 <= a < b < g.len() implies (#[trigger] g[a]).id < (#[trigger] g[b]).id by {
                assert(l0.games@[a].id < l0.games@[b].id);
            }
            assert(pool_ids(g[gi as int].conns()) =~= pool_ids(l0.games@[gi as int].conns()).push(player_id));
        }
        let me = record.snapshot();
        self.player_pool.update_player(record);
        proof {
            let c = self.player_pool.connections@;
            crate::playerpool::lemma_slot_of_unique(l0.player_pool.connections@, pi as int);
            crate::playerpool::lemma_slot_of_unique(c, pi as int);
            assert(pool_ids(c) =~= pool_ids(l0.player_pool.connections@));
            assert(holds_player(c, player_id));
        }
        self.player_pool.send_message(&me, Event::YouJoinedGame(game_id));
        let ghost mid = self.player_pool.outbox@;
        let _ = self.broadcast_lobby_gamelist();
        proof {
            let o = self.player_pool.outbox@;
            assert(o[o.len() - 2] == mid.last());
        }
        Ok(())
    }

    /// Takes participant `player_id` out of their room: refused with
    /// `PlayerNotFound` when not connected and `GameNotFound` when in no
    /// existing room. A room left empty is removed. The participant is back
    /// in the lobby, which gets the new room list.
    pub fn leave_game(&mut self, player_id: usize) -> (r: Result<(), GameError>)
        requires
            old(self).wf(),
        ensures
            final(self).wf(),
            final(self).next_game_id == old(self).next_game_id,
            !holds_player(old(self).player_pool.connections@, player_id) ==> r == Err::<(), GameError>(
                GameError::PlayerNotFound,
            ) && *final(self) == *old(self),
            holds_player(old(self).player_pool.connections@, player_id) ==> {
                let c0 = old(self).player_pool.connections@;
                let room = c0[slot_of(c0, player_id)].player.current_game;
                let c = final(self).player_pool.connections@;
                &&& (room is None || !has_game(old(self).games@, room.unwrap())) ==> r == Err::<(), GameError>(
                    GameError::GameNotFound,
                ) && *final(self) == *old(self)
                &&& (room is Some && has_game(old(self).games@, room.unwrap())) ==> {
                    &&& r is Ok
                    &&& pool_ids(c) == pool_ids(c0)
                    &&& c[slot_of(c, player_id)].player.current_game is None
                    &&& ({
                        let gs0 = old(self).games@;
                        let gs = final(self).games@;
                        let gi = game_index(gs0, room.unwrap());
                        if holds_player(gs0[gi].conns(), player_id) && gs0[gi].conns().len() == 1 {
                            gs == gs0.remove(gi)
                        } else {
                            &&& gs.len() == gs0.len()
                            &&& left_room(gs[gi], gs0[gi], player_id)
                            &&& forall|j: int| 0 <= j < gs0.len() && j != gi ==> #[trigger] gs[j] == gs0[j]
                        }
                    })
                }
            },
    {
        let pi = match self.player_pool.find(player_id) {
            Some(i) => i,
            None => {
                return Err(GameError::PlayerNotFound);
            },
        };
        let gid = match self.player_pool.connections[pi].player.current_game {
            Some(g) => g,
            None => {
                return Err(GameError::GameNotFound);
            },
        };
        let gi = match self.find_game(gid) {
            Some(i) => i,
            None => {
                return Err(GameError::GameNotFound);
            },
        };
        let ghost l0 = *self;
        proof {
            lemma_game_index(self.games@, gi as int);
        }
        let mut room = self.games.remove(gi);
        let res = room.remove_player(player_id);
        proof {
            if res.is_ok() {
                crate::playerpool::lemma_slot_of(l0.games@[gi as int].conns(), player_id);
            }
            assert(!holds_player(room.conns(), player_id)) by {
                if holds_player(l0.games@[gi as int].conns(), player_id) {
                    let c0 = l0.games@[gi as int].conns();
                    let k = slot_of(c0, player_id);
                    crate::playerpool::lemma_slot_of(c0, player_id);
                    if holds_player(room.conns(), player_id) {
                        let j = choose|j: int| 0 <= j < room.conns().len() && #[trigger] room.conns()[j].player.id == player_id;
                        let j0 = if j < k { j } else { j + 1 };
                        assert(room.conns()[j] == c0[j0]);
                    }
                }
            }
        }
        if res.is_err() || room.get_player_count() > 0 {
            self.games.insert(gi, room);
            proof {
                assert(self.games@ =~= l0.games@.update(gi as int, room));
                let g = self.games@;
                assert forall|a: int, b: int| 0 <= a < b < g.len() implies (#[trigger] g[a]).id < (#[trigger] g[b]).id by {
                    assert(l0.games@[a].id < l0.games@[b].id);
                }
                lemma_game_index(g, gi as int);
            }
        } else {
            proof {
                let g = self.games@;
                assert(g =~= l0.games@.remove(gi as int));
                assert forall|a: int, b: int| 0 <= a < b < g.len() implies (#[trigger] g[a]).id < (#[trigger] g[b]).id by {
                    let a0 = if a < gi { a } else { a + 1 };
                    let b0 = if b < gi { b } else { b + 1 };
                    assert(g[a] == l0.games@[a0]);
                    assert(g[b] == l0.games@[b0]);
                    assert(l0.games@[a0].id < l0.games@[b0].id);
                }
                assert(!has_game(g, gid)) by {
                    if has_game(g, gid) {
                        let j = choose|j: int| 0 <= j < g.len() && #[trigger] g[j].id == gid;
                        let j0 = if j < gi { j } else { j + 1 };
                        assert(g[j] == l0.games@[j0]);
                        if j0 < gi {
                            assert(l0.games@[j0].id < l0.games@[gi as int].id);
                        } else {
                            assert(l0.games@[gi as int].id < l0.games@[j0].id);
                        }
                    }
                }
            }
        }
        let mut record = self.player_pool.connections[pi].player.snapshot();
        let _ = record.leave_game();
        self.player_pool.update_player(record);
        proof {
            let c = self.player_pool.connections@;
            crate::playerpool::lemma_slot_of_unique(l0.player_pool.connections@, pi as int);
            crate::playerpool::lemma_slot_of_unique(c, pi as int);
            assert(pool_ids(c) =~= pool_ids(l0.player_pool.connections@));
        }
        let _ = self.broadcast_lobby_gamelist();
        Ok(())
    }

    /// A participant's connection closed: they leave every room they sit
    /// in, a room they leave empty is removed, and they are unregistered.
    pub fn disconnect(&mut self, player_id: usize)
        requires
            old(self).wf(),
        ensures
            final(self).wf(),
            final(self).next_game_id == old(self).next_game_id,
            !holds_player(final(self).player_pool.connections@, player_id),
            forall|j: int| 0 <= j < final(self).games@.len() ==> !holds_player(
                (#[trigger] final(self).games@[j]).conns(),
                player_id,
            ),
            rooms_left_by(final(self).games@, old(self).games@, old(self).games@.len() as int, player_id),
            forall|k: int|
                0 <= k < old(self).games@.len() && (!holds_player((#[trigger] old(self).games@[k]).conns(), player_id)
                    || old(self).games@[k].conns().len() > 1) ==> exists|j: int|
                    0 <= j < final(self).games@.len() && #[trigger] final(self).games@[j].id == old(self).games@[k].id,
            forall|k: int|
                0 <= k < old(self).games@.len() && holds_player((#[trigger] old(self).games@[k]).conns(), player_id)
                    && old(self).games@[k].conns().len() == 1 ==> !has_game(final(self).games@, old(self).games@[k].id),
    {
        let ghost old_games = self.games@;
        let ghost n = old_games.len() as int;
        let mut rest = self.games.split_off(0);
        proof {
            assert(rest@ =~= old_games.subrange(0, n));
        }
        let mut kept: Vec<GameState> = Vec::new();
        while rest.len() > 0
            invariant
                n == old_games.len(),
                old_games == old(self).games@,
                old(self).wf(),
                rest@.len() <= n,
                rest@ == old_games.subrange(n - rest@.len(), n),
                self.player_pool == old(self).player_pool,
                self.next_game_id == old(self).next_game_id,
                ids_increasing(kept@),
                forall|j: int| 0 <= j < kept@.len() ==> (#[trigger] kept@[j]).wf() && kept@[j].id < self.next_game_id
                    && !holds_player(kept@[j].conns(), player_id),
                rest@.len() > 0 ==> forall|j: int| 0 <= j < kept@.len() ==> (#[trigger] kept@[j]).id < rest@[0].id,
                rooms_left_by(kept@, old_games, n - rest@.len(), player_id),
                forall|k: int|
                    0 <= k < n - rest@.len() && (!holds_player((#[trigger] old_games[k]).conns(), player_id)
                        || old_games[k].conns().len() > 1) ==> exists|j: int|
                        0 <= j < kept@.len() && #[trigger] kept@[j].id == old_games[k].id,
                forall|k: int|
                    0 <= k < n - rest@.len() && holds_player((#[trigger] old_games[k]).conns(), player_id)
                        && old_games[k].conns().len() == 1 ==> !has_game(kept@, old_games[k].id),
            decreases rest@.len(),
        {
            let ghost k = n - rest@.len();
            let ghost kept0 = kept@;
            let mut room = rest.remove(0);
            proof {
                assert(room == old_games[k]);
                assert(rest@ =~= old_games.subrange(n - rest@.len(), n));
                if rest@.len() > 0 {
                    assert(rest@[0] == old_games[k + 1]);
                    assert(old_games[k].id < old_games[k + 1].id);
                }
            }
            let res = room.remove_player(player_id);
            proof {
                if res.is_ok() {
                    crate::playerpool::lemma_slot_of(old_games[k].conns(), player_id);
                }
            }
            if res.is_err() || room.get_player_count() > 0 {
                kept.push(room);
                proof {
                    assert(kept@[kept@.len() - 1] == room);
                    assert forall|kk: int|
                        0 <= kk < n - rest@.len() && holds_player((#[trigger] old_games[kk]).conns(), player_id)
                            && old_games[kk].conns().len() == 1 implies !has_game(kept@, old_games[kk].id) by {
                        if kk < k {
                            assert(old_games[kk].id < old_games[k].id);
                            assert forall|j: int| 0 <= j < kept@.len() implies #[trigger] kept@[j].id != old_games[kk].id by {
                                if j < kept0.len() {
                                    assert(kept@[j] == kept0[j]);
                                    assert(!has_game(kept0, old_games[kk].id));
                                }
                            }
                        } else {
                            assert(room.conns().len() == old_games[k].conns().len() - 1);
                        }
                    }
                    assert forall|j: int| 0 <= j < kept@.len() implies exists|kk: int|
                        0 <= kk < n - rest@.len() && kk < old_games.len() && #[trigger] old_games[kk].id
                            == (#[trigger] kept@[j]).id && left_room(kept@[j], old_games[kk], player_id) by {
                        if j < kept0.len() {
                            assert(kept@[j] == kept0[j]);
                            let kk = choose|kk: int|
                                0 <= kk < k && kk < old_games.len() && #[trigger] old_games[kk].id == (#[trigger] kept0[j]).id
                                    && left_room(kept0[j], old_games[kk], player_id);
                        } else {
                            assert(old_games[k].id == kept@[j].id);
                        }
                    }
                    assert forall|kk: int|
                        0 <= kk < n - rest@.len() && (!holds_player((#[trigger] old_games[kk]).conns(), player_id)
                            || old_games[kk].conns().len() > 1) implies exists|j: int|
                        0 <= j < kept@.len() && #[trigger] kept@[j].id == old_games[kk].id by {
                        if kk < k {
                            let j = choose|j: int| 0 <= j < kept0.len() && #[trigger] kept0[j].id == old_games[kk].id;
                            assert(kept@[j] == kept0[j]);
                        } else {
                            assert(kept@[kept@.len() - 1].id == old_games[kk].id);
                        }
                    }
                }
            } else {
                proof {
                    assert forall|kk: int|
                        0 <= kk < n - rest@.len() && holds_player((#[trigger] old_games[kk]).conns(), player_id)
                            && old_games[kk].conns().len() == 1 implies !has_game(kept@, old_games[kk].id) by {
                        if kk == k {
                            assert forall|j: int| 0 <= j < kept@.len() implies #[trigger] kept@[j].id != old_games[kk].id by {
                                assert(kept@[j].id < old_games[k].id);
                            }
                        }
                    }
                    assert forall|kk: int|
                        0 <= kk < n - rest@.len() && (!holds_player((#[trigger] old_games[kk]).conns(), player_id)
                            || old_games[kk].conns().len() > 1) implies exists|j: int|
                        0 <= j < kept@.len() && #[trigger] kept@[j].id == old_games[kk].id by {
                        if kk == k {
                            assert(room.conns().len() == old_games[k].conns().len() - 1);
                        }
                    }
                }
            }
        }
        let ghost kept_seq = kept@;
        self.games = kept;
        self.player_pool.remove_connection(Player::new(player_id));
        let _ = self.broadcast_lobby_gamelist();
        proof {
            assert(rooms_left_by(kept_seq, old_games, n, player_id));
        }
    }

    /// Hands over every queued message: the lobby's first, then each room's
    /// in table order; all queues are then empty.
    pub fn take_messages(&mut self) -> (r: Vec<Outbound>)
        requires
            old(self).wf(),
        ensures
            final(self).wf(),
            r@ == old(self).player_pool.outbox@ + room_messages(old(self).games@),
            final(self).player_pool.outbox@.len() == 0,
            final(self).games@.len() == old(self).games@.len(),
            forall|i: int| 0 <= i < final(self).games@.len() ==> (#[trigger] final(self).games@[i]).same_table(
                old(self).games@[i],
            ) && final(self).games@[i].game_player_pool.outbox@.len() == 0,
    {
        let mut r = self.player_pool.take_outbox();
        let mut i: usize = 0;
        while i < self.games.len()
            invariant
                i <= self.games@.len(),
                self.wf(),
                self.games@.len() == old(self).games@.len(),
                r@ == old(self).player_pool.outbox@ + room_messages(old(self).games@.take(i as int)),
                self.player_pool.outbox@.len() == 0,
                forall|j: int| 0 <= j < self.games@.len() ==> (#[trigger] self.games@[j]).same_table(
                    old(self).games@[j],
                ),
                forall|j: int| 0 <= j < i ==> (#[trigger] self.games@[j]).game_player_pool.outbox@.len() == 0,
                forall|j: int| i <= j < self.games@.len() ==> (#[trigger] self.games@[j]).game_player_pool.outbox
                    == old(self).games@[j].game_player_pool.outbox,
            decreases self.games@.len() - i,
        {
            let ghost l0 = *self;
            let mut room = self.games.remove(i);
            let mut msgs = room.game_player_pool.take_outbox();
            proof {
                assert(room.wf());
            }
            self.games.insert(i, room);
            proof {
                assert(self.games@ =~= l0.games@.update(i as int, room));
                let g = self.games@;
                assert forall|a: int, b: int| 0 <= a < b < g.len() implies (#[trigger] g[a]).id < (#[trigger] g[b]).id by {
                    assert(l0.games@[a].id < l0.games@[b].id);
                }
                assert(old(self).games@.take(i as int + 1).drop_last() =~= old(self).games@.take(i as int));
                assert(old(self).games@.take(i as int + 1).last() == old(self).games@[i as int]);
            }
            r.append(&mut msgs);
            i = i + 1;
        }
        proof {
            assert(old(self).games@.take(i as int) =~= old(self).games@);
        }
        r
    }

    /// Creates an empty room under the next id and tells the lobby; `None`
    /// only once every id has been used.
    pub fn create_game(&mut self) -> (r: Option<usize>)
        requires
            old(self).wf(),
        ensures
            final(self).wf(),
            old(self).next_game_id == usize::MAX ==> r is None && *final(self) == *old(self),
            old(self).next_game_id < usize::MAX ==> {
                let n = old(self).games@.len() as int;
                &&& r == Some(old(self).next_game_id)
                &&& final(self).next_game_id == old(self).next_game_id + 1
                &&& final(self).games@.len() == n + 1
                &&& final(self).games@.take(n) == old(self).games@
                &&& final(self).games@[n].id == old(self).next_game_id
                &&& final(self).games@[n].conns().len() == 0
                &&& !final(self).games@[n].round_in_progress
                &&& final(self).player_pool.connections == old(self).player_pool.connections
                &&& final(self).player_pool.outbox@.len() == old(self).player_pool.outbox@.len() + 1
                &&& final(self).player_pool.outbox@.last().recipients@ == lobby_ids(old(self).player_pool.connections@)
                &&& final(self).player_pool.outbox@.last().event matches Event::LobbyGames(list) && list@.len()
                    == n + 1 && forall|i: int|
                    0 <= i < list@.len() ==> #[trigger] list@[i] == summary_of(final(self).games@[i])
            },
    {
        if self.next_game_id == usize::MAX {
            return None;
        }
        let game_id = self.next_game_id;
        let ghost n = self.games@.len() as int;
        self.games.push(GameState::new(game_id, PlayerPool::new()));
        self.next_game_id = self.next_game_id + 1;
        let _ = self.broadcast_lobby_gamelist();
        proof {
            assert(self.games@.take(n) =~= old(self).games@);
        }
        Some(game_id)
    }
}

} // verus!
