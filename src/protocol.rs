//! Client commands: reading them from a decoded message, and carrying them
//! out against the lobby and the rooms.

use vstd::prelude::*;
use vstd::string::StringExecFns;

use crate::card::Card;
use crate::error::GameError;
use crate::events::Event;
use crate::game_state::GameState;
use crate::game_state_card_management::{draw_error, drew_own, play_error, play_succeeded};
use crate::lobby::{game_index, has_game, join_error, joined, Lobby};
use crate::playerpool::pool_ids;
use crate::player::Player;
use crate::playerpool::holds_player;

verus! {

/// A command a client may send.
#[derive(Debug)]
pub enum Command {
    FetchGames,
    CreateGame,
    JoinGame(usize),
    PlayCard(usize, Vec<Card>),
    DrawCard(usize),
}

/// The command an inbound message names: its action, with the room id that
/// joining, playing and drawing need, and the cards that playing needs.
pub open spec fn command_kind(action: Seq<char>, game_id: Option<usize>, has_cards: bool) -> Option<int> {
    if action == "fetch_games"@ {
        Some(0)
    } else if action == "create_game"@ {
        Some(1)
    } else if action == "join_game"@ && game_id is Some {
        Some(2)
    } else if action == "play_card"@ && game_id is Some && has_cards {
        Some(3)
    } else if action == "draw_card"@ && game_id is Some {
        Some(4)
    } else {
        None
    }
}

/// The kind of a command, numbered as `command_kind` numbers them.
pub open spec fn kind_of(c: Command) -> int {
    match c {
        Command::FetchGames => 0,
        Command::CreateGame => 1,
        Command::JoinGame(_) => 2,
        Command::PlayCard(..) => 3,
        Command::DrawCard(_) => 4,
    }
}

impl Command {
    /// Reads a command from the fields of an inbound message; `None` for an
    /// unknown action or a missing field.
    pub fn from_message(action: &str, game_id: Option<usize>, cards: Option<Vec<Card>>) -> (r: Option<Command>)
        ensures
            r is None <==> command_kind(action@, game_id, cards is Some) is None,
            r is Some ==> kind_of(r.unwrap()) == command_kind(action@, game_id, cards is Some).unwrap(),
            r matches Some(Command::JoinGame(g)) ==> game_id == Some(g),
            r matches Some(Command::DrawCard(g)) ==> game_id == Some(g),
            r matches Some(Command::PlayCard(g, cs)) ==> game_id == Some(g) && cards is Some && cs@
                == cards.unwrap()@,
    {
        proof {
            reveal_strlit("fetch_games");
            reveal_strlit("create_game");
            reveal_strlit("join_game");
            reveal_strlit("play_card");
            reveal_strlit("draw_card");
            let names = seq!["fetch_games"@, "create_game"@, "join_game"@, "play_card"@, "draw_card"@];
            assert forall|x: int, y: int| 0 <= x < y < 5 implies names[x] != names[y] by {
                assert(names[x][0] != names[y][0]);
            }
        }
        let a = String::from_str(action);
        if a == String::from_str("fetch_games") {
            Some(Command::FetchGames)
        } else if a == String::from_str("create_game") {
            Some(Command::CreateGame)
        } else if a == String::from_str("join_game") {
            match game_id {
                Some(g) => Some(Command::JoinGame(g)),
                None => None,
            }
        } else if a == String::from_str("play_card") {
            match (game_id, cards) {
                (Some(g), Some(cs)) => Some(Command::PlayCard(g, cs)),
                _ => None,
            }
        } else if a == String::from_str("draw_card") {
            match game_id {
                Some(g) => Some(Command::DrawCard(g)),
                None => None,
            }
        } else {
            None
        }
    }
}

/// Why `cmd` from `pid` fails against `l`, where the outcome is decided
/// before any state changes; `None` when it succeeds.
pub open spec fn command_error(l: Lobby, pid: usize, cmd: Command) -> Option<GameError> {
    match cmd {
        Command::FetchGames => None,
        Command::CreateGame => None,
        Command::JoinGame(g) => join_error(l, g, pid),
        Command::PlayCard(g, cs) => if !has_game(l.games@, g) {
            Some(GameError::GameNotFound)
        } else {
            play_error(l.games@[game_index(l.games@, g)], pid, cs@)
        },
        Command::DrawCard(g) => if !has_game(l.games@, g) {
            Some(GameError::GameNotFound)
        } else {
            draw_error(l.games@[game_index(l.games@, g)], pid)
        },
    }
}

/// Room `game_id` went from its state in `l0` to one that `step` relates to
/// it, followed by a broadcast of its public state; other rooms are
/// unchanged.
pub open spec fn room_changed(
    l: Lobby,
    l0: Lobby,
    game_id: usize,
    step: spec_fn(GameState, GameState) -> bool,
) -> bool {
    let gi = game_index(l0.games@, game_id);
    let room = l.games@[gi];
    let o = room.game_player_pool.outbox@;
    &&& has_game(l0.games@, game_id)
    &&& l.games@.len() == l0.games@.len()
    &&& forall|j: int| 0 <= j < l0.games@.len() && j != gi ==> #[trigger] l.games@[j] == l0.games@[j]
    &&& exists|x: GameState|
        step(x, l0.games@[gi]) && room.same_table(x) && o.len() == x.game_player_pool.outbox@.len() + 1
            && o.drop_last() == x.game_player_pool.outbox@ && o.last().event is UpdateGameState
            && o.last().recipients@ == pool_ids(room.conns())
}

impl Lobby {
    /// Carries out `cmd` for participant `player_id`. Fetching replies with
    /// the room list; creating a room tells the lobby; joining, playing and
    /// drawing go to the room, and after an accepted play or draw everyone in
    /// the room gets its public state. A refused command changes nothing and
    /// sends the participant an error event.
    pub fn handle_command(&mut self, player_id: usize, cmd: Command) -> (r: Result<(), GameError>)
        requires
            old(self).wf(),
        ensures
            final(self).wf(),
            !(cmd is CreateGame) ==> (r is Ok <==> command_error(*old(self), player_id, cmd) is None),
            r is Err ==> r == Err::<(), GameError>(command_error(*old(self), player_id, cmd).unwrap())
                && final(self).games@ == old(self).games@ && final(self).player_pool.connections
                == old(self).player_pool.connections && final(self).next_game_id == old(self).next_game_id,
            cmd is FetchGames && holds_player(old(self).player_pool.connections@, player_id) ==> {
                let o = final(self).player_pool.outbox@;
                &&& o.len() == old(self).player_pool.outbox@.len() + 1
                &&& o.last().recipients@ == seq![player_id]
                &&& o.last().event matches Event::LobbyGames(list) && list@.len() == old(self).games@.len()
                    && forall|i: int| 0 <= i < list@.len() ==> #[trigger] list@[i] == crate::lobby::summary_of(
                    old(self).games@[i],
                )
            },
            cmd is CreateGame ==> r is Ok,
            cmd matches Command::JoinGame(g) ==> (r is Ok ==> joined(*final(self), *old(self), g, player_id)),
            cmd matches Command::PlayCard(g, cs) ==> (r is Ok ==> room_changed(
                *final(self),
                *old(self),
                g,
                |x: GameState, x0: GameState| play_succeeded(x, x0, player_id, cs@),
            )),
            cmd matches Command::DrawCard(g) ==> (r is Ok ==> room_changed(
                *final(self),
                *old(self),
                g,
                |x: GameState, x0: GameState| drew_own(x, x0, player_id),
            )),
            cmd is CreateGame && old(self).next_game_id < usize::MAX ==> final(self).games@.len()
                == old(self).games@.len() + 1,
            r is Err && holds_player(old(self).player_pool.connections@, player_id) ==> {
                let o = final(self).player_pool.outbox@;
                &&& o.len() == old(self).player_pool.outbox@.len() + 1
                &&& o.last().recipients@ == seq![player_id]
                &&& o.last().event == Event::Error(r.unwrap_err())
            },
    {
        let res = match cmd {
            Command::FetchGames => {
                let games = self.list_games();
                let me = Player::new(player_id);
                self.player_pool.send_message(&me, Event::LobbyGames(games));
                Ok(())
            },
            Command::CreateGame => {
                let _ = self.create_game();
                Ok(())
            },
            Command::JoinGame(g) => self.join_game(g, player_id),
            Command::PlayCard(g, cards) => match self.find_game(g) {
                None => Err(GameError::GameNotFound),
                Some(gi) => {
                    proof {
                        crate::lobby::lemma_game_index(self.games@, gi as int);
                    }
                    let ghost l0 = *self;
                    let mut room = self.games.remove(gi);
                    let res = room.play_cards(player_id, cards);
                    let ghost mid = room;
                    if res.is_ok() {
                        room.update_game_state();
                    }
                    self.games.insert(gi, room);
                    proof {
                        assert(self.games@ =~= l0.games@.update(gi as int, room));
                        if res.is_err() {
                            assert(self.games@ =~= l0.games@);
                        } else {
                            assert(self.games@[gi as int] == room);
                            assert(pool_ids(room.conns()) =~= pool_ids(mid.conns()));
                        }
                        let g = self.games@;
                        assert forall|a: int, b: int| 0 <= a < b < g.len() implies (#[trigger] g[a]).id < (#[trigger] g[b]).id by {
                            assert(l0.games@[a].id < l0.games@[b].id);
                        }
                    }
                    res
                },
            },
            Command::DrawCard(g) => match self.find_game(g) {
                None => Err(GameError::GameNotFound),
                Some(gi) => {
                    proof {
                        crate::lobby::lemma_game_index(self.games@, gi as int);
                    }
                    let ghost l0 = *self;
                    let mut room = self.games.remove(gi);
                    let res = room.draw_card(player_id);
                    let ghost mid = room;
                    if res.is_ok() {
                        room.update_game_state();
                    }
                    self.games.insert(gi, room);
                    proof {
                        assert(self.games@ =~= l0.games@.update(gi as int, room));
                        if res.is_err() {
                            assert(self.games@ =~= l0.games@);
                        } else {
                            assert(self.games@[gi as int] == room);
                            assert(pool_ids(room.conns()) =~= pool_ids(mid.conns()));
                        }
                        let g = self.games@;
                        assert forall|a: int, b: int| 0 <= a < b < g.len() implies (#[trigger] g[a]).id < (#[trigger] g[b]).id by {
                            assert(l0.games@[a].id < l0.games@[b].id);
                        }
                    }
                    res
                },
            },
        };
        match res {
            Ok(()) => Ok(()),
            Err(e) => {
                let me = Player::new(player_id);
                self.player_pool.send_message(&me, Event::Error(e));
                Err(e)
            },
        }
    }
}

} // verus!
