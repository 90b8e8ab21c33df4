//! Outbound events and the messages that carry them to participants.

use vstd::prelude::*;

use crate::card::Card;
use crate::error::GameError;
use crate::player::{Player, SerializablePlayer};

verus! {

/// A room as the lobby lists it.
#[derive(Clone, Copy, Debug, PartialEq, Eq, Structural)]
pub struct GameSummary {
    pub id: usize,
    pub player_count: usize,
    pub round_in_progress: bool,
}

/// The public state of a room.
#[derive(Clone, Copy, Debug, PartialEq, Eq, Structural)]
pub struct GameSnapshot {
    pub id: usize,
    pub round_in_progress: bool,
    pub player_to_play: usize,
    pub direction: i8,
    pub top_card: Card,
    pub deck_size: usize,
    pub player_count: usize,
}

/// What the engine and lobby tell participants.
#[derive(Clone, Debug)]
pub enum Event {
    /// A participant's own record, sent on connect.
    Identity(Player),
    LobbyGames(Vec<GameSummary>),
    UpdatePlayers(Vec<SerializablePlayer>),
    /// A participant's private record, hand included.
    UpdatePlayer(Player),
    UpdateGameState(GameSnapshot),
    YourTurn(usize),
    /// The player and the cards they played.
    CardPlayed(usize, Vec<Card>),
    /// The winner and the points left in the other hands.
    WinnerFound(usize, u64),
    YouJoinedGame(usize),
    Error(GameError),
}

/// The envelope name of an event.
pub open spec fn event_name(e: Event) -> Seq<char> {
    match e {
        Event::Identity(_) => "player"@,
        Event::LobbyGames(_) => "update_lobby_games_list"@,
        Event::UpdatePlayers(_) => "update_players"@,
        Event::UpdatePlayer(_) => "update_player"@,
        Event::UpdateGameState(_) => "update_game_state"@,
        Event::YourTurn(_) => "your_turn"@,
        Event::CardPlayed(..) => "card_played"@,
        Event::WinnerFound(..) => "winner_found"@,
        Event::YouJoinedGame(_) => "you_joined_game"@,
        Event::Error(_) => "error"@,
    }
}

impl Event {
    pub fn name(&self) -> (r: &'static str)
        ensures
            r@ == event_name(*self),
    {
        match self {
            Event::Identity(_) => "player",
            Event::LobbyGames(_) => "update_lobby_games_list",
            Event::UpdatePlayers(_) => "update_players",
            Event::UpdatePlayer(_) => "update_player",
            Event::UpdateGameState(_) => "update_game_state",
            Event::YourTurn(_) => "your_turn",
            Event::CardPlayed(..) => "card_played",
            Event::WinnerFound(..) => "winner_found",
            Event::YouJoinedGame(_) => "you_joined_game",
            Event::Error(_) => "error",
        }
    }
}

/// One event and the participants, by id, it is queued for.
#[derive(Clone, Debug)]
pub struct Outbound {
    pub recipients: Vec<usize>,
    pub event: Event,
}

} // verus!
