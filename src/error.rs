//! Error kinds reported to the requesting client.

use vstd::prelude::*;
use vstd::string::StringExecFns;

verus! {

/// Every failure leaves the engine state unchanged and is recoverable.
#[derive(Debug, Clone, Copy, PartialEq, Eq, Structural)]
pub enum GameError {
    NotYourTurn,
    InvalidPlay,
    CardNotInHand,
    PlayerNotFound,
    GameNotFound,
    GameFull,
    AlreadyInGame,
    DeckEmpty,
}

/// The short reason sent with an `error` event.
pub open spec fn error_message(e: GameError) -> Seq<char> {
    match e {
        GameError::NotYourTurn => "Not your turn"@,
        GameError::InvalidPlay => "Invalid play"@,
        GameError::CardNotInHand => "Card not in hand"@,
        GameError::PlayerNotFound => "Player not found"@,
        GameError::GameNotFound => "Game not found"@,
        GameError::GameFull => "Game is full"@,
        GameError::AlreadyInGame => "Player already in game"@,
        GameError::DeckEmpty => "Deck is empty"@,
    }
}

impl GameError {
    pub fn message(&self) -> (r: String)
        ensures
            r@ == error_message(*self),
    {
        match self {
            GameError::NotYourTurn => String::from_str("Not your turn"),
            GameError::InvalidPlay => String::from_str("Invalid play"),
            GameError::CardNotInHand => String::from_str("Card not in hand"),
            GameError::PlayerNotFound => String::from_str("Player not found"),
            GameError::GameNotFound => String::from_str("Game not found"),
            GameError::GameFull => String::from_str("Game is full"),
            GameError::AlreadyInGame => String::from_str("Player already in game"),
            GameError::DeckEmpty => String::from_str("Deck is empty"),
        }
    }
}

} // verus!
