//! Authoritative engine for a multi-room shedding card game: cards and
//! decks, participants, per-room connection pools with outbound mailboxes,
//! the per-room turn state machine, the lobby and the client command
//! dispatcher.

pub mod card;
pub mod deck;
pub mod error;
pub mod events;
pub mod game_state;
pub mod game_state_card_management;
pub mod game_state_player_management;
pub mod lobby;
pub mod player;
pub mod playerpool;
pub mod protocol;
pub mod text;
pub mod turns;
