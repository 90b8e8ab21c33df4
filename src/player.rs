//! A participant: identity, display name, hand, room and spectator flag.

use vstd::prelude::*;
use vstd::string::StringExecFns;

use crate::card::Card;
use crate::error::GameError;
use crate::text::{decimal, decimal_string};

verus! {

/// A participant as the server tracks it.
#[derive(Clone, Debug)]
pub struct Player {
    pub id: usize,
    pub name: String,
    pub hand: Vec<Card>,
    pub current_game: Option<usize>,
    pub is_spectator: bool,
}

/// The public view of a participant: its hand only as a count.
#[derive(Clone, Debug)]
pub struct SerializablePlayer {
    pub id: usize,
    pub name: String,
    pub card_count: usize,
}

/// The display name given to participant `id`.
pub open spec fn default_name(id: usize) -> Seq<char> {
    "Player "@ + decimal(id as nat)
}

/// A copy of `v`, element by element.
pub fn copy_cards(v: &Vec<Card>) -> (r: Vec<Card>)
    ensures
        r@ == v@,
{
    let mut r: Vec<Card> = Vec::new();
    let mut i: usize = 0;
    while i < v.len()
        invariant
            i <= v.len(),
            r@ == v@.take(i as int),
        decreases v.len() - i,
    {
        r.push(v[i]);
        i = i + 1;
        assert(r@ =~= v@.take(i as int));
    }
    assert(r@ =~= v@);
    r
}

/// Whether `p` and `q` hold the same data.
pub open spec fn same_player(p: Player, q: Player) -> bool {
    &&& p.id == q.id
    &&& p.name@ == q.name@
    &&& p.hand@ == q.hand@
    &&& p.current_game == q.current_game
    &&& p.is_spectator == q.is_spectator
}

impl Player {
    /// A fresh participant named "Player <id>", with an empty hand, in no room.
    pub fn new(id: usize) -> (p: Player)
        ensures
            p.id == id,
            p.name@ == default_name(id),
            p.hand@.len() == 0,
            p.current_game is None,
            !p.is_spectator,
    {
        let digits = decimal_string(id);
        let name = String::from_str("Player ").concat(digits.as_str());
        Player { id, name, hand: Vec::new(), current_game: None, is_spectator: false }
    }

    /// A field-by-field copy.
    pub fn snapshot(&self) -> (p: Player)
        ensures
            same_player(p, *self),
    {
        Player {
            id: self.id,
            name: self.name.clone(),
            hand: copy_cards(&self.hand),
            current_game: self.current_game,
            is_spectator: self.is_spectator,
        }
    }

    /// Records that the participant entered room `game_id`; refused while it
    /// is in a room or spectating.
    pub fn join_game(&mut self, game_id: usize) -> (r: Result<(), GameError>)
        ensures
            r is Err <==> (old(self).current_game is Some || old(self).is_spectator),
            r is Err ==> r == Err::<(), GameError>(GameError::AlreadyInGame)
                && same_player(*final(self), *old(self)),
            r is Ok ==> final(self).current_game == Some(game_id) && same_player(
                *final(self),
                Player { current_game: Some(game_id), ..*old(self) },
            ),
    {
        if self.current_game.is_some() {
            return Err(GameError::AlreadyInGame);
        }
        if self.is_spectator {
            return Err(GameError::AlreadyInGame);
        }
        self.current_game = Some(game_id);
        Ok(())
    }

    /// Records that the participant is back in the lobby.
    pub fn leave_game(&mut self) -> (r: Result<(), GameError>)
        ensures
            r is Ok,
            same_player(*final(self), Player { current_game: None, ..*old(self) }),
    {
        self.current_game = None;
        Ok(())
    }

    pub fn to_serializable(&self) -> (s: SerializablePlayer)
        ensures
            s.id == self.id,
            s.name@ == self.name@,
            s.card_count == self.hand@.len(),
    {
        SerializablePlayer { id: self.id, name: self.name.clone(), card_count: self.hand.len() }
    }

    pub fn set_hand(&mut self, hand: Vec<Card>)
        ensures
            same_player(*final(self), Player { hand, ..*old(self) }),
    {
        self.hand = hand;
    }
}

} // verus!
