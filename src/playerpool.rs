//! The participants seated in one place, in insertion order, and the mailbox
//! of events queued for them.

use vstd::prelude::*;

use crate::events::{Event, Outbound};
use crate::player::{same_player, Player};

verus! {

/// One seat of a pool. The participant's outbound channel is kept by the
/// transport layer, keyed by the participant's id.
#[derive(Clone, Debug)]
pub struct PlayerConnection {
    pub player: Player,
}

/// The ids of the seats, in order.
pub open spec fn pool_ids(c: Seq<PlayerConnection>) -> Seq<usize> {
    c.map_values(|x: PlayerConnection| x.player.id)
}

/// No id occurs at two seats.
pub open spec fn ids_unique(c: Seq<PlayerConnection>) -> bool {
    forall|i: int, j: int|
        0 <= i < c.len() && 0 <= j < c.len() && #[trigger] c[i].player.id == #[trigger] c[j].player.id
            ==> i == j
}

/// Some seat holds participant `id`.
pub open spec fn holds_player(c: Seq<PlayerConnection>, id: usize) -> bool {
    exists|i: int| 0 <= i < c.len() && #[trigger] c[i].player.id == id
}

/// Whether `i` is the first seat that holds participant `id`.
pub open spec fn is_first_slot(c: Seq<PlayerConnection>, id: usize, i: int) -> bool {
    &&& 0 <= i < c.len()
    &&& c[i].player.id == id
    &&& forall|j: int| 0 <= j < i ==> #[trigger] c[j].player.id != id
}

/// The first seat that holds participant `id` (meaningful when one does).
pub open spec fn slot_of(c: Seq<PlayerConnection>, id: usize) -> int {
    choose|i: int| is_first_slot(c, id, i)
}

/// The first seat holding `id` is the one `slot_of` picks.
pub proof fn lemma_first_slot_unique(c: Seq<PlayerConnection>, id: usize, i: int)
    requires
        is_first_slot(c, id, i),
    ensures
        slot_of(c, id) == i,
{
    let k = slot_of(c, id);
    assert(is_first_slot(c, id, k));
    if k < i {
        assert(c[k].player.id != id);
    } else if i < k {
        assert(c[i].player.id != id);
    }
}

/// A seated participant has a first seat.
pub proof fn lemma_slot_of(c: Seq<PlayerConnection>, id: usize)
    requires
        holds_player(c, id),
    ensures
        is_first_slot(c, id, slot_of(c, id)),
{
    let i = choose|i: int| 0 <= i < c.len() && #[trigger] c[i].player.id == id;
    lemma_first_slot_exists(c, id, i);
}

proof fn lemma_first_slot_exists(c: Seq<PlayerConnection>, id: usize, i: int)
    requires
        0 <= i < c.len(),
        c[i].player.id == id,
    ensures
        exists|k: int| is_first_slot(c, id, k),
    decreases i,
{
    if exists|j: int| 0 <= j < i && #[trigger] c[j].player.id == id {
        let j = choose|j: int| 0 <= j < i && #[trigger] c[j].player.id == id;
        lemma_first_slot_exists(c, id, j);
    } else {
        assert(is_first_slot(c, id, i));
    }
}

/// With unique ids, the seat holding `id` is the one at `i`.
pub proof fn lemma_slot_of_unique(c: Seq<PlayerConnection>, i: int)
    requires
        ids_unique(c),
        0 <= i < c.len(),
    ensures
        slot_of(c, c[i].player.id) == i,
{
    let id = c[i].player.id;
    lemma_slot_of(c, id);
    let k = slot_of(c, id);
    assert(c[k].player.id == c[i].player.id);
}

/// The seats of a room or of the lobby, and the events queued for them.
#[derive(Debug)]
pub struct PlayerPool {
    pub connections: Vec<PlayerConnection>,
    pub outbox: Vec<Outbound>,
}

impl PlayerPool {
    /// At most one seat per participant id.
    pub open spec fn wf(&self) -> bool {
        ids_unique(self.connections@)
    }

    pub fn new() -> (p: PlayerPool)
        ensures
            p.connections@.len() == 0,
            p.outbox@.len() == 0,
            p.wf(),
    {
        PlayerPool { connections: Vec::new(), outbox: Vec::new() }
    }

    /// The first seat holding participant `id`.
    pub fn find(&self, id: usize) -> (r: Option<usize>)
        ensures
            r is None <==> !holds_player(self.connections@, id),
            r is Some ==> is_first_slot(self.connections@, id, r->0 as int) && r->0 == slot_of(
                self.connections@,
                id,
            ),
    {
        let mut i: usize = 0;
        while i < self.connections.len()
            invariant
                i <= self.connections@.len(),
                forall|j: int| 0 <= j < i ==> #[trigger] self.connections@[j].player.id != id,
            decreases self.connections@.len() - i,
        {
            if self.connections[i].player.id == id {
                proof {
                    lemma_first_slot_unique(self.connections@, id, i as int);
                }
                return Some(i);
            }
            i = i + 1;
        }
        None
    }

    pub fn get_player_by_id(&self, player_id: usize) -> (r: Option<Player>)
        ensures
            r is Some <==> holds_player(self.connections@, player_id),
            r is Some ==> r->0.id == player_id && is_first_slot(
                self.connections@,
                player_id,
                slot_of(self.connections@, player_id),
            ),
            r is Some ==> same_player(
                r->0,
                self.connections@[slot_of(self.connections@, player_id)].player,
            ),
    {
        match self.find(player_id) {
            Some(i) => Some(self.connections[i].player.snapshot()),
            None => None,
        }
    }

    /// Replaces the seated record of the participant with `updated_player`'s id.
    pub fn update_player(&mut self, updated_player: Player)
        requires
            old(self).wf(),
        ensures
            final(self).wf(),
            final(self).outbox@ == old(self).outbox@,
            holds_player(old(self).connections@, updated_player.id) ==> final(self).connections@
                == old(self).connections@.update(
                slot_of(old(self).connections@, updated_player.id),
                PlayerConnection { player: updated_player },
            ),
            !holds_player(old(self).connections@, updated_player.id) ==> final(self).connections@
                == old(self).connections@,
    {
        match self.find(updated_player.id) {
            Some(i) => {
                self.connections.set(i, PlayerConnection { player: updated_player });
            },
            None => {},
        }
    }

    /// Seats `player` at the end, unless its id is already seated.
    pub fn register_connection(&mut self, player: Player)
        requires
            old(self).wf(),
        ensures
            final(self).wf(),
            final(self).outbox@ == old(self).outbox@,
            !holds_player(old(self).connections@, player.id) ==> final(self).connections@
                == old(self).connections@.push(PlayerConnection { player }),
            holds_player(old(self).connections@, player.id) ==> final(self).connections@
                == old(self).connections@,
    {
        if self.find(player.id).is_none() {
            self.connections.push(PlayerConnection { player });
        }
    }

    /// Unseats the participant with `player`'s id, if seated.
    pub fn remove_connection(&mut self, player: Player)
        requires
            old(self).wf(),
        ensures
            final(self).wf(),
            final(self).outbox@ == old(self).outbox@,
            holds_player(old(self).connections@, player.id) ==> final(self).connections@
                == old(self).connections@.remove(slot_of(old(self).connections@, player.id)),
            !holds_player(old(self).connections@, player.id) ==> final(self).connections@
                == old(self).connections@,
            !holds_player(final(self).connections@, player.id),
    {
        match self.find(player.id) {
            Some(i) => {
                let ghost before = self.connections@;
                self.connections.remove(i);
                proof {
                    assert forall|j: int|
                        0 <= j < self.connections@.len() implies #[trigger] self.connections@[j].player.id
                        != player.id by {
                        if j < i {
                            assert(self.connections@[j] == before[j]);
                        } else {
                            assert(self.connections@[j] == before[j + 1]);
                        }
                    }
                }
            },
            None => {},
        }
    }

    /// The seated ids, in seating order.
    pub fn player_ids(&self) -> (r: Vec<usize>)
        ensures
            r@ == pool_ids(self.connections@),
    {
        let mut r: Vec<usize> = Vec::new();
        let mut i: usize = 0;
        while i < self.connections.len()
            invariant
                i <= self.connections@.len(),
                r@ == pool_ids(self.connections@).take(i as int),
            decreases self.connections@.len() - i,
        {
            r.push(self.connections[i].player.id);
            i = i + 1;
            assert(r@ =~= pool_ids(self.connections@).take(i as int));
        }
        assert(r@ =~= pool_ids(self.connections@));
        r
    }

    /// Queues `message` for `player` alone, if seated.
    pub fn send_message(&mut self, player: &Player, message: Event)
        ensures
            final(self).connections == old(self).connections,
            !holds_player(old(self).connections@, player.id) ==> final(self).outbox@
                == old(self).outbox@,
            holds_player(old(self).connections@, player.id) ==> {
                &&& final(self).outbox@.len() == old(self).outbox@.len() + 1
                &&& final(self).outbox@.drop_last() == old(self).outbox@
                &&& final(self).outbox@.last().recipients@ == seq![player.id]
                &&& final(self).outbox@.last().event == message
            },
    {
        if self.find(player.id).is_some() {
            let ghost before = self.outbox@;
            self.outbox.push(Outbound { recipients: vec![player.id], event: message });
            assert(self.outbox@.drop_last() =~= before);
        }
    }

    /// Queues `message` once for every seated participant, in seating order.
    pub fn broadcast_message(&mut self, message: Event)
        ensures
            final(self).connections == old(self).connections,
            final(self).outbox@.len() == old(self).outbox@.len() + 1,
            final(self).outbox@.drop_last() == old(self).outbox@,
            final(self).outbox@.last().recipients@ == pool_ids(old(self).connections@),
            final(self).outbox@.last().event == message,
    {
        let ghost before = self.outbox@;
        let recipients = self.player_ids();
        self.outbox.push(Outbound { recipients, event: message });
        assert(self.outbox@.drop_last() =~= before);
    }

    /// Hands over the queued messages, oldest first, and empties the queue.
    pub fn take_outbox(&mut self) -> (r: Vec<Outbound>)
        ensures
            r@ == old(self).outbox@,
            final(self).outbox@.len() == 0,
            final(self).connections == old(self).connections,
    {
        let r = self.outbox.split_off(0);
        assert(r@ =~= old(self).outbox@);
        r
    }
}

} // verus!
