//! The turn model: seating order filtered to non-spectators, stepped by the
//! direction of play with wrap-around.

use vstd::prelude::*;

use crate::playerpool::{
    holds_player, ids_unique, is_first_slot, lemma_first_slot_unique, lemma_slot_of, slot_of,
    PlayerConnection,
};

verus! {

/// Ids of the non-spectators, in seating order: the turn cycle.
pub open spec fn eligible(c: Seq<PlayerConnection>) -> Seq<usize>
    decreases c.len(),
{
    if c.len() == 0 {
        Seq::empty()
    } else {
        let r = eligible(c.drop_last());
        if c.last().player.is_spectator {
            r
        } else {
            r.push(c.last().player.id)
        }
    }
}

/// Whether `k` is the first position of `x` in `e`.
pub open spec fn is_first_index(e: Seq<usize>, x: usize, k: int) -> bool {
    &&& 0 <= k < e.len()
    &&& e[k] == x
    &&& forall|j: int| 0 <= j < k ==> #[trigger] e[j] != x
}

/// The first position of `x` in `e` (meaningful when `e` contains `x`).
pub open spec fn first_index(e: Seq<usize>, x: usize) -> int {
    choose|k: int| is_first_index(e, x, k)
}

/// One step from position `k` in a cycle of `n`, forward when `dir > 0`.
pub open spec fn step(k: int, n: int, dir: int) -> int {
    if dir > 0 {
        if k + 1 < n {
            k + 1
        } else {
            0
        }
    } else {
        if k > 0 {
            k - 1
        } else {
            n - 1
        }
    }
}

/// The participant who plays after `current`: one step along the turn cycle
/// from `current`'s place. When `current` is seated but not in the cycle (a
/// spectator), the next non-spectator from their seat in the direction of
/// play, wrapping round; when `current` is not seated, the first of the
/// cycle; `current` itself when the cycle is empty.
pub open spec fn next_eligible(c: Seq<PlayerConnection>, current: usize, dir: int) -> usize {
    let e = eligible(c);
    if e.len() == 0 {
        current
    } else if e.contains(current) {
        e[step(first_index(e, current), e.len() as int, dir)]
    } else if holds_player(c, current) {
        let b = eligible(c.take(slot_of(c, current))).len() as int;
        if dir > 0 {
            if b < e.len() {
                e[b]
            } else {
                e[0]
            }
        } else {
            if b > 0 {
                e[b - 1]
            } else {
                e[e.len() - 1]
            }
        }
    } else {
        e[0]
    }
}

/// The position `next_eligible` picks in the turn cycle.
pub proof fn lemma_next_position(c: Seq<PlayerConnection>, current: usize, dir: int)
    requires
        eligible(c).len() > 0,
    ensures
        exists|k: int| 0 <= k < eligible(c).len() && eligible(c)[k] == next_eligible(c, current, dir),
{
    let e = eligible(c);
    if e.contains(current) {
        let k0 = choose|k: int| 0 <= k < e.len() && e[k] == current;
        lemma_has_first_index(e, current, k0);
        let k = step(first_index(e, current), e.len() as int, dir);
        assert(e[k] == next_eligible(c, current, dir));
    } else if holds_player(c, current) {
        lemma_slot_of(c, current);
        lemma_eligible_take_len(c, slot_of(c, current));
        let b = eligible(c.take(slot_of(c, current))).len() as int;
        if dir > 0 {
            if b < e.len() {
                assert(e[b] == next_eligible(c, current, dir));
            } else {
                assert(e[0] == next_eligible(c, current, dir));
            }
        } else {
            if b > 0 {
                assert(e[b - 1] == next_eligible(c, current, dir));
            } else {
                assert(e[e.len() - 1] == next_eligible(c, current, dir));
            }
        }
    } else {
        assert(e[0] == next_eligible(c, current, dir));
    }
}

/// A prefix of the seating has no more non-spectators than the whole.
pub proof fn lemma_eligible_take_len(c: Seq<PlayerConnection>, k: int)
    requires
        0 <= k <= c.len(),
    ensures
        eligible(c.take(k)).len() <= eligible(c).len(),
    decreases c.len() - k,
{
    if k < c.len() {
        lemma_eligible_take_len(c, k + 1);
        assert(c.take(k + 1).drop_last() =~= c.take(k));
    } else {
        assert(c.take(k) =~= c);
    }
}

/// Pools that agree on ids and spectator flags have the same turn cycle and
/// the same next player from anyone.
pub proof fn lemma_seating_frame(c1: Seq<PlayerConnection>, c2: Seq<PlayerConnection>)
    requires
        same_seating(c1, c2),
    ensures
        eligible(c1) == eligible(c2),
        forall|x: usize, d: int| #[trigger] next_eligible(c1, x, d) == next_eligible(c2, x, d),
        forall|x: usize, d: int| next_eligible(c1, x, d) == #[trigger] next_eligible(c2, x, d),
{
    lemma_eligible_frame(c1, c2);
    assert forall|x: usize, d: int| #[trigger] next_eligible(c1, x, d) == next_eligible(c2, x, d) by {
        if holds_player(c1, x) {
            let i = choose|i: int| 0 <= i < c1.len() && #[trigger] c1[i].player.id == x;
            assert(c2[i].player.id == x);
            lemma_slot_of(c1, x);
            let k = slot_of(c1, x);
            assert(is_first_slot(c2, x, k)) by {
                assert forall|j: int| 0 <= j < k implies #[trigger] c2[j].player.id != x by {
                    assert(c1[j].player.id == c2[j].player.id);
                }
            }
            lemma_first_slot_unique(c2, x, k);
            assert(same_seating(c1.take(k), c2.take(k))) by {
                assert forall|j: int| 0 <= j < k implies (#[trigger] c1.take(k)[j]).player.id == c2.take(k)[j].player.id
                    && c1.take(k)[j].player.is_spectator == c2.take(k)[j].player.is_spectator by {
                    assert(c1.take(k)[j] == c1[j]);
                    assert(c2.take(k)[j] == c2[j]);
                }
            }
            lemma_eligible_frame(c1.take(k), c2.take(k));
        } else {
            assert(!holds_player(c2, x)) by {
                if holds_player(c2, x) {
                    let i = choose|i: int| 0 <= i < c2.len() && #[trigger] c2[i].player.id == x;
                    assert(c1[i].player.id == x);
                }
            }
        }
    }
}

/// `next_eligible` applied `n` times.
pub open spec fn advance(c: Seq<PlayerConnection>, current: usize, dir: int, n: nat) -> usize
    decreases n,
{
    if n == 0 {
        current
    } else {
        next_eligible(c, advance(c, current, dir, (n - 1) as nat), dir)
    }
}

/// The next player is in the turn cycle whenever the cycle is not empty.
pub proof fn lemma_next_in_cycle(c: Seq<PlayerConnection>, x: usize, dir: int)
    requires
        eligible(c).len() > 0,
    ensures
        eligible(c).contains(next_eligible(c, x, dir)),
{
    lemma_next_position(c, x, dir);
}

/// In a cycle of two, two steps in the same direction lead back.
pub proof fn lemma_two_cycle(c: Seq<PlayerConnection>, y: usize, dir: int)
    requires
        ids_unique(c),
        eligible(c).len() == 2,
        eligible(c).contains(y),
    ensures
        next_eligible(c, next_eligible(c, y, dir), dir) == y,
{
    let e = eligible(c);
    lemma_eligible_unique(c);
    let k0 = choose|k: int| 0 <= k < e.len() && e[k] == y;
    lemma_has_first_index(e, y, k0);
    let k = first_index(e, y);
    let s = step(k, 2, dir);
    let q = e[s];
    assert(is_first_index(e, q, s)) by {
        assert forall|j: int| 0 <= j < s implies #[trigger] e[j] != q by {
            assert(e.no_duplicates());
        }
    }
    lemma_first_index_unique(e, q, s);
    assert(e.contains(q)) by {
        assert(e[s] == q);
    }
    assert(step(s, 2, dir) == k);
}

/// Unseating a spectator leaves the turn cycle as it was.
pub proof fn lemma_eligible_remove_spectator(c: Seq<PlayerConnection>, i: int)
    requires
        0 <= i < c.len(),
        c[i].player.is_spectator,
    ensures
        eligible(c.remove(i)) == eligible(c),
    decreases c.len(),
{
    let r = c.remove(i);
    if i == c.len() - 1 {
        assert(r =~= c.drop_last());
        assert(c.last() == c[i]);
    } else {
        assert(r.drop_last() =~= c.drop_last().remove(i));
        assert(c.drop_last()[i] == c[i]);
        lemma_eligible_remove_spectator(c.drop_last(), i);
        assert(r.last() == c.last());
    }
}

/// Stepping depends on the seating's ids and spectator flags only.
pub proof fn lemma_advance_frame(c1: Seq<PlayerConnection>, c2: Seq<PlayerConnection>, cur: usize, dir: int, n: nat)
    requires
        same_seating(c1, c2),
    ensures
        advance(c1, cur, dir, n) == advance(c2, cur, dir, n),
    decreases n,
{
    if n > 0 {
        lemma_advance_frame(c1, c2, cur, dir, (n - 1) as nat);
        lemma_seating_frame(c1, c2);
        assert(next_eligible(c1, advance(c2, cur, dir, (n - 1) as nat), dir) == next_eligible(
            c2,
            advance(c2, cur, dir, (n - 1) as nat),
            dir,
        ));
    }
}

/// Two pools agree on every seat's id and spectator flag.
pub open spec fn same_seating(c1: Seq<PlayerConnection>, c2: Seq<PlayerConnection>) -> bool {
    &&& c1.len() == c2.len()
    &&& forall|i: int|
        0 <= i < c1.len() ==> (#[trigger] c1[i]).player.id == c2[i].player.id
            && c1[i].player.is_spectator == c2[i].player.is_spectator
}

proof fn lemma_first_index_unique(e: Seq<usize>, x: usize, k: int)
    requires
        is_first_index(e, x, k),
    ensures
        first_index(e, x) == k,
{
    let f = first_index(e, x);
    assert(is_first_index(e, x, f));
    if f < k {
        assert(e[f] != x);
    } else if k < f {
        assert(e[k] != x);
    }
}

/// The turn cycle depends on ids and spectator flags only.
pub proof fn lemma_eligible_frame(c1: Seq<PlayerConnection>, c2: Seq<PlayerConnection>)
    requires
        same_seating(c1, c2),
    ensures
        eligible(c1) == eligible(c2),
    decreases c1.len(),
{
    if c1.len() > 0 {
        let d1 = c1.drop_last();
        let d2 = c2.drop_last();
        assert forall|i: int| 0 <= i < d1.len() implies (#[trigger] d1[i]).player.id == d2[i].player.id
            && d1[i].player.is_spectator == d2[i].player.is_spectator by {
            assert(d1[i] == c1[i]);
            assert(d2[i] == c2[i]);
        }
        lemma_eligible_frame(d1, d2);
        assert(c1.last() == c1[c1.len() - 1]);
        assert(c2.last() == c2[c2.len() - 1]);
    }
}

/// Every entry of the turn cycle is the id of a seated non-spectator.
pub proof fn lemma_eligible_members(c: Seq<PlayerConnection>)
    ensures
        eligible(c).len() <= c.len(),
        forall|k: int|
            0 <= k < eligible(c).len() ==> exists|i: int|
                0 <= i < c.len() && #[trigger] c[i].player.id == #[trigger] eligible(c)[k]
                    && !c[i].player.is_spectator,
    decreases c.len(),
{
    if c.len() > 0 {
        let d = c.drop_last();
        lemma_eligible_members(d);
        let e = eligible(c);
        assert forall|k: int| 0 <= k < e.len() implies exists|i: int|
            0 <= i < c.len() && #[trigger] c[i].player.id == #[trigger] e[k]
                && !c[i].player.is_spectator by {
            if k < eligible(d).len() {
                assert(e[k] == eligible(d)[k]);
                let i = choose|i: int|
                    0 <= i < d.len() && #[trigger] d[i].player.id == #[trigger] eligible(d)[k]
                        && !d[i].player.is_spectator;
                assert(c[i] == d[i]);
            } else {
                assert(c[c.len() - 1] == c.last());
            }
        }
    }
}

/// Every seated non-spectator is in the turn cycle.
pub proof fn lemma_eligible_contains(c: Seq<PlayerConnection>, i: int)
    requires
        0 <= i < c.len(),
        !c[i].player.is_spectator,
    ensures
        eligible(c).contains(c[i].player.id),
    decreases c.len(),
{
    let d = c.drop_last();
    if i == c.len() - 1 {
        assert(c.last() == c[i]);
        assert(eligible(c).last() == c[i].player.id);
        assert(eligible(c)[eligible(c).len() - 1] == c[i].player.id);
    } else {
        assert(d[i] == c[i]);
        lemma_eligible_contains(d, i);
        let k = choose|k: int| 0 <= k < eligible(d).len() && eligible(d)[k] == c[i].player.id;
        if !c.last().player.is_spectator {
            assert(eligible(c)[k] == eligible(d)[k]);
        }
    }
}

/// With unique seat ids, the turn cycle has no repeated id.
pub proof fn lemma_eligible_unique(c: Seq<PlayerConnection>)
    requires
        ids_unique(c),
    ensures
        eligible(c).no_duplicates(),
    decreases c.len(),
{
    if c.len() > 0 {
        let d = c.drop_last();
        assert forall|i: int, j: int|
            0 <= i < d.len() && 0 <= j < d.len() && #[trigger] d[i].player.id == #[trigger] d[j].player.id
                implies i == j by {
            assert(d[i] == c[i]);
            assert(d[j] == c[j]);
        }
        lemma_eligible_unique(d);
        lemma_eligible_members(d);
        if !c.last().player.is_spectator {
            let e = eligible(c);
            let ed = eligible(d);
            assert forall|a: int, b: int| 0 <= a < e.len() && 0 <= b < e.len() && a != b implies e[a]
                != e[b] by {
                if a < ed.len() && b < ed.len() {
                    assert(e[a] == ed[a] && e[b] == ed[b]);
                } else if a < ed.len() {
                    assert(e[a] == ed[a]);
                    let i = choose|i: int|
                        0 <= i < d.len() && #[trigger] d[i].player.id == #[trigger] ed[a]
                            && !d[i].player.is_spectator;
                    assert(c[i] == d[i]);
                    assert(c[c.len() - 1] == c.last());
                } else if b < ed.len() {
                    assert(e[b] == ed[b]);
                    let i = choose|i: int|
                        0 <= i < d.len() && #[trigger] d[i].player.id == #[trigger] ed[b]
                            && !d[i].player.is_spectator;
                    assert(c[i] == d[i]);
                    assert(c[c.len() - 1] == c.last());
                }
            }
        }
    }
}

/// No spectator is ever in the turn cycle: every id in it belongs to a
/// seated participant who is not a spectator, (ids being unique) no
/// spectator's id occurs in it, every non-spectator's does, and whoever is
/// next to play is a seated non-spectator.
pub proof fn lemma_spectators_never_take_turns(c: Seq<PlayerConnection>)
    requires
        ids_unique(c),
    ensures
        forall|i: int|
            0 <= i < c.len() && !c[i].player.is_spectator ==> eligible(c).contains(
                #[trigger] c[i].player.id,
            ),
        forall|i: int|
            0 <= i < c.len() && c[i].player.is_spectator ==> !eligible(c).contains(
                #[trigger] c[i].player.id,
            ),
        forall|cur: usize, dir: int|
            eligible(c).len() > 0 ==> exists|i: int|
                0 <= i < c.len() && c[i].player.id == #[trigger] next_eligible(c, cur, dir)
                    && !c[i].player.is_spectator,
{
    lemma_eligible_members(c);
    assert forall|i: int| 0 <= i < c.len() && !c[i].player.is_spectator implies eligible(c).contains(
        #[trigger] c[i].player.id,
    ) by {
        lemma_eligible_contains(c, i);
    }
    assert forall|i: int|
        0 <= i < c.len() && c[i].player.is_spectator implies !eligible(c).contains(
        #[trigger] c[i].player.id,
    ) by {
        if eligible(c).contains(c[i].player.id) {
            let k = choose|k: int| 0 <= k < eligible(c).len() && eligible(c)[k] == c[i].player.id;
            let j = choose|j: int|
                0 <= j < c.len() && #[trigger] c[j].player.id == #[trigger] eligible(c)[k]
                    && !c[j].player.is_spectator;
            assert(c[i].player.id == c[j].player.id);
        }
    }
    assert forall|cur: usize, dir: int| eligible(c).len() > 0 implies exists|i: int|
        0 <= i < c.len() && c[i].player.id == #[trigger] next_eligible(c, cur, dir)
            && !c[i].player.is_spectator by {
        let e = eligible(c);
        lemma_next_position(c, cur, dir);
        let k = choose|k: int| 0 <= k < e.len() && e[k] == next_eligible(c, cur, dir);
        let i = choose|i: int|
            0 <= i < c.len() && #[trigger] c[i].player.id == #[trigger] e[k]
                && !c[i].player.is_spectator;
    }
}

/// An element at position `k` has a first position.
pub proof fn lemma_has_first_index(e: Seq<usize>, x: usize, k: int)
    requires
        0 <= k < e.len(),
        e[k] == x,
    ensures
        exists|f: int| is_first_index(e, x, f),
        is_first_index(e, x, first_index(e, x)),
    decreases k,
{
    if exists|j: int| 0 <= j < k && e[j] == x {
        let j = choose|j: int| 0 <= j < k && e[j] == x;
        lemma_has_first_index(e, x, j);
    } else {
        assert(is_first_index(e, x, k));
    }
}

/// Two reversals of the direction leave it, and so the next player, as they
/// were; and reversing undoes a step: from the player after `p`, the next
/// player in the opposite direction is `p` again.
pub proof fn lemma_reverse_symmetry(c: Seq<PlayerConnection>, p: usize, dir: int)
    requires
        ids_unique(c),
        dir == 1 || dir == -1,
        eligible(c).contains(p),
    ensures
        -(-dir) == dir,
        next_eligible(c, p, -(-dir)) == next_eligible(c, p, dir),
        next_eligible(c, next_eligible(c, p, dir), -dir) == p,
{
    let e = eligible(c);
    let n = e.len() as int;
    lemma_eligible_unique(c);
    let k0 = choose|k: int| 0 <= k < e.len() && e[k] == p;
    lemma_has_first_index(e, p, k0);
    let k = first_index(e, p);
    let s = step(k, n, dir);
    let q = e[s];
    assert(is_first_index(e, q, s)) by {
        assert forall|j: int| 0 <= j < s implies #[trigger] e[j] != q by {
            assert(e.no_duplicates());
        }
    }
    lemma_first_index_unique(e, q, s);
    assert(e.contains(q)) by {
        assert(e[s] == q);
    }
    assert(step(s, n, -dir) == k);
}

/// The turn cycle of `conns`.
pub fn eligible_ids(conns: &Vec<PlayerConnection>) -> (r: Vec<usize>)
    ensures
        r@ == eligible(conns@),
{
    let mut r: Vec<usize> = Vec::new();
    let mut i: usize = 0;
    while i < conns.len()
        invariant
            i <= conns@.len(),
            r@ == eligible(conns@.take(i as int)),
        decreases conns@.len() - i,
    {
        proof {
            assert(conns@.take(i as int + 1).drop_last() =~= conns@.take(i as int));
            assert(conns@.take(i as int + 1).last() == conns@[i as int]);
        }
        if !conns[i].player.is_spectator {
            r.push(conns[i].player.id);
        }
        i = i + 1;
    }
    assert(conns@.take(i as int) =~= conns@);
    r
}

/// The first position of `x` in `v`, if any.
pub fn first_position(v: &Vec<usize>, x: usize) -> (r: Option<usize>)
    ensures
        r is None <==> !v@.contains(x),
        r is Some ==> is_first_index(v@, x, r->0 as int) && r->0 == first_index(v@, x),
{
    let mut i: usize = 0;
    while i < v.len()
        invariant
            i <= v@.len(),
            forall|j: int| 0 <= j < i ==> #[trigger] v@[j] != x,
        decreases v@.len() - i,
    {
        if v[i] == x {
            proof {
                lemma_first_index_unique(v@, x, i as int);
            }
            return Some(i);
        }
        i = i + 1;
    }
    None
}

/// The first seat of `conns` holding participant `id`, if any.
pub fn seat_of(conns: &Vec<PlayerConnection>, id: usize) -> (r: Option<usize>)
    ensures
        r is None <==> !holds_player(conns@, id),
        r is Some ==> r.unwrap() == slot_of(conns@, id) && is_first_slot(conns@, id, r.unwrap() as int),
{
    let mut i: usize = 0;
    while i < conns.len()
        invariant
            i <= conns@.len(),
            forall|j: int| 0 <= j < i ==> #[trigger] conns@[j].player.id != id,
        decreases conns@.len() - i,
    {
        if conns[i].player.id == id {
            proof {
                lemma_first_slot_unique(conns@, id, i as int);
            }
            return Some(i);
        }
        i = i + 1;
    }
    None
}

/// How many non-spectators sit before seat `k`.
pub fn eligible_before(conns: &Vec<PlayerConnection>, k: usize) -> (r: usize)
    requires
        k <= conns@.len(),
    ensures
        r == eligible(conns@.take(k as int)).len(),
{
    let mut n: usize = 0;
    let mut i: usize = 0;
    while i < k
        invariant
            i <= k,
            k <= conns@.len(),
            n == eligible(conns@.take(i as int)).len(),
            n <= i,
        decreases k - i,
    {
        proof {
            assert(conns@.take(i as int + 1).drop_last() =~= conns@.take(i as int));
            assert(conns@.take(i as int + 1).last() == conns@[i as int]);
        }
        if !conns[i].player.is_spectator {
            n = n + 1;
        }
        i = i + 1;
    }
    n
}

/// The participant who plays after `current` in direction `dir`.
pub fn next_eligible_id(conns: &Vec<PlayerConnection>, current: usize, dir: i8) -> (r: usize)
    ensures
        r == next_eligible(conns@, current, dir as int),
{
    let e = eligible_ids(conns);
    let n = e.len();
    if n == 0 {
        return current;
    }
    match first_position(&e, current) {
        Some(k) => {
            let s = if dir > 0 {
                if k + 1 < n {
                    k + 1
                } else {
                    0
                }
            } else {
                if k > 0 {
                    k - 1
                } else {
                    n - 1
                }
            };
            e[s]
        },
        None => match seat_of(conns, current) {
            Some(i) => {
                let b = eligible_before(conns, i);
                proof {
                    lemma_eligible_take_len(conns@, i as int);
                }
                if dir > 0 {
                    if b < n {
                        e[b]
                    } else {
                        e[0]
                    }
                } else {
                    if b > 0 {
                        e[b - 1]
                    } else {
                        e[n - 1]
                    }
                }
            },
            None => e[0],
        },
    }
}

} // verus!
