//! The order in which a finished race lists its players.
use vstd::prelude::*;

use crate::protocol::{PlayerSnapshot, RoomSnapshot};
use crate::session::SessionMode;

verus! {

/// Sign bit of an `f64` bit pattern.
pub const SIGN_BIT: u64 = 0x8000_0000_0000_0000;

/// Position of the `f64` with these bits in the order of `f64::total_cmp`:
/// non-negative values ordered by their bits, negative ones below them in
/// reverse order of their bits.
pub open spec fn total_rank(bits: u64) -> int {
    if bits < SIGN_BIT {
        bits as int
    } else {
        -1 - (bits - SIGN_BIT)
    }
}

/// What a player is ranked by, smallest first. A timed race puts finished
/// players first, then higher speed, then higher accuracy; other races put
/// players with a finishing time first, quickest first.
pub open spec fn race_key(p: PlayerSnapshot, mode: SessionMode) -> (int, int, int) {
    match mode {
        SessionMode::Timed(_) => (
            if p.finished { 0int } else { 1int },
            -total_rank(p.wpm_bits),
            -total_rank(p.accuracy_bits),
        ),
        _ => match p.elapsed_ms {
            Some(ms) => (0int, ms as int, 0int),
            None => (1int, u64::MAX as int, 0int),
        },
    }
}

/// Player `i` is listed before player `j`: a smaller key, or an equal key
/// and an earlier place in the room (the order is stable).
pub open spec fn listed_before(players: Seq<PlayerSnapshot>, mode: SessionMode, i: int, j: int) -> bool {
    let a = race_key(players[i], mode);
    let b = race_key(players[j], mode);
    a.0 < b.0 || (a.0 == b.0 && (a.1 < b.1 || (a.1 == b.1 && (a.2 < b.2 || (a.2 == b.2 && i < j)))))
}

/// `total_rank(a) > total_rank(b)`, on the bits.
fn ranks_above(a: u64, b: u64) -> (r: bool)
    ensures
        r == (total_rank(a) > total_rank(b)),
{
    if a < SIGN_BIT {
        if b < SIGN_BIT {
            a > b
        } else {
            true
        }
    } else if b < SIGN_BIT {
        false
    } else {
        a < b
    }
}

proof fn lemma_rank_injective(a: u64, b: u64)
    ensures
        total_rank(a) == total_rank(b) <==> a == b,
{
}

fn is_listed_before(players: &Vec<PlayerSnapshot>, mode: SessionMode, i: usize, j: usize) -> (r: bool)
    requires
        i < players@.len(),
        j < players@.len(),
    ensures
        r == listed_before(players@, mode, i as int, j as int),
{
    let a = &players[i];
    let b = &players[j];
    match mode {
        SessionMode::Timed(_) => {
            proof {
                lemma_rank_injective(a.wpm_bits, b.wpm_bits);
                lemma_rank_injective(a.accuracy_bits, b.accuracy_bits);
            }
            if a.finished != b.finished {
                a.finished
            } else if ranks_above(a.wpm_bits, b.wpm_bits) {
                true
            } else if ranks_above(b.wpm_bits, a.wpm_bits) {
                false
            } else if ranks_above(a.accuracy_bits, b.accuracy_bits) {
                true
            } else if ranks_above(b.accuracy_bits, a.accuracy_bits) {
                false
            } else {
                i < j
            }
        },
        _ => match (a.elapsed_ms, b.elapsed_ms) {
            (Some(x), Some(y)) => if x != y { x < y } else { i < j },
            (Some(_), None) => true,
            (None, Some(_)) => false,
            (None, None) => i < j,
        },
    }
}

/// The players of a room as its results list them: every player once,
/// ordered by `race_key` and, on equal keys, by their place in the room.
pub fn race_order(room: &RoomSnapshot) -> (r: Vec<usize>)
    ensures
        r@.len() == room.players@.len(),
        forall|q: int| 0 <= q < r@.len() ==> (#[trigger] r@[q]) < room.players@.len(),
        forall|p: int, q: int|
            0 <= p < q < r@.len() ==> listed_before(room.players@, room.mode, #[trigger] r@[p] as int, #[trigger] r@[q] as int),
{
    let players = &room.players;
    let mode = room.mode;
    let ghost ps = players@;
    let mut order: Vec<usize> = Vec::new();
    let mut k: usize = 0;
    while k < players.len()
        invariant
            ps == players@,
            mode == room.mode,
            ps == room.players@,
            k <= ps.len(),
            order@.len() == k,
            forall|q: int| 0 <= q < order@.len() ==> (#[trigger] order@[q]) < k,
            forall|p: int, q: int|
                0 <= p < q < order@.len() ==> listed_before(ps, mode, #[trigger] order@[p] as int, #[trigger] order@[q] as int),
        decreases ps.len() - k,
    {
        let mut at: usize = 0;
        while at < order.len() && is_listed_before(players, mode, order[at], k)
            invariant
                ps == players@,
                k < ps.len(),
                at <= order@.len(),
                order@.len() == k,
                forall|q: int| 0 <= q < order@.len() ==> (#[trigger] order@[q]) < k,
                forall|q: int| 0 <= q < at ==> listed_before(ps, mode, #[trigger] order@[q] as int, k as int),
            decreases order@.len() - at,
        {
            at += 1;
        }
        proof {
            if at < order@.len() {
                assert(!listed_before(ps, mode, order@[at as int] as int, k as int));
                assert forall|q: int| at <= q < order@.len() implies listed_before(ps, mode, k as int, #[trigger] order@[q] as int) by {
                    if q > at {
                        assert(listed_before(ps, mode, order@[at as int] as int, order@[q] as int));
                    }
                }
            }
        }
        let ghost before = order@;
        order.insert(at, k);
        proof {
            assert forall|p: int, q: int|
                0 <= p < q < order@.len() implies listed_before(ps, mode, #[trigger] order@[p] as int, #[trigger] order@[q] as int) by {
                if q < at {
                    assert(order@[p] == before[p] && order@[q] == before[q]);
                } else if q == at {
                    assert(order@[p] == before[p]);
                } else if p < at {
                    assert(order@[q] == before[q - 1]);
                    assert(listed_before(ps, mode, before[p] as int, k as int));
                } else if p == at {
                    assert(order@[q] == before[q - 1]);
                } else {
                    assert(order@[p] == before[p - 1] && order@[q] == before[q - 1]);
                }
            }
        }
        k += 1;
    }
    order
}

} // verus!
