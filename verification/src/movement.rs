//! The movement half of the tick: advance every snake one cell, decide
//! collisions symmetrically, and respawn the losers.

use vstd::prelude::*;

use crate::engine::{fresh_snake, ids_unique, spawn_snake, World};
use crate::rng::random_below;
use crate::types::{Direction, PlayerDeathEvent, PlayerInfo, PlayerList, Position};

verus! {

/// `p` sits exactly on the cell `(x, y)`.
pub open spec fn pos_is(p: Position, x: int, y: int) -> bool {
    p.x == x && p.y == y
}

/// The cell `(x, y)` lies inside the arena.
pub open spec fn in_arena_xy(x: int, y: int) -> bool {
    0 <= x < crate::ARENA_WIDTH && 0 <= y < crate::ARENA_HEIGHT
}

/// The cell this player's head is about to step onto: one cell from the
/// current head position along the current heading.
pub open spec fn proposal(p: PlayerInfo) -> (int, int) {
    let head = p.snake_segments@[0];
    match p.direction {
        Direction::Left => (head.x - 1, head.y as int),
        Direction::Right => (head.x + 1, head.y as int),
        Direction::Up => (head.x as int, head.y + 1),
        Direction::Down => (head.x as int, head.y - 1),
    }
}

/// Some snake segment (of any player, themselves included) sits on `(x, y)`.
pub open spec fn occupied(ps: Seq<PlayerInfo>, x: int, y: int) -> bool {
    exists|i: int, j: int|
        0 <= i < ps.len() && 0 <= j < ps[i].snake_segments@.len() && pos_is(
            #[trigger] ps[i].snake_segments@[j],
            x,
            y,
        )
}

/// Another player's head is about to step onto the same cell as this one's.
pub open spec fn head_clash(ps: Seq<PlayerInfo>, i: int) -> bool {
    exists|j: int| 0 <= j < ps.len() && j != i && #[trigger] proposal(ps[j]) == proposal(ps[i])
}

/// Player `i` dies this tick: its head is about to leave the arena, to land
/// on a cell some segment already holds, or to land on a cell another head is
/// stepping onto at the same moment. All checks read the pre-move state, so
/// the outcome is the same whatever order players are examined in.
pub open spec fn dies_in_tick(ps: Seq<PlayerInfo>, i: int) -> bool {
    let pr = proposal(ps[i]);
    ||| !in_arena_xy(pr.0, pr.1)
    ||| occupied(ps, pr.0, pr.1)
    ||| head_clash(ps, i)
}

/// A snake after one move: the head on the proposed cell, every trailing
/// segment on the cell its predecessor vacated, the old tail cell dropped.
pub open spec fn shifted_segments(s: Seq<Position>, x: int, y: int) -> Seq<Position> {
    seq![Position { x: x as i32, y: y as i32 }] + s.drop_last()
}

/// The survivor `q` is the player `p` moved one cell: same identity, name,
/// heading and spawn point; segments shifted; the vacated tail cell recorded.
pub open spec fn moved(p: PlayerInfo, q: PlayerInfo) -> bool {
    &&& q.player_id == p.player_id
    &&& q.player_name == p.player_name
    &&& q.direction == p.direction
    &&& q.spawn_pos == p.spawn_pos
    &&& q.snake_segments@ == shifted_segments(p.snake_segments@, proposal(p).0, proposal(p).1)
    &&& q.last_tail_position == Some(p.snake_segments@.last())
}

/// Ids of the players among the first `n` that die this tick, in player order.
pub open spec fn dying_ids_up_to(ps: Seq<PlayerInfo>, n: int) -> Seq<Seq<char>>
    decreases n,
{
    if n <= 0 {
        Seq::empty()
    } else {
        dying_ids_up_to(ps, n - 1) + if dies_in_tick(ps, n - 1) {
            seq![ps[n - 1].player_id@]
        } else {
            Seq::empty()
        }
    }
}

/// True when some snake segment sits on the cell of `p`.
pub(crate) fn is_occupied(pl: &PlayerList, p: Position) -> (r: bool)
    ensures
        r == occupied(pl@, p.x as int, p.y as int),
{
    let n = pl.0.len();
    let mut i: usize = 0;
    while i < n
        invariant
            n == pl@.len(),
            0 <= i <= n,
            forall|a: int, b: int|
                0 <= a < i && 0 <= b < pl@[a].snake_segments@.len() ==> !pos_is(
                    #[trigger] pl@[a].snake_segments@[b],
                    p.x as int,
                    p.y as int,
                ),
        decreases n - i,
    {
        let m = pl.0[i].snake_segments.len();
        let mut j: usize = 0;
        while j < m
            invariant
                n == pl@.len(),
                0 <= i < n,
                m == pl@[i as int].snake_segments@.len(),
                0 <= j <= m,
                forall|b: int|
                    0 <= b < j ==> !pos_is(
                        #[trigger] pl@[i as int].snake_segments@[b],
                        p.x as int,
                        p.y as int,
                    ),
            decreases m - j,
        {
            let q = pl.0[i].snake_segments[j];
            if q.x == p.x && q.y == p.y {
                return true;
            }
            j = j + 1;
        }
        i = i + 1;
    }
    false
}

/// Advance every snake one cell. A player whose proposed head cell violates
/// the rules (see [`dies_in_tick`]) is left exactly as it was and reported in
/// the returned list, one event per dying player, in player order; every
/// other snake moves. Food and leaderboard are untouched.
pub fn snake_movement(w: &mut World) -> (deaths: Vec<PlayerDeathEvent>)
    requires
        old(w).wf(),
    ensures
        final(w).wf(),
        final(w).leader_board == old(w).leader_board,
        final(w).foods == old(w).foods,
        final(w).player_list@.len() == old(w).player_list@.len(),
        forall|i: int|
            0 <= i < old(w).player_list@.len() && dies_in_tick(old(w).player_list@, i)
                ==> final(w).player_list@[i] == old(w).player_list@[i],
        forall|i: int|
            0 <= i < old(w).player_list@.len() && !dies_in_tick(old(w).player_list@, i) ==> moved(
                old(w).player_list@[i],
                #[trigger] final(w).player_list@[i],
            ),
        deaths@.len() == dying_ids_up_to(old(w).player_list@, old(w).player_list@.len() as int).len(),
        forall|k: int|
            0 <= k < deaths@.len() ==> (#[trigger] deaths@[k]).player_id@ == dying_ids_up_to(
                old(w).player_list@,
                old(w).player_list@.len() as int,
            )[k],
{
    let ghost ps0 = w.player_list@;
    let n = w.player_list.0.len();

    // First pass: where every head wants to go.
    let mut props: Vec<Position> = Vec::new();
    let mut i: usize = 0;
    while i < n
        invariant
            old(w).wf(),
            w == old(w),
            n == ps0.len(),
            ps0 == w.player_list@,
            0 <= i <= n,
            props@.len() == i,
            forall|k: int|
                0 <= k < i ==> pos_is(#[trigger] props@[k], proposal(ps0[k]).0, proposal(ps0[k]).1),
        decreases n - i,
    {
        let head = w.player_list.0[i].snake_segments[0];
        let (nx, ny): (i32, i32) = match w.player_list.0[i].direction {
            Direction::Left => (head.x - 1, head.y),
            Direction::Right => (head.x + 1, head.y),
            Direction::Up => (head.x, head.y + 1),
            Direction::Down => (head.x, head.y - 1),
        };
        props.push(Position { x: nx, y: ny });
        i = i + 1;
    }

    // Second pass: who dies. All checks read the pre-move state.
    let mut dead: Vec<bool> = Vec::new();
    let mut i: usize = 0;
    while i < n
        invariant
            old(w).wf(),
            w == old(w),
            n == ps0.len(),
            ps0 == w.player_list@,
            0 <= i <= n,
            props@.len() == n,
            forall|k: int|
                0 <= k < n ==> pos_is(#[trigger] props@[k], proposal(ps0[k]).0, proposal(ps0[k]).1),
            dead@.len() == i,
            forall|k: int| 0 <= k < i ==> dead@[k] == dies_in_tick(ps0, k),
        decreases n - i,
    {
        let pr = props[i];
        let mut dies = !(pr.x >= 0 && pr.y >= 0 && pr.x < crate::ARENA_WIDTH as i32 && pr.y
            < crate::ARENA_HEIGHT as i32);
        if !dies {
            dies = is_occupied(&w.player_list, pr);
        }
        if !dies {
            let mut j: usize = 0;
            while j < n
                invariant
                    n == ps0.len(),
                    0 <= i < n,
                    0 <= j <= n,
                    props@.len() == n,
                    forall|k: int|
                        0 <= k < n ==> pos_is(
                            #[trigger] props@[k],
                            proposal(ps0[k]).0,
                            proposal(ps0[k]).1,
                        ),
                    !dies ==> forall|k: int|
                        0 <= k < j && k != i ==> #[trigger] proposal(ps0[k]) != proposal(
                            ps0[i as int],
                        ),
                    dies ==> head_clash(ps0, i as int),
                decreases n - j,
            {
                if j != i && props[j].x == props[i].x && props[j].y == props[i].y {
                    proof {
                        assert(proposal(ps0[j as int]) == proposal(ps0[i as int]));
                    }
                    dies = true;
                }
                j = j + 1;
            }
        }
        dead.push(dies);
        i = i + 1;
    }

    // Third pass: move the survivors in place, collect the deaths.
    let mut deaths: Vec<PlayerDeathEvent> = Vec::new();
    let mut i: usize = 0;
    while i < n
        invariant
            old(w).wf(),
            n == ps0.len(),
            ps0 == old(w).player_list@,
            w.leader_board == old(w).leader_board,
            w.foods == old(w).foods,
            0 <= i <= n,
            w.player_list@.len() == n,
            props@.len() == n,
            forall|k: int|
                0 <= k < n ==> pos_is(#[trigger] props@[k], proposal(ps0[k]).0, proposal(ps0[k]).1),
            dead@.len() == n,
            forall|k: int| 0 <= k < n ==> dead@[k] == dies_in_tick(ps0, k),
            forall|k: int| i <= k < n ==> #[trigger] w.player_list@[k] == ps0[k],
            forall|k: int|
                0 <= k < i && dies_in_tick(ps0, k) ==> #[trigger] w.player_list@[k] == ps0[k],
            forall|k: int|
                0 <= k < i && !dies_in_tick(ps0, k) ==> moved(ps0[k], #[trigger] w.player_list@[k]),
            deaths@.len() == dying_ids_up_to(ps0, i as int).len(),
            forall|k: int|
                0 <= k < deaths@.len() ==> (#[trigger] deaths@[k]).player_id@ == dying_ids_up_to(
                    ps0,
                    i as int,
                )[k],
        decreases n - i,
    {
        if dead[i] {
            let ev = PlayerDeathEvent { player_id: w.player_list.0[i].player_id.clone() };
            deaths.push(ev);
        } else {
            let prop = props[i];
            let len_s = w.player_list.0[i].snake_segments.len();
            let mut new_segs: Vec<Position> = Vec::new();
            new_segs.push(prop);
            let mut j: usize = 0;
            while j < len_s - 1
                invariant
                    0 <= i < n,
                    n == w.player_list@.len(),
                    len_s == w.player_list@[i as int].snake_segments@.len(),
                    len_s >= 2,
                    w.player_list@[i as int] == ps0[i as int],
                    ps0.len() == n,
                    0 <= j <= len_s - 1,
                    new_segs@.len() == j + 1,
                    new_segs@[0] == prop,
                    forall|t: int|
                        0 <= t < j ==> #[trigger] new_segs@[t + 1]
                            == w.player_list@[i as int].snake_segments@[t],
                decreases len_s - 1 - j,
            {
                let q = w.player_list.0[i].snake_segments[j];
                new_segs.push(q);
                j = j + 1;
            }
            let last = w.player_list.0[i].snake_segments[len_s - 1];
            w.player_list.0[i].snake_segments = new_segs;
            w.player_list.0[i].last_tail_position = Some(last);
            proof {
                let ss = ps0[i as int].snake_segments@;
                let pr = proposal(ps0[i as int]);
                assert(pos_is(prop, pr.0, pr.1));
                assert(-0x8000_0000 <= pr.0 < 0x8000_0000 && -0x8000_0000 <= pr.1 < 0x8000_0000);
                assert(prop == (Position { x: pr.0 as i32, y: pr.1 as i32 }));
                assert(new_segs@.len() == ss.len());
                assert(forall|t: int|
                    0 <= t < ss.len() - 1 ==> #[trigger] new_segs@[t + 1] == ss[t]);
                assert forall|t: int| 0 <= t < ss.len() implies new_segs@[t] == shifted_segments(
                    ss,
                    pr.0,
                    pr.1,
                )[t] by {
                    if t > 0 {
                        assert(new_segs@[(t - 1) + 1] == ss[t - 1]);
                    }
                }
                assert(w.player_list@[i as int].snake_segments@ =~= shifted_segments(
                    ps0[i as int].snake_segments@,
                    proposal(ps0[i as int]).0,
                    proposal(ps0[i as int]).1,
                ));
                assert(moved(ps0[i as int], w.player_list@[i as int]));
            }
        }
        i = i + 1;
    }

    proof {
        assert forall|k: int| 0 <= k < n implies (#[trigger] w.player_list@[k]).valid() by {
            if dies_in_tick(ps0, k) {
                assert(w.player_list@[k] == ps0[k]);
            } else {
                assert(moved(ps0[k], w.player_list@[k]));
                let pr = proposal(ps0[k]);
                assert(in_arena_xy(pr.0, pr.1));
                let s = w.player_list@[k].snake_segments@;
                assert forall|j: int| 0 <= j < s.len() implies (#[trigger] s[j]).in_arena() by {
                    if j > 0 {
                        assert(s[j] == ps0[k].snake_segments@[j - 1]);
                    }
                }
            }
        }
        assert forall|k1: int, k2: int| 0 <= k1 < k2 < n
            implies (#[trigger] w.player_list@[k1]).player_id@
                != (#[trigger] w.player_list@[k2]).player_id@ by {
            assert(w.player_list@[k1].player_id == ps0[k1].player_id);
            assert(w.player_list@[k2].player_id == ps0[k2].player_id);
        }
    }
    deaths
}

/// `q` is `p` respawned: same identity and name, fresh two-segment snake at
/// some in-arena column of the top row.
pub open spec fn respawned_from(q: PlayerInfo, p: PlayerInfo) -> bool {
    exists|x: int|
        0 <= x < crate::ARENA_WIDTH && fresh_snake(q, p.player_id@, p.player_name@, x)
}

/// Some player among the first `n` dies this tick and carries `id`.
pub open spec fn dying_id(ps: Seq<PlayerInfo>, n: int, id: Seq<char>) -> bool {
    exists|i: int| 0 <= i < n && dies_in_tick(ps, i) && (#[trigger] ps[i]).player_id@ == id
}

/// `id` appears among the first `k` entries of the dying-id list.
pub open spec fn id_listed_before(ps: Seq<PlayerInfo>, n: int, k: int, id: Seq<char>) -> bool {
    exists|t: int| 0 <= t < k && #[trigger] dying_ids_up_to(ps, n)[t] == id
}

/// Every id listed by [`dying_ids_up_to`] belongs to a dying player, and
/// every dying player's id is listed.
proof fn lemma_dying_ids_members(ps: Seq<PlayerInfo>, n: int)
    requires
        0 <= n <= ps.len(),
    ensures
        forall|k: int|
            0 <= k < dying_ids_up_to(ps, n).len() ==> dying_id(
                ps,
                n,
                #[trigger] dying_ids_up_to(ps, n)[k],
            ),
        forall|i: int|
            0 <= i < n && dies_in_tick(ps, i) ==> id_listed_before(
                ps,
                n,
                dying_ids_up_to(ps, n).len() as int,
                (#[trigger] ps[i]).player_id@,
            ),
    decreases n,
{
    if n > 0 {
        lemma_dying_ids_members(ps, n - 1);
        assert(forall|k: int|
            0 <= k < dying_ids_up_to(ps, n - 1).len() ==> #[trigger] dying_ids_up_to(ps, n)[k]
                == dying_ids_up_to(ps, n - 1)[k]);
        assert forall|k: int| 0 <= k < dying_ids_up_to(ps, n).len() implies dying_id(
            ps,
            n,
            #[trigger] dying_ids_up_to(ps, n)[k],
        ) by {
            if k < dying_ids_up_to(ps, n - 1).len() {
                assert(dying_id(ps, n - 1, dying_ids_up_to(ps, n - 1)[k]));
                let i = choose|i: int|
                    0 <= i < n - 1 && dies_in_tick(ps, i) && (#[trigger] ps[i]).player_id@
                        == dying_ids_up_to(ps, n - 1)[k];
                assert(0 <= i < n && dies_in_tick(ps, i) && ps[i].player_id@ == dying_ids_up_to(
                    ps,
                    n,
                )[k]);
            } else {
                assert(dies_in_tick(ps, n - 1));
                assert(dying_ids_up_to(ps, n)[k] == ps[n - 1].player_id@);
            }
        }
        assert forall|i: int| 0 <= i < n && dies_in_tick(ps, i) implies id_listed_before(
            ps,
            n,
            dying_ids_up_to(ps, n).len() as int,
            (#[trigger] ps[i]).player_id@,
        ) by {
            if i < n - 1 {
                assert(id_listed_before(
                    ps,
                    n - 1,
                    dying_ids_up_to(ps, n - 1).len() as int,
                    ps[i].player_id@,
                ));
                let t = choose|t: int|
                    0 <= t < dying_ids_up_to(ps, n - 1).len() && #[trigger] dying_ids_up_to(
                        ps,
                        n - 1,
                    )[t] == ps[i].player_id@;
                assert(dying_ids_up_to(ps, n)[t] == ps[i].player_id@);
            } else {
                let t = dying_ids_up_to(ps, n).len() - 1;
                assert(dying_ids_up_to(ps, n)[t] == ps[i].player_id@);
            }
        }
    }
}

/// With unique player ids the dying-id list has no repeated entry.
proof fn lemma_dying_ids_distinct(ps: Seq<PlayerInfo>, n: int)
    requires
        ids_unique(ps),
        0 <= n <= ps.len(),
    ensures
        forall|k1: int, k2: int|
            0 <= k1 < k2 < dying_ids_up_to(ps, n).len() ==> #[trigger] dying_ids_up_to(ps, n)[k1]
                != #[trigger] dying_ids_up_to(ps, n)[k2],
    decreases n,
{
    if n > 0 {
        lemma_dying_ids_distinct(ps, n - 1);
        lemma_dying_ids_members(ps, n - 1);
        assert(forall|k: int|
            0 <= k < dying_ids_up_to(ps, n - 1).len() ==> #[trigger] dying_ids_up_to(ps, n)[k]
                == dying_ids_up_to(ps, n - 1)[k]);
        if dies_in_tick(ps, n - 1) {
            assert(dying_ids_up_to(ps, n)[dying_ids_up_to(ps, n).len() - 1] == ps[n
                - 1].player_id@);
            assert forall|k: int| 0 <= k < dying_ids_up_to(ps, n - 1).len()
                implies #[trigger] dying_ids_up_to(ps, n)[k] != dying_ids_up_to(ps, n)[
                dying_ids_up_to(ps, n).len() - 1] by {
                assert(dying_id(ps, n - 1, dying_ids_up_to(ps, n - 1)[k]));
                let i = choose|i: int|
                    0 <= i < n - 1 && dies_in_tick(ps, i) && (#[trigger] ps[i]).player_id@
                        == dying_ids_up_to(ps, n - 1)[k];
                assert(ps[i].player_id@ != ps[n - 1].player_id@);
            }
        }
    }
}

/// Resolve one death: the player named by the event (if still joined) loses
/// its snake and is respawned with a fresh two-segment snake at a random
/// column of the top row. Identity and display name persist.
pub fn player_death(w: &mut World, event: &PlayerDeathEvent)
    requires
        old(w).wf(),
    ensures
        final(w).wf(),
        final(w).leader_board == old(w).leader_board,
        final(w).foods == old(w).foods,
        final(w).player_list@.len() == old(w).player_list@.len(),
        forall|k: int|
            0 <= k < old(w).player_list@.len() && (#[trigger] old(w).player_list@[k]).player_id@
                != event.player_id@ ==> final(w).player_list@[k] == old(w).player_list@[k],
        forall|k: int|
            0 <= k < old(w).player_list@.len() && (#[trigger] old(w).player_list@[k]).player_id@
                == event.player_id@ ==> respawned_from(
                final(w).player_list@[k],
                old(w).player_list@[k],
            ),
{
    let x = random_below(crate::ARENA_WIDTH) as i32;
    spawn_snake(&mut w.player_list, &event.player_id, x);
    proof {
        assert forall|k: int|
            0 <= k < old(w).player_list@.len() && (#[trigger] old(w).player_list@[k]).player_id@
                == event.player_id@ implies respawned_from(
            final(w).player_list@[k],
            old(w).player_list@[k],
        ) by {
            assert(fresh_snake(
                final(w).player_list@[k],
                old(w).player_list@[k].player_id@,
                old(w).player_list@[k].player_name@,
                x as int,
            ));
        }
        assert forall|k: int| 0 <= k < final(w).player_list@.len()
            implies (#[trigger] final(w).player_list@[k]).valid() by {
            if old(w).player_list@[k].player_id@ == event.player_id@ {
            } else {
                assert(final(w).player_list@[k] == old(w).player_list@[k]);
            }
        }
        assert forall|k1: int, k2: int| 0 <= k1 < k2 < final(w).player_list@.len()
            implies (#[trigger] final(w).player_list@[k1]).player_id@
                != (#[trigger] final(w).player_list@[k2]).player_id@ by {
            assert(final(w).player_list@[k1].player_id@ == old(w).player_list@[k1].player_id@);
            assert(final(w).player_list@[k2].player_id@ == old(w).player_list@[k2].player_id@);
        }
    }
}

/// One whole movement tick: advance every snake, then resolve every death.
///
/// Steering a head into a wall or into any occupied cell yields exactly one
/// death event for that player within this tick (the returned list holds one
/// entry per dying player, no repeats), and that player leaves the tick with
/// a fresh two-segment snake on the top row; identity and name persist.
/// Every surviving snake has moved exactly one cell along its heading.
pub fn movement_tick(w: &mut World) -> (deaths: Vec<PlayerDeathEvent>)
    requires
        old(w).wf(),
    ensures
        final(w).wf(),
        final(w).leader_board == old(w).leader_board,
        final(w).foods == old(w).foods,
        final(w).player_list@.len() == old(w).player_list@.len(),
        forall|i: int|
            0 <= i < old(w).player_list@.len() && !dies_in_tick(old(w).player_list@, i) ==> moved(
                old(w).player_list@[i],
                #[trigger] final(w).player_list@[i],
            ),
        forall|i: int|
            0 <= i < old(w).player_list@.len() && dies_in_tick(old(w).player_list@, i)
                ==> respawned_from(#[trigger] final(w).player_list@[i], old(w).player_list@[i]),
        deaths@.len() == dying_ids_up_to(old(w).player_list@, old(w).player_list@.len() as int).len(),
        forall|k: int|
            0 <= k < deaths@.len() ==> (#[trigger] deaths@[k]).player_id@ == dying_ids_up_to(
                old(w).player_list@,
                old(w).player_list@.len() as int,
            )[k],
        forall|i: int|
            0 <= i < old(w).player_list@.len() && dies_in_tick(old(w).player_list@, i)
                ==> exists|k: int|
                0 <= k < deaths@.len() && (#[trigger] deaths@[k]).player_id@ == old(
                    w,
                ).player_list@[i].player_id@,
        forall|k1: int, k2: int|
            0 <= k1 < k2 < deaths@.len() ==> (#[trigger] deaths@[k1]).player_id@
                != (#[trigger] deaths@[k2]).player_id@,
{
    let ghost ps0 = w.player_list@;
    let ghost n = ps0.len() as int;
    let deaths = snake_movement(w);
    proof {
        lemma_dying_ids_members(ps0, n);
        lemma_dying_ids_distinct(ps0, n);
    }
    let m = deaths.len();
    let mut k: usize = 0;
    while k < m
        invariant
            old(w).wf(),
            w.wf(),
            n == ps0.len(),
            ps0 == old(w).player_list@,
            w.leader_board == old(w).leader_board,
            w.foods == old(w).foods,
            w.player_list@.len() == n,
            m == deaths@.len(),
            0 <= k <= m,
            deaths@.len() == dying_ids_up_to(ps0, n).len(),
            forall|t: int|
                0 <= t < m ==> (#[trigger] deaths@[t]).player_id@ == dying_ids_up_to(ps0, n)[t],
            forall|t1: int, t2: int|
                0 <= t1 < t2 < dying_ids_up_to(ps0, n).len() ==> #[trigger] dying_ids_up_to(
                    ps0,
                    n,
                )[t1] != #[trigger] dying_ids_up_to(ps0, n)[t2],
            forall|t: int|
                0 <= t < dying_ids_up_to(ps0, n).len() ==> dying_id(
                    ps0,
                    n,
                    #[trigger] dying_ids_up_to(ps0, n)[t],
                ),
            forall|i: int|
                0 <= i < n && dies_in_tick(ps0, i) ==> id_listed_before(
                    ps0,
                    n,
                    dying_ids_up_to(ps0, n).len() as int,
                    (#[trigger] ps0[i]).player_id@,
                ),
            forall|i: int|
                0 <= i < n && !dies_in_tick(ps0, i) ==> moved(
                    ps0[i],
                    #[trigger] w.player_list@[i],
                ),
            forall|i: int|
                0 <= i < n && dies_in_tick(ps0, i) && !id_listed_before(
                    ps0,
                    n,
                    k as int,
                    ps0[i].player_id@,
                ) ==> #[trigger] w.player_list@[i] == ps0[i],
            forall|i: int|
                0 <= i < n && dies_in_tick(ps0, i) && id_listed_before(
                    ps0,
                    n,
                    k as int,
                    ps0[i].player_id@,
                ) ==> respawned_from(#[trigger] w.player_list@[i], ps0[i]),
            forall|i: int|
                0 <= i < n ==> (#[trigger] w.player_list@[i]).player_id@ == ps0[i].player_id@,
        decreases m - k,
    {
        let ghost w_before = *w;
        player_death(w, &deaths[k]);
        k = k + 1;
        proof {
            let kp: int = k - 1;
            assert(deaths@[kp].player_id@ == dying_ids_up_to(ps0, n)[kp]);
            assert forall|i: int|
                0 <= i < n && dies_in_tick(ps0, i) && id_listed_before(
                    ps0,
                    n,
                    k as int,
                    ps0[i].player_id@,
                ) implies respawned_from(#[trigger] w.player_list@[i], ps0[i]) by {
                let t = choose|t: int|
                    0 <= t < k && #[trigger] dying_ids_up_to(ps0, n)[t] == ps0[i].player_id@;
                if t < kp {
                    assert(id_listed_before(ps0, n, kp, ps0[i].player_id@));
                    assert(dying_ids_up_to(ps0, n)[t] != dying_ids_up_to(ps0, n)[kp]);
                    assert(w_before.player_list@[i].player_id@ != deaths@[kp].player_id@);
                    assert(w.player_list@[i] == w_before.player_list@[i]);
                    assert(respawned_from(w_before.player_list@[i], ps0[i]));
                    assert(respawned_from(w.player_list@[i], ps0[i]));
                } else {
                    assert(dying_ids_up_to(ps0, n)[kp] == ps0[i].player_id@);
                    if id_listed_before(ps0, n, kp, ps0[i].player_id@) {
                        let t2 = choose|t2: int|
                            0 <= t2 < kp && #[trigger] dying_ids_up_to(ps0, n)[t2]
                                == ps0[i].player_id@;
                        assert(dying_ids_up_to(ps0, n)[t2] != dying_ids_up_to(ps0, n)[kp]);
                        assert(false);
                    }
                    assert(w_before.player_list@[i] == ps0[i]);
                    assert(w_before.player_list@[i].player_id@ == deaths@[kp].player_id@);
                    assert(respawned_from(w.player_list@[i], w_before.player_list@[i]));
                    assert(respawned_from(w.player_list@[i], ps0[i]));
                }
            }
            assert forall|i: int|
                0 <= i < n && dies_in_tick(ps0, i) && !id_listed_before(
                    ps0,
                    n,
                    k as int,
                    ps0[i].player_id@,
                ) implies #[trigger] w.player_list@[i] == ps0[i] by {
                assert(!id_listed_before(ps0, n, kp, ps0[i].player_id@)) by {
                    if id_listed_before(ps0, n, kp, ps0[i].player_id@) {
                        let t2 = choose|t2: int|
                            0 <= t2 < kp && #[trigger] dying_ids_up_to(ps0, n)[t2]
                                == ps0[i].player_id@;
                        assert(id_listed_before(ps0, n, k as int, ps0[i].player_id@));
                        assert(false);
                    }
                }
                assert(w_before.player_list@[i] == ps0[i]);
                assert(dying_ids_up_to(ps0, n)[kp] != ps0[i].player_id@) by {
                    if dying_ids_up_to(ps0, n)[kp] == ps0[i].player_id@ {
                        assert(id_listed_before(ps0, n, k as int, ps0[i].player_id@));
                        assert(false);
                    }
                }
            }
            assert forall|i: int|
                0 <= i < n && !dies_in_tick(ps0, i)
                implies moved(ps0[i], #[trigger] w.player_list@[i]) by {
                assert(dying_id(ps0, n, dying_ids_up_to(ps0, n)[kp]));
                let t0 = choose|t0: int|
                    0 <= t0 < n && dies_in_tick(ps0, t0) && (#[trigger] ps0[t0]).player_id@
                        == dying_ids_up_to(ps0, n)[kp];
                assert(ps0[i].player_id@ != ps0[t0].player_id@);
                assert(w_before.player_list@[i].player_id@ != deaths@[kp].player_id@);
                assert(w.player_list@[i] == w_before.player_list@[i]);
            }
        }
    }
    proof {
        assert forall|i: int| 0 <= i < n && dies_in_tick(ps0, i) implies respawned_from(
            #[trigger] final(w).player_list@[i],
            ps0[i],
        ) by {
            assert(id_listed_before(
                ps0,
                n,
                dying_ids_up_to(ps0, n).len() as int,
                ps0[i].player_id@,
            ));
        }
        assert forall|i: int| 0 <= i < n && dies_in_tick(ps0, i) implies exists|k2: int|
            0 <= k2 < deaths@.len() && (#[trigger] deaths@[k2]).player_id@
                == ps0[i].player_id@ by {
            assert(id_listed_before(
                ps0,
                n,
                dying_ids_up_to(ps0, n).len() as int,
                ps0[i].player_id@,
            ));
            let t = choose|t: int|
                0 <= t < dying_ids_up_to(ps0, n).len() && #[trigger] dying_ids_up_to(ps0, n)[t]
                    == ps0[i].player_id@;
            assert(deaths@[t].player_id@ == ps0[i].player_id@);
        }
    }
    deaths
}

} // verus!
