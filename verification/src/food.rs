//! Food: spawning on free cells and the eating check after movement.

use vstd::prelude::*;

use crate::engine::{World, FOOD_CAPACITY};
use crate::movement::{is_occupied, occupied};
use crate::rng::random_below;
use crate::types::{GrowthEvent, PlayerInfo, Position};

verus! {

/// The eating outcome: player `i` is the first (in player order) whose head
/// sits on a food cell, `j` is the first food cell under that head, the event
/// names that player, and the food list loses exactly that cell.
pub open spec fn eaten_step(
    ps: Seq<PlayerInfo>,
    fs0: Seq<Position>,
    fs1: Seq<Position>,
    g: GrowthEvent,
) -> bool {
    exists|i: int, j: int|
        {
            &&& 0 <= i < ps.len()
            &&& 0 <= j < fs0.len()
            &&& g.player_id@ == (#[trigger] ps[i]).player_id@
            &&& #[trigger] fs0[j] == ps[i].snake_segments@[0]
            &&& forall|i2: int| 0 <= i2 < i ==> !head_on_food(#[trigger] ps[i2], fs0)
            &&& forall|j2: int| 0 <= j2 < j ==> #[trigger] fs0[j2] != ps[i].snake_segments@[0]
            &&& fs1 == fs0.remove(j)
            &&& !fs1.contains(fs0[j])
        }
}

/// This player's head sits on one of the listed food cells.
pub open spec fn head_on_food(p: PlayerInfo, fs: Seq<Position>) -> bool {
    exists|j: int| 0 <= j < fs.len() && #[trigger] fs[j] == p.snake_segments@[0]
}

/// A cell food may be created on: inside the arena, not under any snake
/// segment, not already holding food.
pub open spec fn cell_free(ps: Seq<PlayerInfo>, fs: Seq<Position>, p: Position) -> bool {
    &&& p.in_arena()
    &&& !occupied(ps, p.x as int, p.y as int)
    &&& !fs.contains(p)
}

/// True when `p` is one of the positions in `fs`.
fn contains_pos(fs: &Vec<Position>, p: Position) -> (r: bool)
    ensures
        r == fs@.contains(p),
{
    let n = fs.len();
    let mut i: usize = 0;
    while i < n
        invariant
            n == fs@.len(),
            0 <= i <= n,
            forall|k: int| 0 <= k < i ==> #[trigger] fs@[k] != p,
        decreases n - i,
    {
        if fs[i].x == p.x && fs[i].y == p.y {
            proof {
                assert(fs@[i as int] == p);
            }
            return true;
        }
        i = i + 1;
    }
    proof {
        assert(!fs@.contains(p)) by {
            if fs@.contains(p) {
                let k = choose|k: int| 0 <= k < fs@.len() && fs@[k] == p;
                assert(false);
            }
        }
    }
    false
}

/// Place one food item on `p`. The caller owes a cell that is actually free
/// and spare capacity; everything but the food list is untouched.
pub fn spawn_food_at(w: &mut World, p: Position)
    requires
        old(w).wf(),
        cell_free(old(w).player_list@, old(w).foods@, p),
        old(w).foods@.len() < FOOD_CAPACITY,
    ensures
        final(w).wf(),
        final(w).player_list == old(w).player_list,
        final(w).leader_board == old(w).leader_board,
        final(w).foods@ == old(w).foods@.push(p),
{
    w.foods.push(p);
    proof {
        assert forall|i: int, j: int| 0 <= i < j < final(w).foods@.len()
            implies (#[trigger] final(w).foods@[i]) != (#[trigger] final(w).foods@[j]) by {
            if j == final(w).foods@.len() - 1 {
                assert(old(w).foods@[i] == final(w).foods@[i]);
                assert(old(w).foods@.contains(old(w).foods@[i]));
            }
        }
    }
}

/// The food tick: while below capacity, pick a free cell uniformly at random
/// and place one food item there. With no spare capacity or no free cell the
/// world is unchanged.
pub fn food_spawner(w: &mut World)
    requires
        old(w).wf(),
    ensures
        final(w).wf(),
        final(w).player_list == old(w).player_list,
        final(w).leader_board == old(w).leader_board,
        old(w).foods@.len() >= FOOD_CAPACITY ==> final(w).foods == old(w).foods,
        old(w).foods@.len() < FOOD_CAPACITY && (exists|p: Position|
            cell_free(old(w).player_list@, old(w).foods@, p)) ==> exists|p: Position|
            cell_free(old(w).player_list@, old(w).foods@, p) && final(w).foods@ == old(
                w,
            ).foods@.push(p),
        old(w).foods@.len() < FOOD_CAPACITY && !(exists|p: Position|
            cell_free(old(w).player_list@, old(w).foods@, p)) ==> final(w).foods == old(w).foods,
{
    if w.foods.len() >= FOOD_CAPACITY {
        return ;
    }
    let mut candidates: Vec<Position> = Vec::new();
    let mut x: i32 = 0;
    while x < crate::ARENA_WIDTH as i32
        invariant
            old(w).wf(),
            w == old(w),
            0 <= x <= crate::ARENA_WIDTH,
            candidates@.len() <= 40 * x,
            forall|k: int|
                0 <= k < candidates@.len() ==> cell_free(
                    w.player_list@,
                    w.foods@,
                    #[trigger] candidates@[k],
                ),
            forall|a: int, b: int|
                0 <= a < x && 0 <= b < crate::ARENA_HEIGHT && cell_free(
                    w.player_list@,
                    w.foods@,
                    Position { x: a as i32, y: b as i32 },
                ) ==> #[trigger] candidates@.contains(Position { x: a as i32, y: b as i32 }),
        decreases crate::ARENA_WIDTH as i32 - x,
    {
        let mut y: i32 = 0;
        while y < crate::ARENA_HEIGHT as i32
            invariant
                old(w).wf(),
                w == old(w),
                0 <= x < crate::ARENA_WIDTH,
                0 <= y <= crate::ARENA_HEIGHT,
                candidates@.len() <= 40 * x + y,
                forall|k: int|
                    0 <= k < candidates@.len() ==> cell_free(
                        w.player_list@,
                        w.foods@,
                        #[trigger] candidates@[k],
                    ),
                forall|a: int, b: int|
                    0 <= a < x && 0 <= b < crate::ARENA_HEIGHT && cell_free(
                        w.player_list@,
                        w.foods@,
                        Position { x: a as i32, y: b as i32 },
                    ) ==> #[trigger] candidates@.contains(Position { x: a as i32, y: b as i32 }),
                forall|b: int|
                    0 <= b < y && cell_free(
                        w.player_list@,
                        w.foods@,
                        Position { x: x as i32, y: b as i32 },
                    ) ==> #[trigger] candidates@.contains(Position { x: x as i32, y: b as i32 }),
            decreases crate::ARENA_HEIGHT as i32 - y,
        {
            let p = Position { x, y };
            if !is_occupied(&w.player_list, p) && !contains_pos(&w.foods, p) {
                let ghost old_c = candidates@;
                candidates.push(p);
                proof {
                    assert(candidates@[candidates@.len() - 1] == p);
                    assert(candidates@.contains(p));
                    assert forall|q: Position| old_c.contains(q)
                        implies #[trigger] candidates@.contains(q) by {
                        let t = choose|t: int| 0 <= t < old_c.len() && old_c[t] == q;
                        assert(candidates@[t] == q);
                    }
                }
            }
            y = y + 1;
        }
        x = x + 1;
    }
    if candidates.len() > 0 {
        let idx = random_below(candidates.len() as u32) as usize;
        let p = candidates[idx];
        spawn_food_at(w, p);
    } else {
        proof {
            assert forall|p: Position| !cell_free(old(w).player_list@, old(w).foods@, p) by {
                if cell_free(old(w).player_list@, old(w).foods@, p) {
                    assert(p.in_arena());
                    assert(p == (Position { x: p.x as int as i32, y: p.y as int as i32 }));
                    assert(candidates@.contains(
                        Position { x: p.x as int as i32, y: p.y as int as i32 },
                    ));
                    assert(false);
                }
            }
        }
    }
}

/// Eating check, run right after movement: scan players in order and, for the
/// first player whose head sits on a food cell, remove that cell (the first
/// matching one) and report a growth event for that player. At most one pair
/// is resolved per tick; each food cell can feed at most one growth, since it
/// leaves the food list in the same atomic step.
pub fn snake_eating(w: &mut World) -> (r: Option<GrowthEvent>)
    requires
        old(w).wf(),
    ensures
        final(w).wf(),
        final(w).player_list == old(w).player_list,
        final(w).leader_board == old(w).leader_board,
        match r {
            None => {
                &&& final(w).foods == old(w).foods
                &&& forall|i: int|
                    0 <= i < old(w).player_list@.len() ==> !head_on_food(
                        #[trigger] old(w).player_list@[i],
                        old(w).foods@,
                    )
            },
            Some(g) => eaten_step(old(w).player_list@, old(w).foods@, final(w).foods@, g),
        },
{
    let np = w.player_list.0.len();
    let mut i: usize = 0;
    while i < np
        invariant
            old(w).wf(),
            w == old(w),
            np == w.player_list@.len(),
            0 <= i <= np,
            forall|i2: int|
                0 <= i2 < i ==> !head_on_food(#[trigger] w.player_list@[i2], w.foods@),
        decreases np - i,
    {
        let head = w.player_list.0[i].snake_segments[0];
        let nf = w.foods.len();
        let mut j: usize = 0;
        while j < nf
            invariant
                old(w).wf(),
                w == old(w),
                np == w.player_list@.len(),
                0 <= i < np,
                head == w.player_list@[i as int].snake_segments@[0],
                nf == w.foods@.len(),
                0 <= j <= nf,
                forall|i2: int|
                    0 <= i2 < i ==> !head_on_food(#[trigger] w.player_list@[i2], w.foods@),
                forall|j2: int| 0 <= j2 < j ==> #[trigger] w.foods@[j2] != head,
            decreases nf - j,
        {
            if w.foods[j].x == head.x && w.foods[j].y == head.y {
                proof {
                    assert(w.foods@[j as int] == head);
                }
                let ghost old_foods = w.foods@;
                let id = w.player_list.0[i].player_id.clone();
                w.foods.remove(j);
                let ev = GrowthEvent { player_id: id };
                proof {
                    assert(!w.foods@.contains(old_foods[j as int])) by {
                        if w.foods@.contains(old_foods[j as int]) {
                            let t = choose|t: int|
                                0 <= t < w.foods@.len() && w.foods@[t] == old_foods[j as int];
                            let o: int = if t < j { t } else { t + 1 };
                            assert(old_foods[o] == old_foods[j as int] && o != j);
                            assert(false);
                        }
                    }
                    assert(eaten_step(w.player_list@, old_foods, w.foods@, ev)) by {
                        let gi: int = i as int;
                        let gj: int = j as int;
                        assert(ev.player_id@ == w.player_list@[gi].player_id@);
                        assert(old_foods[gj] == w.player_list@[gi].snake_segments@[0]);
                        assert(forall|i2: int|
                            0 <= i2 < gi ==> !head_on_food(
                                #[trigger] w.player_list@[i2],
                                old_foods,
                            ));
                        assert(forall|j2: int|
                            0 <= j2 < gj ==> #[trigger] old_foods[j2] != w.player_list@[
                                gi].snake_segments@[0]);
                        assert(w.foods@ == old_foods.remove(gj));
                    }
                }
                return Some(ev);
            }
            j = j + 1;
        }
        proof {
            assert(!head_on_food(w.player_list@[i as int], w.foods@)) by {
                if head_on_food(w.player_list@[i as int], w.foods@) {
                    let j2 = choose|j2: int|
                        0 <= j2 < w.foods@.len() && #[trigger] w.foods@[j2]
                            == w.player_list@[i as int].snake_segments@[0];
                    assert(false);
                }
            }
        }
        i = i + 1;
    }
    None
}

} // verus!
