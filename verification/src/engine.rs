//! Authoritative world state and the message-driven part of the tick engine:
//! joining, leaving and steering. Movement and death handling are in
//! [`crate::movement`], food and growth in [`crate::food`] and
//! [`crate::growth`].

use vstd::prelude::*;

use crate::bus::MessageReceiver;
use crate::rng::random_below;
use crate::types::{
    Direction, IncomingMessage, LeaderBoard, MessageFromClient, PlayerInfo, PlayerList, Position,
    SyncLeaderBoardEvent,
};

verus! {

/// Most food items that may exist at once.
pub const FOOD_CAPACITY: usize = 20;

/// The whole authoritative state owned by the tick engine.
#[derive(Debug)]
pub struct World {
    pub player_list: PlayerList,
    pub leader_board: LeaderBoard,
    pub foods: Vec<Position>,
}

impl PlayerInfo {
    /// A live snake: at least two segments, all inside the arena, and any
    /// recorded tail-vacated cell (where a grown segment would land) in the
    /// arena too.
    pub open spec fn valid(self) -> bool {
        &&& self.snake_segments@.len() >= 2
        &&& forall|j: int|
            0 <= j < self.snake_segments@.len() ==> (#[trigger] self.snake_segments@[j]).in_arena()
        &&& (self.last_tail_position matches Some(t) ==> t.in_arena())
    }

    /// Segment positions inside the arena (no demand on the segment count);
    /// holds transiently while a snake is being (re)spawned.
    pub open spec fn segments_in_arena(self) -> bool {
        forall|j: int|
            0 <= j < self.snake_segments@.len() ==> (#[trigger] self.snake_segments@[j]).in_arena()
    }
}

/// No two players share a `player_id`.
pub open spec fn ids_unique(ps: Seq<PlayerInfo>) -> bool {
    forall|i: int, j: int|
        0 <= i < j < ps.len() ==> (#[trigger] ps[i]).player_id@ != (#[trigger] ps[j]).player_id@
}

/// Some player carries this id.
pub open spec fn has_id(ps: Seq<PlayerInfo>, id: Seq<char>) -> bool {
    exists|i: int| 0 <= i < ps.len() && (#[trigger] ps[i]).player_id@ == id
}

/// Well-formed leaderboard: at most ten rows, scores descending, names unique.
pub open spec fn leader_board_wf(lb: Seq<(String, usize)>) -> bool {
    &&& lb.len() <= 10
    &&& forall|i: int, j: int| 0 <= i < j < lb.len() ==> (#[trigger] lb[i]).1 >= (#[trigger] lb[j]).1
    &&& forall|i: int, j: int| 0 <= i < j < lb.len() ==> (#[trigger] lb[i]).0@ != (#[trigger] lb[j]).0@
}

/// Well-formed food set: bounded, inside the arena, no cell listed twice.
pub open spec fn foods_wf(fs: Seq<Position>) -> bool {
    &&& fs.len() <= FOOD_CAPACITY
    &&& forall|i: int| 0 <= i < fs.len() ==> (#[trigger] fs[i]).in_arena()
    &&& forall|i: int, j: int| 0 <= i < j < fs.len() ==> (#[trigger] fs[i]) != (#[trigger] fs[j])
}

/// Player list invariant, minus the two-segment demand on each snake;
/// the state [`spawn_snake`] starts from.
pub open spec fn player_list_pre_spawn(ps: Seq<PlayerInfo>) -> bool {
    &&& ids_unique(ps)
    &&& forall|i: int| 0 <= i < ps.len() ==> (#[trigger] ps[i]).segments_in_arena()
}

impl World {
    /// World invariant: every reachable world satisfies this.
    pub open spec fn wf(self) -> bool {
        &&& ids_unique(self.player_list@)
        &&& forall|i: int|
            0 <= i < self.player_list@.len() ==> (#[trigger] self.player_list@[i]).valid()
        &&& leader_board_wf(self.leader_board@)
        &&& foods_wf(self.foods@)
    }

    /// Fresh, empty world.
    pub fn new() -> (w: World)
        ensures
            w.wf(),
            w.player_list@.len() == 0,
            w.leader_board@.len() == 0,
            w.foods@.len() == 0,
    {
        World {
            player_list: PlayerList(Vec::new()),
            leader_board: LeaderBoard(Vec::new()),
            foods: Vec::new(),
        }
    }
}

/// Index of the player carrying `id`, if any.
pub fn find_player(pl: &PlayerList, id: &String) -> (r: Option<usize>)
    ensures
        match r {
            Some(i) => 0 <= i < pl@.len() && pl@[i as int].player_id@ == id@,
            None => !has_id(pl@, id@),
        },
{
    let n = pl.0.len();
    let mut i: usize = 0;
    while i < n
        invariant
            n == pl@.len(),
            0 <= i <= n,
            forall|k: int| 0 <= k < i ==> (#[trigger] pl@[k]).player_id@ != id@,
        decreases n - i,
    {
        if pl.0[i].player_id == *id {
            return Some(i);
        }
        i = i + 1;
    }
    None
}

/// The record a freshly joined or respawned player carries: a two-segment
/// snake folded onto the spawn cell `(spawn_x, 0)`, heading up, no tail
/// vacancy recorded yet.
pub open spec fn fresh_snake(p: PlayerInfo, id: Seq<char>, name: Seq<char>, spawn_x: int) -> bool {
    &&& p.player_id@ == id
    &&& p.player_name@ == name
    &&& p.snake_segments@.len() == 2
    &&& p.snake_segments@[0] == (Position { x: spawn_x as i32, y: 0 })
    &&& p.snake_segments@[1] == (Position { x: spawn_x as i32, y: 0 })
    &&& p.direction == Direction::Up
    &&& p.spawn_pos == (Position { x: spawn_x as i32, y: 0 })
    &&& p.last_tail_position is None
}

/// Give the player carrying `player_id` (if joined) a fresh two-segment snake
/// at column `spawn_x` of the top row. Identity and name persist; only the
/// snake geometry resets.
pub fn spawn_snake(pl: &mut PlayerList, player_id: &String, spawn_x: i32)
    requires
        player_list_pre_spawn(old(pl)@),
        0 <= spawn_x < crate::ARENA_WIDTH,
    ensures
        final(pl)@.len() == old(pl)@.len(),
        forall|k: int|
            0 <= k < old(pl)@.len() && (#[trigger] old(pl)@[k]).player_id@ != player_id@
                ==> final(pl)@[k] == old(pl)@[k],
        forall|k: int|
            0 <= k < old(pl)@.len() && (#[trigger] old(pl)@[k]).player_id@ == player_id@
                ==> fresh_snake(
                final(pl)@[k],
                old(pl)@[k].player_id@,
                old(pl)@[k].player_name@,
                spawn_x as int,
            ),
{
    let found = find_player(pl, player_id);
    if let Some(i) = found {
        let spawn = Position { x: spawn_x, y: 0 };
        let mut segments: Vec<Position> = Vec::new();
        segments.push(spawn);
        segments.push(spawn);
        let id = pl.0[i].player_id.clone();
        let name = pl.0[i].player_name.clone();
        let info = PlayerInfo {
            snake_segments: segments,
            player_id: id,
            player_name: name,
            direction: Direction::Up,
            spawn_pos: spawn,
            last_tail_position: None,
        };
        pl.0[i] = info;
        proof {
            assert(forall|k: int|
                0 <= k < old(pl)@.len() && k != i ==> (#[trigger] old(pl)@[k]).player_id@
                    != player_id@);
        }
    }
}

/// Removing one entry of a list with unique ids keeps ids unique, and if the
/// removed entry was the one carrying `id`, no remaining entry carries `id`.
proof fn lemma_remove_unique_id(ps: Seq<PlayerInfo>, i: int, id: Seq<char>)
    requires
        ids_unique(ps),
        0 <= i < ps.len(),
        ps[i].player_id@ == id,
    ensures
        ids_unique(ps.remove(i)),
        !has_id(ps.remove(i), id),
{
    let r = ps.remove(i);
    assert forall|k1: int, k2: int| 0 <= k1 < k2 < r.len()
        implies (#[trigger] r[k1]).player_id@ != (#[trigger] r[k2]).player_id@ by {
        let o1: int = if k1 < i { k1 } else { k1 + 1 };
        let o2: int = if k2 < i { k2 } else { k2 + 1 };
        assert(r[k1] == ps[o1] && r[k2] == ps[o2]);
    }
    assert forall|k: int| 0 <= k < r.len() implies (#[trigger] r[k]).player_id@ != id by {
        let o: int = if k < i { k } else { k + 1 };
        assert(r[k] == ps[o] && o != i);
    }
}

/// Create (or re-create) the player carrying `player_id` with display name
/// `player_name` and a fresh snake at column `spawn_x`. If the id was already
/// joined, its old record is replaced. Leaderboard and food are untouched;
/// the caller owes clients a leaderboard sync afterwards.
pub fn join_game(w: &mut World, player_id: String, player_name: String, spawn_x: i32)
    requires
        old(w).wf(),
        0 <= spawn_x < crate::ARENA_WIDTH,
    ensures
        final(w).wf(),
        final(w).leader_board == old(w).leader_board,
        final(w).foods == old(w).foods,
        final(w).player_list@.len() >= 1,
        fresh_snake(final(w).player_list@.last(), player_id@, player_name@, spawn_x as int),
        !has_id(old(w).player_list@, player_id@) ==> final(w).player_list@.drop_last() == old(
            w,
        ).player_list@,
        has_id(old(w).player_list@, player_id@) ==> exists|i: int|
            0 <= i < old(w).player_list@.len() && (#[trigger] old(w).player_list@[i]).player_id@
                == player_id@ && final(w).player_list@.drop_last() == old(w).player_list@.remove(i),
        has_id(final(w).player_list@, player_id@),
{
    let ghost old_ps = w.player_list@;
    if let Some(i) = find_player(&w.player_list, &player_id) {
        w.player_list.0.remove(i);
        proof {
            lemma_remove_unique_id(old_ps, i as int, player_id@);
        }
    }
    let spawn = Position { x: spawn_x, y: 0 };
    let mut segments: Vec<Position> = Vec::new();
    segments.push(spawn);
    segments.push(spawn);
    let info = PlayerInfo {
        snake_segments: segments,
        player_id,
        player_name,
        direction: Direction::Up,
        spawn_pos: spawn,
        last_tail_position: None,
    };
    w.player_list.0.push(info);
}

/// Remove the player carrying `player_id` together with its whole snake.
/// Idempotent: a second leave (or a leave for an id that never joined)
/// changes nothing.
pub fn leave_game(w: &mut World, player_id: &String)
    requires
        old(w).wf(),
    ensures
        final(w).wf(),
        final(w).leader_board == old(w).leader_board,
        final(w).foods == old(w).foods,
        !has_id(old(w).player_list@, player_id@) ==> final(w).player_list@ == old(
            w,
        ).player_list@,
        has_id(old(w).player_list@, player_id@) ==> exists|i: int|
            0 <= i < old(w).player_list@.len() && (#[trigger] old(w).player_list@[i]).player_id@
                == player_id@ && final(w).player_list@ == old(w).player_list@.remove(i),
        !has_id(final(w).player_list@, player_id@),
{
    let ghost old_ps = w.player_list@;
    if let Some(i) = find_player(&w.player_list, player_id) {
        w.player_list.0.remove(i);
        proof {
            lemma_remove_unique_id(old_ps, i as int, player_id@);
        }
    }
}

/// The heading a one-letter key code asks for, if any.
pub open spec fn key_to_direction(k: Seq<char>) -> Option<Direction> {
    if k.len() == 1 {
        if k[0] == 'L' {
            Some(Direction::Left)
        } else if k[0] == 'D' {
            Some(Direction::Down)
        } else if k[0] == 'U' {
            Some(Direction::Up)
        } else if k[0] == 'R' {
            Some(Direction::Right)
        } else {
            None
        }
    } else {
        None
    }
}

/// The heading a snake ends up with after a key code: an unrecognised code and
/// a reversal onto the exact opposite heading are both ignored.
pub open spec fn steered(d: Direction, k: Seq<char>) -> Direction {
    match key_to_direction(k) {
        None => d,
        Some(nd) => if nd == d.spec_opposite() {
            d
        } else {
            nd
        },
    }
}

/// Apply a steering key for the player carrying `player_id`. Only that
/// player's heading can change, and never onto the opposite of its current
/// heading; a key for an unknown id is ignored.
pub fn key_event(w: &mut World, player_id: &String, key: &String)
    requires
        old(w).wf(),
    ensures
        final(w).wf(),
        final(w).leader_board == old(w).leader_board,
        final(w).foods == old(w).foods,
        final(w).player_list@.len() == old(w).player_list@.len(),
        forall|k: int|
            0 <= k < old(w).player_list@.len() && (#[trigger] old(w).player_list@[k]).player_id@
                != player_id@ ==> final(w).player_list@[k] == old(w).player_list@[k],
        forall|k: int|
            0 <= k < old(w).player_list@.len() && (#[trigger] old(w).player_list@[k]).player_id@
                == player_id@ ==> final(w).player_list@[k] == (PlayerInfo {
                direction: steered(old(w).player_list@[k].direction, key@),
                ..old(w).player_list@[k]
            }),
{
    let ghost old_ps = w.player_list@;
    if let Some(i) = find_player(&w.player_list, player_id) {
        let cur = w.player_list.0[i].direction;
        let dir = if key.as_str().unicode_len() == 1 {
            let c = key.as_str().get_char(0);
            if c == 'L' {
                Direction::Left
            } else if c == 'D' {
                Direction::Down
            } else if c == 'U' {
                Direction::Up
            } else if c == 'R' {
                Direction::Right
            } else {
                cur
            }
        } else {
            cur
        };
        if !(dir == cur.opposite()) {
            w.player_list.0[i].direction = dir;
        }
        proof {
            assert(final(w).player_list@[i as int] == (PlayerInfo {
                direction: steered(old_ps[i as int].direction, key@),
                ..old_ps[i as int]
            }));
            assert(forall|k: int|
                0 <= k < old_ps.len() && k != i ==> (#[trigger] old_ps[k]).player_id@
                    != player_id@);
        }
    }
}

/// `p` is a just-joined player: carries `id` and `name` and a fresh
/// two-segment snake at some in-arena column of the top row.
pub open spec fn joined_snake(p: PlayerInfo, id: Seq<char>, name: Seq<char>) -> bool {
    exists|x: int| 0 <= x < crate::ARENA_WIDTH && fresh_snake(p, id, name, x)
}

/// The world transition one client message causes, with the sync request it
/// earns: exactly the postcondition of [`apply_client_message`], named so
/// that a caller that received the message from elsewhere (the bus) can
/// still say "some client message's transition happened".
pub open spec fn client_transition(
    w0: World,
    w1: World,
    msg: MessageFromClient,
    r: Option<SyncLeaderBoardEvent>,
) -> bool {
    match msg {
            MessageFromClient::JoinGame((id, name)) => {
                &&& r is Some
                &&& w1.leader_board == w0.leader_board
                &&& w1.foods == w0.foods
                &&& w1.player_list@.len() >= 1
                &&& joined_snake(w1.player_list@.last(), id@, name@)
                &&& (!has_id(w0.player_list@, id@) ==> w1.player_list@.drop_last()
                    == w0.player_list@)
                &&& (has_id(w0.player_list@, id@) ==> exists|i: int|
                    0 <= i < w0.player_list@.len() && (#[trigger] w0.player_list@[i]).player_id@ == id@ && w1.player_list@.drop_last()
                        == w0.player_list@.remove(i))
                &&& has_id(w1.player_list@, id@)
            },
            MessageFromClient::LeaveGame(id) => {
                &&& r is None
                &&& w1.leader_board == w0.leader_board
                &&& w1.foods == w0.foods
                &&& (!has_id(w0.player_list@, id@) ==> w1.player_list@ == w0.player_list@)
                &&& (has_id(w0.player_list@, id@) ==> exists|i: int|
                    0 <= i < w0.player_list@.len() && (#[trigger] w0.player_list@[i]).player_id@ == id@ && w1.player_list@ == w0.player_list@.remove(i))
                &&& !has_id(w1.player_list@, id@)
            },
            MessageFromClient::KeyEvent((id, key)) => {
                &&& r is None
                &&& w1.leader_board == w0.leader_board
                &&& w1.foods == w0.foods
                &&& w1.player_list@.len() == w0.player_list@.len()
                &&& (forall|k: int|
                    0 <= k < w0.player_list@.len() && (#[trigger] w0.player_list@[k]).player_id@ != id@ ==> w1.player_list@[k] == w0.player_list@[k])
                &&& (forall|k: int|
                    0 <= k < w0.player_list@.len() && (#[trigger] w0.player_list@[k]).player_id@ == id@ ==> w1.player_list@[k]
                        == (PlayerInfo {
                        direction: steered(w0.player_list@[k].direction, key@),
                        ..w0.player_list@[k]
                    }))
            },
            MessageFromClient::InputName(_) => r is None && w1 == w0,
    }
}

/// Apply one decoded client message to the world: `JoinGame` creates (or
/// replaces) the player with a fresh snake at a random column and asks for a
/// leaderboard sync; `LeaveGame` removes the player and its snake, doing
/// nothing when the id is unknown; `KeyEvent` steers, never onto the opposite
/// heading; `InputName` is a client-side message and is ignored. The exact
/// per-message effect is [`client_transition`].
pub fn apply_client_message(w: &mut World, msg: MessageFromClient) -> (r: Option<
    SyncLeaderBoardEvent,
>)
    requires
        old(w).wf(),
    ensures
        final(w).wf(),
        client_transition(*old(w), *final(w), msg, r),
{
    match msg {
        MessageFromClient::JoinGame((id, name)) => {
            let x = random_below(crate::ARENA_WIDTH) as i32;
            let ghost gid = id@;
            let ghost gname = name@;
            join_game(w, id, name, x);
            proof {
                assert(fresh_snake(final(w).player_list@.last(), gid, gname, x as int));
            }
            Some(SyncLeaderBoardEvent)
        },
        MessageFromClient::LeaveGame(id) => {
            leave_game(w, &id);
            None
        },
        MessageFromClient::KeyEvent((id, key)) => {
            key_event(w, &id, &key);
            None
        },
        MessageFromClient::InputName(_) => None,
    }
}

/// Poll the inbound bus once and apply what arrived, as the engine does on
/// every frame. Which message (if any) the channel hands over depends on the
/// other side, so the contract promises what holds whatever came back:
/// either nothing usable arrived and the world is untouched (an empty
/// channel is not an error, and a message that is not a client's is
/// ignored), or the world took exactly one client message's transition, as
/// [`client_transition`] pins it. The result asks the caller for a
/// leaderboard sync.
pub fn receive_message(w: &mut World, message_receiver: &mut MessageReceiver) -> (r: Option<
    SyncLeaderBoardEvent,
>)
    requires
        old(w).wf(),
    ensures
        final(w).wf(),
        (*final(w) == *old(w) && r is None) || exists|m: MessageFromClient|
            client_transition(*old(w), *final(w), m, r),
{
    match message_receiver.try_recv_message() {
        Some(IncomingMessage::ClientMessage(m)) => {
            let ghost gm = m;
            let r = apply_client_message(w, m);
            proof {
                assert(client_transition(*old(w), *final(w), gm, r));
            }
            r
        },
        _ => None,
    }
}


/// What well-formedness guarantees of every reachable world, spelled out:
/// every snake segment of every player lies inside the arena; every joined
/// player's snake has at least two segments; the leaderboard is sorted
/// descending by score, holds at most ten rows, and repeats no name; and the
/// food cells are in-arena, bounded in number, and pairwise distinct. Every
/// constructor and mutator of [`World`] in this crate ensures `wf`, so these
/// hold in every state they can produce.
pub proof fn lemma_world_invariants(w: World)
    requires
        w.wf(),
    ensures
        forall|i: int, j: int|
            0 <= i < w.player_list@.len() && 0 <= j < w.player_list@[i].snake_segments@.len()
                ==> (#[trigger] w.player_list@[i].snake_segments@[j]).in_arena(),
        forall|i: int|
            0 <= i < w.player_list@.len() ==> (#[trigger] w.player_list@[i]).snake_segments@.len()
                >= 2,
        forall|i: int, j: int|
            0 <= i < j < w.leader_board@.len() ==> (#[trigger] w.leader_board@[i]).1
                >= (#[trigger] w.leader_board@[j]).1,
        w.leader_board@.len() <= 10,
        forall|i: int, j: int|
            0 <= i < j < w.leader_board@.len() ==> (#[trigger] w.leader_board@[i]).0@
                != (#[trigger] w.leader_board@[j]).0@,
        w.foods@.len() <= FOOD_CAPACITY,
        forall|i: int| 0 <= i < w.foods@.len() ==> (#[trigger] w.foods@[i]).in_arena(),
        forall|i: int, j: int|
            0 <= i < j < w.foods@.len() ==> (#[trigger] w.foods@[i]) != (#[trigger] w.foods@[j]),
{
    assert forall|i: int, j: int|
        0 <= i < w.player_list@.len() && 0 <= j < w.player_list@[i].snake_segments@.len()
        implies (#[trigger] w.player_list@[i].snake_segments@[j]).in_arena() by {
        assert(w.player_list@[i].valid());
    }
    assert forall|i: int| 0 <= i < w.player_list@.len()
        implies (#[trigger] w.player_list@[i]).snake_segments@.len() >= 2 by {
        assert(w.player_list@[i].valid());
    }
}

/// Joining with an id the world does not hold, then immediately leaving with
/// the same id, leaves the player list exactly as it was: no trace of the
/// player and none of its segments. The three lists are the player lists
/// before the join, after the join, and after the leave, each shaped as
/// [`join_game`] and [`leave_game`] promise.
pub proof fn lemma_join_then_leave_restores(
    ps0: Seq<PlayerInfo>,
    ps1: Seq<PlayerInfo>,
    ps2: Seq<PlayerInfo>,
    id: Seq<char>,
)
    requires
        ids_unique(ps0),
        !has_id(ps0, id),
        ps1.len() == ps0.len() + 1,
        ps1.drop_last() == ps0,
        ps1.last().player_id@ == id,
        exists|i: int|
            0 <= i < ps1.len() && (#[trigger] ps1[i]).player_id@ == id && ps2 == ps1.remove(i),
    ensures
        ps2 == ps0,
        !has_id(ps2, id),
        forall|i: int| 0 <= i < ps2.len() ==> (#[trigger] ps2[i]).player_id@ != id,
{
    let i = choose|i: int|
        0 <= i < ps1.len() && (#[trigger] ps1[i]).player_id@ == id && ps2 == ps1.remove(i);
    if i < ps1.len() - 1 {
        assert(ps1[i] == ps1.drop_last()[i]);
        assert(has_id(ps0, id));
        assert(false);
    }
    assert(ps2 =~= ps0) by {
        assert(ps1.remove(ps1.len() - 1) =~= ps1.drop_last());
    }
    assert(forall|k: int| 0 <= k < ps2.len() ==> (#[trigger] ps2[k]).player_id@ != id) by {
        if exists|k: int| 0 <= k < ps2.len() && (#[trigger] ps2[k]).player_id@ == id {
            let k = choose|k: int| 0 <= k < ps2.len() && (#[trigger] ps2[k]).player_id@ == id;
            assert(has_id(ps0, id));
        }
    }
}

} // verus!
