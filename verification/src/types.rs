//! Core data types shared by the world model, the codec and the bus.

use vstd::prelude::*;

verus! {

/// One cell of the play grid. Coordinates are kept as signed integers so that
/// a head stepping over an arena edge can be described before it is rejected;
/// every position actually stored in the world satisfies [`Position::in_arena`].
#[derive(Clone, Copy, Debug, PartialEq, Eq, Structural)]
pub struct Position {
    pub x: i32,
    pub y: i32,
}

impl Position {
    /// True when the position lies inside the `ARENA_WIDTH x ARENA_HEIGHT` grid.
    pub open spec fn in_arena(self) -> bool {
        0 <= self.x < crate::ARENA_WIDTH && 0 <= self.y < crate::ARENA_HEIGHT
    }

    pub fn new(x: i32, y: i32) -> (p: Self)
        ensures
            p == (Position { x, y }),
    {
        Position { x, y }
    }
}

/// Heading of a snake. A key event never turns a snake onto the exact
/// opposite of its current heading.
#[derive(Clone, Copy, Debug, PartialEq, Eq, Structural)]
pub enum Direction {
    Left,
    Up,
    Right,
    Down,
}

impl Direction {
    /// Total involution pairing each heading with its reverse.
    pub fn opposite(self) -> (d: Self)
        ensures
            d == self.spec_opposite(),
    {
        match self {
            Direction::Left => Direction::Right,
            Direction::Right => Direction::Left,
            Direction::Up => Direction::Down,
            Direction::Down => Direction::Up,
        }
    }

    pub open spec fn spec_opposite(self) -> Self {
        match self {
            Direction::Left => Direction::Right,
            Direction::Right => Direction::Left,
            Direction::Up => Direction::Down,
            Direction::Down => Direction::Up,
        }
    }
}

/// `opposite` is an involution: applying it twice returns the argument.
pub proof fn lemma_opposite_involutive(d: Direction)
    ensures
        d.spec_opposite().spec_opposite() == d,
{
}

/// Identity tag carried by every snake: the connection id its owner joined with.
#[derive(Debug)]
pub struct PlayerId {
    pub id: String,
}

impl PlayerId {
    pub fn new(id: String) -> (p: Self)
        ensures
            p.id == id,
    {
        PlayerId { id }
    }
}

/// Authoritative per-player record. Segment positions are stored head first,
/// tail last; `last_tail_position` remembers the cell the tail vacated on the
/// most recent move, where a newly grown segment is placed.
#[derive(Debug)]
pub struct PlayerInfo {
    pub snake_segments: Vec<Position>,
    pub player_id: String,
    pub player_name: String,
    pub direction: Direction,
    pub spawn_pos: Position,
    pub last_tail_position: Option<Position>,
}

/// All joined players, keys (the `player_id` fields) unique.
#[derive(Debug)]
pub struct PlayerList(pub Vec<PlayerInfo>);

impl View for PlayerList {
    type V = Seq<PlayerInfo>;

    open spec fn view(&self) -> Seq<PlayerInfo> {
        self.0@
    }
}

/// Ranked list of `(player_name, score)` pairs, score equal to the best snake
/// length seen for that name, sorted descending and cut to the ten best.
#[derive(Debug)]
pub struct LeaderBoard(pub Vec<(String, usize)>);

impl View for LeaderBoard {
    type V = Seq<(String, usize)>;

    open spec fn view(&self) -> Seq<(String, usize)> {
        self.0@
    }
}

/// Snapshot of the whole world geometry broadcast after every movement tick.
#[derive(Debug)]
pub struct SyncData {
    pub players: Vec<(String, Vec<Position>)>,
    pub foods: Vec<Position>,
}

/// Messages a client sends to the server.
#[derive(Debug)]
pub enum MessageFromClient {
    /// Join the arena: (connection id, display name).
    JoinGame((String, String)),
    /// Leave the arena (sent explicitly or synthesised on disconnect).
    LeaveGame(String),
    /// Steering input: (connection id, key code).
    KeyEvent((String, String)),
    /// Display name typed locally on the client; never handled by the server.
    InputName(String),
}

/// Messages the server sends to clients.
#[derive(Debug)]
pub enum MessageFromServer {
    /// Handshake reply carrying the fresh connection id.
    OnConnected(String),
    /// Current ranking.
    LeaderBoard(LeaderBoard),
    /// World snapshot.
    SyncData(SyncData),
}

/// What travels on the message bus between the network side and the tick engine.
#[derive(Debug)]
pub enum IncomingMessage {
    ClientMessage(MessageFromClient),
    ServerMessage(MessageFromServer),
}

/// A player's head moved onto a food cell this tick; its snake will grow.
pub struct GrowthEvent {
    pub player_id: String,
}

/// A player's head hit a wall or a snake this tick; its snake respawns.
pub struct PlayerDeathEvent {
    pub player_id: String,
}

/// A fresh vector holding the same positions in the same order.
pub(crate) fn copy_positions(v: &Vec<Position>) -> (r: Vec<Position>)
    ensures
        r@ == v@,
{
    let n = v.len();
    let mut r: Vec<Position> = Vec::new();
    let mut i: usize = 0;
    while i < n
        invariant
            n == v@.len(),
            0 <= i <= n,
            r@.len() == i,
            forall|k: int| 0 <= k < i ==> #[trigger] r@[k] == v@[k],
        decreases n - i,
    {
        r.push(v[i]);
        i = i + 1;
    }
    proof {
        assert(r@ =~= v@);
    }
    r
}

/// A movement pass over all players has completed; a snapshot should go out.
pub struct SnakeMovementEvent;

/// The leaderboard changed; clients should be sent the new ranking.
pub struct SyncLeaderBoardEvent;

} // verus!
