//! Sync encoders: pure builders from world state to outbound payloads, and
//! the thin functions that put them on the bus.

use vstd::prelude::*;

use crate::bus::MessageSender;
use crate::engine::World;
use crate::types::{
    copy_positions, IncomingMessage, LeaderBoard, MessageFromServer, Position, SyncData,
};

verus! {

/// The snapshot payload for the current world: for every player, in player
/// order, its id and its segment positions head first; plus the food cells.
pub fn build_sync_data(w: &World) -> (s: SyncData)
    ensures
        s.players@.len() == w.player_list@.len(),
        forall|i: int|
            0 <= i < w.player_list@.len() ==> (#[trigger] s.players@[i]).0@ == w.player_list@[
                i].player_id@ && s.players@[i].1@ == w.player_list@[i].snake_segments@,
        s.foods@ == w.foods@,
{
    let n = w.player_list.0.len();
    let mut players: Vec<(String, Vec<Position>)> = Vec::new();
    let mut i: usize = 0;
    while i < n
        invariant
            n == w.player_list@.len(),
            0 <= i <= n,
            players@.len() == i,
            forall|k: int|
                0 <= k < i ==> (#[trigger] players@[k]).0@ == w.player_list@[k].player_id@
                    && players@[k].1@ == w.player_list@[k].snake_segments@,
        decreases n - i,
    {
        let id = w.player_list.0[i].player_id.clone();
        let segs = copy_positions(&w.player_list.0[i].snake_segments);
        players.push((id, segs));
        i = i + 1;
    }
    let foods = copy_positions(&w.foods);
    SyncData { players, foods }
}

/// The current ranking as its own value, ready to leave on the wire.
pub fn build_leader_board(w: &World) -> (r: LeaderBoard)
    ensures
        r@.len() == w.leader_board@.len(),
        forall|i: int|
            0 <= i < w.leader_board@.len() ==> (#[trigger] r@[i]).0@ == w.leader_board@[i].0@
                && r@[i].1 == w.leader_board@[i].1,
{
    let n = w.leader_board.0.len();
    let mut rows: Vec<(String, usize)> = Vec::new();
    let mut i: usize = 0;
    while i < n
        invariant
            n == w.leader_board@.len(),
            0 <= i <= n,
            rows@.len() == i,
            forall|k: int|
                0 <= k < i ==> (#[trigger] rows@[k]).0@ == w.leader_board@[k].0@ && rows@[k].1
                    == w.leader_board@[k].1,
        decreases n - i,
    {
        let name = w.leader_board.0[i].0.clone();
        let score = w.leader_board.0[i].1;
        rows.push((name, score));
        i = i + 1;
    }
    LeaderBoard(rows)
}

/// Emit one snapshot of the world onto the outbound bus, as the engine does
/// after every movement tick. The payload is [`build_sync_data`]'s; the
/// result tells whether the network side was still listening.
pub fn sync_data(w: &World, message_sender: &MessageSender) -> bool {
    let data = build_sync_data(w);
    message_sender.send(IncomingMessage::ServerMessage(MessageFromServer::SyncData(data)))
}

/// Emit the current ranking onto the outbound bus, as the engine does when a
/// leaderboard sync is owed. The payload is [`build_leader_board`]'s; the
/// result tells whether the network side was still listening.
pub fn sync_leader_board(w: &World, message_sender: &MessageSender) -> bool {
    let board = build_leader_board(w);
    message_sender.send(IncomingMessage::ServerMessage(MessageFromServer::LeaderBoard(board)))
}

} // verus!
