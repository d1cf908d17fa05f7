//! Client-side handling of server messages: matching the local world to the
//! latest authoritative snapshot, and the small decisions around joining.

use vstd::prelude::*;

use crate::engine::{has_id, ids_unique};
use crate::types::{
    copy_positions, Direction, MessageFromClient, PlayerInfo, PlayerList, Position, SyncData,
};

verus! {

/// The id this client was handed on connect, once known.
pub struct CurrentPlayer(pub Option<String>);

/// Record the id the server handed out on connect.
pub fn on_connected(current: &mut CurrentPlayer, id: String)
    ensures
        final(current).0 matches Some(s) && s@ == id@,
{
    current.0 = Some(id);
}

/// The join request a locally typed name becomes: nothing until the server
/// has handed out an id, else a `JoinGame` carrying that id and the name.
pub fn input_name(current: &CurrentPlayer, user_name: String) -> (r: Option<MessageFromClient>)
    ensures
        match current.0 {
            None => r is None,
            Some(ref pid) => r matches Some(m) && m matches MessageFromClient::JoinGame(p)
                && p.0@ == pid@ && p.1@ == user_name@,
        },
{
    match &current.0 {
        None => None,
        Some(pid) => Some(MessageFromClient::JoinGame((pid.clone(), user_name))),
    }
}

/// No two snapshot rows name the same player.
pub open spec fn snapshot_ids_unique(ps: Seq<(String, Vec<Position>)>) -> bool {
    forall|i: int, j: int|
        0 <= i < j < ps.len() ==> (#[trigger] ps[i]).0@ != (#[trigger] ps[j]).0@
}

/// Reconcile the local player list with an authoritative snapshot: afterwards
/// it holds exactly the snapshot's players with exactly the snapshot's
/// segment positions, in snapshot order. A player the client already knew
/// keeps its display name and steering metadata; a new one starts out as the
/// server first announced it.
pub fn apply_sync_data(local: &mut PlayerList, data: &SyncData)
    requires
        snapshot_ids_unique(data.players@),
    ensures
        final(local)@.len() == data.players@.len(),
        forall|k: int|
            0 <= k < data.players@.len() ==> (#[trigger] final(local)@[k]).player_id@
                == data.players@[k].0@ && final(local)@[k].snake_segments@
                == data.players@[k].1@,
        forall|k: int|
            0 <= k < data.players@.len() && !has_id(old(local)@, (#[trigger] data.players@[k]).0@)
                ==> final(local)@[k].player_name@ == data.players@[k].0@
                && final(local)@[k].direction == Direction::Up,
        forall|k: int|
            0 <= k < data.players@.len() && has_id(old(local)@, (#[trigger] data.players@[k]).0@)
                ==> exists|j: int|
                0 <= j < old(local)@.len() && (#[trigger] old(local)@[j]).player_id@
                    == data.players@[k].0@ && final(local)@[k].player_name@ == old(
                    local,
                )@[j].player_name@ && final(local)@[k].direction == old(local)@[j].direction,
        ids_unique(final(local)@),
{
    let n = data.players.len();
    let mut rebuilt: Vec<PlayerInfo> = Vec::new();
    let mut k: usize = 0;
    while k < n
        invariant
            snapshot_ids_unique(data.players@),
            n == data.players@.len(),
            0 <= k <= n,
            rebuilt@.len() == k,
            forall|t: int|
                0 <= t < k ==> (#[trigger] rebuilt@[t]).player_id@ == data.players@[t].0@
                    && rebuilt@[t].snake_segments@ == data.players@[t].1@,
            forall|t: int|
                0 <= t < k && !has_id(local@, (#[trigger] data.players@[t]).0@) ==> rebuilt@[
                    t].player_name@ == data.players@[t].0@ && rebuilt@[t].direction
                    == Direction::Up,
            forall|t: int|
                0 <= t < k && has_id(local@, (#[trigger] data.players@[t]).0@) ==> exists|j: int|
                    0 <= j < local@.len() && (#[trigger] local@[j]).player_id@
                        == data.players@[t].0@ && rebuilt@[t].player_name@ == local@[
                        j].player_name@ && rebuilt@[t].direction == local@[j].direction,
        decreases n - k,
    {
        let segments = copy_positions(&data.players[k].1);
        let id = data.players[k].0.clone();
        let found = crate::engine::find_player(local, &data.players[k].0);
        let info = match found {
            Some(j) => PlayerInfo {
                snake_segments: segments,
                player_id: id,
                player_name: local.0[j].player_name.clone(),
                direction: local.0[j].direction,
                spawn_pos: local.0[j].spawn_pos,
                last_tail_position: local.0[j].last_tail_position,
            },
            None => {
                let name = data.players[k].0.clone();
                PlayerInfo {
                    snake_segments: segments,
                    player_id: id,
                    player_name: name,
                    direction: Direction::Up,
                    spawn_pos: Position { x: 0, y: 0 },
                    last_tail_position: None,
                }
            },
        };
        rebuilt.push(info);
        k = k + 1;
    }
    local.0 = rebuilt;
    proof {
        assert forall|k1: int, k2: int| 0 <= k1 < k2 < final(local)@.len()
            implies (#[trigger] final(local)@[k1]).player_id@
                != (#[trigger] final(local)@[k2]).player_id@ by {
            assert(final(local)@[k1].player_id@ == data.players@[k1].0@);
            assert(final(local)@[k2].player_id@ == data.players@[k2].0@);
        }
    }
}

} // verus!
