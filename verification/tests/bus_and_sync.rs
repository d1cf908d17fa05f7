use futures_channel::mpsc::unbounded;
use snake::bus::{MessageReceiver, MessageSender};
use snake::client::{apply_sync_data, input_name, on_connected, CurrentPlayer};
use snake::engine::{join_game, receive_message, World};
use snake::food::{food_spawner, spawn_food_at};
use snake::growth::snake_growth;
use snake::movement::movement_tick;
use snake::sync::{build_leader_board, build_sync_data, sync_data, sync_leader_board};
use snake::types::{
    IncomingMessage, MessageFromClient, MessageFromServer, PlayerList, Position, SyncData,
};

#[test]
fn join_over_the_bus_lands_inside_the_arena() {
    let (tx, rx) = unbounded::<IncomingMessage>();
    let mut receiver = MessageReceiver::new(rx);
    let mut w = World::new();
    tx.unbounded_send(IncomingMessage::ClientMessage(MessageFromClient::JoinGame((
        "a".to_string(),
        "Alice".to_string(),
    ))))
        .unwrap();
    let sync = receive_message(&mut w, &mut receiver);
    assert!(sync.is_some());
    assert_eq!(w.player_list.0.len(), 1);
    let head = w.player_list.0[0].snake_segments[0];
    assert!(head.x >= 0 && head.x < 40);
    assert_eq!(head.y, 0);
    // Nothing queued: the next poll finds nothing and changes nothing.
    let nothing = receive_message(&mut w, &mut receiver);
    assert!(nothing.is_none());
    assert_eq!(w.player_list.0.len(), 1);
}

#[test]
fn snapshot_goes_out_on_the_bus() {
    let (tx, mut rx_out) = unbounded::<IncomingMessage>();
    let sender = MessageSender::new(tx);
    let mut w = World::new();
    join_game(&mut w, "a".to_string(), "Alice".to_string(), 5);
    spawn_food_at(&mut w, Position::new(1, 1));
    assert!(sync_data(&w, &sender));
    match rx_out.try_recv() {
        Ok(IncomingMessage::ServerMessage(MessageFromServer::SyncData(d))) => {
            assert_eq!(d.players.len(), 1);
            assert_eq!(d.players[0].0, "a");
            assert_eq!(d.players[0].1, vec![Position::new(5, 0), Position::new(5, 0)]);
            assert_eq!(d.foods, vec![Position::new(1, 1)]);
        },
        other => panic!("wrong message on the bus: {:?}", other),
    }
}

#[test]
fn leader_board_goes_out_on_the_bus() {
    let (tx, mut rx_out) = unbounded::<IncomingMessage>();
    let sender = MessageSender::new(tx);
    let mut w = World::new();
    w.leader_board.0.push(("Alice".to_string(), 3));
    assert!(sync_leader_board(&w, &sender));
    match rx_out.try_recv() {
        Ok(IncomingMessage::ServerMessage(MessageFromServer::LeaderBoard(lb))) => {
            assert_eq!(lb.0, vec![("Alice".to_string(), 3)]);
        },
        other => panic!("wrong message on the bus: {:?}", other),
    }
}

#[test]
fn builders_copy_the_world() {
    let mut w = World::new();
    join_game(&mut w, "a".to_string(), "Alice".to_string(), 5);
    w.leader_board.0.push(("Alice".to_string(), 2));
    let s = build_sync_data(&w);
    assert_eq!(s.players.len(), 1);
    assert_eq!(s.players[0].0, "a");
    let lb = build_leader_board(&w);
    assert_eq!(lb.0, vec![("Alice".to_string(), 2)]);
}

#[test]
fn leader_board_sorts_descending_and_keeps_ten() {
    let mut w = World::new();
    // Twelve players, each fed once so its snake reaches length three, with
    // some fed again to spread the scores.
    let names = [
        "p00", "p01", "p02", "p03", "p04", "p05", "p06", "p07", "p08", "p09", "p10", "p11",
    ];
    for (i, name) in names.iter().enumerate() {
        join_game(&mut w, format!("id{}", i), name.to_string(), (3 * i) as i32 % 40);
    }
    for (i, _) in names.iter().enumerate() {
        // Feed player i exactly (i % 4) + 1 times.
        for _ in 0..(i % 4) + 1 {
            feed_player(&mut w, i);
        }
    }
    let lb = &w.leader_board.0;
    assert!(lb.len() <= 10);
    for t in 1..lb.len() {
        assert!(lb[t - 1].1 >= lb[t].1);
    }
    for i in 0..lb.len() {
        for j in i + 1..lb.len() {
            assert_ne!(lb[i].0, lb[j].0);
        }
    }
}

/// Grow player `i` by one segment by moving once and eating a food placed on
/// the cell its head is about to enter.
fn feed_player(w: &mut World, i: usize) {
    let head = w.player_list.0[i].snake_segments[0];
    let target = Position::new(head.x, head.y + 1);
    if !w.foods.contains(&target) {
        spawn_food_at(w, target);
    }
    movement_tick(w);
    // Resolve every pending eat for this tick.
    while let Some(g) = snake::food::snake_eating(w) {
        snake_growth(w, &g);
    }
}

#[test]
fn equal_scores_keep_first_seen_order() {
    // Board [(A,5),(B,5)]; A grows without beating its best of 5, so its row
    // must keep its rank ahead of B.
    let mut w = World::new();
    join_game(&mut w, "a".to_string(), "A".to_string(), 5);
    w.leader_board.0 = vec![("A".to_string(), 5), ("B".to_string(), 5)];
    feed_player(&mut w, 0);
    assert_eq!(
        w.leader_board.0,
        vec![("A".to_string(), 5), ("B".to_string(), 5)]
    );
}

#[test]
fn a_new_or_risen_row_goes_behind_its_equals() {
    // A's row is already on the board; B joins and grows to the same score:
    // B lines up behind A. Growing past A then moves B ahead.
    let mut w = World::new();
    join_game(&mut w, "b".to_string(), "B".to_string(), 7);
    w.leader_board.0 = vec![("A".to_string(), 3)];
    feed_player(&mut w, 0);
    assert_eq!(
        w.leader_board.0,
        vec![("A".to_string(), 3), ("B".to_string(), 3)]
    );
    feed_player(&mut w, 0);
    assert_eq!(
        w.leader_board.0,
        vec![("B".to_string(), 4), ("A".to_string(), 3)]
    );
}

#[test]
fn scores_never_go_down() {
    let mut w = World::new();
    join_game(&mut w, "a".to_string(), "Alice".to_string(), 5);
    feed_player(&mut w, 0);
    assert_eq!(w.leader_board.0[0], ("Alice".to_string(), 3));
    // Death resets the snake but the recorded best score stays.
    snake::movement::player_death(
        &mut w,
        &snake::types::PlayerDeathEvent { player_id: "a".to_string() },
    );
    feed_player(&mut w, 0);
    assert_eq!(w.leader_board.0[0], ("Alice".to_string(), 3));
}

#[test]
fn food_spawner_fills_up_to_capacity() {
    let mut w = World::new();
    for _ in 0..25 {
        food_spawner(&mut w);
    }
    assert_eq!(w.foods.len(), 20);
    for f in &w.foods {
        assert!(f.x >= 0 && f.x < 40 && f.y >= 0 && f.y < 40);
    }
    for i in 0..w.foods.len() {
        for j in i + 1..w.foods.len() {
            assert_ne!(w.foods[i], w.foods[j]);
        }
    }
}

#[test]
fn client_reconciles_to_the_snapshot() {
    let mut local = PlayerList(Vec::new());
    let data = SyncData {
        players: vec![
            ("a".to_string(), vec![Position::new(5, 3), Position::new(5, 2)]),
            ("b".to_string(), vec![Position::new(9, 9), Position::new(9, 8)]),
        ],
        foods: Vec::new(),
    };
    apply_sync_data(&mut local, &data);
    assert_eq!(local.0.len(), 2);
    assert_eq!(local.0[0].player_id, "a");
    assert_eq!(local.0[0].snake_segments, vec![Position::new(5, 3), Position::new(5, 2)]);
    assert_eq!(local.0[1].player_id, "b");

    // The next snapshot drops b and moves a; the local list follows.
    let next = SyncData {
        players: vec![(
            "a".to_string(),
            vec![Position::new(5, 4), Position::new(5, 3), Position::new(5, 2)],
        )],
        foods: Vec::new(),
    };
    apply_sync_data(&mut local, &next);
    assert_eq!(local.0.len(), 1);
    assert_eq!(local.0[0].player_id, "a");
    assert_eq!(local.0[0].snake_segments.len(), 3);
}

#[test]
fn typed_name_becomes_a_join_for_the_connected_id() {
    let mut current = CurrentPlayer(None);
    assert!(input_name(&current, "Alice".to_string()).is_none());
    on_connected(&mut current, "id-9".to_string());
    match input_name(&current, "Alice".to_string()) {
        Some(MessageFromClient::JoinGame((id, name))) => {
            assert_eq!(id, "id-9");
            assert_eq!(name, "Alice");
        },
        other => panic!("wrong join request: {:?}", other),
    }
}
