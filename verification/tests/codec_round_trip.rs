use snake::codec::{
    decode_message_from_client, decode_message_from_server, encode_message_from_client,
    encode_message_from_server,
};
use snake::types::{
    LeaderBoard, MessageFromClient, MessageFromServer, Position, SyncData,
};

#[test]
fn join_game_round_trip() {
    let m = MessageFromClient::JoinGame(("id-1".to_string(), "Alice".to_string()));
    let bytes = encode_message_from_client(&m);
    match decode_message_from_client(&bytes) {
        Ok(MessageFromClient::JoinGame((id, name))) => {
            assert_eq!(id, "id-1");
            assert_eq!(name, "Alice");
        },
        other => panic!("decoded wrongly: {:?}", other),
    }
}

#[test]
fn leave_game_round_trip() {
    let m = MessageFromClient::LeaveGame("id-2".to_string());
    let bytes = encode_message_from_client(&m);
    match decode_message_from_client(&bytes) {
        Ok(MessageFromClient::LeaveGame(id)) => assert_eq!(id, "id-2"),
        other => panic!("decoded wrongly: {:?}", other),
    }
}

#[test]
fn key_event_round_trip() {
    let m = MessageFromClient::KeyEvent(("id-3".to_string(), "L".to_string()));
    let bytes = encode_message_from_client(&m);
    match decode_message_from_client(&bytes) {
        Ok(MessageFromClient::KeyEvent((id, key))) => {
            assert_eq!(id, "id-3");
            assert_eq!(key, "L");
        },
        other => panic!("decoded wrongly: {:?}", other),
    }
}

#[test]
fn input_name_round_trip_with_wide_characters() {
    let m = MessageFromClient::InputName("snake player".to_string());
    let bytes = encode_message_from_client(&m);
    match decode_message_from_client(&bytes) {
        Ok(MessageFromClient::InputName(name)) => assert_eq!(name, "snake player"),
        other => panic!("decoded wrongly: {:?}", other),
    }
}

#[test]
fn wide_code_points_survive_the_round_trip() {
    let name = "sn\u{00e4}ke \u{1F40D}\u{4e16}".to_string();
    let m = MessageFromClient::InputName(name.clone());
    let bytes = encode_message_from_client(&m);
    match decode_message_from_client(&bytes) {
        Ok(MessageFromClient::InputName(decoded)) => assert_eq!(decoded, name),
        other => panic!("decoded wrongly: {:?}", other),
    }
}

#[test]
fn empty_and_garbage_frames_are_rejected() {
    assert!(decode_message_from_client(&Vec::new()).is_err());
    assert!(decode_message_from_server(&Vec::new()).is_err());
    assert!(decode_message_from_client(&vec![1, 2, 3]).is_err());
    // A valid-length frame with an unknown tag.
    let mut unknown = vec![9, 0, 0, 0, 0, 0, 0, 0];
    unknown.extend_from_slice(&[0, 0, 0, 0, 0, 0, 0, 0]);
    assert!(decode_message_from_client(&unknown).is_err());
    assert!(decode_message_from_server(&unknown).is_err());
}

#[test]
fn truncated_and_padded_frames_are_rejected() {
    let m = MessageFromClient::LeaveGame("abc".to_string());
    let good = encode_message_from_client(&m);
    let mut truncated = good.clone();
    truncated.pop();
    assert!(decode_message_from_client(&truncated).is_err());
    let mut padded = good.clone();
    padded.push(0);
    assert!(decode_message_from_client(&padded).is_err());
    assert!(decode_message_from_client(&good).is_ok());
}

#[test]
fn surrogate_code_point_is_rejected() {
    // Tag 2 (leave), one character whose code point falls in the surrogate
    // range: no string contains it, so no message encodes to this frame.
    let mut bytes = vec![2, 0, 0, 0, 0, 0, 0, 0];
    bytes.extend_from_slice(&[1, 0, 0, 0, 0, 0, 0, 0]);
    bytes.extend_from_slice(&[0x00, 0xD8, 0, 0, 0, 0, 0, 0]);
    assert!(decode_message_from_client(&bytes).is_err());
}

#[test]
fn on_connected_round_trip() {
    let m = MessageFromServer::OnConnected("fresh-id".to_string());
    let bytes = encode_message_from_server(&m).expect("always encodable");
    match decode_message_from_server(&bytes) {
        Ok(MessageFromServer::OnConnected(id)) => assert_eq!(id, "fresh-id"),
        other => panic!("decoded wrongly: {:?}", other),
    }
}

#[test]
fn leader_board_round_trip() {
    let m = MessageFromServer::LeaderBoard(LeaderBoard(vec![
        ("Alice".to_string(), 7),
        ("Bob".to_string(), 3),
    ]));
    let bytes = encode_message_from_server(&m).expect("always encodable");
    match decode_message_from_server(&bytes) {
        Ok(MessageFromServer::LeaderBoard(lb)) => {
            assert_eq!(lb.0.len(), 2);
            assert_eq!(lb.0[0], ("Alice".to_string(), 7));
            assert_eq!(lb.0[1], ("Bob".to_string(), 3));
        },
        other => panic!("decoded wrongly: {:?}", other),
    }
}

#[test]
fn sync_data_round_trip() {
    let m = MessageFromServer::SyncData(SyncData {
        players: vec![
            ("a".to_string(), vec![Position::new(5, 3), Position::new(5, 2)]),
            ("b".to_string(), vec![Position::new(7, 0), Position::new(7, 0)]),
        ],
        foods: vec![Position::new(1, 2), Position::new(30, 39)],
    });
    let bytes = encode_message_from_server(&m).expect("in-arena snapshot encodes");
    match decode_message_from_server(&bytes) {
        Ok(MessageFromServer::SyncData(d)) => {
            assert_eq!(d.players.len(), 2);
            assert_eq!(d.players[0].0, "a");
            assert_eq!(d.players[0].1, vec![Position::new(5, 3), Position::new(5, 2)]);
            assert_eq!(d.players[1].0, "b");
            assert_eq!(d.players[1].1, vec![Position::new(7, 0), Position::new(7, 0)]);
            assert_eq!(d.foods, vec![Position::new(1, 2), Position::new(30, 39)]);
        },
        other => panic!("decoded wrongly: {:?}", other),
    }
}

#[test]
fn out_of_arena_snapshot_does_not_encode() {
    let m = MessageFromServer::SyncData(SyncData {
        players: vec![("a".to_string(), vec![Position::new(40, 0), Position::new(5, 2)])],
        foods: Vec::new(),
    });
    assert!(encode_message_from_server(&m).is_none());
    let m2 = MessageFromServer::SyncData(SyncData {
        players: Vec::new(),
        foods: vec![Position::new(0, -1)],
    });
    assert!(encode_message_from_server(&m2).is_none());
}

#[test]
fn out_of_arena_position_on_the_wire_is_rejected() {
    // Tag 3, no players, one food at (40, 0): outside the arena.
    let mut bytes = vec![3, 0, 0, 0, 0, 0, 0, 0];
    bytes.extend_from_slice(&[0, 0, 0, 0, 0, 0, 0, 0]);
    bytes.extend_from_slice(&[1, 0, 0, 0, 0, 0, 0, 0]);
    bytes.extend_from_slice(&[40, 0, 0, 0, 0, 0, 0, 0]);
    bytes.extend_from_slice(&[0, 0, 0, 0, 0, 0, 0, 0]);
    assert!(decode_message_from_server(&bytes).is_err());
}
