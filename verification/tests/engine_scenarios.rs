use snake::engine::{join_game, key_event, leave_game, World};
use snake::food::{snake_eating, spawn_food_at};
use snake::growth::snake_growth;
use snake::movement::movement_tick;
use snake::types::Position;

fn world_with_player(id: &str, name: &str, x: i32) -> World {
    let mut w = World::new();
    join_game(&mut w, id.to_string(), name.to_string(), x);
    w
}

#[test]
fn join_spawns_two_segments_on_top_row() {
    let w = world_with_player("a", "Alice", 5);
    assert_eq!(w.player_list.0.len(), 1);
    let p = &w.player_list.0[0];
    assert_eq!(p.player_id, "a");
    assert_eq!(p.player_name, "Alice");
    assert_eq!(p.snake_segments.len(), 2);
    assert_eq!(p.snake_segments[0], Position::new(5, 0));
    assert_eq!(p.snake_segments[1], Position::new(5, 0));
    assert!(p.last_tail_position.is_none());
}

#[test]
fn three_ticks_up_moves_head_to_row_three() {
    let mut w = world_with_player("a", "Alice", 5);
    for _ in 0..3 {
        let deaths = movement_tick(&mut w);
        assert!(deaths.is_empty());
    }
    let p = &w.player_list.0[0];
    assert_eq!(p.snake_segments[0], Position::new(5, 3));
    assert_eq!(p.snake_segments[1], Position::new(5, 2));
    assert_eq!(p.snake_segments.len(), 2);
}

#[test]
fn food_on_fourth_row_feeds_on_fourth_tick() {
    let mut w = world_with_player("a", "Alice", 5);
    spawn_food_at(&mut w, Position::new(5, 4));
    assert_eq!(w.foods.len(), 1);
    for _ in 0..3 {
        let deaths = movement_tick(&mut w);
        assert!(deaths.is_empty());
        assert!(snake_eating(&mut w).is_none());
    }
    let deaths = movement_tick(&mut w);
    assert!(deaths.is_empty());
    assert_eq!(w.player_list.0[0].snake_segments[0], Position::new(5, 4));
    let growth = snake_eating(&mut w).expect("head reached the food");
    assert_eq!(growth.player_id, "a");
    assert!(w.foods.is_empty());
    let sync = snake_growth(&mut w, &growth);
    assert!(sync.is_some());
    let p = &w.player_list.0[0];
    assert_eq!(p.snake_segments.len(), 3);
    assert_eq!(p.snake_segments[0], Position::new(5, 4));
    assert_eq!(p.snake_segments[1], Position::new(5, 3));
    assert_eq!(p.snake_segments[2], Position::new(5, 2));
    assert_eq!(w.leader_board.0.len(), 1);
    assert_eq!(w.leader_board.0[0].0, "Alice");
    assert_eq!(w.leader_board.0[0].1, 3);
}

#[test]
fn eating_is_spent_with_the_food() {
    let mut w = world_with_player("a", "Alice", 5);
    spawn_food_at(&mut w, Position::new(5, 1));
    let deaths = movement_tick(&mut w);
    assert!(deaths.is_empty());
    let first = snake_eating(&mut w);
    assert!(first.is_some());
    // The food left the world with the growth decision: a second pass finds
    // nothing to eat on the same cell.
    let second = snake_eating(&mut w);
    assert!(second.is_none());
    assert!(w.foods.is_empty());
}

#[test]
fn two_heads_on_one_cell_kill_both() {
    let mut w = World::new();
    join_game(&mut w, "a".to_string(), "Alice".to_string(), 5);
    join_game(&mut w, "b".to_string(), "Bob".to_string(), 7);
    key_event(&mut w, &"a".to_string(), &"R".to_string());
    key_event(&mut w, &"b".to_string(), &"L".to_string());
    let deaths = movement_tick(&mut w);
    assert_eq!(deaths.len(), 2);
    let mut ids: Vec<String> = deaths.iter().map(|d| d.player_id.clone()).collect();
    ids.sort();
    assert_eq!(ids, vec!["a".to_string(), "b".to_string()]);
    for p in &w.player_list.0 {
        assert_eq!(p.snake_segments.len(), 2);
        assert_eq!(p.snake_segments[0].y, 0);
        assert_eq!(p.snake_segments[0], p.snake_segments[1]);
        assert!(p.snake_segments[0].x >= 0 && p.snake_segments[0].x < 40);
    }
}

#[test]
fn wall_hit_kills_exactly_once_and_respawns() {
    let mut w = world_with_player("a", "Alice", 5);
    for _ in 0..39 {
        let deaths = movement_tick(&mut w);
        assert!(deaths.is_empty());
    }
    assert_eq!(w.player_list.0[0].snake_segments[0], Position::new(5, 39));
    let deaths = movement_tick(&mut w);
    assert_eq!(deaths.len(), 1);
    assert_eq!(deaths[0].player_id, "a");
    let p = &w.player_list.0[0];
    assert_eq!(p.player_id, "a");
    assert_eq!(p.player_name, "Alice");
    assert_eq!(p.snake_segments.len(), 2);
    assert_eq!(p.snake_segments[0].y, 0);
    assert!(p.snake_segments[0].x >= 0 && p.snake_segments[0].x < 40);
}

#[test]
fn join_then_leave_leaves_nothing_behind() {
    let mut w = World::new();
    join_game(&mut w, "a".to_string(), "Alice".to_string(), 5);
    leave_game(&mut w, &"a".to_string());
    assert_eq!(w.player_list.0.len(), 0);
    // Leaving again (or for an unknown id) is idempotent.
    leave_game(&mut w, &"a".to_string());
    assert_eq!(w.player_list.0.len(), 0);
}

#[test]
fn rejoin_replaces_the_old_snake() {
    let mut w = world_with_player("a", "Alice", 5);
    join_game(&mut w, "a".to_string(), "Alfred".to_string(), 9);
    assert_eq!(w.player_list.0.len(), 1);
    assert_eq!(w.player_list.0[0].player_name, "Alfred");
    assert_eq!(w.player_list.0[0].snake_segments[0], Position::new(9, 0));
}

#[test]
fn reversal_key_is_ignored() {
    let mut w = world_with_player("a", "Alice", 5);
    // Heading up; "D" asks for the exact opposite and must be ignored.
    key_event(&mut w, &"a".to_string(), &"D".to_string());
    let deaths = movement_tick(&mut w);
    assert!(deaths.is_empty());
    assert_eq!(w.player_list.0[0].snake_segments[0], Position::new(5, 1));
}

#[test]
fn unknown_key_and_unknown_player_are_ignored() {
    let mut w = world_with_player("a", "Alice", 5);
    key_event(&mut w, &"a".to_string(), &"X".to_string());
    key_event(&mut w, &"ghost".to_string(), &"L".to_string());
    let deaths = movement_tick(&mut w);
    assert!(deaths.is_empty());
    assert_eq!(w.player_list.0[0].snake_segments[0], Position::new(5, 1));
}

#[test]
fn every_segment_stays_inside_the_arena() {
    let mut w = World::new();
    join_game(&mut w, "a".to_string(), "Alice".to_string(), 0);
    join_game(&mut w, "b".to_string(), "Bob".to_string(), 39);
    key_event(&mut w, &"a".to_string(), &"L".to_string());
    for _ in 0..45 {
        movement_tick(&mut w);
        for p in &w.player_list.0 {
            assert!(p.snake_segments.len() >= 2);
            for s in &p.snake_segments {
                assert!(s.x >= 0 && s.x < 40 && s.y >= 0 && s.y < 40);
            }
        }
    }
}
