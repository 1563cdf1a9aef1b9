use paperio::game::{capture_gain, Game};
use paperio::proto::{Cell, Direction, World};

fn entry(w: &World, label: &str) -> paperio::proto::Player {
    w.players.iter().find(|(l, _)| l == label).unwrap().1.clone()
}

fn sorted(mut v: Vec<Cell>) -> Vec<Cell> {
    v.sort_by_key(|c| (c.0, c.1));
    v
}

fn block(cx: i32, cy: i32) -> Vec<Cell> {
    let mut v = Vec::new();
    for x in cx - 1..=cx + 1 {
        for y in cy - 1..=cy + 1 {
            v.push(Cell(x, y));
        }
    }
    sorted(v)
}

#[test]
fn new_game_spawns_blocks() {
    let g = Game::new(4);
    let w = g.get_spectator_world();
    assert_eq!(w.tick_num, 1);
    assert_eq!(w.players.len(), 4);
    let labels: Vec<&str> = w.players.iter().map(|(l, _)| l.as_str()).collect();
    assert_eq!(labels, vec!["1", "2", "3", "4"]);
    let spawns = [Cell(9, 9), Cell(9, 21), Cell(21, 21), Cell(21, 9)];
    for (i, (_, p)) in w.players.iter().enumerate() {
        assert_eq!(p.position, spawns[i]);
        assert_eq!(sorted(p.territory.clone()), block(spawns[i].0, spawns[i].1));
        assert!(p.lines.is_empty());
        assert_eq!(p.score, 0);
        assert_eq!(p.direction, Some(Direction::Left));
        assert!(!p.has_lost);
    }
    assert_eq!(g.get_game_params().x_cells_count, 31);
    assert_eq!(g.get_game_params().y_cells_count, 31);
}

#[test]
fn moving_inside_own_territory_changes_nothing() {
    let mut g = Game::new(1);
    let before = entry(&g.get_player_world(1), "i");
    assert_eq!(before.position, Cell(9, 9));
    // Left, up, right, down: a small loop inside the 3 x 3 block.
    g.tick();
    assert!(g.try_change_direction(1, Direction::Up));
    g.tick();
    assert!(g.try_change_direction(1, Direction::Right));
    g.tick();
    assert!(g.try_change_direction(1, Direction::Down));
    g.tick();
    let after = entry(&g.get_player_world(1), "i");
    assert_eq!(after.position, Cell(9, 9));
    assert_eq!(after.score, 0);
    assert_eq!(sorted(after.territory.clone()), sorted(before.territory.clone()));
    assert!(after.lines.is_empty());
    assert!(!g.has_lost(1));
}

#[test]
fn closed_trace_captures_enclosed_area() {
    let mut g = Game::new(1);
    // From (9, 9): left twice out of the block, up twice, right twice, down home.
    let moves = [
        Direction::Left,
        Direction::Left,
        Direction::Left,
        Direction::Up,
        Direction::Up,
        Direction::Right,
        Direction::Right,
    ];
    for d in moves {
        g.try_change_direction(1, d);
        g.tick();
    }
    let mid = entry(&g.get_player_world(1), "i");
    assert_eq!(mid.position, Cell(8, 11));
    assert_eq!(
        sorted(mid.lines.clone()),
        sorted(vec![Cell(7, 9), Cell(6, 9), Cell(6, 10), Cell(6, 11), Cell(7, 11), Cell(8, 11)])
    );
    assert_eq!(mid.score, 0);
    assert!(g.try_change_direction(1, Direction::Down));
    g.tick();
    let p = entry(&g.get_player_world(1), "i");
    assert_eq!(p.position, Cell(8, 10));
    // One enclosed free cell, (7, 10), and six free trace cells.
    assert_eq!(p.score, 1 + 6);
    assert!(p.lines.is_empty());
    let mut expected = block(9, 9);
    expected.extend([Cell(7, 9), Cell(6, 9), Cell(6, 10), Cell(6, 11), Cell(7, 11), Cell(8, 11), Cell(7, 10)]);
    assert_eq!(sorted(p.territory.clone()), sorted(expected));
}

fn head_on_run() -> World {
    let mut g = Game::new(2);
    assert!(g.try_change_direction(1, Direction::Up));
    assert!(g.try_change_direction(2, Direction::Down));
    for _ in 0..5 {
        g.tick();
        assert!(!g.has_lost(1));
        assert!(!g.has_lost(2));
    }
    // Both now head for the free cell (9, 15).
    g.tick();
    assert!(g.has_lost(1));
    assert!(g.has_lost(2));
    g.get_spectator_world()
}

#[test]
fn head_on_into_free_cell_eliminates_both() {
    let w1 = head_on_run();
    let w2 = head_on_run();
    assert_eq!(w1, w2);
    for (_, p) in &w1.players {
        assert!(p.has_lost);
        assert!(p.territory.is_empty());
        assert!(p.lines.is_empty());
    }
    assert_eq!(w1.tick_num, 7);
}

#[test]
fn reversal_is_rejected() {
    let mut g = Game::new(1);
    assert!(g.try_change_direction(1, Direction::Up));
    assert!(!g.try_change_direction(1, Direction::Down));
    let p = entry(&g.get_player_world(1), "i");
    assert_eq!(p.direction, Some(Direction::Up));
    assert!(g.try_change_direction(1, Direction::Up));
    assert!(g.try_change_direction(1, Direction::Right));
    assert!(!g.try_change_direction(1, Direction::Left));
}

#[test]
fn player_world_is_idempotent() {
    let mut g = Game::new(3);
    g.tick();
    g.tick();
    let a = g.get_player_world(2);
    let b = g.get_player_world(2);
    assert_eq!(a, b);
    let labels: Vec<&str> = a.players.iter().map(|(l, _)| l.as_str()).collect();
    assert_eq!(labels, vec!["1", "i", "3"]);
}

#[test]
fn leaving_the_field_eliminates() {
    let mut g = Game::new(1);
    for _ in 0..9 {
        g.tick();
        assert!(!g.has_lost(1));
    }
    // At (0, 9) heading left: the next step leaves the field.
    assert_eq!(entry(&g.get_player_world(1), "i").position, Cell(0, 9));
    g.tick();
    assert!(g.has_lost(1));
    let p = entry(&g.get_player_world(1), "i");
    assert!(p.territory.is_empty());
    assert!(p.lines.is_empty());
    assert!(p.has_lost);
}

#[test]
fn crossing_own_trace_eliminates() {
    let mut g = Game::new(1);
    let moves = [
        Direction::Left,
        Direction::Left,
        Direction::Left,
        Direction::Up,
        Direction::Right,
    ];
    for d in moves {
        g.try_change_direction(1, d);
        g.tick();
        assert!(!g.has_lost(1));
    }
    assert!(g.try_change_direction(1, Direction::Down));
    g.tick();
    // That step went back onto (7, 9), on the player's own trace.
    assert!(g.has_lost(1));
}

#[test]
fn cutting_a_trace_eliminates_its_owner() {
    let mut g = Game::new(2);
    // Player 1 walks up along x = 7 leaving a trace; player 2 comes down x = 7.
    assert!(g.try_change_direction(2, Direction::Left));
    g.tick(); // 1 at (8, 9), 2 at (8, 21)
    g.tick(); // 1 at (7, 9) traced, 2 at (7, 21)
    assert!(g.try_change_direction(1, Direction::Up));
    assert!(g.try_change_direction(2, Direction::Down));
    for _ in 0..4 {
        g.tick();
    }
    // 1 has traced (7, 9)..=(7, 13); 2 has traced (7, 20)..=(7, 17).
    assert!(!g.has_lost(1));
    assert!(!g.has_lost(2));
    assert!(g.try_change_direction(1, Direction::Right));
    g.tick(); // 1 at (8, 13), 2 at (7, 16)
    g.tick(); // 1 at (9, 13), 2 at (7, 15)
    g.tick(); // 1 at (10, 13), 2 at (7, 14)
    assert!(!g.has_lost(1));
    g.tick(); // 2 steps onto (7, 13), traced by 1
    assert!(g.has_lost(1));
    assert!(!g.has_lost(2));
}

#[test]
fn leader_is_unique_top_score() {
    let g = Game::new(2);
    assert_eq!(g.leader_id(), None);
    let mut g = Game::new(2);
    let moves = [
        Direction::Left,
        Direction::Left,
        Direction::Left,
        Direction::Up,
        Direction::Up,
        Direction::Right,
        Direction::Right,
        Direction::Down,
    ];
    for d in moves {
        g.try_change_direction(1, d);
        g.tick();
    }
    assert_eq!(g.leader_id(), Some(1));
}

#[test]
fn capture_gain_weighs_enemy_cells() {
    assert_eq!(capture_gain(0, 0), 0);
    assert_eq!(capture_gain(2, 3), 13);
    assert_eq!(capture_gain(u32::MAX, 1), u32::MAX);
}
