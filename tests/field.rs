use paperio::game_field::{CellState, GameField};
use paperio::player_vec::PlayerIndexedVector;
use paperio::proto::Cell;

fn sorted(mut v: Vec<Cell>) -> Vec<Cell> {
    v.sort_by_key(|c| (c.0, c.1));
    v
}

#[test]
fn set_trace_moves_trace_between_players() {
    let mut f = GameField::new(5, 5, 2);
    f.set_trace(Cell(1, 1), 1);
    assert_eq!(f.traced_cells(1), vec![Cell(1, 1)]);
    f.set_trace(Cell(1, 1), 2);
    assert!(f.traced_cells(1).is_empty());
    assert_eq!(f.traced_cells(2), vec![Cell(1, 1)]);
    assert_eq!(f.get(Cell(1, 1)).is_traced(), Some(2));
    assert!(f.get(Cell(1, 1)).is_traced_by(2));
    assert!(!f.get(Cell(1, 1)).is_traced_by(1));
}

#[test]
fn set_captured_clears_own_trace_only() {
    let mut f = GameField::new(5, 5, 2);
    f.set_trace(Cell(2, 2), 1);
    f.set_captured(Cell(2, 2), 1);
    assert_eq!(f.get(Cell(2, 2)), CellState { captured: Some(1), traced: None });
    f.set_trace(Cell(3, 3), 2);
    f.set_captured(Cell(3, 3), 1);
    assert_eq!(f.get(Cell(3, 3)), CellState { captured: Some(1), traced: Some(2) });
    f.set_captured(Cell(3, 3), 2);
    assert!(f.get(Cell(3, 3)).is_captured_by(2));
    assert!(!f.get(Cell(3, 3)).is_captured_by(1));
    let (territory, lines) = f.get_for_player(1);
    assert_eq!(territory, vec![Cell(2, 2)]);
    assert!(lines.is_empty());
}

#[test]
fn remove_player_frees_its_cells() {
    let mut f = GameField::new(10, 10, 2);
    f.init_player(1, Cell(2, 2));
    f.init_player(2, Cell(6, 6));
    f.set_trace(Cell(4, 2), 1);
    f.remove_player(1);
    let (t1, l1) = f.get_for_player(1);
    assert!(t1.is_empty());
    assert!(l1.is_empty());
    assert_eq!(f.get(Cell(4, 2)), CellState { captured: None, traced: None });
    assert_eq!(f.get_for_player(2).0.len(), 9);
}

#[test]
fn init_player_captures_block() {
    let mut f = GameField::new(31, 31, 1);
    f.init_player(1, Cell(9, 9));
    let (t, _) = f.get_for_player(1);
    let mut expected = Vec::new();
    for x in 8..=10 {
        for y in 8..=10 {
            expected.push(Cell(x, y));
        }
    }
    assert_eq!(sorted(t), sorted(expected));
}

#[test]
fn inner_cells_exclude_regions_reaching_the_border() {
    let mut f = GameField::new(7, 7, 1);
    // A ring around (2, 2) and an open bracket at the right edge.
    for c in [Cell(1, 1), Cell(2, 1), Cell(3, 1), Cell(1, 2), Cell(3, 2), Cell(1, 3), Cell(2, 3), Cell(3, 3)] {
        f.set_captured(c, 1);
    }
    for c in [Cell(5, 1), Cell(5, 2), Cell(5, 3), Cell(6, 1), Cell(6, 3)] {
        f.set_trace(c, 1);
    }
    let inner = f.find_inner_cells(1);
    assert_eq!(inner, vec![Cell(2, 2)]);
}

#[test]
fn inner_cells_of_empty_player_are_none() {
    let f = GameField::new(4, 4, 1);
    assert!(f.find_inner_cells(1).is_empty());
}

#[test]
fn capture_all_counts_enemy_and_free_cells() {
    let mut f = GameField::new(9, 9, 2);
    // Player 1 owns the row y = 1 for x in 1..=3 and traces a U above it.
    for x in 1..=3 {
        f.set_captured(Cell(x, 1), 1);
    }
    for c in [Cell(1, 2), Cell(1, 3), Cell(1, 4), Cell(2, 4), Cell(3, 4), Cell(3, 3), Cell(3, 2)] {
        f.set_trace(c, 1);
    }
    // Inside: (2, 2) belongs to player 2, (2, 3) is free and player 2 stands on it.
    f.set_captured(Cell(2, 2), 2);
    let positions = PlayerIndexedVector::from_vec(vec![Cell(3, 2), Cell(2, 3)]);
    let (enemy, free, caught) = f.capture_all(1, &positions);
    assert_eq!(enemy, 1);
    assert_eq!(free, 1 + 7);
    assert!(!*caught.get(1));
    assert!(*caught.get(2));
    assert!(f.traced_cells(1).is_empty());
    assert_eq!(f.get_for_player(1).0.len(), 3 + 7 + 2);
    assert!(f.get_for_player(2).0.is_empty());
}

#[test]
fn capture_all_without_trace_does_nothing() {
    let mut f = GameField::new(9, 9, 1);
    f.init_player(1, Cell(4, 4));
    let positions = PlayerIndexedVector::from_vec(vec![Cell(4, 4)]);
    let (enemy, free, caught) = f.capture_all(1, &positions);
    assert_eq!((enemy, free), (0, 0));
    assert!(!*caught.get(1));
    assert_eq!(f.get_for_player(1).0.len(), 9);
}

#[test]
fn capture_all_catches_enclosed_trace() {
    let mut f = GameField::new(9, 9, 2);
    for x in 1..=3 {
        f.set_captured(Cell(x, 1), 1);
    }
    for c in [Cell(1, 2), Cell(1, 3), Cell(1, 4), Cell(2, 4), Cell(3, 4), Cell(3, 3), Cell(3, 2)] {
        f.set_trace(c, 1);
    }
    f.set_trace(Cell(2, 3), 2);
    let positions = PlayerIndexedVector::from_vec(vec![Cell(3, 2), Cell(7, 7)]);
    let (enemy, free, caught) = f.capture_all(1, &positions);
    assert_eq!((enemy, free), (0, 2 + 7));
    assert!(*caught.get(2));
    assert_eq!(f.get(Cell(2, 3)), CellState { captured: Some(1), traced: Some(2) });
}

#[test]
fn player_vec_basics() {
    let v = PlayerIndexedVector::new(3, 7u32);
    assert_eq!(v.len(), 3);
    assert_eq!(v.iter_player_ids(), vec![1, 2, 3]);
    assert_eq!(v.iter(), vec![(1, 7), (2, 7), (3, 7)]);
    let mut w = v.map(|x: &u32| *x as u64 + 1);
    w.set(2, 0);
    assert_eq!(*w.get(2), 0);
    assert_eq!(w.into_vec(), vec![8, 0, 8]);
    let m = PlayerIndexedVector::from_vec(vec![1, 2]).mapped(|x: i32| x * 10);
    assert_eq!(m.into_vec(), vec![10, 20]);
}
