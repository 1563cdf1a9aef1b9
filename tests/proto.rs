use paperio::proto::{Cell, Direction, Player, World};

#[test]
fn direction_turns() {
    assert_eq!(Direction::Up.next(true), Direction::Right);
    assert_eq!(Direction::Left.next(true), Direction::Up);
    assert_eq!(Direction::Up.next(false), Direction::Left);
    assert_eq!(Direction::Down.next(false), Direction::Right);
    assert_eq!(Direction::Up.opposite(), Direction::Down);
    assert_eq!(Direction::Right.opposite(), Direction::Left);
}

#[test]
fn cell_geometry() {
    assert_eq!(Cell(1, 2).distance_to(Cell(4, -2)), 7);
    assert_eq!(Cell(0, 0).direction_to(Cell(5, 1)), Direction::Right);
    assert_eq!(Cell(0, 0).direction_to(Cell(-5, 1)), Direction::Left);
    assert_eq!(Cell(0, 0).direction_to(Cell(1, 1)), Direction::Up);
    assert_eq!(Cell(0, 0).direction_to(Cell(1, -3)), Direction::Down);
    assert_eq!(Cell(3, 3).adjacent_unchecked(Direction::Up), Cell(3, 4));
    assert_eq!(Cell(3, 3).adjacent(Direction::Left), Some(Cell(2, 3)));
    assert_eq!(Cell(0, 3).adjacent(Direction::Left), None);
    assert!(Cell(30, 30).in_bounds());
    assert!(!Cell(31, 0).in_bounds());
    assert!(!Cell(0, -1).in_bounds());
}

#[test]
fn neighbours() {
    assert_eq!(
        Cell(5, 5).iter_neighbours_unchecked(),
        vec![Cell(4, 5), Cell(6, 5), Cell(5, 4), Cell(5, 6)]
    );
    assert_eq!(Cell(0, 0).iter_neighbors(), vec![Cell(1, 0), Cell(0, 1)]);
    assert_eq!(Cell(30, 30).iter_neighbors(), vec![Cell(29, 30), Cell(30, 29)]);
}

fn player(score: u32) -> Player {
    Player {
        score,
        territory: vec![],
        position: Cell(0, 0),
        lines: vec![],
        direction: None,
        has_lost: false,
    }
}

#[test]
fn world_lookups() {
    let w = World {
        players: vec![("1".to_string(), player(1)), ("i".to_string(), player(2)), ("3".to_string(), player(3))],
        tick_num: 5,
    };
    assert_eq!(w.me().score, 2);
    assert_eq!(w.iter_enemies(), vec![0, 2]);
    let cells = w.iter_cells();
    assert_eq!(cells.len(), 31 * 31);
    assert_eq!(cells[0], Cell(0, 0));
    assert_eq!(cells[1], Cell(0, 1));
    assert_eq!(cells[31], Cell(1, 0));
}
