use paperio::perc::{dfs, percolates, BoolGrid};
use paperio::proto::{Cell, GameParams, Player, World};
use paperio::pstack::PStack;
use paperio::state::{CellState, GameState};
use paperio::trust::{
    Agent, CheatingAgent, CooperatingAgent, CopycatAgent, DetectiveAgent, Game, GrudgerAgent, Move, RoundOutcome,
};

#[test]
fn trust_cheater_against_cooperator() {
    let mut g = Game::new(CheatingAgent::new(), CooperatingAgent::new());
    assert_eq!(g.play_round(), RoundOutcome::LeftCheated);
    assert_eq!(g.left_score(), 3);
    assert_eq!(g.right_score(), -1);
    assert_eq!(g.play_round(), RoundOutcome::LeftCheated);
    assert_eq!(g.left_score(), 6);
    assert_eq!(g.right_score(), -2);
}

#[test]
fn trust_cooperators_both_gain() {
    let mut g = Game::new(CooperatingAgent::default(), CopycatAgent::default());
    for _ in 0..3 {
        assert_eq!(g.play_round(), RoundOutcome::BothCooperated);
    }
    assert_eq!(g.left_score(), 6);
    assert_eq!(g.right_score(), 6);
}

#[test]
fn trust_grudger_and_copycat_react() {
    let mut g = Game::new(GrudgerAgent::new(), CheatingAgent::new());
    assert_eq!(g.play_round(), RoundOutcome::RightCheated);
    assert_eq!(g.play_round(), RoundOutcome::BothCheated);
    assert_eq!((g.left_score(), g.right_score()), (-1, 3));

    let mut g = Game::new(CopycatAgent::new(), CheatingAgent::new());
    assert_eq!(g.play_round(), RoundOutcome::RightCheated);
    assert_eq!(g.play_round(), RoundOutcome::BothCheated);
}

#[test]
fn trust_detective_opening_and_after() {
    let mut d = DetectiveAgent::new();
    let opening: Vec<Move> = (0..4)
        .map(|_| {
            let m = d.play_round();
            d.update(Move::Cooperate);
            m
        })
        .collect();
    assert!(matches!(opening[..], [Move::Cooperate, Move::Cheat, Move::Cooperate, Move::Cooperate]));
    // The opponent never cheated: the detective cheats from now on.
    assert!(matches!(d.play_round(), Move::Cheat));

    let mut g = Game::new(DetectiveAgent::new(), CopycatAgent::new());
    let outcomes: Vec<RoundOutcome> = (0..6).map(|_| g.play_round()).collect();
    assert_eq!(
        outcomes,
        vec![
            RoundOutcome::BothCooperated,
            RoundOutcome::LeftCheated,
            RoundOutcome::RightCheated,
            RoundOutcome::BothCooperated,
            RoundOutcome::BothCooperated,
            RoundOutcome::BothCooperated,
        ]
    );
}

#[test]
fn trust_scores_can_be_set() {
    let mut a = CheatingAgent::new();
    a.set_score(10);
    assert_eq!(a.get_score(), 10);
}

#[test]
fn pstack_is_persistent() {
    let empty: PStack<i32> = PStack::new();
    assert!(empty.is_empty());
    assert!(empty.pop().is_none());
    let one = empty.push(1);
    let two = one.push(2);
    assert_eq!(two.len(), 2);
    assert_eq!(one.len(), 1);
    let items: Vec<i32> = two.iter().into_iter().map(|r| *r).collect();
    assert_eq!(items, vec![2, 1]);
    let (top, rest) = two.pop().unwrap();
    assert_eq!(*top, 2);
    assert_eq!(rest.len(), 1);
    let other = one.push(3);
    let items: Vec<i32> = other.iter().into_iter().map(|r| *r).collect();
    assert_eq!(items, vec![3, 1]);
    let items: Vec<i32> = two.iter().into_iter().map(|r| *r).collect();
    assert_eq!(items, vec![2, 1]);
}

#[test]
fn bool_grid_get_and_set() {
    let mut g = BoolGrid::new(3, 2);
    assert_eq!(g.width(), 3);
    assert_eq!(g.height(), 2);
    assert!(!g.get(2, 1));
    g.set(2, 1, true);
    assert!(g.get(2, 1));
    assert!(!g.get(1, 1));
    assert!(!g.get(2, 0));
}

fn player(territory: Vec<Cell>, lines: Vec<Cell>) -> Player {
    Player { score: 0, territory, position: Cell(0, 0), lines, direction: None, has_lost: false }
}

fn shown(s: &CellState) -> String {
    match s {
        CellState::Free => "free".to_string(),
        CellState::Captured(l) => format!("captured {l}"),
        CellState::Trace(l) => format!("trace {l}"),
    }
}

#[test]
fn spectator_state_paints_world() {
    let mut s = GameState::new(GameParams { x_cells_count: 4, y_cells_count: 3 });
    assert_eq!(shown(s.cell(3, 2)), "free");
    let w = World {
        players: vec![
            ("1".to_string(), player(vec![Cell(0, 0), Cell(1, 0)], vec![Cell(2, 2)])),
            ("2".to_string(), player(vec![Cell(1, 0), Cell(2, 2)], vec![Cell(3, 1)])),
        ],
        tick_num: 9,
    };
    s.update(w.clone());
    assert_eq!(shown(s.cell(0, 0)), "captured 1");
    assert_eq!(shown(s.cell(1, 0)), "captured 2");
    assert_eq!(shown(s.cell(2, 2)), "trace 1");
    assert_eq!(shown(s.cell(3, 1)), "trace 2");
    assert_eq!(shown(s.cell(3, 2)), "free");
    assert_eq!(s.world, w);
    s.update(World { players: vec![], tick_num: 10 });
    assert_eq!(shown(s.cell(0, 0)), "free");
}

fn grid_from(rows: &[&str]) -> BoolGrid {
    // Rows top (y = 0) first; '#' is blocked.
    let width = rows[0].len();
    let mut g = BoolGrid::new(width, rows.len());
    for (y, row) in rows.iter().enumerate() {
        for (x, ch) in row.chars().enumerate() {
            if ch == '#' {
                g.set(x, y, true);
            }
        }
    }
    g
}

#[test]
fn percolation_through_open_column() {
    let g = grid_from(&["#.#", "#.#", "..#"]);
    assert!(percolates(&g));
}

#[test]
fn percolation_blocked_by_full_row() {
    let g = grid_from(&["...", "###", "..."]);
    assert!(!percolates(&g));
}

#[test]
fn percolation_along_a_winding_path() {
    let g = grid_from(&[".####", "...##", "##.##", "##...", "####."]);
    assert!(percolates(&g));
    let g = grid_from(&[".####", "...##", "#####", "##...", "####."]);
    assert!(!percolates(&g));
}

#[test]
fn percolation_of_empty_and_single_row_grids() {
    assert!(percolates(&BoolGrid::new(0, 3)));
    assert!(percolates(&BoolGrid::new(3, 0)));
    assert!(percolates(&grid_from(&["#.#"])));
    assert!(!percolates(&grid_from(&["###"])));
}

#[test]
fn dfs_marks_explored_cells() {
    let g = grid_from(&["..#", "###", "..."]);
    let mut visited = vec![vec![false; 3]; 3];
    assert!(!dfs(&g, &mut visited, 0, 0));
    assert!(visited[0][0] && visited[0][1]);
    assert!(!visited[0][2]);
    let mut visited = vec![vec![false; 3]; 3];
    assert!(dfs(&g, &mut visited, 1, 2));
}
