//! Values exchanged between the engine and its participants: cells, headings,
//! per-player snapshots and messages.
use vstd::prelude::*;

verus! {

/// Side length of the square playing field used by the protocol.
pub const MAP_SIZE_CELLS: i32 = 31;

/// Parameters of a match, announced when it starts.
#[derive(Clone, Copy, Debug, PartialEq, Eq, Structural)]
pub struct GameParams {
    pub x_cells_count: u32,
    pub y_cells_count: u32,
}

/// A heading. Up increases `y`, Right increases `x`.
#[derive(Clone, Copy, Debug, PartialEq, Eq, Hash, Structural)]
pub enum Direction {
    Up,
    Right,
    Down,
    Left,
}

/// A grid coordinate `(x, y)`.
#[derive(Clone, Copy, Debug, PartialEq, Eq, Hash, Structural)]
pub struct Cell(pub i32, pub i32);

/// One player's entry in a world snapshot.
#[derive(Clone, Debug, PartialEq, Eq)]
pub struct Player {
    pub score: u32,
    pub territory: Vec<Cell>,
    pub position: Cell,
    pub lines: Vec<Cell>,
    pub direction: Option<Direction>,
    pub has_lost: bool,
}

/// A snapshot of the match as seen by one participant: each player under its
/// label (`"i"` for the viewer itself, the player number otherwise).
#[derive(Clone, Debug, PartialEq, Eq)]
pub struct World {
    pub players: Vec<(String, Player)>,
    pub tick_num: u32,
}

/// What the engine's host sends to participants.
#[derive(Clone, Debug, PartialEq, Eq)]
pub enum Message {
    StartGame(GameParams),
    Tick(World),
    EndGame {},
}

/// What a participant answers each tick.
#[derive(Clone, Copy, Debug, PartialEq, Eq, Structural)]
pub enum Command {
    ChangeDirection(Direction),
    NoOp,
}

/// Position of a heading in clockwise order starting from Up.
pub open spec fn dir_index(d: Direction) -> int {
    match d {
        Direction::Up => 0,
        Direction::Right => 1,
        Direction::Down => 2,
        Direction::Left => 3,
    }
}

/// The heading at a clockwise position (taken modulo 4).
pub open spec fn dir_at(i: int) -> Direction {
    let k = i % 4;
    if k == 0 {
        Direction::Up
    } else if k == 1 {
        Direction::Right
    } else if k == 2 {
        Direction::Down
    } else {
        Direction::Left
    }
}

/// Offset of one step in a heading.
pub open spec fn dir_dx(d: Direction) -> int {
    match d {
        Direction::Right => 1,
        Direction::Left => -1,
        _ => 0,
    }
}

pub open spec fn dir_dy(d: Direction) -> int {
    match d {
        Direction::Up => 1,
        Direction::Down => -1,
        _ => 0,
    }
}

pub open spec fn abs_int(v: int) -> int {
    if v < 0 {
        -v
    } else {
        v
    }
}

pub open spec fn in_map(x: int, y: int) -> bool {
    0 <= x < MAP_SIZE_CELLS && 0 <= y < MAP_SIZE_CELLS
}

/// A cell one step away can be formed without overflow, in every heading.
pub open spec fn step_fits(c: Cell) -> bool {
    i32::MIN < c.0 < i32::MAX && i32::MIN < c.1 < i32::MAX
}

/// The cell one step away in `dir` can be formed without overflow.
pub open spec fn step_fits_dir(c: Cell, dir: Direction) -> bool {
    i32::MIN <= c.0 + dir_dx(dir) <= i32::MAX && i32::MIN <= c.1 + dir_dy(dir) <= i32::MAX
}

/// The four neighbours of a cell, in the order left, right, below, above.
pub open spec fn neighbours_of(c: Cell) -> Seq<Cell> {
    seq![
        Cell((c.0 - 1) as i32, c.1),
        Cell((c.0 + 1) as i32, c.1),
        Cell(c.0, (c.1 - 1) as i32),
        Cell(c.0, (c.1 + 1) as i32),
    ]
}

/// The label under which a snapshot lists the viewer itself.
pub open spec fn me_label() -> Seq<char> {
    seq!['i']
}

impl World {
    /// The viewer's own entry: the first one labelled `"i"`.
    pub fn me(&self) -> (r: &Player)
        requires
            exists|i: int| 0 <= i < self.players@.len() && #[trigger] self.players@[i].0@ == me_label(),
        ensures
            exists|i: int|
                0 <= i < self.players@.len() && #[trigger] self.players@[i].0@ == me_label() && *r == self.players@[i].1
                    && forall|j: int| 0 <= j < i ==> #[trigger] self.players@[j].0@ != me_label(),
    {
        proof {
            reveal_strlit("i");
        }
        let key = "i".to_owned();
        let mut i: usize = 0;
        while i < self.players.len()
            invariant
                key@ == me_label(),
                i <= self.players@.len(),
                forall|j: int| 0 <= j < i ==> #[trigger] self.players@[j].0@ != me_label(),
                exists|k: int| i <= k < self.players@.len() && #[trigger] self.players@[k].0@ == me_label(),
            decreases self.players@.len() - i,
        {
            if self.players[i].0 == key {
                return &self.players[i].1;
            }
            i = i + 1;
        }
        proof {
            let k = choose|k: int| i <= k < self.players@.len() && #[trigger] self.players@[k].0@ == me_label();
        }
        &self.players[0].1
    }

    /// Positions in `players` of every entry but those labelled `"i"`, in
    /// order.
    pub fn iter_enemies(&self) -> (r: Vec<usize>)
        ensures
            forall|k: int| 0 <= k < r@.len() ==> #[trigger] r@[k] < self.players@.len(),
            forall|a: int, b: int| 0 <= a < b < r@.len() ==> r@[a] < r@[b],
            forall|i: int|
                0 <= i < self.players@.len() ==> (r@.contains(i as usize) <==> #[trigger] self.players@[i].0@
                    != me_label()),
    {
        proof {
            reveal_strlit("i");
        }
        let key = "i".to_owned();
        let mut r: Vec<usize> = Vec::new();
        let mut i: usize = 0;
        while i < self.players.len()
            invariant
                key@ == me_label(),
                i <= self.players@.len(),
                forall|k: int| 0 <= k < r@.len() ==> #[trigger] r@[k] < i,
                forall|a: int, b: int| 0 <= a < b < r@.len() ==> r@[a] < r@[b],
                forall|j: int|
                    0 <= j < self.players@.len() ==> (r@.contains(j as usize) <==> j < i
                        && #[trigger] self.players@[j].0@ != me_label()),
            decreases self.players@.len() - i,
        {
            let ghost before = r@;
            if self.players[i].0 != key {
                r.push(i);
            }
            proof {
                assert forall|j: int|
                    0 <= j < self.players@.len() implies (r@.contains(j as usize) <==> j < i + 1
                        && #[trigger] self.players@[j].0@ != me_label()) by {
                    if r@.contains(j as usize) && j != i {
                        let k = choose|k: int| 0 <= k < r@.len() && r@[k] == j as usize;
                        assert(before[k] == j);
                        assert(before.contains(j as usize));
                    }
                    if j < i && self.players@[j].0@ != me_label() {
                        assert(before.contains(j as usize));
                        let k = choose|k: int| 0 <= k < before.len() && before[k] == j as usize;
                        assert(r@[k] == j);
                    }
                    if j == i && self.players@[j].0@ != me_label() {
                        assert(r@[before.len() as int] == j);
                    }
                    if j == i && r@.contains(j as usize) && self.players@[j].0@ == me_label() {
                        let k = choose|k: int| 0 <= k < r@.len() && r@[k] == j as usize;
                        assert(before[k] == j);
                    }
                }
            }
            i = i + 1;
        }
        r
    }

    /// Every cell of the map, column by column.
    pub fn iter_cells(&self) -> (r: Vec<Cell>)
        ensures
            r@.len() == MAP_SIZE_CELLS * MAP_SIZE_CELLS,
            forall|k: int|
                0 <= k < r@.len() ==> #[trigger] r@[k] == Cell((k / MAP_SIZE_CELLS as int) as i32, (k % MAP_SIZE_CELLS as int) as i32),
    {
        let mut r: Vec<Cell> = Vec::new();
        let mut x: i32 = 0;
        while x < MAP_SIZE_CELLS
            invariant
                0 <= x <= MAP_SIZE_CELLS,
                r@.len() == x * MAP_SIZE_CELLS,
                forall|k: int|
                    0 <= k < r@.len() ==> #[trigger] r@[k] == Cell((k / MAP_SIZE_CELLS as int) as i32, (k % MAP_SIZE_CELLS as int) as i32),
            decreases MAP_SIZE_CELLS - x,
        {
            let mut y: i32 = 0;
            while y < MAP_SIZE_CELLS
                invariant
                    0 <= x < MAP_SIZE_CELLS,
                    0 <= y <= MAP_SIZE_CELLS,
                    r@.len() == x * MAP_SIZE_CELLS + y,
                    forall|k: int|
                        0 <= k < r@.len() ==> #[trigger] r@[k] == Cell((k / MAP_SIZE_CELLS as int) as i32, (k % MAP_SIZE_CELLS as int) as i32),
                decreases MAP_SIZE_CELLS - y,
            {
                proof {
                    vstd::arithmetic::div_mod::lemma_fundamental_div_mod_converse(
                        x * MAP_SIZE_CELLS + y,
                        MAP_SIZE_CELLS as int,
                        x as int,
                        y as int,
                    );
                }
                r.push(Cell(x, y));
                y = y + 1;
            }
            x = x + 1;
        }
        r
    }
}

impl Direction {
    /// The reverse heading.
    pub open spec fn opposite_spec(self) -> Direction {
        match self {
            Direction::Up => Direction::Down,
            Direction::Right => Direction::Left,
            Direction::Down => Direction::Up,
            Direction::Left => Direction::Right,
        }
    }

    /// The next heading clockwise, or counter-clockwise.
    pub fn next(self, clockwise: bool) -> (r: Direction)
        ensures
            r == dir_at(dir_index(self) + if clockwise { 1int } else { 3int }),
    {
        match (self, clockwise) {
            (Direction::Up, true) => Direction::Right,
            (Direction::Right, true) => Direction::Down,
            (Direction::Down, true) => Direction::Left,
            (Direction::Left, true) => Direction::Up,
            (Direction::Up, false) => Direction::Left,
            (Direction::Right, false) => Direction::Up,
            (Direction::Down, false) => Direction::Right,
            (Direction::Left, false) => Direction::Down,
        }
    }

    /// The reverse heading.
    pub fn opposite(self) -> (r: Direction)
        ensures
            r == self.opposite_spec(),
            r == dir_at(dir_index(self) + 2),
            dir_dx(r) == -dir_dx(self),
            dir_dy(r) == -dir_dy(self),
            r != self,
    {
        match self {
            Direction::Up => Direction::Down,
            Direction::Right => Direction::Left,
            Direction::Down => Direction::Up,
            Direction::Left => Direction::Right,
        }
    }
}

impl Cell {
    /// Manhattan distance.
    pub fn distance_to(self, other: Cell) -> (r: i32)
        requires
            abs_int(other.0 - self.0) + abs_int(other.1 - self.1) <= i32::MAX,
        ensures
            r == abs_int(other.0 - self.0) + abs_int(other.1 - self.1),
    {
        let dx: i64 = other.0 as i64 - self.0 as i64;
        let dy: i64 = other.1 as i64 - self.1 as i64;
        let ax: i64 = if dx < 0 { -dx } else { dx };
        let ay: i64 = if dy < 0 { -dy } else { dy };
        (ax + ay) as i32
    }

    /// The heading that best points towards `other`: horizontal where the
    /// horizontal distance is strictly larger, vertical otherwise.
    pub fn direction_to(self, other: Cell) -> (r: Direction)
        ensures
            ({
                let dx = other.0 - self.0;
                let dy = other.1 - self.1;
                r == if abs_int(dx) > abs_int(dy) {
                    if dx > 0 { Direction::Right } else { Direction::Left }
                } else if dy > 0 {
                    Direction::Up
                } else {
                    Direction::Down
                }
            }),
    {
        let dx: i64 = other.0 as i64 - self.0 as i64;
        let dy: i64 = other.1 as i64 - self.1 as i64;
        let ax: i64 = if dx < 0 { -dx } else { dx };
        let ay: i64 = if dy < 0 { -dy } else { dy };
        if ax > ay {
            if dx > 0 {
                Direction::Right
            } else {
                Direction::Left
            }
        } else if dy > 0 {
            Direction::Up
        } else {
            Direction::Down
        }
    }

    /// The four neighbours, whether inside the map or not.
    pub fn iter_neighbours_unchecked(self) -> (r: Vec<Cell>)
        requires
            step_fits(self),
        ensures
            r@ == neighbours_of(self),
    {
        let mut r: Vec<Cell> = Vec::new();
        r.push(Cell(self.0 - 1, self.1));
        r.push(Cell(self.0 + 1, self.1));
        r.push(Cell(self.0, self.1 - 1));
        r.push(Cell(self.0, self.1 + 1));
        proof {
            assert(r@ =~= neighbours_of(self));
        }
        r
    }

    /// The neighbours that lie inside the map, in the same order.
    pub fn iter_neighbors(self) -> (r: Vec<Cell>)
        requires
            step_fits(self),
        ensures
            r@ == neighbours_of(self).filter(|n: Cell| in_map(n.0 as int, n.1 as int)),
    {
        let all = self.iter_neighbours_unchecked();
        let mut r: Vec<Cell> = Vec::new();
        let mut i: usize = 0;
        while i < all.len()
            invariant
                all@ == neighbours_of(self),
                i <= all.len(),
                r@ == all@.subrange(0, i as int).filter(|n: Cell| in_map(n.0 as int, n.1 as int)),
            decreases all.len() - i,
        {
            proof {
                reveal(Seq::filter);
                assert(all@.subrange(0, i + 1).drop_last() =~= all@.subrange(0, i as int));
            }
            if all[i].in_bounds() {
                r.push(all[i]);
            }
            i = i + 1;
        }
        proof {
            assert(all@.subrange(0, 4) =~= all@);
        }
        r
    }

    /// The cell one step away in `dir`.
    pub fn adjacent_unchecked(self, dir: Direction) -> (r: Cell)
        requires
            step_fits_dir(self, dir),
        ensures
            r.0 == self.0 + dir_dx(dir),
            r.1 == self.1 + dir_dy(dir),
    {
        match dir {
            Direction::Down => Cell(self.0, self.1 - 1),
            Direction::Up => Cell(self.0, self.1 + 1),
            Direction::Left => Cell(self.0 - 1, self.1),
            Direction::Right => Cell(self.0 + 1, self.1),
        }
    }

    /// The cell one step away in `dir`, if it lies inside the map.
    pub fn adjacent(self, dir: Direction) -> (r: Option<Cell>)
        requires
            step_fits_dir(self, dir),
        ensures
            in_map(self.0 + dir_dx(dir), self.1 + dir_dy(dir)) <==> r.is_some(),
            r matches Some(c) ==> c.0 == self.0 + dir_dx(dir) && c.1 == self.1 + dir_dy(dir),
    {
        let cell = self.adjacent_unchecked(dir);
        if cell.in_bounds() {
            Some(cell)
        } else {
            None
        }
    }

    /// Whether the cell lies inside the map.
    pub fn in_bounds(self) -> (r: bool)
        ensures
            r == in_map(self.0 as int, self.1 as int),
    {
        self.0 >= 0 && self.0 < MAP_SIZE_CELLS && self.1 >= 0 && self.1 < MAP_SIZE_CELLS
    }
}

} // verus!
