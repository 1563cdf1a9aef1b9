//! A spectator's picture of the field, painted from the latest snapshot.
use vstd::prelude::*;
use crate::proto::{Cell, GameParams, Player, World};

verus! {

/// What a spectator shows on a cell: nothing, or whose territory or trace it
/// is, by the player's label in the snapshot.
#[derive(Clone, Debug)]
pub enum CellState {
    Free,
    Captured(String),
    Trace(String),
}

/// A cell state as a kind (0 free, 1 captured, 2 trace) and a label.
pub open spec fn shown(c: CellState) -> (int, Seq<char>) {
    match c {
        CellState::Free => (0, Seq::empty()),
        CellState::Captured(s) => (1, s@),
        CellState::Trace(s) => (2, s@),
    }
}

/// The label of the last player in `ps` whose territory (or, when `lines`,
/// trace) holds `(x, y)`.
pub open spec fn painted(ps: Seq<(String, Player)>, x: int, y: int, lines: bool) -> Option<Seq<char>>
    decreases ps.len(),
{
    if ps.len() == 0 {
        None
    } else {
        let last = ps.last();
        let cells = if lines { last.1.lines@ } else { last.1.territory@ };
        if cells.contains(Cell(x as i32, y as i32)) {
            Some(last.0@)
        } else {
            painted(ps.drop_last(), x, y, lines)
        }
    }
}

/// How a snapshot shows `(x, y)`: a trace over territory, the later player
/// over the earlier.
pub open spec fn expected(ps: Seq<(String, Player)>, x: int, y: int) -> (int, Seq<char>) {
    match painted(ps, x, y, true) {
        Some(l) => (2, l),
        None => match painted(ps, x, y, false) {
            Some(l) => (1, l),
            None => (0, Seq::empty()),
        },
    }
}

/// `c` lies within `params`.
pub open spec fn cell_fits(c: Cell, params: GameParams) -> bool {
    0 <= c.0 < params.x_cells_count && 0 <= c.1 < params.y_cells_count
}

/// Every cell of `p` lies within `params`.
pub open spec fn player_fits(p: Player, params: GameParams) -> bool {
    &&& forall|j: int| 0 <= j < p.territory@.len() ==> cell_fits(#[trigger] p.territory@[j], params)
    &&& forall|j: int| 0 <= j < p.lines@.len() ==> cell_fits(#[trigger] p.lines@[j], params)
}

/// Every cell of every player in `w` lies within `params`.
pub open spec fn fits(w: World, params: GameParams) -> bool {
    forall|i: int| 0 <= i < w.players@.len() ==> player_fits(#[trigger] w.players@[i].1, params)
}

/// The picture: cell `(x, y)` is `field[y * x_cells_count + x]`.
pub struct GameState {
    pub params: GameParams,
    pub field: Vec<CellState>,
    pub world: World,
}

impl GameState {
    pub closed spec fn cell_spec(&self, x: int, y: int) -> CellState {
        self.field@[y * self.params.x_cells_count + x]
    }

    pub closed spec fn wf(&self) -> bool {
        &&& self.params.x_cells_count * self.params.y_cells_count <= usize::MAX
        &&& self.params.x_cells_count <= i32::MAX
        &&& self.params.y_cells_count <= i32::MAX
        &&& self.field@.len() == self.params.x_cells_count * self.params.y_cells_count
    }

    pub open spec fn in_view(&self, x: int, y: int) -> bool {
        0 <= x < self.params.x_cells_count && 0 <= y < self.params.y_cells_count
    }

    proof fn lemma_index(&self, x: int, y: int)
        requires
            self.wf(),
            self.in_view(x, y),
        ensures
            0 <= y * self.params.x_cells_count <= y * self.params.x_cells_count + x < self.field@.len(),
    {
        let w = self.params.x_cells_count as int;
        let h = self.params.y_cells_count as int;
        assert(0 <= y * w <= y * w + x < w * h) by (nonlinear_arith)
            requires
                0 <= x < w,
                0 <= y < h,
        ;
    }

    proof fn lemma_index_unique(&self, x: int, y: int, a: int, b: int)
        requires
            self.in_view(x, y),
            self.in_view(a, b),
            y * self.params.x_cells_count + x == b * self.params.x_cells_count + a,
        ensures
            x == a && y == b,
    {
        let w = self.params.x_cells_count as int;
        vstd::arithmetic::div_mod::lemma_fundamental_div_mod_converse(y * w + x, w, y, x);
        vstd::arithmetic::div_mod::lemma_fundamental_div_mod_converse(b * w + a, w, b, a);
    }

    /// An empty picture of a field of the given size.
    pub fn new(params: GameParams) -> (r: Self)
        requires
            params.x_cells_count * params.y_cells_count <= usize::MAX,
            params.x_cells_count <= i32::MAX,
            params.y_cells_count <= i32::MAX,
        ensures
            r.wf(),
            r.params == params,
            r.world.players@.len() == 0,
            r.world.tick_num == 0,
            forall|x: int, y: int| r.in_view(x, y) ==> #[trigger] shown(r.cell_spec(x, y)) == shown(CellState::Free),
    {
        let n: usize = params.x_cells_count as usize * params.y_cells_count as usize;
        let mut field: Vec<CellState> = Vec::new();
        let mut i: usize = 0;
        while i < n
            invariant
                i <= n,
                field@.len() == i,
                forall|j: int| 0 <= j < i ==> #[trigger] shown(field@[j]) == shown(CellState::Free),
            decreases n - i,
        {
            field.push(CellState::Free);
            i = i + 1;
        }
        let r = GameState { params, field, world: World { players: Vec::new(), tick_num: 0 } };
        proof {
            assert forall|x: int, y: int| r.in_view(x, y) implies #[trigger] shown(r.cell_spec(x, y)) == shown(CellState::Free) by {
                r.lemma_index(x, y);
            }
        }
        r
    }

    /// The cell at column `x`, row `y`.
    pub fn cell(&self, x: usize, y: usize) -> (r: &CellState)
        requires
            self.wf(),
            self.in_view(x as int, y as int),
        ensures
            *r == self.cell_spec(x as int, y as int),
    {
        proof {
            self.lemma_index(x as int, y as int);
        }
        &self.field[y * self.params.x_cells_count as usize + x]
    }

    fn clear_field(&mut self)
        requires
            old(self).wf(),
        ensures
            final(self).wf(),
            final(self).params == old(self).params,
            final(self).world == old(self).world,
            forall|x: int, y: int| final(self).in_view(x, y) ==> #[trigger] shown(final(self).cell_spec(x, y)) == shown(CellState::Free),
    {
        let ghost s0 = *self;
        let n = self.field.len();
        let mut i: usize = 0;
        while i < n
            invariant
                self.params == s0.params,
                self.world == s0.world,
                n == self.field@.len(),
                s0.wf(),
                n == s0.field@.len(),
                i <= n,
                forall|j: int| 0 <= j < i ==> #[trigger] shown(self.field@[j]) == shown(CellState::Free),
            decreases n - i,
        {
            self.field.set(i, CellState::Free);
            i = i + 1;
        }
        proof {
            assert forall|x: int, y: int| self.in_view(x, y) implies #[trigger] shown(self.cell_spec(x, y)) == shown(CellState::Free) by {
                self.lemma_index(x, y);
            }
        }
    }

    /// Paints one cell.
    fn paint(&mut self, c: Cell, s: CellState)
        requires
            old(self).wf(),
            old(self).in_view(c.0 as int, c.1 as int),
        ensures
            final(self).wf(),
            final(self).params == old(self).params,
            final(self).world == old(self).world,
            forall|x: int, y: int|
                final(self).in_view(x, y) ==> #[trigger] final(self).cell_spec(x, y) == if x == c.0 && y == c.1 {
                    s
                } else {
                    old(self).cell_spec(x, y)
                },
    {
        proof {
            self.lemma_index(c.0 as int, c.1 as int);
        }
        let i = c.1 as usize * self.params.x_cells_count as usize + c.0 as usize;
        self.field.set(i, s);
        proof {
            assert forall|x: int, y: int|
                self.in_view(x, y) implies #[trigger] self.cell_spec(x, y) == if x == c.0 && y == c.1 {
                    s
                } else {
                    old(self).cell_spec(x, y)
                } by {
                self.lemma_index(x, y);
                if y * self.params.x_cells_count + x == i {
                    self.lemma_index_unique(x, y, c.0 as int, c.1 as int);
                }
            }
        }
    }

    /// Paints the cells of one kind (territory, or trace when `lines`) of
    /// the players `ps[0..]` in order.
    fn paint_all(&mut self, ps: &Vec<(String, Player)>, lines: bool)
        requires
            old(self).wf(),
            fits(World { players: *ps, tick_num: 0 }, old(self).params),
        ensures
            final(self).wf(),
            final(self).params == old(self).params,
            final(self).world == old(self).world,
            forall|x: int, y: int|
                final(self).in_view(x, y) ==> #[trigger] shown(final(self).cell_spec(x, y)) == match painted(
                    ps@,
                    x,
                    y,
                    lines,
                ) {
                    Some(l) => (if lines { 2int } else { 1int }, l),
                    None => shown(old(self).cell_spec(x, y)),
                },
    {
        let ghost s0 = *self;
        let ghost kind: int = if lines { 2 } else { 1 };
        let mut i: usize = 0;
        while i < ps.len()
            invariant
                self.wf(),
                self.params == s0.params,
                self.world == s0.world,
                fits(World { players: *ps, tick_num: 0 }, s0.params),
                kind == if lines { 2int } else { 1int },
                i <= ps@.len(),
                forall|x: int, y: int|
                    self.in_view(x, y) ==> #[trigger] shown(self.cell_spec(x, y)) == match painted(
                        ps@.take(i as int),
                        x,
                        y,
                        lines,
                    ) {
                        Some(l) => (kind, l),
                        None => shown(s0.cell_spec(x, y)),
                    },
            decreases ps@.len() - i,
        {
            let ghost si = *self;
            let ghost entry = ps@[i as int];
            let cells = if lines { &ps[i].1.lines } else { &ps[i].1.territory };
            let mut j: usize = 0;
            while j < cells.len()
                invariant
                    self.wf(),
                    self.params == s0.params,
                    self.world == s0.world,
                    si.params == s0.params,
                    fits(World { players: *ps, tick_num: 0 }, s0.params),
                    i < ps@.len(),
                    entry == ps@[i as int],
                    cells@ == if lines { entry.1.lines@ } else { entry.1.territory@ },
                    j <= cells@.len(),
                    forall|x: int, y: int|
                        self.in_view(x, y) ==> #[trigger] shown(self.cell_spec(x, y)) == if cells@.take(j as int).contains(
                            Cell(x as i32, y as i32),
                        ) {
                            (kind, entry.0@)
                        } else {
                            shown(si.cell_spec(x, y))
                        },
                    kind == if lines { 2int } else { 1int },
                decreases cells@.len() - j,
            {
                let c = cells[j];
                proof {
                    assert(player_fits(World { players: *ps, tick_num: 0 }.players@[i as int].1, s0.params));
                    assert(cell_fits(cells@[j as int], s0.params));
                }
                let label = ps[i].0.clone();
                let s = if lines {
                    CellState::Trace(label)
                } else {
                    CellState::Captured(label)
                };
                let ghost sj = *self;
                self.paint(c, s);
                proof {
                    assert forall|x: int, y: int| self.in_view(x, y) implies #[trigger] shown(self.cell_spec(x, y)) == if cells@.take(j + 1).contains(
                        Cell(x as i32, y as i32),
                    ) {
                        (kind, entry.0@)
                    } else {
                        shown(si.cell_spec(x, y))
                    } by {
                        let d = Cell(x as i32, y as i32);
                        assert(cells@.take(j + 1) == cells@.take(j as int).push(c));
                        if x == c.0 && y == c.1 {
                            assert(d == c);
                            assert(cells@.take(j + 1)[j as int] == c);
                        } else {
                            assert(d != c);
                            if cells@.take(j + 1).contains(d) {
                                let k = choose|k: int| 0 <= k < j + 1 && #[trigger] cells@.take(j + 1)[k] == d;
                                assert(cells@.take(j as int)[k] == d);
                            }
                            if cells@.take(j as int).contains(d) {
                                let k = choose|k: int| 0 <= k < j && #[trigger] cells@.take(j as int)[k] == d;
                                assert(cells@.take(j + 1)[k] == d);
                            }
                        }
                    }
                }
                j = j + 1;
            }
            proof {
                assert(cells@.take(cells@.len() as int) =~= cells@);
                assert(ps@.take(i + 1).drop_last() =~= ps@.take(i as int));
                assert(ps@.take(i + 1).last() == entry);
            }
            i = i + 1;
        }
        proof {
            assert(ps@.take(ps@.len() as int) =~= ps@);
        }
    }

    /// Shows `world`: each cell as the trace or territory of the last player
    /// in it that has one there, traces over territory.
    pub fn update(&mut self, world: World)
        requires
            old(self).wf(),
            fits(world, old(self).params),
        ensures
            final(self).wf(),
            final(self).params == old(self).params,
            final(self).world == world,
            forall|x: int, y: int|
                final(self).in_view(x, y) ==> #[trigger] shown(final(self).cell_spec(x, y)) == expected(world.players@, x, y),
    {
        self.clear_field();
        let ghost s1 = *self;
        proof {
            assert(World { players: world.players, tick_num: 0 }.players@ == world.players@);
        }
        self.paint_all(&world.players, false);
        let ghost s2 = *self;
        self.paint_all(&world.players, true);
        let ghost s3 = *self;
        self.world = world;
        proof {
            assert forall|x: int, y: int|
                self.in_view(x, y) implies #[trigger] shown(self.cell_spec(x, y)) == expected(world.players@, x, y) by {
                assert(shown(s1.cell_spec(x, y)) == shown(CellState::Free));
                assert(shown(s2.cell_spec(x, y)) == match painted(world.players@, x, y, false) {
                    Some(l) => (1int, l),
                    None => shown(s1.cell_spec(x, y)),
                });
                assert(shown(s3.cell_spec(x, y)) == match painted(world.players@, x, y, true) {
                    Some(l) => (2int, l),
                    None => shown(s2.cell_spec(x, y)),
                });
                assert(self.cell_spec(x, y) == s3.cell_spec(x, y));
            }
        }
    }
}

} // verus!
