//! Ownership of every cell of the playing field, and the enclosed-area
//! computation that turns a closed trace into territory.
use vstd::prelude::*;
use vstd::arithmetic::div_mod::lemma_fundamental_div_mod_converse;
use crate::player_vec::{PlayerId, PlayerIndexedVector};
use crate::proto::Cell;

verus! {

/// Largest number of players in a match.
pub const MAX_PLAYERS: usize = 4;

/// Who has captured a cell and who traces through it, if anyone.
#[derive(Clone, Copy, Debug, PartialEq, Eq, Structural)]
pub struct CellState {
    pub captured: Option<PlayerId>,
    pub traced: Option<PlayerId>,
}

impl CellState {
    /// The player tracing through this cell, if any.
    pub fn is_traced(&self) -> (r: Option<PlayerId>)
        ensures
            r == self.traced,
    {
        self.traced
    }

    pub fn is_traced_by(&self, player_id: PlayerId) -> (r: bool)
        ensures
            r == (self.traced == Some(player_id)),
    {
        match self.traced {
            Some(id) => id == player_id,
            None => false,
        }
    }

    pub fn is_captured_by(&self, player_id: PlayerId) -> (r: bool)
        ensures
            r == (self.captured == Some(player_id)),
    {
        match self.captured {
            Some(id) => id == player_id,
            None => false,
        }
    }
}

/// The cell state with nobody on it.
pub open spec fn free_state() -> CellState {
    CellState { captured: None, traced: None }
}

/// The state of a cell after `p` captures it: `p` owns it, and `p`'s own trace
/// on it is gone.
pub open spec fn captured_state(s: CellState, p: int) -> CellState {
    CellState {
        captured: Some(p as usize),
        traced: if s.traced == Some(p as usize) { None } else { s.traced },
    }
}

/// The state of a cell after `p` leaves the match.
pub open spec fn released_state(s: CellState, p: int) -> CellState {
    CellState {
        captured: if s.captured == Some(p as usize) { None } else { s.captured },
        traced: if s.traced == Some(p as usize) { None } else { s.traced },
    }
}

/// The neighbour index pointing back: left and right, below and above swap.
pub open spec fn flip(k: int) -> int {
    if k == 0 {
        1
    } else if k == 1 {
        0
    } else if k == 2 {
        3
    } else {
        2
    }
}

/// The `k`-th neighbour of `(x, y)` (left, right, below, above).
pub open spec fn nb_x(x: int, k: int) -> int {
    if k == 0 {
        x - 1
    } else if k == 1 {
        x + 1
    } else {
        x
    }
}

pub open spec fn nb_y(y: int, k: int) -> int {
    if k == 2 {
        y - 1
    } else if k == 3 {
        y + 1
    } else {
        y
    }
}

/// A dense `width` x `height` grid of cell states, row by row.
pub struct GameField {
    width: usize,
    height: usize,
    players: usize,
    cells: Vec<CellState>,
}

proof fn lemma_index(w: int, h: int, x: int, y: int)
    requires
        0 < w,
        0 <= x < w,
        0 <= y < h,
    ensures
        0 <= x + y * w < w * h,
        (x + y * w) % w == x,
        (x + y * w) / w == y,
{
    assert(0 <= x + y * w < w * h) by (nonlinear_arith)
        requires
            0 < w,
            0 <= x < w,
            0 <= y < h,
    ;
    lemma_fundamental_div_mod_converse(x + y * w, w, y, x);
}

proof fn lemma_index_inverse(w: int, h: int, i: int)
    requires
        0 <= w,
        0 <= h,
        0 <= i < w * h,
    ensures
        0 < w,
        0 <= i % w < w,
        0 <= i / w < h,
        i == i % w + (i / w) * w,
{
    assert(0 < w) by (nonlinear_arith)
        requires
            0 <= w,
            0 <= h,
            0 <= i < w * h,
    ;
    vstd::arithmetic::div_mod::lemma_fundamental_div_mod(i, w);
    assert(0 <= i % w < w) by {
        vstd::arithmetic::div_mod::lemma_mod_bound(i, w);
    }
    let q = i / w;
    let m = i % w;
    assert(0 <= q < h) by (nonlinear_arith)
        requires
            0 < w,
            0 <= i < w * h,
            i == w * q + m,
            0 <= m < w,
    ;
    assert(i == i % w + (i / w) * w) by (nonlinear_arith)
        requires
            i == w * (i / w) + (i % w),
    ;
}

/// Number of `true` entries.
pub open spec fn count_true(s: Seq<bool>) -> nat
    decreases s.len(),
{
    if s.len() == 0 {
        0
    } else {
        count_true(s.drop_last()) + if s.last() {
            1nat
        } else {
            0nat
        }
    }
}

proof fn lemma_count_none(n: nat)
    ensures
        count_true(Seq::new(n, |t: int| false)) == 0,
    decreases n,
{
    if n > 0 {
        assert(Seq::new(n, |t: int| false).drop_last() =~= Seq::new((n - 1) as nat, |t: int| false));
        lemma_count_none((n - 1) as nat);
    }
}

proof fn lemma_count_bound(s: Seq<bool>)
    ensures
        count_true(s) <= s.len(),
    decreases s.len(),
{
    if s.len() > 0 {
        lemma_count_bound(s.drop_last());
    }
}

proof fn lemma_count_set(s: Seq<bool>, i: int)
    requires
        0 <= i < s.len(),
        !s[i],
    ensures
        count_true(s.update(i, true)) == count_true(s) + 1,
    decreases s.len(),
{
    let u = s.update(i, true);
    if i == s.len() - 1 {
        assert(u.drop_last() =~= s.drop_last());
    } else {
        assert(u.drop_last() =~= s.drop_last().update(i, true));
        lemma_count_set(s.drop_last(), i);
    }
}

impl GameField {
    pub closed spec fn width_spec(&self) -> int {
        self.width as int
    }

    pub closed spec fn height_spec(&self) -> int {
        self.height as int
    }

    /// Number of players the field keeps cells for.
    pub closed spec fn players_spec(&self) -> int {
        self.players as int
    }

    pub open spec fn in_field(&self, x: int, y: int) -> bool {
        0 <= x < self.width_spec() && 0 <= y < self.height_spec()
    }

    pub open spec fn valid_player(&self, p: int) -> bool {
        1 <= p <= self.players_spec()
    }

    /// The state of cell `(x, y)`.
    pub closed spec fn state(&self, x: int, y: int) -> CellState {
        self.cells@[x + y * self.width]
    }

    pub open spec fn captured_by(&self, x: int, y: int, p: int) -> bool {
        self.state(x, y).captured == Some(p as usize)
    }

    pub open spec fn traced_by(&self, x: int, y: int, p: int) -> bool {
        self.state(x, y).traced == Some(p as usize)
    }

    /// `p` has captured or traces `(x, y)`.
    pub open spec fn owned_by(&self, x: int, y: int, p: int) -> bool {
        self.captured_by(x, y, p) || self.traced_by(x, y, p)
    }

    /// Every owner recorded on a cell of the field is a player of the match.
    pub open spec fn owners_valid(&self) -> bool {
        forall|x: int, y: int|
            #![trigger self.state(x, y)]
            self.in_field(x, y) ==> (self.state(x, y).captured matches Some(q) ==> self.valid_player(q as int))
                && (self.state(x, y).traced matches Some(q) ==> self.valid_player(q as int))
    }

    /// No player both owns and traces the same cell.
    pub open spec fn own_trace_disjoint(&self) -> bool {
        forall|x: int, y: int|
            #![trigger self.state(x, y)]
            self.in_field(x, y) ==> (self.state(x, y).captured is Some ==> self.state(x, y).captured != self.state(
                x,
                y,
            ).traced)
    }

    pub closed spec fn wf(&self) -> bool {
        &&& self.width <= i32::MAX
        &&& self.height <= i32::MAX
        &&& self.width * self.height <= u32::MAX
        &&& self.cells@.len() == self.width * self.height
        &&& self.players <= MAX_PLAYERS
        &&& self.owners_valid()
        &&& self.own_trace_disjoint()
    }

    /// Every owner recorded on a well-formed field is a player of the match.
    pub proof fn lemma_owners_valid(&self)
        requires
            self.wf(),
        ensures
            self.owners_valid(),
            self.own_trace_disjoint(),
    {
    }

    /// Both fields have the same size and player count.
    pub open spec fn same_shape(&self, other: &GameField) -> bool {
        self.width_spec() == other.width_spec() && self.height_spec() == other.height_spec()
            && self.players_spec() == other.players_spec()
    }

    /// An empty field of the given size for `players_amount` players.
    pub fn new(width: usize, height: usize, players_amount: usize) -> (r: GameField)
        requires
            width <= i32::MAX,
            height <= i32::MAX,
            width * height <= u32::MAX,
            players_amount <= MAX_PLAYERS,
        ensures
            r.wf(),
            r.width_spec() == width,
            r.height_spec() == height,
            r.players_spec() == players_amount,
            forall|x: int, y: int| r.in_field(x, y) ==> #[trigger] r.state(x, y) == free_state(),
    {
        let n: usize = width * height;
        let mut cells: Vec<CellState> = Vec::new();
        let mut i: usize = 0;
        while i < n
            invariant
                i <= n,
                cells@.len() == i,
                forall|j: int| 0 <= j < i ==> cells@[j] == free_state(),
            decreases n - i,
        {
            cells.push(CellState { captured: None, traced: None });
            i = i + 1;
        }
        let r = GameField { width, height, players: players_amount, cells };
        proof {
            assert forall|x: int, y: int| r.in_field(x, y) implies #[trigger] r.state(x, y) == free_state() by {
                lemma_index(width as int, height as int, x, y);
            }
        }
        r
    }

    fn index_of(&self, c: Cell) -> (r: usize)
        requires
            self.wf(),
            self.in_field(c.0 as int, c.1 as int),
        ensures
            r == c.0 + c.1 * self.width_spec(),
            r < self.cells@.len(),
    {
        proof {
            lemma_index(self.width as int, self.height as int, c.0 as int, c.1 as int);
            assert(c.1 * self.width <= c.0 + c.1 * self.width) by (nonlinear_arith)
                requires
                    0 <= c.0,
            ;
        }
        c.0 as usize + c.1 as usize * self.width
    }

    /// Whether `c` lies on this field.
    pub fn contains(&self, c: Cell) -> (r: bool)
        requires
            self.wf(),
        ensures
            r == self.in_field(c.0 as int, c.1 as int),
    {
        c.0 >= 0 && c.1 >= 0 && (c.0 as usize) < self.width && (c.1 as usize) < self.height
    }

    /// The state of cell `c`.
    pub fn get(&self, c: Cell) -> (r: CellState)
        requires
            self.wf(),
            self.in_field(c.0 as int, c.1 as int),
        ensures
            r == self.state(c.0 as int, c.1 as int),
            r.captured matches Some(q) ==> self.valid_player(q as int),
            r.traced matches Some(q) ==> self.valid_player(q as int),
    {
        self.cells[self.index_of(c)]
    }

    /// Replaces the state of one cell.
    fn put(&mut self, c: Cell, s: CellState)
        requires
            old(self).wf(),
            old(self).in_field(c.0 as int, c.1 as int),
            s.captured matches Some(q) ==> old(self).valid_player(q as int),
            s.traced matches Some(q) ==> old(self).valid_player(q as int),
            s.captured is Some ==> s.captured != s.traced,
        ensures
            final(self).wf(),
            final(self).same_shape(old(self)),
            forall|x: int, y: int|
                #![trigger final(self).state(x, y)]
                final(self).in_field(x, y) ==> final(self).state(x, y) == if x == c.0 && y == c.1 {
                    s
                } else {
                    old(self).state(x, y)
                },
    {
        let i = self.index_of(c);
        self.cells.set(i, s);
        proof {
            let w = self.width as int;
            let h = self.height as int;
            assert forall|x: int, y: int|
                #![trigger self.state(x, y)]
                self.in_field(x, y) implies self.state(x, y) == if x == c.0 && y == c.1 {
                    s
                } else {
                    old(self).state(x, y)
                } by {
                lemma_index(w, h, x, y);
                lemma_index(w, h, c.0 as int, c.1 as int);
            }
            assert(self.owners_valid());
        }
    }

    /// Binds the trace on `c` to `player_id`, taking it from whoever traced
    /// it before.
    pub fn set_trace(&mut self, c: Cell, player_id: PlayerId)
        requires
            old(self).wf(),
            old(self).in_field(c.0 as int, c.1 as int),
            old(self).valid_player(player_id as int),
            !old(self).captured_by(c.0 as int, c.1 as int, player_id as int),
        ensures
            final(self).wf(),
            final(self).same_shape(old(self)),
            forall|x: int, y: int|
                #![trigger final(self).state(x, y)]
                final(self).in_field(x, y) ==> final(self).state(x, y) == if x == c.0 && y == c.1 {
                    CellState { captured: old(self).state(x, y).captured, traced: Some(player_id) }
                } else {
                    old(self).state(x, y)
                },
    {
        let s = self.get(c);
        self.put(c, CellState { captured: s.captured, traced: Some(player_id) });
    }

    /// Makes `player_id` the owner of `c`, erasing its own trace there.
    pub fn set_captured(&mut self, c: Cell, player_id: PlayerId)
        requires
            old(self).wf(),
            old(self).in_field(c.0 as int, c.1 as int),
            old(self).valid_player(player_id as int),
        ensures
            final(self).wf(),
            final(self).same_shape(old(self)),
            forall|x: int, y: int|
                #![trigger final(self).state(x, y)]
                final(self).in_field(x, y) ==> final(self).state(x, y) == if x == c.0 && y == c.1 {
                    captured_state(old(self).state(x, y), player_id as int)
                } else {
                    old(self).state(x, y)
                },
    {
        let s = self.get(c);
        let traced = if s.is_traced_by(player_id) {
            None
        } else {
            s.traced
        };
        self.put(c, CellState { captured: Some(player_id), traced });
    }

    /// Releases every cell that `player_id` has captured or traces.
    pub fn remove_player(&mut self, player_id: PlayerId)
        requires
            old(self).wf(),
        ensures
            final(self).wf(),
            final(self).same_shape(old(self)),
            forall|x: int, y: int|
                #![trigger final(self).state(x, y)]
                final(self).in_field(x, y) ==> final(self).state(x, y) == released_state(
                    old(self).state(x, y),
                    player_id as int,
                ),
    {
        let ghost before = self.cells@;
        let ghost f0 = *self;
        let n = self.cells.len();
        let mut i: usize = 0;
        while i < n
            invariant
                n == self.cells@.len(),
                before.len() == n,
                before == f0.cells@,
                self.width == f0.width,
                self.height == f0.height,
                self.players == f0.players,
                i <= n,
                forall|j: int|
                    #![trigger self.cells@[j]]
                    0 <= j < n ==> self.cells@[j] == if j < i {
                        released_state(before[j], player_id as int)
                    } else {
                        before[j]
                    },
            decreases n - i,
        {
            let s = self.cells[i];
            let captured = if s.is_captured_by(player_id) {
                None
            } else {
                s.captured
            };
            let traced = if s.is_traced_by(player_id) {
                None
            } else {
                s.traced
            };
            self.cells.set(i, CellState { captured, traced });
            i = i + 1;
        }
        proof {
            assert forall|x: int, y: int|
                #![trigger self.state(x, y)]
                self.in_field(x, y) implies self.state(x, y) == released_state(
                    f0.state(x, y),
                    player_id as int,
                ) by {
                lemma_index(self.width as int, self.height as int, x, y);
            }
            assert(self.owners_valid()) by {
                assert forall|x: int, y: int|
                    #![trigger self.state(x, y)]
                    self.in_field(x, y) implies f0.state(x, y) == before[x + y * self.width] by {
                    lemma_index(self.width as int, self.height as int, x, y);
                }
            }
        }
    }

    /// Every cell of the field, row by row.
    pub open spec fn row_major(&self) -> Seq<Cell> {
        Seq::new(
            (self.width_spec() * self.height_spec()) as nat,
            |i: int| Cell((i % self.width_spec()) as i32, (i / self.width_spec()) as i32),
        )
    }

    /// `p` traces `c` (when `traced`) or has captured it (otherwise).
    pub open spec fn marked(&self, p: int, traced: bool, c: Cell) -> bool {
        if traced {
            self.traced_by(c.0 as int, c.1 as int, p)
        } else {
            self.captured_by(c.0 as int, c.1 as int, p)
        }
    }

    /// The cells that `p` traces (when `traced`) or has captured, row by row.
    pub open spec fn cells_with(&self, p: int, traced: bool) -> Seq<Cell> {
        self.row_major().filter(|c: Cell| self.marked(p, traced, c))
    }

    /// Every cell of the field whose state satisfies `traced ? traced by p :
    /// captured by p`, each once, row by row.
    fn cells_of(&self, player_id: PlayerId, traced: bool) -> (r: Vec<Cell>)
        requires
            self.wf(),
        ensures
            r@ == self.cells_with(player_id as int, traced),
            r@.no_duplicates(),
            r@.len() <= self.cells@.len(),
            forall|c: Cell|
                r@.contains(c) <==> self.in_field(c.0 as int, c.1 as int) && (if traced {
                    self.traced_by(c.0 as int, c.1 as int, player_id as int)
                } else {
                    self.captured_by(c.0 as int, c.1 as int, player_id as int)
                }),
    {
        let w = self.width;
        let n = self.cells.len();
        let mut r: Vec<Cell> = Vec::new();
        let mut i: usize = 0;
        while i < n
            invariant
                self.wf(),
                w == self.width,
                n == self.cells@.len(),
                i <= n,
                r@ == self.row_major().take(i as int).filter(|c: Cell| self.marked(player_id as int, traced, c)),
                r@.no_duplicates(),
                r@.len() <= i,
                forall|k: int|
                    0 <= k < r@.len() ==> self.in_field(r@[k].0 as int, r@[k].1 as int) && r@[k].0
                        + r@[k].1 * w < i,
                forall|c: Cell|
                    r@.contains(c) <==> self.in_field(c.0 as int, c.1 as int) && c.0 + c.1 * w < i
                        && (if traced {
                        self.traced_by(c.0 as int, c.1 as int, player_id as int)
                    } else {
                        self.captured_by(c.0 as int, c.1 as int, player_id as int)
                    }),
            decreases n - i,
        {
            proof {
                lemma_index_inverse(w as int, self.height as int, i as int);
            }
            let x: usize = i % w;
            let y: usize = i / w;
            let c = Cell(x as i32, y as i32);
            assert(c.0 + c.1 * w == i);
            let s = self.cells[i];
            let hit = if traced {
                s.is_traced_by(player_id)
            } else {
                s.is_captured_by(player_id)
            };
            let ghost r0 = r@;
            proof {
                reveal(Seq::filter);
                assert(self.row_major()[i as int] == c);
                assert(self.row_major().take(i + 1).drop_last() =~= self.row_major().take(i as int));
                assert(self.row_major().take(i + 1).last() == c);
            }
            assert(s == self.state(c.0 as int, c.1 as int));
            assert(self.in_field(c.0 as int, c.1 as int));
            if hit {
                r.push(c);
            }
            proof {
                assert forall|d: Cell|
                    r@.contains(d) <==> self.in_field(d.0 as int, d.1 as int) && d.0 + d.1 * w < i + 1
                        && (if traced {
                        self.traced_by(d.0 as int, d.1 as int, player_id as int)
                    } else {
                        self.captured_by(d.0 as int, d.1 as int, player_id as int)
                    }) by {
                    if self.in_field(d.0 as int, d.1 as int) {
                        lemma_index(w as int, self.height as int, d.0 as int, d.1 as int);
                        if d.0 + d.1 * w == i {
                            assert(d == c);
                        }
                    }
                    if hit {
                        assert(r@ == r0.push(c));
                        assert(r@.contains(d) <==> (r0.contains(d) || d == c)) by {
                            if r@.contains(d) && !r0.contains(d) {
                                let k = choose|k: int| 0 <= k < r@.len() && r@[k] == d;
                                assert(k == r0.len());
                            }
                            if d == c {
                                assert(r@[r0.len() as int] == c);
                            }
                            if r0.contains(d) {
                                let k = choose|k: int| 0 <= k < r0.len() && r0[k] == d;
                                assert(r@[k] == d);
                            }
                        }
                    } else {
                        assert(r@ == r0);
                    }
                }
                if hit {
                    assert forall|k: int| 0 <= k < r0.len() implies r0[k] != c by {
                    }
                }
            }
            i = i + 1;
        }
        proof {
            assert(self.row_major().take(n as int) =~= self.row_major());
            assert forall|c: Cell| self.in_field(c.0 as int, c.1 as int) implies c.0 + c.1 * w < n by {
                lemma_index(w as int, self.height as int, c.0 as int, c.1 as int);
            }
        }
        r
    }

    /// The cells that `player_id` traces.
    pub fn traced_cells(&self, player_id: PlayerId) -> (r: Vec<Cell>)
        requires
            self.wf(),
        ensures
            r@ == self.cells_with(player_id as int, true),
            r@.no_duplicates(),
            forall|c: Cell|
                r@.contains(c) <==> self.in_field(c.0 as int, c.1 as int) && self.traced_by(
                    c.0 as int,
                    c.1 as int,
                    player_id as int,
                ),
    {
        self.cells_of(player_id, true)
    }

    /// The cells that `player_id` has captured, and those it traces.
    pub fn get_for_player(&self, player_id: PlayerId) -> (r: (Vec<Cell>, Vec<Cell>))
        requires
            self.wf(),
        ensures
            r.0@ == self.cells_with(player_id as int, false),
            r.1@ == self.cells_with(player_id as int, true),
            r.0@.no_duplicates(),
            r.1@.no_duplicates(),
            forall|c: Cell|
                r.0@.contains(c) <==> self.in_field(c.0 as int, c.1 as int) && self.captured_by(
                    c.0 as int,
                    c.1 as int,
                    player_id as int,
                ),
            forall|c: Cell|
                r.1@.contains(c) <==> self.in_field(c.0 as int, c.1 as int) && self.traced_by(
                    c.0 as int,
                    c.1 as int,
                    player_id as int,
                ),
    {
        (self.cells_of(player_id, false), self.cells_of(player_id, true))
    }

    /// `r` is enclosed by `p`: each of its cells lies on the field and is not
    /// `p`'s, and each neighbour of each of its cells lies on the field and is
    /// `p`'s or in `r`. No connected part of `r` reaches the border.
    pub open spec fn encloses(&self, p: int, r: Seq<Cell>) -> bool {
        &&& forall|i: int|
            #![trigger r[i]]
            0 <= i < r.len() ==> self.in_field(r[i].0 as int, r[i].1 as int) && !self.owned_by(
                r[i].0 as int,
                r[i].1 as int,
                p,
            )
        &&& forall|i: int, k: int|
            #![trigger r[i], nb_x(r[i].0 as int, k)]
            0 <= i < r.len() && 0 <= k < 4 ==> self.closed_at(p, r, nb_x(r[i].0 as int, k), nb_y(r[i].1 as int, k))
    }

    /// `(x, y)` lies on the field and is `p`'s or in `r`.
    pub open spec fn closed_at(&self, p: int, r: Seq<Cell>, x: int, y: int) -> bool {
        self.in_field(x, y) && (self.owned_by(x, y, p) || r.contains(Cell(x as i32, y as i32)))
    }

    spec fn vis(&self, v: Seq<bool>, x: int, y: int) -> bool {
        v[x + y * self.width]
    }

    /// Every cell of `p` is marked, and every marked cell that is not `p`'s
    /// has all its neighbours on the field marked.
    spec fn visited_ok(&self, p: int, v: Seq<bool>) -> bool {
        &&& v.len() == self.cells@.len()
        &&& forall|x: int, y: int|
            #![trigger self.vis(v, x, y)]
            self.in_field(x, y) && self.owned_by(x, y, p) ==> self.vis(v, x, y)
        &&& forall|x: int, y: int, k: int|
            #![trigger self.vis(v, x, y), nb_x(x, k), nb_y(y, k)]
            self.in_field(x, y) && self.vis(v, x, y) && !self.owned_by(x, y, p) && 0 <= k < 4
                && self.in_field(nb_x(x, k), nb_y(y, k)) ==> self.vis(v, nb_x(x, k), nb_y(y, k))
    }

    spec fn inner_ok(&self, p: int, v: Seq<bool>, r: Seq<Cell>) -> bool {
        &&& r.no_duplicates()
        &&& r.len() <= count_true(v)
        &&& self.encloses(p, r)
        &&& forall|i: int| #![trigger r[i]] 0 <= i < r.len() ==> self.vis(v, r[i].0 as int, r[i].1 as int)
    }

    /// A neighbour of a cell of an enclosed region lies on the field and is
    /// `p`'s or in the region.
    proof fn lemma_enclosed_neighbour(&self, p: int, r: Seq<Cell>, c: Cell, k: int)
        requires
            self.encloses(p, r),
            r.contains(c),
            0 <= k < 4,
        ensures
            self.in_field(c.0 as int, c.1 as int),
            !self.owned_by(c.0 as int, c.1 as int, p),
            self.closed_at(p, r, nb_x(c.0 as int, k), nb_y(c.1 as int, k)),
    {
        let i = choose|i: int| 0 <= i < r.len() && r[i] == c;
        assert(self.closed_at(p, r, nb_x(r[i].0 as int, k), nb_y(r[i].1 as int, k)));
    }

    /// If `r` is enclosed and holds every cell of the enclosed region `s` that
    /// borders `p`'s cells, it holds all of `s`: walking left from a cell of
    /// `s` meets a cell of `p`, and `r` is closed along the way back.
    proof fn lemma_region_complete(&self, p: int, r: Seq<Cell>, s: Seq<Cell>, c: Cell)
        requires
            self.encloses(p, r),
            self.encloses(p, s),
            s.contains(c),
            forall|i: int, k: int|
                #![trigger s[i], nb_x(s[i].0 as int, k)]
                0 <= i < s.len() && 0 <= k < 4 && self.in_field(nb_x(s[i].0 as int, k), nb_y(s[i].1 as int, k))
                    && self.owned_by(nb_x(s[i].0 as int, k), nb_y(s[i].1 as int, k), p) ==> r.contains(s[i]),
        ensures
            r.contains(c),
        decreases c.0,
    {
        self.lemma_enclosed_neighbour(p, s, c, 0);
        let lx = c.0 - 1;
        let l = Cell(lx as i32, c.1);
        if self.owned_by(lx, c.1 as int, p) {
            let i = choose|i: int| 0 <= i < s.len() && s[i] == c;
            assert(nb_x(s[i].0 as int, 0) == lx);
        } else {
            assert(s.contains(l));
            self.lemma_region_complete(p, r, s, l);
            self.lemma_enclosed_neighbour(p, r, l, 1);
            assert(Cell(nb_x(l.0 as int, 1) as i32, nb_y(l.1 as int, 1) as i32) == c);
        }
    }

    /// Explores the region of unmarked cells around `seed`, marking it, and
    /// appends it to `inner` unless it reaches the border.
    fn fill_region(&self, player_id: PlayerId, seed: Cell, visited: &mut Vec<bool>, inner: &mut Vec<Cell>)
        requires
            self.wf(),
            self.in_field(seed.0 as int, seed.1 as int),
            !self.vis(old(visited)@, seed.0 as int, seed.1 as int),
            !self.owned_by(seed.0 as int, seed.1 as int, player_id as int),
            self.visited_ok(player_id as int, old(visited)@),
            self.inner_ok(player_id as int, old(visited)@, old(inner)@),
        ensures
            self.visited_ok(player_id as int, final(visited)@),
            self.inner_ok(player_id as int, final(visited)@, final(inner)@),
            final(visited)@.len() == old(visited)@.len(),
            forall|t: int| 0 <= t < old(visited)@.len() && #[trigger] old(visited)@[t] ==> final(visited)@[t],
            self.vis(final(visited)@, seed.0 as int, seed.1 as int),
            forall|c: Cell| old(inner)@.contains(c) ==> final(inner)@.contains(c),
            forall|r: Seq<Cell>, x: int, y: int|
                #![trigger self.encloses(player_id as int, r), self.vis(final(visited)@, x, y)]
                self.encloses(player_id as int, r) && self.in_field(x, y) && self.vis(final(visited)@, x, y)
                    && !self.vis(old(visited)@, x, y) && r.contains(Cell(x as i32, y as i32))
                    ==> final(inner)@.contains(Cell(x as i32, y as i32)),
    {
        let ghost p = player_id as int;
        let ghost v0 = visited@;
        let ghost inner0 = inner@;
        let w = self.width;
        let h = self.height;
        let start = inner.len();
        let si = self.index_of(seed);
        proof {
            lemma_count_set(visited@, si as int);
        }
        visited.set(si, true);
        inner.push(seed);
        let mut border = false;
        let mut q: usize = start;
        proof {
            assert forall|x: int, y: int| self.in_field(x, y) implies (self.vis(visited@, x, y) <==> self.vis(v0, x, y)
                || (x == seed.0 && y == seed.1)) by {
                lemma_index(w as int, h as int, x, y);
                lemma_index(w as int, h as int, seed.0 as int, seed.1 as int);
            }
            assert forall|x: int, y: int|
                #![trigger self.vis(visited@, x, y)]
                self.in_field(x, y) implies (self.vis(visited@, x, y) <==> self.vis(v0, x, y)
                    || exists|j: int| start <= j < inner@.len() && inner@[j].0 == x && inner@[j].1 == y) by {
                if x == seed.0 && y == seed.1 {
                    assert(inner@[start as int] == seed);
                }
            }
            assert(inner@.subrange(0, start as int) =~= inner0);
            assert(inner@.subrange(start as int, inner@.len() as int) =~= seq![seed]);
            assert forall|t: int| 0 <= t < v0.len() && #[trigger] v0[t] implies visited@[t] by {
            }
        }
        while q < inner.len()
            invariant
                self.wf(),
                w == self.width,
                h == self.height,
                p == player_id,
                visited@.len() == self.cells@.len(),
                v0.len() == self.cells@.len(),
                start == inner0.len(),
                start < inner@.len(),
                inner@[start as int] == seed,
                start <= q <= inner@.len(),
                inner@.subrange(0, start as int) == inner0,
                self.visited_ok(p, v0),
                self.inner_ok(p, v0, inner0),
                forall|t: int| 0 <= t < v0.len() && #[trigger] v0[t] ==> visited@[t],
                forall|x: int, y: int|
                    #![trigger self.vis(visited@, x, y)]
                    self.in_field(x, y) ==> (self.vis(visited@, x, y) <==> self.vis(v0, x, y)
                        || exists|j: int| start <= j < inner@.len() && inner@[j].0 == x && inner@[j].1 == y),
                forall|j: int|
                    #![trigger inner@[j]]
                    start <= j < inner@.len() ==> self.in_field(inner@[j].0 as int, inner@[j].1 as int)
                        && !self.owned_by(inner@[j].0 as int, inner@[j].1 as int, p)
                        && !self.vis(v0, inner@[j].0 as int, inner@[j].1 as int),
                inner@.subrange(start as int, inner@.len() as int).no_duplicates(),
                count_true(visited@) == count_true(v0) + inner@.len() - start,
                forall|r: Seq<Cell>|
                    #[trigger] self.encloses(p, r) ==> ((exists|j: int| start <= j < inner@.len() && r.contains(inner@[j]))
                        ==> (forall|j: int| start <= j < inner@.len() ==> #[trigger] r.contains(inner@[j]))),
                border ==> forall|r: Seq<Cell>|
                    #[trigger] self.encloses(p, r) ==> (forall|j: int| start <= j < inner@.len() ==> !#[trigger] r.contains(inner@[j])),
                forall|j: int, k: int|
                    #![trigger inner@[j], nb_x(inner@[j].0 as int, k)]
                    start <= j < q && 0 <= k < 4 && self.in_field(nb_x(inner@[j].0 as int, k), nb_y(inner@[j].1 as int, k))
                        ==> self.vis(visited@, nb_x(inner@[j].0 as int, k), nb_y(inner@[j].1 as int, k)),
                !border ==> forall|j: int, k: int|
                    #![trigger inner@[j], nb_x(inner@[j].0 as int, k)]
                    start <= j < q && 0 <= k < 4 ==> self.in_field(nb_x(inner@[j].0 as int, k), nb_y(inner@[j].1 as int, k)),
            decreases self.cells@.len() + start - q,
        {
            proof {
                lemma_count_bound(visited@);
            }
            let c = inner[q];
            let nbs = c.iter_neighbours_unchecked();
            let ghost vq = visited@;
            let ghost iq = inner@;
            let mut k: usize = 0;
            while k < 4
                invariant
                    self.wf(),
                    w == self.width,
                    h == self.height,
                    p == player_id,
                    nbs@ == crate::proto::neighbours_of(c),
                    c == iq[q as int],
                    self.in_field(c.0 as int, c.1 as int),
                    !border ==> forall|j: int, kk: int|
                        #![trigger iq[j], nb_x(iq[j].0 as int, kk)]
                        start <= j < q && 0 <= kk < 4 ==> self.in_field(nb_x(iq[j].0 as int, kk), nb_y(iq[j].1 as int, kk)),
                    q < iq.len(),
                    k <= 4,
                    visited@.len() == self.cells@.len(),
                    v0.len() == self.cells@.len(),
                    vq.len() == self.cells@.len(),
                    start == inner0.len(),
                    iq.len() <= inner@.len(),
                    forall|j: int| 0 <= j < iq.len() ==> #[trigger] inner@[j] == iq[j],
                    start < inner@.len(),
                    start <= q,
                    self.visited_ok(p, v0),
                    self.inner_ok(p, v0, inner0),
                    forall|t: int| 0 <= t < v0.len() && #[trigger] v0[t] ==> visited@[t],
                    forall|t: int| 0 <= t < vq.len() && #[trigger] vq[t] ==> visited@[t],
                    forall|x: int, y: int|
                        #![trigger self.vis(visited@, x, y)]
                        self.in_field(x, y) ==> (self.vis(visited@, x, y) <==> self.vis(v0, x, y)
                            || exists|j: int| start <= j < inner@.len() && inner@[j].0 == x && inner@[j].1 == y),
                    forall|j: int|
                        #![trigger inner@[j]]
                        start <= j < inner@.len() ==> self.in_field(inner@[j].0 as int, inner@[j].1 as int)
                            && !self.owned_by(inner@[j].0 as int, inner@[j].1 as int, p)
                            && !self.vis(v0, inner@[j].0 as int, inner@[j].1 as int),
                    inner@.subrange(start as int, inner@.len() as int).no_duplicates(),
                    count_true(visited@) == count_true(v0) + inner@.len() - start,
                    forall|r: Seq<Cell>|
                        #[trigger] self.encloses(p, r) ==> ((exists|j: int| start <= j < inner@.len() && r.contains(inner@[j]))
                            ==> (forall|j: int| start <= j < inner@.len() ==> #[trigger] r.contains(inner@[j]))),
                    border ==> forall|r: Seq<Cell>|
                        #[trigger] self.encloses(p, r) ==> (forall|j: int| start <= j < inner@.len() ==> !#[trigger] r.contains(inner@[j])),
                    forall|kk: int|
                        0 <= kk < k && self.in_field(nb_x(c.0 as int, kk), nb_y(c.1 as int, kk))
                            ==> self.vis(visited@, #[trigger] nb_x(c.0 as int, kk), nb_y(c.1 as int, kk)),
                    !border ==> forall|kk: int|
                        0 <= kk < k ==> self.in_field(#[trigger] nb_x(c.0 as int, kk), nb_y(c.1 as int, kk)),
                decreases 4 - k,
            {
                let nn = nbs[k];
                proof {
                    let ns = crate::proto::neighbours_of(c);
                    if k == 0 {
                        assert(nn == ns[0]);
                    } else if k == 1 {
                        assert(nn == ns[1]);
                    } else if k == 2 {
                        assert(nn == ns[2]);
                    } else {
                        assert(nn == ns[3]);
                    }
                    assert(nn.0 == nb_x(c.0 as int, k as int) && nn.1 == nb_y(c.1 as int, k as int));
                }
                if self.contains(nn) {
                    let ni = self.index_of(nn);
                    if !visited[ni] {
                        let ghost vb = visited@;
                        let ghost ib = inner@;
                        visited.set(ni, true);
                        inner.push(nn);
                        proof {
                            lemma_index(w as int, h as int, nn.0 as int, nn.1 as int);
                            lemma_count_set(vb, ni as int);
                            assert(ib.len() >= start);
                            assert forall|x: int, y: int| self.in_field(x, y) implies (self.vis(visited@, x, y)
                                <==> self.vis(vb, x, y) || (x == nn.0 && y == nn.1)) by {
                                lemma_index(w as int, h as int, x, y);
                            }
                            assert forall|x: int, y: int|
                                #![trigger self.vis(visited@, x, y)]
                                self.in_field(x, y) implies (self.vis(visited@, x, y) <==> self.vis(v0, x, y)
                                    || exists|j: int| start <= j < inner@.len() && inner@[j].0 == x && inner@[j].1 == y) by {
                                if self.vis(visited@, x, y) && !self.vis(v0, x, y) {
                                    if x == nn.0 && y == nn.1 {
                                        assert(inner@[ib.len() as int] == nn);
                                    } else {
                                        assert(self.vis(vb, x, y));
                                        let j = choose|j: int| start <= j < ib.len() && ib[j].0 == x && ib[j].1 == y;
                                        assert(inner@[j] == ib[j]);
                                    }
                                }
                                if exists|j: int| start <= j < inner@.len() && inner@[j].0 == x && inner@[j].1 == y {
                                    let j = choose|j: int| start <= j < inner@.len() && inner@[j].0 == x && inner@[j].1 == y;
                                    if j < ib.len() {
                                        assert(inner@[j] == ib[j]);
                                        assert(self.vis(vb, x, y));
                                    }
                                }
                            }
                            assert(!self.vis(v0, nn.0 as int, nn.1 as int));
                            assert(!self.owned_by(nn.0 as int, nn.1 as int, p)) by {
                                if self.owned_by(nn.0 as int, nn.1 as int, p) {
                                    assert(self.vis(v0, nn.0 as int, nn.1 as int));
                                }
                            }
                            assert(inner@.subrange(start as int, inner@.len() as int) == ib.subrange(
                                start as int,
                                ib.len() as int,
                            ).push(nn));
                            assert forall|j: int| start <= j < ib.len() implies ib[j] != nn by {
                                assert(self.vis(vb, ib[j].0 as int, ib[j].1 as int));
                            }
                            assert forall|j: int| 0 <= j < iq.len() implies #[trigger] inner@[j] == iq[j] by {
                                assert(inner@[j] == ib[j]);
                            }
                            assert(inner@[q as int] == c);
                            assert(!self.owned_by(c.0 as int, c.1 as int, p));
                            assert forall|r: Seq<Cell>| #[trigger] self.encloses(p, r) implies ((exists|j: int|
                                start <= j < inner@.len() && r.contains(inner@[j])) ==> (forall|j: int|
                                start <= j < inner@.len() ==> #[trigger] r.contains(inner@[j]))) && (border ==> (forall|j: int|
                                start <= j < inner@.len() ==> !#[trigger] r.contains(inner@[j]))) by {
                                assert(inner@[ib.len() as int] == nn);
                                assert forall|j: int| start <= j < ib.len() implies #[trigger] inner@[j] == ib[j] by {}
                                if r.contains(nn) {
                                    self.lemma_enclosed_neighbour(p, r, nn, flip(k as int));
                                    assert(nb_x(nn.0 as int, flip(k as int)) == c.0 && nb_y(nn.1 as int, flip(k as int)) == c.1);
                                    assert(Cell(c.0 as int as i32, c.1 as int as i32) == c);
                                    assert(r.contains(c));
                                    assert(r.contains(ib[q as int]));
                                }
                                if exists|j: int| start <= j < ib.len() && r.contains(ib[j]) {
                                    assert(r.contains(ib[q as int]));
                                    self.lemma_enclosed_neighbour(p, r, c, k as int);
                                    assert(Cell(nb_x(c.0 as int, k as int) as i32, nb_y(c.1 as int, k as int) as i32) == nn);
                                    assert(r.contains(nn));
                                }
                                if exists|j: int| start <= j < inner@.len() && r.contains(inner@[j]) {
                                    let j0 = choose|j: int| start <= j < inner@.len() && r.contains(inner@[j]);
                                    if j0 < ib.len() {
                                        assert(r.contains(ib[j0]));
                                    }
                                }
                            }
                        }
                    }
                } else {
                    proof {
                        assert(inner@[q as int] == c);
                        assert forall|r: Seq<Cell>| #[trigger] self.encloses(p, r) implies (forall|j: int|
                            start <= j < inner@.len() ==> !#[trigger] r.contains(inner@[j])) by {
                            if r.contains(c) {
                                self.lemma_enclosed_neighbour(p, r, c, k as int);
                            }
                            assert(!r.contains(inner@[q as int]));
                        }
                    }
                    border = true;
                }
                proof {
                    if self.in_field(nn.0 as int, nn.1 as int) {
                        lemma_index(w as int, h as int, nn.0 as int, nn.1 as int);
                    }
                }
                k = k + 1;
            }
            proof {
                assert forall|j: int, kk: int|
                    #![trigger inner@[j], nb_x(inner@[j].0 as int, kk)]
                    start <= j < q + 1 && 0 <= kk < 4 && self.in_field(nb_x(inner@[j].0 as int, kk), nb_y(inner@[j].1 as int, kk))
                        implies self.vis(visited@, nb_x(inner@[j].0 as int, kk), nb_y(inner@[j].1 as int, kk)) by {
                    assert(inner@[j] == iq[j]);
                    let xx = nb_x(inner@[j].0 as int, kk);
                    let yy = nb_y(inner@[j].1 as int, kk);
                    lemma_index(w as int, h as int, xx, yy);
                    if j < q {
                        assert(self.vis(vq, xx, yy));
                    } else {
                        assert(nb_x(c.0 as int, kk) == xx);
                    }
                }
                if !border {
                    assert forall|j: int, kk: int|
                        #![trigger inner@[j], nb_x(inner@[j].0 as int, kk)]
                        start <= j < q + 1 && 0 <= kk < 4 implies self.in_field(nb_x(inner@[j].0 as int, kk), nb_y(inner@[j].1 as int, kk)) by {
                        assert(inner@[j] == iq[j]);
                        if j == q {
                            assert(nb_x(c.0 as int, kk) == nb_x(inner@[j].0 as int, kk));
                        } else {
                            assert(self.in_field(nb_x(iq[j].0 as int, kk), nb_y(iq[j].1 as int, kk)));
                        }
                    }
                }
            }
            q = q + 1;
        }
        let ghost cur = inner@;
        if border {
            inner.truncate(start);
        }
        proof {
            let vf = visited@;
            assert(cur[start as int] == seed);
            assert(self.vis(vf, seed.0 as int, seed.1 as int));
            assert forall|x: int, y: int|
                #![trigger self.vis(vf, x, y)]
                self.in_field(x, y) && self.owned_by(x, y, p) implies self.vis(vf, x, y) by {
                lemma_index(w as int, h as int, x, y);
                assert(self.vis(v0, x, y));
            }
            assert forall|x: int, y: int, k: int|
                #![trigger self.vis(vf, x, y), nb_x(x, k), nb_y(y, k)]
                self.in_field(x, y) && self.vis(vf, x, y) && !self.owned_by(x, y, p) && 0 <= k < 4
                    && self.in_field(nb_x(x, k), nb_y(y, k)) implies self.vis(vf, nb_x(x, k), nb_y(y, k)) by {
                lemma_index(w as int, h as int, x, y);
                lemma_index(w as int, h as int, nb_x(x, k), nb_y(y, k));
                if self.vis(v0, x, y) {
                    assert(self.vis(v0, nb_x(x, k), nb_y(y, k)));
                } else {
                    let j = choose|j: int| start <= j < cur.len() && cur[j].0 == x && cur[j].1 == y;
                    assert(nb_x(cur[j].0 as int, k) == nb_x(x, k));
                }
            }
            assert(self.visited_ok(p, vf));
            assert forall|j: int| 0 <= j < start implies #[trigger] cur[j] == inner0[j] by {
                assert(cur.subrange(0, start as int)[j] == cur[j]);
            }
            if border {
                assert(inner@ =~= inner0);
                assert forall|i: int| #![trigger inner0[i]] 0 <= i < inner0.len() implies self.vis(vf, inner0[i].0 as int, inner0[i].1 as int) by {
                    lemma_index(w as int, h as int, inner0[i].0 as int, inner0[i].1 as int);
                    assert(self.vis(v0, inner0[i].0 as int, inner0[i].1 as int));
                }
            } else {
                assert(inner@ == cur);
                let cs = cur.subrange(start as int, cur.len() as int);
                assert forall|i: int, j: int| 0 <= i < j < cur.len() implies cur[i] != cur[j] by {
                    if j < start {
                        assert(inner0[i] != inner0[j]);
                    } else if i < start {
                        assert(self.vis(v0, inner0[i].0 as int, inner0[i].1 as int));
                    } else {
                        assert(cs[i - start] != cs[j - start]);
                    }
                }
                assert forall|i: int|
                    #![trigger cur[i]]
                    0 <= i < cur.len() implies self.in_field(cur[i].0 as int, cur[i].1 as int) && !self.owned_by(
                        cur[i].0 as int,
                        cur[i].1 as int,
                        p,
                    ) by {
                    if i < start {
                        assert(inner0[i] == cur[i]);
                    }
                }
                assert forall|i: int, k: int|
                    #![trigger cur[i], nb_x(cur[i].0 as int, k)]
                    0 <= i < cur.len() && 0 <= k < 4 implies self.closed_at(p, cur, nb_x(cur[i].0 as int, k), nb_y(cur[i].1 as int, k)) by {
                    let xx = nb_x(cur[i].0 as int, k);
                    let yy = nb_y(cur[i].1 as int, k);
                    let cc = Cell(xx as i32, yy as i32);
                    if i < start {
                        assert(inner0[i] == cur[i]);
                        assert(self.closed_at(p, inner0, xx, yy));
                        if inner0.contains(cc) {
                            let j = choose|j: int| 0 <= j < inner0.len() && inner0[j] == cc;
                            assert(cur[j] == cc);
                        }
                    } else {
                        assert(self.in_field(xx, yy));
                        assert(self.vis(vf, xx, yy));
                        if !self.owned_by(xx, yy, p) {
                            if self.vis(v0, xx, yy) {
                                let kf = if k == 0 { 1int } else if k == 1 { 0int } else if k == 2 { 3int } else { 2int };
                                assert(nb_x(xx, kf) == cur[i].0 && nb_y(yy, kf) == cur[i].1);
                                assert(self.vis(v0, nb_x(xx, kf), nb_y(yy, kf)));
                                assert(false);
                            } else {
                                let j = choose|j: int| start <= j < cur.len() && cur[j].0 == xx && cur[j].1 == yy;
                                assert(cur[j] == cc);
                            }
                        }
                    }
                }
                assert forall|i: int| #![trigger cur[i]] 0 <= i < cur.len() implies self.vis(vf, cur[i].0 as int, cur[i].1 as int) by {
                    lemma_index(w as int, h as int, cur[i].0 as int, cur[i].1 as int);
                    if i < start {
                        assert(inner0[i] == cur[i]);
                        assert(self.vis(v0, inner0[i].0 as int, inner0[i].1 as int));
                    } else {
                        assert(exists|j: int| start <= j < cur.len() && cur[j].0 == cur[i].0 && cur[j].1 == cur[i].1);
                    }
                }
            }
        }
    }

    /// The cells enclosed by `player_id`'s territory and trace: the regions of
    /// cells not its own, next to its own, that do not reach the border. The
    /// result is enclosed, and holds every cell of every enclosed region.
    pub fn find_inner_cells(&self, player_id: PlayerId) -> (r: Vec<Cell>)
        requires
            self.wf(),
        ensures
            r@.no_duplicates(),
            r@.len() <= self.width_spec() * self.height_spec(),
            self.encloses(player_id as int, r@),
            forall|s: Seq<Cell>, i: int|
                #![trigger self.encloses(player_id as int, s), s[i]]
                self.encloses(player_id as int, s) && 0 <= i < s.len() ==> r@.contains(s[i]),
    {
        let ghost p = player_id as int;
        let w = self.width;
        let h = self.height;
        let n = self.cells.len();
        let mut visited: Vec<bool> = Vec::new();
        let mut i: usize = 0;
        while i < n
            invariant
                self.wf(),
                n == self.cells@.len(),
                i <= n,
                visited@.len() == i,
                forall|j: int|
                    0 <= j < i ==> #[trigger] visited@[j] == (self.cells@[j].captured == Some(player_id)
                        || self.cells@[j].traced == Some(player_id)),
            decreases n - i,
        {
            let s = self.cells[i];
            visited.push(s.is_captured_by(player_id) || s.is_traced_by(player_id));
            i = i + 1;
        }
        proof {
            assert forall|x: int, y: int|
                #![trigger self.vis(visited@, x, y)]
                self.in_field(x, y) implies (self.vis(visited@, x, y) <==> self.owned_by(x, y, p)) by {
                lemma_index(w as int, h as int, x, y);
            }
        }
        let mut inner: Vec<Cell> = Vec::new();
        i = 0;
        while i < n
            invariant
                self.wf(),
                w == self.width,
                h == self.height,
                n == self.cells@.len(),
                p == player_id,
                i <= n,
                self.visited_ok(p, visited@),
                self.inner_ok(p, visited@, inner@),
                forall|s: Seq<Cell>, x: int, y: int|
                    #![trigger self.encloses(p, s), self.vis(visited@, x, y)]
                    self.encloses(p, s) && self.in_field(x, y) && self.vis(visited@, x, y) && !self.owned_by(x, y, p)
                        && s.contains(Cell(x as i32, y as i32)) ==> inner@.contains(Cell(x as i32, y as i32)),
                forall|x: int, y: int, k: int|
                    #![trigger self.vis(visited@, nb_x(x, k), nb_y(y, k))]
                    self.in_field(x, y) && x + y * w < i && self.owned_by(x, y, p) && 0 <= k < 4 && self.in_field(
                        nb_x(x, k),
                        nb_y(y, k),
                    ) ==> self.vis(visited@, nb_x(x, k), nb_y(y, k)),
            decreases n - i,
        {
            let s = self.cells[i];
            if s.is_captured_by(player_id) || s.is_traced_by(player_id) {
                proof {
                    lemma_index_inverse(w as int, h as int, i as int);
                }
                let c = Cell((i % w) as i32, (i / w) as i32);
                assert(c.0 + c.1 * w == i);
                assert(self.in_field(c.0 as int, c.1 as int));
                assert(self.owned_by(c.0 as int, c.1 as int, p));
                let nbs = c.iter_neighbours_unchecked();
                let mut k: usize = 0;
                while k < 4
                    invariant
                        self.wf(),
                        w == self.width,
                        h == self.height,
                        n == self.cells@.len(),
                        p == player_id,
                        i < n,
                        c.0 + c.1 * w == i,
                        self.in_field(c.0 as int, c.1 as int),
                        nbs@ == crate::proto::neighbours_of(c),
                        k <= 4,
                        self.visited_ok(p, visited@),
                        self.inner_ok(p, visited@, inner@),
                        forall|s: Seq<Cell>, x: int, y: int|
                            #![trigger self.encloses(p, s), self.vis(visited@, x, y)]
                            self.encloses(p, s) && self.in_field(x, y) && self.vis(visited@, x, y) && !self.owned_by(x, y, p)
                                && s.contains(Cell(x as i32, y as i32)) ==> inner@.contains(Cell(x as i32, y as i32)),
                        forall|x: int, y: int, k: int|
                            #![trigger self.vis(visited@, nb_x(x, k), nb_y(y, k))]
                            self.in_field(x, y) && x + y * w < i && self.owned_by(x, y, p) && 0 <= k < 4 && self.in_field(
                                nb_x(x, k),
                                nb_y(y, k),
                            ) ==> self.vis(visited@, nb_x(x, k), nb_y(y, k)),
                        forall|kk: int|
                            0 <= kk < k && self.in_field(nb_x(c.0 as int, kk), nb_y(c.1 as int, kk))
                                ==> self.vis(visited@, #[trigger] nb_x(c.0 as int, kk), nb_y(c.1 as int, kk)),
                    decreases 4 - k,
                {
                    let nn = nbs[k];
                    proof {
                        let ns = crate::proto::neighbours_of(c);
                        if k == 0 {
                            assert(nn == ns[0]);
                        } else if k == 1 {
                            assert(nn == ns[1]);
                        } else if k == 2 {
                            assert(nn == ns[2]);
                        } else {
                            assert(nn == ns[3]);
                        }
                        assert(nn.0 == nb_x(c.0 as int, k as int) && nn.1 == nb_y(c.1 as int, k as int));
                    }
                    let ghost vb = visited@;
                    let ghost ib = inner@;
                    if self.contains(nn) {
                        let ni = self.index_of(nn);
                        if !visited[ni] {
                            proof {
                                if self.owned_by(nn.0 as int, nn.1 as int, p) {
                                    assert(self.vis(visited@, nn.0 as int, nn.1 as int));
                                }
                            }
                            self.fill_region(player_id, nn, &mut visited, &mut inner);
                            proof {
                                assert forall|x: int, y: int|
                                    self.in_field(x, y) && self.vis(vb, x, y) implies self.vis(visited@, x, y) by {
                                    lemma_index(w as int, h as int, x, y);
                                }
                                assert forall|s: Seq<Cell>, x: int, y: int|
                                    #![trigger self.encloses(p, s), self.vis(visited@, x, y)]
                                    self.encloses(p, s) && self.in_field(x, y) && self.vis(visited@, x, y) && !self.owned_by(x, y, p)
                                        && s.contains(Cell(x as i32, y as i32)) implies inner@.contains(Cell(x as i32, y as i32)) by {
                                    if self.vis(vb, x, y) {
                                        assert(ib.contains(Cell(x as i32, y as i32)));
                                    }
                                }
                            }
                        }
                    }
                    proof {
                        if self.in_field(nn.0 as int, nn.1 as int) {
                            lemma_index(w as int, h as int, nn.0 as int, nn.1 as int);
                        }
                    }
                    k = k + 1;
                }
            }
            proof {
                assert forall|x: int, y: int, k: int|
                    #![trigger self.vis(visited@, nb_x(x, k), nb_y(y, k))]
                    self.in_field(x, y) && x + y * w < i + 1 && self.owned_by(x, y, p) && 0 <= k < 4 && self.in_field(
                        nb_x(x, k),
                        nb_y(y, k),
                    ) implies self.vis(visited@, nb_x(x, k), nb_y(y, k)) by {
                    lemma_index(w as int, h as int, x, y);
                    if x + y * w == i {
                        lemma_index_inverse(w as int, h as int, i as int);
                        assert(x == (i % w) as int && y == (i / w) as int);
                    }
                }
            }
            i = i + 1;
        }
        proof {
            lemma_count_bound(visited@);
            assert forall|s: Seq<Cell>, j: int, k: int|
                #![trigger self.encloses(p, s), s[j], nb_x(s[j].0 as int, k)]
                self.encloses(p, s) && 0 <= j < s.len() && 0 <= k < 4 && self.in_field(
                    nb_x(s[j].0 as int, k),
                    nb_y(s[j].1 as int, k),
                ) && self.owned_by(nb_x(s[j].0 as int, k), nb_y(s[j].1 as int, k), p) implies inner@.contains(s[j]) by {
                let c = s[j];
                let ox = nb_x(c.0 as int, k);
                let oy = nb_y(c.1 as int, k);
                assert(self.in_field(c.0 as int, c.1 as int));
                lemma_index(w as int, h as int, ox, oy);
                assert(nb_x(ox, flip(k)) == c.0 && nb_y(oy, flip(k)) == c.1);
                assert(self.vis(visited@, nb_x(ox, flip(k)), nb_y(oy, flip(k))));
                assert(s.contains(c));
                assert(Cell(c.0 as int as i32, c.1 as int as i32) == c);
            }
            assert forall|s: Seq<Cell>, j: int|
                #![trigger self.encloses(p, s), s[j]]
                self.encloses(p, s) && 0 <= j < s.len() implies inner@.contains(s[j]) by {
                assert(s.contains(s[j]));
                self.lemma_region_complete(p, inner@, s, s[j]);
            }
        }
        inner
    }

    /// Number of cells of `k` that another player than `p` had captured.
    pub open spec fn enemy_count(&self, p: int, k: Seq<Cell>) -> int
        decreases k.len(),
    {
        if k.len() == 0 {
            0
        } else {
            self.enemy_count(p, k.drop_last()) + if self.state(k.last().0 as int, k.last().1 as int).captured
                matches Some(q) && q != p {
                1int
            } else {
                0int
            }
        }
    }

    /// Number of cells of `k` that nobody had captured.
    pub open spec fn free_count(&self, k: Seq<Cell>) -> int
        decreases k.len(),
    {
        if k.len() == 0 {
            0
        } else {
            self.free_count(k.drop_last()) + if self.state(k.last().0 as int, k.last().1 as int).captured
                is None {
                1int
            } else {
                0int
            }
        }
    }

    /// `p` traces some cell of the field.
    pub open spec fn has_trace(&self, p: int) -> bool {
        exists|x: int, y: int| self.in_field(x, y) && #[trigger] self.traced_by(x, y, p)
    }

    /// `k` lists, once each, the cells of `inner` and the cells that `p`
    /// traces.
    pub open spec fn capture_cells(&self, p: int, inner: Seq<Cell>, k: Seq<Cell>) -> bool {
        &&& k.no_duplicates()
        &&& forall|c: Cell|
            k.contains(c) <==> inner.contains(c) || (self.in_field(c.0 as int, c.1 as int) && self.traced_by(
                c.0 as int,
                c.1 as int,
                p,
            ))
    }

    /// `after` is this field once `p` has captured the cells of `k`.
    pub open spec fn captured_into(&self, p: int, k: Seq<Cell>, after: &GameField) -> bool {
        forall|x: int, y: int|
            #![trigger after.state(x, y)]
            self.in_field(x, y) ==> after.state(x, y) == if k.contains(Cell(x as i32, y as i32)) {
                captured_state(self.state(x, y), p)
            } else {
                self.state(x, y)
            }
    }

    /// Whether player `q` is caught by `p` capturing the cells of `k`: its trace
    /// runs through one of them, or it stands on one.
    pub open spec fn caught(&self, p: int, k: Seq<Cell>, positions: Seq<Cell>, q: int) -> bool {
        &&& q != p
        &&& (exists|i: int| 0 <= i < k.len() && #[trigger] self.state(k[i].0 as int, k[i].1 as int).traced == Some(q as usize))
            || (exists|i: int| 0 <= i < k.len() && #[trigger] k[i] == positions[q - 1])
    }

    /// `after`, with the counts and flags beside it, is what `p` closing its
    /// trace makes of this field: nothing changes when `p` traces nothing;
    /// otherwise the largest region `p` encloses and `p`'s trace become its
    /// territory, `enemy` and `free` count those cells that another player
    /// had and that nobody had, and `caught` flags each player caught there.
    pub open spec fn capture_step(
        &self,
        p: int,
        positions: Seq<Cell>,
        after: GameField,
        enemy: int,
        free: int,
        caught: Seq<bool>,
    ) -> bool {
        &&& after.wf()
        &&& after.same_shape(self)
        &&& caught.len() == positions.len()
        &&& if !self.has_trace(p) {
            &&& enemy == 0
            &&& free == 0
            &&& forall|q: int| 0 <= q < caught.len() ==> !#[trigger] caught[q]
            &&& forall|x: int, y: int| #![trigger after.state(x, y)] self.in_field(x, y) ==> after.state(x, y) == self.state(x, y)
        } else {
            exists|inner: Seq<Cell>, k: Seq<Cell>|
                {
                    &&& self.encloses(p, inner)
                    &&& forall|e: Seq<Cell>, i: int|
                        #![trigger self.encloses(p, e), e[i]]
                        self.encloses(p, e) && 0 <= i < e.len() ==> inner.contains(e[i])
                    &&& self.capture_cells(p, inner, k)
                    &&& self.captured_into(p, k, &after)
                    &&& enemy == self.enemy_count(p, k)
                    &&& free == self.free_count(k)
                    &&& forall|q: int| 1 <= q <= caught.len() ==> (#[trigger] caught[q - 1] <==> self.caught(p, k, positions, q))
                }
        }
    }

    /// Closes `player_id`'s trace: the cells it encloses and the trace itself
    /// become its territory. Returns how many of them were an enemy's, how
    /// many were free, and which players are caught in them.
    pub fn capture_all(&mut self, player_id: PlayerId, players_positions: &PlayerIndexedVector<Cell>) -> (r: (
        u32,
        u32,
        PlayerIndexedVector<bool>,
    ))
        requires
            old(self).wf(),
            old(self).valid_player(player_id as int),
            players_positions@.len() == old(self).players_spec(),
        ensures
            old(self).capture_step(player_id as int, players_positions@, *final(self), r.0 as int, r.1 as int, r.2@),
            forall|x: int, y: int|
                #![trigger final(self).state(x, y)]
                final(self).in_field(x, y) ==> final(self).state(x, y) == old(self).state(x, y)
                    || final(self).state(x, y) == captured_state(old(self).state(x, y), player_id as int),
            forall|x: int, y: int|
                #![trigger final(self).state(x, y)]
                final(self).in_field(x, y) ==> !final(self).traced_by(x, y, player_id as int),
            forall|x: int, y: int|
                #![trigger old(self).state(x, y)]
                old(self).in_field(x, y) && old(self).traced_by(x, y, player_id as int)
                    ==> final(self).captured_by(x, y, player_id as int),
    {
        let r = self.capture_region(player_id, players_positions);
        proof {
            if !old(self).has_trace(player_id as int) {
                assert forall|q: int| 0 <= q < r.2@.len() implies !#[trigger] r.2@[q] by {
                    assert(!r.2.at(q + 1));
                }
            } else {
                let w = choose|inner: Seq<Cell>, k: Seq<Cell>|
                {
                    &&& old(self).encloses(player_id as int, inner)
                    &&& forall|e: Seq<Cell>, i: int|
                        #![trigger old(self).encloses(player_id as int, e), e[i]]
                        old(self).encloses(player_id as int, e) && 0 <= i < e.len() ==> inner.contains(e[i])
                    &&& old(self).capture_cells(player_id as int, inner, k)
                    &&& old(self).captured_into(player_id as int, k, final(self))
                    &&& r.0 == old(self).enemy_count(player_id as int, k)
                    &&& r.1 == old(self).free_count(k)
                    &&& forall|q: int|
                        1 <= q <= r.2@.len() ==> (#[trigger] r.2.at(q) <==> old(self).caught(
                            player_id as int,
                            k,
                            players_positions@,
                            q,
                        ))
                };
                assert forall|q: int| 1 <= q <= r.2@.len() implies (#[trigger] r.2@[q - 1] <==> old(self).caught(
                    player_id as int,
                    w.1,
                    players_positions@,
                    q,
                )) by {
                    assert(r.2@[q - 1] == r.2.at(q));
                }
            }
        }
        r
    }

    /// The body of `capture_all`.
    fn capture_region(&mut self, player_id: PlayerId, players_positions: &PlayerIndexedVector<Cell>) -> (r: (
        u32,
        u32,
        PlayerIndexedVector<bool>,
    ))
        requires
            old(self).wf(),
            old(self).valid_player(player_id as int),
            players_positions@.len() == old(self).players_spec(),
        ensures
            final(self).wf(),
            final(self).same_shape(old(self)),
            r.2@.len() == players_positions@.len(),
            !old(self).has_trace(player_id as int) ==> r.0 == 0 && r.1 == 0 && (forall|q: int|
                1 <= q <= r.2@.len() ==> !#[trigger] r.2.at(q)) && forall|x: int, y: int|
                #![trigger final(self).state(x, y)]
                final(self).in_field(x, y) ==> final(self).state(x, y) == old(self).state(x, y),
            forall|x: int, y: int|
                #![trigger final(self).state(x, y)]
                final(self).in_field(x, y) ==> final(self).state(x, y) == old(self).state(x, y)
                    || final(self).state(x, y) == captured_state(old(self).state(x, y), player_id as int),
            old(self).has_trace(player_id as int) ==> exists|inner: Seq<Cell>, k: Seq<Cell>|
                {
                    &&& old(self).encloses(player_id as int, inner)
                    &&& forall|e: Seq<Cell>, i: int|
                        #![trigger old(self).encloses(player_id as int, e), e[i]]
                        old(self).encloses(player_id as int, e) && 0 <= i < e.len() ==> inner.contains(e[i])
                    &&& old(self).capture_cells(player_id as int, inner, k)
                    &&& old(self).captured_into(player_id as int, k, final(self))
                    &&& r.0 == old(self).enemy_count(player_id as int, k)
                    &&& r.1 == old(self).free_count(k)
                    &&& forall|q: int|
                        1 <= q <= r.2@.len() ==> (#[trigger] r.2.at(q) <==> old(self).caught(
                            player_id as int,
                            k,
                            players_positions@,
                            q,
                        ))
                },
            forall|x: int, y: int|
                #![trigger final(self).state(x, y)]
                final(self).in_field(x, y) ==> !final(self).traced_by(x, y, player_id as int),
            forall|x: int, y: int|
                #![trigger old(self).state(x, y)]
                old(self).in_field(x, y) && old(self).traced_by(x, y, player_id as int)
                    ==> final(self).captured_by(x, y, player_id as int),
    {
        let ghost p = player_id as int;
        let ghost f0 = *self;
        let trace = self.cells_of(player_id, true);
        if trace.len() == 0 {
            proof {
                assert forall|x: int, y: int| self.in_field(x, y) implies !#[trigger] self.traced_by(x, y, p) by {
                    if self.traced_by(x, y, p) {
                        assert(trace@.contains(Cell(x as i32, y as i32)));
                    }
                }
            }
            return (0, 0, PlayerIndexedVector::new(players_positions.len(), false));
        }
        let inner = self.find_inner_cells(player_id);
        let mut cells: Vec<Cell> = Vec::new();
        let mut i: usize = 0;
        while i < inner.len()
            invariant
                i <= inner@.len(),
                cells@ == inner@.subrange(0, i as int),
            decreases inner@.len() - i,
        {
            cells.push(inner[i]);
            i = i + 1;
        }
        i = 0;
        while i < trace.len()
            invariant
                i <= trace@.len(),
                cells@ == inner@ + trace@.subrange(0, i as int),
            decreases trace@.len() - i,
        {
            cells.push(trace[i]);
            i = i + 1;
        }
        let ghost k = cells@;
        proof {
            assert forall|j: int| 0 <= j < k.len() implies f0.in_field(#[trigger] k[j].0 as int, k[j].1 as int) by {
                if j < inner@.len() {
                    assert(inner@[j] == k[j]);
                } else {
                    assert(trace@[j - inner@.len()] == k[j]);
                    assert(trace@.contains(k[j]));
                }
            }
            lemma_count_none((f0.width_spec() * f0.height_spec()) as nat);
            assert(inner@.subrange(0, inner@.len() as int) =~= inner@);
            assert(trace@.subrange(0, trace@.len() as int) =~= trace@);
            assert forall|a: int, b: int| 0 <= a < b < k.len() implies k[a] != k[b] by {
                if b < inner@.len() {
                    assert(inner@[a] != inner@[b]);
                } else if a >= inner@.len() {
                    assert(trace@[a - inner@.len()] != trace@[b - inner@.len()]);
                } else {
                    let c = inner@[a];
                    assert(!f0.owned_by(c.0 as int, c.1 as int, p));
                    assert(trace@.contains(k[b]));
                }
            }
            assert forall|c: Cell| k.contains(c) <==> inner@.contains(c) || (f0.in_field(c.0 as int, c.1 as int)
                && f0.traced_by(c.0 as int, c.1 as int, p)) by {
                if k.contains(c) {
                    let j = choose|j: int| 0 <= j < k.len() && k[j] == c;
                    if j < inner@.len() {
                        assert(inner@[j] == c);
                    } else {
                        assert(trace@[j - inner@.len()] == c);
                    }
                }
                if inner@.contains(c) {
                    let j = choose|j: int| 0 <= j < inner@.len() && inner@[j] == c;
                    assert(k[j] == c);
                }
                if trace@.contains(c) {
                    let j = choose|j: int| 0 <= j < trace@.len() && trace@[j] == c;
                    assert(k[inner@.len() + j] == c);
                }
            }
        }
        let mut enemy_cells: usize = 0;
        let mut free_cells: usize = 0;
        let mut caught: PlayerIndexedVector<bool> = PlayerIndexedVector::new(players_positions.len(), false);
        let player_count = players_positions.len();
        let ghost mut mk: Seq<bool> = Seq::new((f0.width_spec() * f0.height_spec()) as nat, |t: int| false);
        i = 0;
        while i < cells.len()
            invariant
                self.wf(),
                f0.wf(),
                self.same_shape(&f0),
                f0.valid_player(p),
                p == player_id,
                cells@ == k,
                k.no_duplicates(),
                forall|j: int| 0 <= j < k.len() ==> f0.in_field(#[trigger] k[j].0 as int, k[j].1 as int),
                mk.len() == f0.width_spec() * f0.height_spec(),
                count_true(mk) == i,
                forall|t: int|
                    0 <= t < mk.len() && #[trigger] mk[t] ==> exists|j: int|
                        0 <= j < i && k[j].0 + k[j].1 * f0.width_spec() == t,
                i <= k.len(),
                player_count == players_positions@.len(),
                player_count == f0.players_spec(),
                player_count <= MAX_PLAYERS,
                caught@.len() == player_count,
                enemy_cells <= i,
                free_cells <= i,
                enemy_cells == f0.enemy_count(p, k.take(i as int)),
                free_cells == f0.free_count(k.take(i as int)),
                f0.captured_into(p, k.take(i as int), self),
                forall|q: int|
                    1 <= q <= player_count ==> (caught.at(q) <==> f0.caught(
                        p,
                        k.take(i as int),
                        players_positions@,
                        q,
                    )),
            decreases k.len() - i,
        {
            let cell = cells[i];
            let st = self.get(cell);
            let ghost ki = k.take(i as int);
            proof {
                let t = cell.0 + cell.1 * f0.width_spec();
                lemma_index(f0.width_spec(), f0.height_spec(), cell.0 as int, cell.1 as int);
                if mk[t] {
                    let j = choose|j: int| 0 <= j < i && k[j].0 + k[j].1 * f0.width_spec() == t;
                    lemma_index(f0.width_spec(), f0.height_spec(), k[j].0 as int, k[j].1 as int);
                    assert(k[j] == k[i as int]);
                }
                lemma_count_set(mk, t);
                mk = mk.update(t, true);
                assert forall|t2: int|
                    0 <= t2 < mk.len() && #[trigger] mk[t2] implies exists|j: int|
                        0 <= j < i + 1 && k[j].0 + k[j].1 * f0.width_spec() == t2 by {
                    if t2 == t {
                        assert(k[i as int].0 + k[i as int].1 * f0.width_spec() == t2);
                    } else {
                        let j = choose|j: int| 0 <= j < i && k[j].0 + k[j].1 * f0.width_spec() == t2;
                    }
                }
            }
            let ghost k1 = k.take(i + 1);
            proof {
                assert(!ki.contains(cell)) by {
                    if ki.contains(cell) {
                        let j = choose|j: int| 0 <= j < ki.len() && ki[j] == cell;
                        assert(k[j] == k[i as int]);
                    }
                }
                assert(st == f0.state(cell.0 as int, cell.1 as int));
                assert(k1.drop_last() =~= ki);
                assert(k1.last() == cell);
            }
            match st.captured {
                Some(id) => {
                    if id != player_id {
                        enemy_cells = enemy_cells + 1;
                    }
                },
                None => {
                    free_cells = free_cells + 1;
                },
            }
            let ghost caught_before = caught;
            match st.traced {
                Some(other) => {
                    if other != player_id {
                        caught.set(other, true);
                    }
                },
                None => {},
            }
            proof {
                assert forall|q: int|
                    1 <= q <= player_count implies (caught.at(q) <==> f0.caught(p, ki, players_positions@, q)
                        || (q != p && st.traced == Some(q as usize))) by {
                    assert(caught_before.at(q) == f0.caught(p, ki, players_positions@, q));
                }
            }
            let mut e: usize = 1;
            while e <= player_count
                invariant
                    1 <= e <= player_count + 1,
                    p == player_id,
                    player_count <= MAX_PLAYERS,
                    player_count == players_positions@.len(),
                    caught@.len() == player_count,
                    forall|q: int|
                        1 <= q <= player_count ==> (caught.at(q) <==> f0.caught(p, ki, players_positions@, q)
                            || (q != p && st.traced == Some(q as usize)) || (q < e && q != p && players_positions.at(q)
                            == cell)),
                decreases player_count + 1 - e,
            {
                let ghost cb = caught;
                let here = *players_positions.get(e) == cell;
                if e != player_id && here {
                    caught.set(e, true);
                }
                proof {
                    assert forall|q: int|
                        1 <= q <= player_count implies (caught.at(q) <==> f0.caught(p, ki, players_positions@, q)
                            || (q != p && st.traced == Some(q as usize)) || (q < e + 1 && q != p && players_positions.at(q)
                            == cell)) by {
                        if q != e {
                            assert(caught.at(q) == cb.at(q));
                        }
                    }
                }
                e = e + 1;
            }
            self.set_captured(cell, player_id);
            proof {
                assert forall|q: int| 1 <= q <= player_count implies (caught.at(q) <==> f0.caught(
                    p,
                    k1,
                    players_positions@,
                    q,
                )) by {
                    if f0.caught(p, ki, players_positions@, q) {
                        if exists|j: int| 0 <= j < ki.len() && #[trigger] f0.state(ki[j].0 as int, ki[j].1 as int).traced == Some(q as usize) {
                            let j = choose|j: int| 0 <= j < ki.len() && #[trigger] f0.state(ki[j].0 as int, ki[j].1 as int).traced == Some(q as usize);
                            assert(k1[j] == ki[j]);
                        } else {
                            let j = choose|j: int| 0 <= j < ki.len() && #[trigger] ki[j] == players_positions@[q - 1];
                            assert(k1[j] == ki[j]);
                        }
                    }
                    if f0.caught(p, k1, players_positions@, q) {
                        if exists|j: int| 0 <= j < k1.len() && #[trigger] f0.state(k1[j].0 as int, k1[j].1 as int).traced == Some(q as usize) {
                            let j = choose|j: int| 0 <= j < k1.len() && #[trigger] f0.state(k1[j].0 as int, k1[j].1 as int).traced == Some(q as usize);
                            if j < i {
                                assert(k1[j] == ki[j]);
                            }
                        } else {
                            let j = choose|j: int| 0 <= j < k1.len() && #[trigger] k1[j] == players_positions@[q - 1];
                            if j < i {
                                assert(k1[j] == ki[j]);
                            }
                        }
                    }
                    if st.traced == Some(q as usize) && q != p {
                        assert(f0.state(k1[i as int].0 as int, k1[i as int].1 as int).traced == Some(q as usize));
                    }
                    if q != p && players_positions.at(q) == cell {
                        assert(k1[i as int] == players_positions@[q - 1]);
                    }
                }
                assert forall|x: int, y: int|
                    #![trigger self.state(x, y)]
                    f0.in_field(x, y) implies self.state(x, y) == if k1.contains(Cell(x as i32, y as i32)) {
                        captured_state(f0.state(x, y), p)
                    } else {
                        f0.state(x, y)
                    } by {
                    let c = Cell(x as i32, y as i32);
                    if k1.contains(c) && !ki.contains(c) {
                        let j = choose|j: int| 0 <= j < k1.len() && k1[j] == c;
                        if j < i {
                            assert(ki[j] == c);
                        }
                    }
                    if ki.contains(c) {
                        let j = choose|j: int| 0 <= j < ki.len() && ki[j] == c;
                        assert(k1[j] == c);
                    }
                    if x == cell.0 && y == cell.1 {
                        assert(k1[i as int] == c);
                    }
                }
            }
            i = i + 1;
        }
        proof {
            assert(k.take(k.len() as int) =~= k);
            assert(f0.has_trace(p)) by {
                let c = trace@[0];
                assert(trace@.contains(c));
                assert(f0.traced_by(c.0 as int, c.1 as int, p));
            }
            assert forall|x: int, y: int| self.in_field(x, y) implies !#[trigger] self.traced_by(x, y, p) by {
                let c = Cell(x as i32, y as i32);
                if f0.traced_by(x, y, p) {
                    assert(k.contains(c));
                }
            }
            assert forall|x: int, y: int|
                #![trigger f0.state(x, y)]
                f0.in_field(x, y) && f0.traced_by(x, y, p) implies self.captured_by(x, y, p) by {
                assert(k.contains(Cell(x as i32, y as i32)));
            }
            assert(f0.encloses(p, inner@));
            assert(f0.capture_cells(p, inner@, k));
            assert(f0.captured_into(p, k, self)) by {
                assert forall|x: int, y: int|
                    #![trigger self.state(x, y)]
                    f0.in_field(x, y) implies self.state(x, y) == if k.contains(Cell(x as i32, y as i32)) {
                        captured_state(f0.state(x, y), p)
                    } else {
                        f0.state(x, y)
                    } by {
                    assert(f0.captured_into(p, k.take(k.len() as int), self));
                }
            }
            assert(enemy_cells == f0.enemy_count(p, k));
            assert(free_cells == f0.free_count(k));
            lemma_count_bound(mk);
        }
        (enemy_cells as u32, free_cells as u32, caught)
    }

    /// The 3 x 3 block of cells centred on `pos`.
    pub open spec fn in_block(pos: Cell, x: int, y: int) -> bool {
        pos.0 - 1 <= x <= pos.0 + 1 && pos.1 - 1 <= y <= pos.1 + 1
    }

    /// Gives `player_id` the 3 x 3 block of cells centred on `pos`.
    pub fn init_player(&mut self, player_id: PlayerId, pos: Cell)
        requires
            old(self).wf(),
            old(self).valid_player(player_id as int),
            old(self).in_field(pos.0 - 1, pos.1 - 1),
            old(self).in_field(pos.0 + 1, pos.1 + 1),
        ensures
            final(self).wf(),
            final(self).same_shape(old(self)),
            forall|x: int, y: int|
                #![trigger final(self).state(x, y)]
                final(self).in_field(x, y) ==> final(self).state(x, y) == if Self::in_block(pos, x, y) {
                    captured_state(old(self).state(x, y), player_id as int)
                } else {
                    old(self).state(x, y)
                },
    {
        let ghost f0 = *self;
        let ghost p = player_id as int;
        let mut dy: i32 = 0;
        while dy < 3
            invariant
                0 <= dy <= 3,
                p == player_id,
                self.wf(),
                self.same_shape(&f0),
                f0.valid_player(p),
                f0.in_field(pos.0 - 1, pos.1 - 1),
                f0.in_field(pos.0 + 1, pos.1 + 1),
                forall|x: int, y: int|
                    #![trigger self.state(x, y)]
                    f0.in_field(x, y) ==> self.state(x, y) == if Self::in_block(pos, x, y) && y - (pos.1 - 1) < dy {
                        captured_state(f0.state(x, y), p)
                    } else {
                        f0.state(x, y)
                    },
            decreases 3 - dy,
        {
            let mut dx: i32 = 0;
            while dx < 3
                invariant
                    0 <= dx <= 3,
                    0 <= dy < 3,
                    p == player_id,
                    self.wf(),
                    self.same_shape(&f0),
                    f0.valid_player(p),
                    f0.in_field(pos.0 - 1, pos.1 - 1),
                    f0.in_field(pos.0 + 1, pos.1 + 1),
                    forall|x: int, y: int|
                        #![trigger self.state(x, y)]
                        f0.in_field(x, y) ==> self.state(x, y) == if Self::in_block(pos, x, y) && (y - (pos.1 - 1) < dy
                            || (y - (pos.1 - 1) == dy && x - (pos.0 - 1) < dx)) {
                            captured_state(f0.state(x, y), p)
                        } else {
                            f0.state(x, y)
                        },
                decreases 3 - dx,
            {
                let c = Cell(pos.0 - 1 + dx, pos.1 - 1 + dy);
                self.set_captured(c, player_id);
                dx = dx + 1;
            }
            dy = dy + 1;
        }
    }

    /// A cell has at most one capture owner and at most one trace owner.
    pub proof fn lemma_single_owner(&self, x: int, y: int, p: int, q: int)
        requires
            0 <= p <= usize::MAX,
            0 <= q <= usize::MAX,
        ensures
            self.captured_by(x, y, p) && self.captured_by(x, y, q) ==> p == q,
            self.traced_by(x, y, p) && self.traced_by(x, y, q) ==> p == q,
    {
    }
}

} // verus!
