//! The match engine: per-player state and the tick that advances it.
use vstd::prelude::*;
use crate::game_field::{GameField, CellState, MAX_PLAYERS, captured_state, released_state};
use crate::player_vec::{PlayerId, PlayerIndexedVector};
use crate::proto::{Cell, Command, Direction, GameParams, World, dir_dx, dir_dy};

verus! {

/// Width of the field of a match.
pub const X_CELLS_COUNT: u32 = 31;

/// Height of the field of a match.
pub const Y_CELLS_COUNT: u32 = 31;

/// Where player `id` (1 to 4) starts.
pub open spec fn spawn_point(id: int) -> Cell {
    if id == 1 {
        Cell(9, 9)
    } else if id == 2 {
        Cell(9, 21)
    } else if id == 3 {
        Cell(21, 21)
    } else {
        Cell(21, 9)
    }
}

fn init_pos(id: PlayerId) -> (r: Cell)
    ensures
        r == spawn_point(id as int),
{
    if id == 1 {
        Cell(9, 9)
    } else if id == 2 {
        Cell(9, 21)
    } else if id == 3 {
        Cell(21, 21)
    } else {
        Cell(21, 9)
    }
}

/// Score for capturing `enemy` cells of other players and `free` unowned
/// cells: five per enemy cell, one per free cell, at most `u32::MAX`.
pub open spec fn gain_spec(enemy: int, free: int) -> int {
    if 5 * enemy + free > u32::MAX {
        u32::MAX as int
    } else {
        5 * enemy + free
    }
}

pub fn capture_gain(enemy: u32, free: u32) -> (r: u32)
    ensures
        r == gain_spec(enemy as int, free as int),
{
    if enemy > (u32::MAX - free) / 5 {
        u32::MAX
    } else {
        enemy * 5 + free
    }
}

/// The label of player `id` in a snapshot for `viewer`: `"i"` for the
/// viewer itself, the player number otherwise.
pub open spec fn label_of(viewer: int, id: int) -> Seq<char> {
    if id == viewer {
        seq!['i']
    } else if id == 1 {
        seq!['1']
    } else if id == 2 {
        seq!['2']
    } else if id == 3 {
        seq!['3']
    } else {
        seq!['4']
    }
}

fn label(viewer: PlayerId, id: PlayerId) -> (r: String)
    requires
        1 <= id <= MAX_PLAYERS,
    ensures
        r@ == label_of(viewer as int, id as int),
{
    proof {
        reveal_strlit("i");
        reveal_strlit("1");
        reveal_strlit("2");
        reveal_strlit("3");
        reveal_strlit("4");
    }
    if id == viewer {
        "i".to_owned()
    } else if id == 1 {
        "1".to_owned()
    } else if id == 2 {
        "2".to_owned()
    } else if id == 3 {
        "3".to_owned()
    } else {
        "4".to_owned()
    }
}

/// `a + b`, or `u32::MAX` when that is larger.
pub open spec fn sat_add(a: int, b: int) -> int {
    if a + b > u32::MAX {
        u32::MAX as int
    } else {
        a + b
    }
}

/// The mutable state of one player.
#[derive(Clone, Copy, Debug, PartialEq, Eq, Structural)]
pub struct Player {
    pub score: u32,
    pub position: Cell,
    pub direction: Direction,
}

impl Player {
    /// A player at `position` with no score, heading left.
    pub fn new(position: Cell) -> (r: Player)
        ensures
            r == (Player { score: 0, position, direction: Direction::Left }),
    {
        Player { score: 0, position, direction: Direction::Left }
    }
}

/// The cell a player heads for.
pub open spec fn next_of(p: Player) -> (int, int) {
    (p.position.0 + dir_dx(p.direction), p.position.1 + dir_dy(p.direction))
}

/// A match in progress.
pub struct Game {
    tick: u32,
    players: PlayerIndexedVector<Player>,
    has_lost: PlayerIndexedVector<bool>,
    params: GameParams,
    field: GameField,
}

impl Game {
    pub closed spec fn tick_num(&self) -> int {
        self.tick as int
    }

    pub closed spec fn player_count(&self) -> int {
        self.players@.len() as int
    }

    pub closed spec fn player(&self, id: int) -> Player {
        self.players.at(id)
    }

    /// Whether player `id` is out of the match.
    pub closed spec fn lost(&self, id: int) -> bool {
        self.has_lost.at(id)
    }

    pub closed spec fn field(&self) -> GameField {
        self.field
    }

    pub open spec fn has_player(&self, id: int) -> bool {
        1 <= id <= self.player_count()
    }

    /// The cell player `id` heads for.
    pub open spec fn next(&self, id: int) -> (int, int) {
        next_of(self.player(id))
    }

    pub closed spec fn wf(&self) -> bool {
        &&& 1 <= self.players@.len() <= MAX_PLAYERS
        &&& self.has_lost@.len() == self.players@.len()
        &&& self.field.wf()
        &&& self.field.players_spec() == self.players@.len()
        &&& self.field.width_spec() == X_CELLS_COUNT
        &&& self.field.height_spec() == Y_CELLS_COUNT
        &&& self.params == GameParams { x_cells_count: X_CELLS_COUNT, y_cells_count: Y_CELLS_COUNT }
        &&& forall|id: int|
            #![trigger self.players.at(id)]
            1 <= id <= self.players@.len() ==> self.field.in_field(
                self.players.at(id).position.0 as int,
                self.players.at(id).position.1 as int,
            )
        &&& forall|id: int, x: int, y: int|
            #![trigger self.has_lost.at(id), self.field.state(x, y)]
            1 <= id <= self.players@.len() && self.has_lost.at(id) && self.field.in_field(x, y)
                ==> !self.field.owned_by(x, y, id)
    }

    /// A match of `players_amount` players on a 31 x 31 field, each with the
    /// 3 x 3 block around its spawn point, all heading left.
    pub fn new(players_amount: usize) -> (r: Game)
        requires
            1 <= players_amount <= MAX_PLAYERS,
        ensures
            r.wf(),
            r.tick_num() == 1,
            r.player_count() == players_amount,
            r.field().width_spec() == X_CELLS_COUNT,
            r.field().height_spec() == Y_CELLS_COUNT,
            r.field().players_spec() == players_amount,
            forall|id: int|
                1 <= id <= players_amount ==> #[trigger] r.player(id) == (Player {
                    score: 0,
                    position: spawn_point(id),
                    direction: Direction::Left,
                }) && !r.lost(id),
            forall|x: int, y: int|
                #![trigger r.field().state(x, y)]
                r.field().in_field(x, y) ==> r.field().state(x, y) == if exists|id: int|
                    1 <= id <= players_amount && GameField::in_block(spawn_point(id), x, y) {
                    CellState {
                        captured: Some(
                            (choose|id: int| 1 <= id <= players_amount && GameField::in_block(spawn_point(id), x, y)) as usize,
                        ),
                        traced: None,
                    }
                } else {
                    CellState { captured: None, traced: None }
                },
    {
        let params = GameParams { x_cells_count: X_CELLS_COUNT, y_cells_count: Y_CELLS_COUNT };
        let mut field = GameField::new(X_CELLS_COUNT as usize, Y_CELLS_COUNT as usize, players_amount);
        let mut players: Vec<Player> = Vec::new();
        let mut id: usize = 1;
        while id <= players_amount
            invariant
                1 <= id <= players_amount + 1,
                players_amount <= MAX_PLAYERS,
                players@.len() == id - 1,
                forall|j: int| 0 <= j < id - 1 ==> #[trigger] players@[j] == (Player { score: 0, position: spawn_point(j + 1), direction: Direction::Left }),
                field.wf(),
                field.players_spec() == players_amount,
                field.width_spec() == X_CELLS_COUNT,
                field.height_spec() == Y_CELLS_COUNT,
                forall|x: int, y: int|
                    #![trigger field.state(x, y)]
                    field.in_field(x, y) ==> field.state(x, y) == if exists|j: int|
                        1 <= j < id && GameField::in_block(spawn_point(j), x, y) {
                        CellState {
                            captured: Some((choose|j: int| 1 <= j < id && GameField::in_block(spawn_point(j), x, y)) as usize),
                            traced: None,
                        }
                    } else {
                        CellState { captured: None, traced: None }
                    },
            decreases players_amount + 1 - id,
        {
            let pos = init_pos(id);
            let ghost before = field;
            field.init_player(id, pos);
            proof {
                assert forall|x: int, y: int|
                    #![trigger field.state(x, y)]
                    field.in_field(x, y) implies field.state(x, y) == if exists|j: int|
                        1 <= j < id + 1 && GameField::in_block(spawn_point(j), x, y) {
                        CellState {
                            captured: Some((choose|j: int| 1 <= j < id + 1 && GameField::in_block(spawn_point(j), x, y)) as usize),
                            traced: None,
                        }
                    } else {
                        CellState { captured: None, traced: None }
                    } by {
                    assert(before.state(x, y) == field.state(x, y) || GameField::in_block(pos, x, y));
                    if GameField::in_block(pos, x, y) {
                        assert(forall|j: int| 1 <= j < id ==> !GameField::in_block(spawn_point(j), x, y));
                        assert(forall|j: int| 1 <= j < id + 1 && GameField::in_block(spawn_point(j), x, y) ==> j == id);
                    } else {
                        assert(forall|j: int| 1 <= j < id + 1 && GameField::in_block(spawn_point(j), x, y) ==> j < id);
                    }
                }
            }
            players.push(Player::new(pos));
            id = id + 1;
        }
        let has_lost = PlayerIndexedVector::new(players_amount, false);
        let r = Game { tick: 1, players: PlayerIndexedVector::from_vec(players), has_lost, params, field };
        r
    }

    /// Whether player `i` is out of the match.
    pub fn has_lost(&self, i: PlayerId) -> (r: bool)
        requires
            self.wf(),
            self.has_player(i as int),
        ensures
            r == self.lost(i as int),
    {
        *self.has_lost.get(i)
    }

    pub fn get_game_params(&self) -> (r: GameParams)
        requires
            self.wf(),
        ensures
            r == (GameParams { x_cells_count: X_CELLS_COUNT, y_cells_count: Y_CELLS_COUNT }),
    {
        self.params
    }

    /// Sets the heading of `player_id`, unless `new_direction` is the reverse
    /// of its current one; says whether it did.
    pub fn try_change_direction(&mut self, player_id: PlayerId, new_direction: Direction) -> (r: bool)
        requires
            old(self).wf(),
            old(self).has_player(player_id as int),
        ensures
            final(self).wf(),
            r == (new_direction != old(self).player(player_id as int).direction.opposite_spec()),
            final(self).tick_num() == old(self).tick_num(),
            final(self).player_count() == old(self).player_count(),
            final(self).field() == old(self).field(),
            forall|id: int| #[trigger] final(self).lost(id) == old(self).lost(id),
            forall|id: int|
                old(self).has_player(id) ==> #[trigger] final(self).player(id) == if id == player_id && r {
                    Player { direction: new_direction, ..old(self).player(id) }
                } else {
                    old(self).player(id)
                },
    {
        let ghost g0 = *self;
        let mut player = *self.players.get(player_id);
        if new_direction == player.direction.opposite() {
            return false;
        }
        player.direction = new_direction;
        self.players.set(player_id, player);
        proof {
            assert forall|id: int| 1 <= id <= self.players@.len() implies #[trigger] self.players.at(id).position
                == g0.players.at(id).position by {
            }
        }
        true
    }

    /// The player with the strictly highest score, if exactly one has it.
    pub fn leader_id(&self) -> (r: Option<PlayerId>)
        requires
            self.wf(),
        ensures
            r matches Some(id) ==> self.has_player(id as int) && forall|q: int|
                self.has_player(q) && q != id ==> #[trigger] self.player(q).score < self.player(id as int).score,
            r is None ==> forall|id: int|
                self.has_player(id) ==> exists|q: int|
                    self.has_player(q) && q != id && #[trigger] self.player(q).score >= self.player(id).score,
    {
        let n = self.players.len();
        let mut best: usize = 1;
        let mut id: usize = 2;
        while id <= n
            invariant
                1 <= best < id <= n + 1,
                n == self.player_count(),
                n <= MAX_PLAYERS,
                forall|q: int| 1 <= q < id ==> #[trigger] self.player(q).score <= self.player(best as int).score,
            decreases n + 1 - id,
        {
            if self.players.get(id).score >= self.players.get(best).score {
                best = id;
            }
            id = id + 1;
        }
        let top = self.players.get(best).score;
        let mut id: usize = 1;
        let mut ties: usize = 0;
        while id <= n
            invariant
                1 <= id <= n + 1,
                1 <= best <= n,
                n == self.player_count(),
                n <= MAX_PLAYERS,
                top == self.player(best as int).score,
                ties <= id,
                ties == 0 ==> forall|q: int| 1 <= q < id && q != best ==> #[trigger] self.player(q).score != top,
                ties > 0 ==> exists|q: int| 1 <= q < id && q != best && #[trigger] self.player(q).score == top,
            decreases n + 1 - id,
        {
            if id != best && self.players.get(id).score == top {
                assert(self.player(id as int).score == top);
                ties = ties + 1;
            }
            id = id + 1;
        }
        if ties > 0 {
            None
        } else {
            Some(best)
        }
    }

    /// Whether player `id`, still in the match, loses before anyone moves:
    /// it heads off the field, or for the same cell as another player
    /// without having captured that cell.
    pub open spec fn first_loses(&self, id: int) -> bool {
        !self.lost(id) && (!self.field().in_field(self.next(id).0, self.next(id).1) || (self.head_on(id)
            && !self.field().captured_by(self.next(id).0, self.next(id).1, id)))
    }

    /// Every player's position, in order of number.
    pub open spec fn positions_seq(&self) -> Seq<Cell> {
        Seq::new(self.player_count() as nat, |i: int| self.player(i + 1).position)
    }

    /// Every player's score, in order of number.
    pub open spec fn scores_seq(&self) -> Seq<u32> {
        Seq::new(self.player_count() as nat, |i: int| self.player(i + 1).score)
    }

    /// The start of a tick's closing phase: the field, who is to lose so far
    /// (player `id` at `id - 1`), and the scores.
    pub open spec fn first_stage(&self) -> (GameField, Seq<bool>, Seq<u32>) {
        (self.field(), Seq::new(self.player_count() as nat, |i: int| self.first_loses(i + 1)), self.scores_seq())
    }

    /// Player `id`'s turn in the closing phase takes `before` to `after`. A
    /// player still in the match and not yet losing loses when it heads onto
    /// its own trace; when it heads into its own territory it closes its
    /// trace, scores for the captured cells, and the players caught there
    /// lose; otherwise nothing happens.
    pub open spec fn turn(
        &self,
        id: int,
        before: (GameField, Seq<bool>, Seq<u32>),
        after: (GameField, Seq<bool>, Seq<u32>),
    ) -> bool {
        let f = before.0;
        let l = before.1;
        let sc = before.2;
        let x = self.next(id).0;
        let y = self.next(id).1;
        if l[id - 1] || self.lost(id) {
            after == before
        } else if f.traced_by(x, y, id) {
            after == (f, l.update(id - 1, true), sc)
        } else if f.captured_by(x, y, id) {
            exists|enemy: int, free: int, caught: Seq<bool>|
                {
                    &&& #[trigger] f.capture_step(id, self.positions_seq(), after.0, enemy, free, caught)
                    &&& after.2 == sc.update(id - 1, sat_add(sc[id - 1] as int, gain_spec(enemy, free)) as u32)
                    &&& after.1 == Seq::new(l.len(), |j: int| l[j] || (caught[j] && !self.lost(j + 1)))
                }
        } else {
            after == before
        }
    }

    /// `st` lists the stages of a tick's closing phase, one turn per player
    /// in order of number.
    pub open spec fn closing(&self, st: Seq<(GameField, Seq<bool>, Seq<u32>)>) -> bool {
        &&& st.len() == self.player_count() + 1
        &&& st[0] == self.first_stage()
        &&& forall|i: int| 0 <= i < self.player_count() ==> self.turn(i + 1, #[trigger] st[i], st[i + 1])
    }

    /// After the closing stage `s4`, a player still moving heads onto a cell
    /// that `q` traces.
    pub open spec fn trace_cut(&self, s4: (GameField, Seq<bool>, Seq<u32>), q: int) -> bool {
        exists|p: int|
            1 <= p <= self.player_count() && p != q && !s4.1[p - 1] && !self.lost(p) && #[trigger] s4.0.traced_by(
                self.next(p).0,
                self.next(p).1,
                q,
            )
    }

    /// Player `q` loses in this tick.
    pub open spec fn loses(&self, s4: (GameField, Seq<bool>, Seq<u32>), q: int) -> bool {
        s4.1[q - 1] || self.trace_cut(s4, q)
    }

    /// Player `p` moves in this tick.
    pub open spec fn moves(&self, s4: (GameField, Seq<bool>, Seq<u32>), p: int) -> bool {
        !self.lost(p) && !self.loses(s4, p)
    }

    /// Player `p` moves onto `(x, y)`, which is not its territory, and so
    /// traces it.
    pub open spec fn enters(&self, s4: (GameField, Seq<bool>, Seq<u32>), p: int, x: int, y: int) -> bool {
        1 <= p <= self.player_count() && self.moves(s4, p) && self.next(p) == (x, y) && !s4.0.captured_by(x, y, p)
    }

    /// The state of `(x, y)` once the moving players have moved.
    pub open spec fn moved_state(&self, s4: (GameField, Seq<bool>, Seq<u32>), x: int, y: int) -> CellState {
        if exists|p: int| self.enters(s4, p, x, y) {
            CellState {
                captured: s4.0.state(x, y).captured,
                traced: Some((choose|p: int| self.enters(s4, p, x, y)) as usize),
            }
        } else {
            s4.0.state(x, y)
        }
    }

    /// `s` with the marks of the players numbered below `k` that lose in this
    /// tick taken off.
    pub open spec fn cleared(&self, s4: (GameField, Seq<bool>, Seq<u32>), k: int, s: CellState) -> CellState {
        CellState {
            captured: if s.captured matches Some(q) && q < k && self.loses(s4, q as int) {
                None
            } else {
                s.captured
            },
            traced: if s.traced matches Some(q) && q < k && self.loses(s4, q as int) {
                None
            } else {
                s.traced
            },
        }
    }

    /// The state of `(x, y)` at the end of the tick.
    pub open spec fn end_state(&self, s4: (GameField, Seq<bool>, Seq<u32>), x: int, y: int) -> CellState {
        self.cleared(s4, self.player_count() + 1, self.moved_state(s4, x, y))
    }

    /// Another player still in the match heads for the same cell as `id`.
    pub open spec fn head_on(&self, id: int) -> bool {
        exists|q: int| self.has_player(q) && q != id && !#[trigger] self.lost(q) && self.next(q) == self.next(id)
    }

    /// The cell each player heads for.
    fn next_positions(&self) -> (r: PlayerIndexedVector<Cell>)
        requires
            self.wf(),
        ensures
            r@.len() == self.player_count(),
            forall|id: int|
                self.has_player(id) ==> (#[trigger] r.at(id).0 as int, r.at(id).1 as int) == self.next(id),
    {
        let n = self.players.len();
        let mut out: Vec<Cell> = Vec::new();
        let mut i: usize = 0;
        while i < n
            invariant
                self.wf(),
                n == self.player_count(),
                i <= n,
                out@.len() == i,
                forall|j: int| 0 <= j < i ==> (#[trigger] out@[j].0 as int, out@[j].1 as int) == self.next(j + 1),
            decreases n - i,
        {
            let pl = *self.players.get(i + 1);
            out.push(pl.position.adjacent_unchecked(pl.direction));
            i = i + 1;
        }
        PlayerIndexedVector::from_vec(out)
    }

    /// Where each player stands.
    fn positions(&self) -> (r: PlayerIndexedVector<Cell>)
        requires
            self.wf(),
        ensures
            r@.len() == self.player_count(),
            forall|id: int| self.has_player(id) ==> #[trigger] r.at(id) == self.player(id).position,
    {
        let n = self.players.len();
        let mut out: Vec<Cell> = Vec::new();
        let mut i: usize = 0;
        while i < n
            invariant
                self.wf(),
                n == self.player_count(),
                i <= n,
                out@.len() == i,
                forall|j: int| 0 <= j < i ==> #[trigger] out@[j] == self.player(j + 1).position,
            decreases n - i,
        {
            out.push(self.players.get(i + 1).position);
            i = i + 1;
        }
        PlayerIndexedVector::from_vec(out)
    }

    /// The players that lose before anyone moves: those heading off the
    /// field, and those heading for the same cell as another player unless
    /// they have captured that cell.
    fn first_losers(&self, next: &PlayerIndexedVector<Cell>) -> (r: PlayerIndexedVector<bool>)
        requires
            self.wf(),
            next@.len() == self.player_count(),
            forall|id: int|
                self.has_player(id) ==> (#[trigger] next.at(id).0 as int, next.at(id).1 as int) == self.next(id),
        ensures
            r@.len() == self.player_count(),
            forall|id: int|
                self.has_player(id) ==> (#[trigger] r.at(id) <==> !self.lost(id) && (!self.field().in_field(
                    self.next(id).0,
                    self.next(id).1,
                ) || (self.head_on(id) && !self.field().captured_by(self.next(id).0, self.next(id).1, id)))),
    {
        let n = self.players.len();
        let mut out: Vec<bool> = Vec::new();
        let mut i: usize = 1;
        while i <= n
            invariant
                self.wf(),
                n == self.player_count(),
                n <= MAX_PLAYERS,
                next@.len() == n,
                forall|id: int|
                    self.has_player(id) ==> (#[trigger] next.at(id).0 as int, next.at(id).1 as int) == self.next(id),
                1 <= i <= n + 1,
                out@.len() == i - 1,
                forall|j: int|
                    1 <= j < i ==> (#[trigger] out@[j - 1] <==> !self.lost(j) && (!self.field().in_field(
                        self.next(j).0,
                        self.next(j).1,
                    ) || (self.head_on(j) && !self.field().captured_by(self.next(j).0, self.next(j).1, j)))),
            decreases n + 1 - i,
        {
            let c = *next.get(i);
            let loses = if *self.has_lost.get(i) {
                false
            } else if !self.field.contains(c) {
                true
            } else {
                let mut contested = false;
                let mut q: usize = 1;
                while q <= n
                    invariant
                        self.wf(),
                        n == self.player_count(),
                        n <= MAX_PLAYERS,
                        next@.len() == n,
                        forall|id: int|
                            self.has_player(id) ==> (#[trigger] next.at(id).0 as int, next.at(id).1 as int) == self.next(id),
                        1 <= i <= n,
                        c == next.at(i as int),
                        1 <= q <= n + 1,
                        contested <==> exists|o: int|
                            1 <= o < q && o != i && !#[trigger] self.lost(o) && self.next(o) == self.next(i as int),
                    decreases n + 1 - q,
                {
                    proof {
                        assert((next.at(q as int).0 as int, next.at(q as int).1 as int) == self.next(q as int));
                        assert((next.at(i as int).0 as int, next.at(i as int).1 as int) == self.next(i as int));
                    }
                    if q != i && !*self.has_lost.get(q) && *next.get(q) == c {
                        assert(!self.lost(q as int) && self.next(q as int) == self.next(i as int));
                        contested = true;
                    }
                    proof {
                        if q != i && !self.lost(q as int) && self.next(q as int) == self.next(i as int) {
                            assert(next.at(q as int) == c);
                            assert(contested);
                        }
                    }
                    q = q + 1;
                }
                contested && !self.field.get(c).is_captured_by(i)
            };
            out.push(loses);
            i = i + 1;
        }
        PlayerIndexedVector::from_vec(out)
    }

    /// What every phase of a tick keeps of the match it started from.
    spec fn keeps(&self, g0: Game) -> bool {
        &&& self.wf()
        &&& self.tick == g0.tick
        &&& self.players@.len() == g0.players@.len()
        &&& forall|j: int|
            1 <= j <= g0.players@.len() ==> #[trigger] self.players.at(j).direction == g0.players.at(j).direction
                && self.players.at(j).score >= g0.players.at(j).score
                && (g0.has_lost.at(j) ==> self.players.at(j) == g0.players.at(j))
    }

    /// Advances the match by one step: every player still in it moves one
    /// cell along its heading; collisions, captures and cut traces are
    /// settled; players that lose give up their cells.
    ///
    /// The rules, in order, each over the players still in the match:
    /// heading off the field loses; when several head for one cell, the one
    /// that has captured it goes on and the others lose (all of them, if none
    /// has); heading onto one's own trace loses; heading into one's own
    /// territory closes the trace, capturing it and the area it encloses
    /// (five points per enemy cell, one per free cell) and eliminating the
    /// players whose trace or position lies there; each player still moving
    /// then eliminates whoever traces the cell it enters, with no exception
    /// for two traces crossing each other.
    pub fn tick(&mut self)
        requires
            old(self).wf(),
            old(self).tick_num() < u32::MAX,
        ensures
            final(self).field().width_spec() == X_CELLS_COUNT,
            final(self).field().height_spec() == Y_CELLS_COUNT,
            final(self).field().players_spec() == final(self).player_count(),
            final(self).wf(),
            final(self).tick_num() == old(self).tick_num() + 1,
            final(self).player_count() == old(self).player_count(),
            final(self).field().same_shape(&old(self).field()),
            forall|id: int|
                old(self).has_player(id) ==> #[trigger] final(self).player(id).score >= old(self).player(id).score
                    && final(self).player(id).direction == old(self).player(id).direction,
            forall|id: int|
                old(self).has_player(id) && old(self).lost(id) ==> #[trigger] final(self).lost(id) && final(self).player(id)
                    == old(self).player(id),
            forall|id: int, x: int, y: int|
                #![trigger final(self).lost(id), final(self).field().state(x, y)]
                final(self).has_player(id) && final(self).lost(id) && final(self).field().in_field(x, y)
                    ==> !final(self).field().owned_by(x, y, id),
            forall|id: int|
                old(self).has_player(id) && !old(self).lost(id) && !old(self).field().in_field(
                    old(self).next(id).0,
                    old(self).next(id).1,
                ) ==> #[trigger] final(self).lost(id),
            forall|id: int|
                old(self).has_player(id) && !old(self).lost(id) && old(self).head_on(id) && !old(self).field().captured_by(
                    old(self).next(id).0,
                    old(self).next(id).1,
                    id,
                ) ==> #[trigger] final(self).lost(id),
            forall|id: int|
                old(self).has_player(id) && !old(self).lost(id) && old(self).field().in_field(
                    old(self).next(id).0,
                    old(self).next(id).1,
                ) && old(self).field().traced_by(old(self).next(id).0, old(self).next(id).1, id)
                    ==> #[trigger] final(self).lost(id),
            forall|id: int, q: int|
                #![trigger final(self).lost(id), final(self).lost(q)]
                old(self).has_player(id) && old(self).has_player(q) && id != q && !old(self).lost(id)
                    && !final(self).lost(id) && old(self).field().traced_by(old(self).next(id).0, old(self).next(id).1, q)
                    && !old(self).field().captured_by(old(self).next(q).0, old(self).next(q).1, q)
                    ==> final(self).lost(q),
            exists|st: Seq<(GameField, Seq<bool>, Seq<u32>)>|
                #[trigger] old(self).closing(st) && {
                    let s4 = st[old(self).player_count()];
                    &&& forall|id: int|
                        old(self).has_player(id) ==> #[trigger] final(self).lost(id) == (old(self).lost(id) || old(
                            self,
                        ).loses(s4, id))
                    &&& forall|id: int|
                        old(self).has_player(id) ==> #[trigger] final(self).player(id) == (Player {
                            score: s4.2[id - 1],
                            position: if old(self).moves(s4, id) {
                                Cell(old(self).next(id).0 as i32, old(self).next(id).1 as i32)
                            } else {
                                old(self).player(id).position
                            },
                            direction: old(self).player(id).direction,
                        })
                    &&& forall|x: int, y: int|
                        old(self).field().in_field(x, y) ==> #[trigger] final(self).field().state(x, y) == old(
                            self,
                        ).end_state(s4, x, y)
                },
            forall|id: int|
                old(self).has_player(id) && !final(self).lost(id) ==> (#[trigger] final(self).player(id).position.0 as int,
                final(self).player(id).position.1 as int) == old(self).next(id),
    {
        let ghost g0 = *self;
        let n = self.players.len();
        let next = self.next_positions();
        let positions = self.positions();
        let mut losing = self.first_losers(&next);
        let ghost l3 = losing;
        let ghost mut st: Seq<(GameField, Seq<bool>, Seq<u32>)> = seq![(self.field, losing@, g0.scores_seq())];
        proof {
            assert(losing@ =~= Seq::new(n as nat, |i: int| g0.first_loses(i + 1))) by {
                assert forall|i: int| 0 <= i < n implies losing@[i] == g0.first_loses(i + 1) by {
                    assert(losing.at(i + 1) == losing@[i]);
                }
            }
            assert(positions@ =~= g0.positions_seq()) by {
                assert forall|i: int| 0 <= i < n implies positions@[i] == g0.positions_seq()[i] by {
                    assert(positions.at(i + 1) == positions@[i]);
                }
            }
        }

        // Self-crossings and captures, player by player.
        let mut id: usize = 1;
        while id <= n
            invariant
                self.keeps(g0),
                self.has_lost == g0.has_lost,
                n == g0.players@.len(),
                n <= MAX_PLAYERS,
                1 <= id <= n + 1,
                forall|j: int| 1 <= j <= n ==> #[trigger] self.players.at(j).position == g0.players.at(j).position,
                next@.len() == n,
                positions@.len() == n,
                forall|j: int| 1 <= j <= n ==> (#[trigger] next.at(j).0 as int, next.at(j).1 as int) == g0.next(j),
                losing@.len() == n,
                l3@.len() == n,
                forall|j: int|
                    1 <= j <= n ==> (#[trigger] l3.at(j) <==> !g0.lost(j) && (!g0.field().in_field(
                        g0.next(j).0,
                        g0.next(j).1,
                    ) || (g0.head_on(j) && !g0.field().captured_by(g0.next(j).0, g0.next(j).1, j)))),
                forall|j: int| 1 <= j <= n && #[trigger] l3.at(j) ==> losing.at(j),
                self.field.same_shape(&g0.field),
                forall|j: int, x: int, y: int|
                    #![trigger g0.field.traced_by(x, y, j)]
                    1 <= j <= n && g0.field.in_field(x, y) && g0.field.traced_by(x, y, j) && !(j < id
                        && g0.field.captured_by(g0.next(j).0, g0.next(j).1, j)) ==> self.field.traced_by(x, y, j),
                forall|j: int, x: int, y: int|
                    #![trigger self.field.captured_by(x, y, j)]
                    1 <= j <= n && g0.field.in_field(x, y) && self.field.captured_by(x, y, j) && !g0.field.captured_by(
                        x,
                        y,
                        j,
                    ) ==> j < id,
                forall|j: int|
                    1 <= j < id && !g0.lost(j) && g0.field.in_field(g0.next(j).0, g0.next(j).1) && g0.field.traced_by(
                        g0.next(j).0,
                        g0.next(j).1,
                        j,
                    ) ==> #[trigger] losing.at(j),
                positions@ == g0.positions_seq(),
                st.len() == id,
                st[0] == g0.first_stage(),
                forall|i: int| 0 <= i < id - 1 ==> g0.turn(i + 1, #[trigger] st[i], st[i + 1]),
                st[id - 1] == (self.field, losing@, self.scores_seq()),
            decreases n + 1 - id,
        {
            let ghost lb = losing;
            let ghost fb0 = self.field;
            let ghost before = (self.field, losing@, self.scores_seq());
            let ghost mut cap: (int, int, Seq<bool>) = (0, 0, Seq::empty());
            if !*losing.get(id) && !*self.has_lost.get(id) {
                let c = *next.get(id);
                proof {
                    assert(!l3.at(id as int));
                    assert((c.0 as int, c.1 as int) == g0.next(id as int));
                }
                let st = self.field.get(c);
                if st.is_traced_by(id) {
                    losing.set(id, true);
                } else if st.is_captured_by(id) {
                    let ghost fb = self.field;
                    let ghost sb = *self;
                    let (enemy, free, caught) = self.field.capture_all(id, &positions);
                    let ghost pb = self.players;
                    let mut pl = *self.players.get(id);
                    let gain = capture_gain(enemy, free);
                    pl.score = pl.score.saturating_add(gain);
                    self.players.set(id, pl);
                    let mut q: usize = 1;
                    while q <= n
                        invariant
                            1 <= q <= n + 1,
                            n <= MAX_PLAYERS,
                            self.has_lost == g0.has_lost,
                            forall|j: int|
                                0 <= j < n ==> #[trigger] losing@[j] == (lb@[j] || (j + 1 < q && caught@[j] && !g0.lost(j + 1))),
                            losing@.len() == n,
                            forall|j: int| 1 <= j <= n && #[trigger] l3.at(j) ==> losing.at(j),
                            forall|j: int| 1 <= j <= n && #[trigger] lb.at(j) ==> losing.at(j),
                            caught@.len() == n,
                            self.has_lost@.len() == n,
                        decreases n + 1 - q,
                    {
                        if *caught.get(q) && !*self.has_lost.get(q) {
                            losing.set(q, true);
                        }
                        q = q + 1;
                    }
                    proof {
                        cap = (enemy as int, free as int, caught@);
                        assert(losing@ =~= Seq::new(lb@.len(), |j: int| lb@[j] || (caught@[j] && !g0.lost(j + 1))));
                        assert(self.scores_seq() =~= before.2.update(
                            id - 1,
                            sat_add(before.2[id - 1] as int, gain_spec(enemy as int, free as int)) as u32,
                        )) by {
                            assert forall|i: int| 0 <= i < n implies #[trigger] self.scores_seq()[i] == before.2.update(
                                id - 1,
                                sat_add(before.2[id - 1] as int, gain_spec(enemy as int, free as int)) as u32,
                            )[i] by {
                                assert(self.players.at(i + 1) == if i + 1 == id {
                                    pl
                                } else {
                                    pb.at(i + 1)
                                });
                            }
                        }
                        assert(fb.capture_step(id as int, g0.positions_seq(), self.field, cap.0, cap.1, cap.2));
                        assert forall|j: int, x: int, y: int|
                            #![trigger self.has_lost.at(j), self.field.state(x, y)]
                            1 <= j <= n && self.has_lost.at(j) && self.field.in_field(x, y) implies !self.field.owned_by(x, y, j) by {
                            assert(sb.has_lost.at(j));
                            assert(!fb.owned_by(x, y, j));
                        }
                        assert forall|j: int| 1 <= j <= n implies #[trigger] self.players.at(j) == if j == id {
                            pl
                        } else {
                            pb.at(j)
                        } by {
                        }
                        assert forall|j: int| 1 <= j <= n implies #[trigger] self.players.at(j).position == g0.players.at(j).position by {
                            assert(pb.at(j).position == g0.players.at(j).position);
                        }
                        assert forall|j: int| 1 <= j <= n implies self.field.in_field(
                            #[trigger] self.players.at(j).position.0 as int,
                            self.players.at(j).position.1 as int,
                        ) by {
                            assert(self.players.at(j).position == g0.players.at(j).position);
                            assert(g0.field.in_field(g0.players.at(j).position.0 as int, g0.players.at(j).position.1 as int));
                        }
                        assert forall|j: int|
                            1 <= j <= g0.players@.len() implies #[trigger] self.players.at(j).direction == g0.players.at(j).direction
                                && self.players.at(j).score >= g0.players.at(j).score
                                && (g0.has_lost.at(j) ==> self.players.at(j) == g0.players.at(j)) by {
                            assert(pb.at(j).score >= g0.players.at(j).score);
                        }
                    }
                }
            }
            proof {
                assert forall|j: int, x: int, y: int|
                    #![trigger self.field.captured_by(x, y, j)]
                    1 <= j <= n && g0.field.in_field(x, y) && self.field.captured_by(x, y, j) && !g0.field.captured_by(
                        x,
                        y,
                        j,
                    ) implies j < id + 1 by {
                    assert(self.field.state(x, y) == fb0.state(x, y) || self.field.state(x, y) == captured_state(fb0.state(x, y), id as int));
                    if self.field.state(x, y) == fb0.state(x, y) {
                        assert(fb0.captured_by(x, y, j));
                    }
                }
                assert forall|j: int, x: int, y: int|
                    #![trigger g0.field.traced_by(x, y, j)]
                    1 <= j <= n && g0.field.in_field(x, y) && g0.field.traced_by(x, y, j) && !(j < id + 1
                        && g0.field.captured_by(g0.next(j).0, g0.next(j).1, j)) implies self.field.traced_by(x, y, j) by {
                    assert(fb0.traced_by(x, y, j) || (j < id && g0.field.captured_by(g0.next(j).0, g0.next(j).1, j)));
                    assert(self.field.state(x, y) == fb0.state(x, y) || self.field.state(x, y) == captured_state(fb0.state(x, y), id as int));
                    if j == id && self.field.state(x, y) != fb0.state(x, y) {
                        assert(fb0.captured_by(g0.next(j).0, g0.next(j).1, j));
                        assert(fb0.captured_by(g0.next(j).0, g0.next(j).1, j) && !g0.field.captured_by(g0.next(j).0, g0.next(j).1, j) ==> j < id);
                    }
                }
                assert forall|j: int|
                    1 <= j < id + 1 && !g0.lost(j) && g0.field.in_field(g0.next(j).0, g0.next(j).1) && g0.field.traced_by(
                        g0.next(j).0,
                        g0.next(j).1,
                        j,
                    ) implies #[trigger] losing.at(j) by {
                    if j < id {
                        assert(lb.at(j));
                    } else if !lb.at(j) && !g0.lost(j) {
                        assert(!self.has_lost.at(j));
                        assert(g0.field.traced_by(g0.next(j).0, g0.next(j).1, j));
                        assert(fb0.traced_by(g0.next(j).0, g0.next(j).1, j));
                    }
                }
            }
            proof {
                let after = (self.field, losing@, self.scores_seq());
                let (x, y) = g0.next(id as int);
                if lb@[id - 1] || g0.lost(id as int) {
                    assert(after == before);
                } else if fb0.traced_by(x, y, id as int) {
                    assert(losing@ =~= lb@.update(id - 1, true));
                    assert(self.scores_seq() =~= before.2);
                } else if fb0.captured_by(x, y, id as int) {
                    assert(fb0.capture_step(id as int, g0.positions_seq(), after.0, cap.0, cap.1, cap.2));
                } else {
                    assert(self.scores_seq() =~= before.2);
                    assert(after == before);
                }
                assert(g0.turn(id as int, before, after));
                st = st.push(after);
            }
            id = id + 1;
        }
        let ghost l4 = losing;
        let ghost f4 = self.field;
        let ghost s4 = st[n as int];
        let ghost sc4 = self.scores_seq();
        proof {
            assert(g0.closing(st));
            assert(s4 == (f4, l4@, sc4));
        }

        // Players still moving cut the traces they run into.
        let mut cut: PlayerIndexedVector<bool> = PlayerIndexedVector::new(n, false);
        id = 1;
        while id <= n
            invariant
                self.keeps(g0),
                self.has_lost == g0.has_lost,
                n == g0.players@.len(),
                n <= MAX_PLAYERS,
                1 <= id <= n + 1,
                next@.len() == n,
                forall|j: int| 1 <= j <= n ==> (#[trigger] next.at(j).0 as int, next.at(j).1 as int) == g0.next(j),
                losing == l4,
                losing@.len() == n,
                forall|j: int| 1 <= j <= n && #[trigger] l3.at(j) ==> losing.at(j),
                forall|j: int|
                    1 <= j <= n ==> (#[trigger] l3.at(j) <==> !g0.lost(j) && (!g0.field().in_field(
                        g0.next(j).0,
                        g0.next(j).1,
                    ) || (g0.head_on(j) && !g0.field().captured_by(g0.next(j).0, g0.next(j).1, j)))),
                cut@.len() == n,
                self.field.same_shape(&g0.field),
                self.field == f4,
                forall|q: int|
                    1 <= q <= n ==> (#[trigger] cut.at(q) <==> exists|p: int|
                        1 <= p < id && p != q && !l4.at(p) && !g0.lost(p) && #[trigger] f4.traced_by(
                            g0.next(p).0,
                            g0.next(p).1,
                            q,
                        )),
                forall|j: int, q: int|
                    #![trigger l4.at(j), cut.at(q)]
                    1 <= j < id && !l4.at(j) && !g0.lost(j) && 1 <= q <= n && q != j && f4.traced_by(
                        g0.next(j).0,
                        g0.next(j).1,
                        q,
                    ) ==> cut.at(q),
            decreases n + 1 - id,
        {
            let ghost cb = cut;
            if !*losing.get(id) && !*self.has_lost.get(id) {
                let c = *next.get(id);
                proof {
                    assert(!l3.at(id as int));
                    assert((c.0 as int, c.1 as int) == g0.next(id as int));
                }
                let st = self.field.get(c);
                match st.is_traced() {
                    Some(other) => {
                        if other != id {
                            cut.set(other, true);
                        }
                    },
                    None => {},
                }
            }
            proof {
                assert forall|j: int, q: int|
                    #![trigger l4.at(j), cut.at(q)]
                    1 <= j < id + 1 && !l4.at(j) && !g0.lost(j) && 1 <= q <= n && q != j && f4.traced_by(
                        g0.next(j).0,
                        g0.next(j).1,
                        q,
                    ) implies cut.at(q) by {
                    if j < id {
                        assert(cb.at(q));
                    } else {
                        assert(!l3.at(j));
                        assert((next.at(j).0 as int, next.at(j).1 as int) == g0.next(j));
                    }
                }
                assert forall|q: int|
                    1 <= q <= n implies (#[trigger] cut.at(q) <==> exists|p: int|
                        1 <= p < id + 1 && p != q && !l4.at(p) && !g0.lost(p) && #[trigger] f4.traced_by(
                            g0.next(p).0,
                            g0.next(p).1,
                            q,
                        )) by {
                    if cut.at(q) && !cb.at(q) {
                        assert(!l4.at(id as int) && !g0.lost(id as int));
                        assert(!l3.at(id as int));
                        assert((next.at(id as int).0 as int, next.at(id as int).1 as int) == g0.next(id as int));
                        assert(f4.traced_by(g0.next(id as int).0, g0.next(id as int).1, q));
                    }
                    if exists|p: int|
                        1 <= p < id + 1 && p != q && !l4.at(p) && !g0.lost(p) && #[trigger] f4.traced_by(
                            g0.next(p).0,
                            g0.next(p).1,
                            q,
                        ) {
                        let p = choose|p: int|
                            1 <= p < id + 1 && p != q && !l4.at(p) && !g0.lost(p) && #[trigger] f4.traced_by(
                                g0.next(p).0,
                                g0.next(p).1,
                                q,
                            );
                        if p < id {
                            assert(cb.at(q));
                        } else {
                            assert(!l3.at(id as int));
                            assert((next.at(id as int).0 as int, next.at(id as int).1 as int) == g0.next(id as int));
                        }
                    }
                }
            }
            id = id + 1;
        }
        id = 1;
        while id <= n
            invariant
                1 <= id <= n + 1,
                n <= MAX_PLAYERS,
                losing@.len() == n,
                cut@.len() == n,
                forall|j: int| 1 <= j <= n && #[trigger] l4.at(j) ==> losing.at(j),
                forall|j: int| 1 <= j < id && #[trigger] cut.at(j) ==> losing.at(j),
                forall|j: int| 1 <= j <= n ==> #[trigger] losing.at(j) == (l4.at(j) || (j < id && cut.at(j))),
            decreases n + 1 - id,
        {
            let ghost lb5 = losing;
            if *cut.get(id) {
                losing.set(id, true);
            }
            assert(cut.at(id as int) ==> losing.at(id as int));
            proof {
                assert forall|j: int| 1 <= j <= n implies #[trigger] losing.at(j) == (l4.at(j) || (j < id + 1 && cut.at(j))) by {
                    if j != id {
                        assert(losing.at(j) == lb5.at(j));
                    }
                }
            }
            id = id + 1;
        }
        let ghost l5 = losing;
        proof {
            assert forall|q: int| 1 <= q <= n implies #[trigger] l5.at(q) == g0.loses(s4, q) by {
                assert(l5.at(q) == (l4.at(q) || cut.at(q)));
                if cut.at(q) {
                    let p = choose|p: int|
                        1 <= p < n + 1 && p != q && !l4.at(p) && !g0.lost(p) && #[trigger] f4.traced_by(
                            g0.next(p).0,
                            g0.next(p).1,
                            q,
                        );
                    assert(g0.trace_cut(s4, q));
                }
                if g0.trace_cut(s4, q) {
                    let p = choose|p: int|
                        1 <= p <= g0.player_count() && p != q && !s4.1[p - 1] && !g0.lost(p) && #[trigger] s4.0.traced_by(
                            g0.next(p).0,
                            g0.next(p).1,
                            q,
                        );
                    assert(!l4.at(p));
                    assert(cut.at(q));
                }
            }
        }

        // The others move, tracing where they are not at home.
        id = 1;
        while id <= n
            invariant
                self.keeps(g0),
                self.has_lost == g0.has_lost,
                n == g0.players@.len(),
                n <= MAX_PLAYERS,
                1 <= id <= n + 1,
                next@.len() == n,
                forall|j: int| 1 <= j <= n ==> (#[trigger] next.at(j).0 as int, next.at(j).1 as int) == g0.next(j),
                losing == l5,
                losing@.len() == n,
                forall|j: int| 1 <= j <= n && #[trigger] l3.at(j) ==> losing.at(j),
                forall|j: int|
                    1 <= j <= n ==> (#[trigger] l3.at(j) <==> !g0.lost(j) && (!g0.field().in_field(
                        g0.next(j).0,
                        g0.next(j).1,
                    ) || (g0.head_on(j) && !g0.field().captured_by(g0.next(j).0, g0.next(j).1, j)))),
                forall|j: int|
                    1 <= j <= n ==> #[trigger] self.players.at(j).position == if j < id && !losing.at(j)
                        && !g0.has_lost.at(j) {
                        next.at(j)
                    } else {
                        g0.players.at(j).position
                    },
                self.field.same_shape(&g0.field),
                s4 == (f4, l4@, sc4),
                sc4.len() == n,
                forall|j: int| 1 <= j <= n ==> #[trigger] self.players.at(j).score == sc4[j - 1],
                forall|j: int| 1 <= j <= n ==> #[trigger] l5.at(j) == g0.loses(s4, j),
                forall|j: int| 1 <= j <= n && #[trigger] l3.at(j) ==> l4.at(j),
                forall|j: int| 1 <= j <= n ==> #[trigger] l4.at(j) == l4@[j - 1],
                f4.wf(),
                f4.same_shape(&g0.field),
                forall|p: int, x: int, y: int|
                    1 <= p < id && #[trigger] g0.enters(s4, p, x, y) ==> self.field.state(x, y) == (CellState {
                        captured: f4.state(x, y).captured,
                        traced: Some(p as usize),
                    }),
                forall|x: int, y: int|
                    #![trigger self.field.state(x, y)]
                    f4.in_field(x, y) && (forall|p: int| 1 <= p < id ==> !#[trigger] g0.enters(s4, p, x, y))
                        ==> self.field.state(x, y) == f4.state(x, y),
            decreases n + 1 - id,
        {
            let ghost fb6 = self.field;
            let ghost pb6 = self.players;
            proof {
                assert forall|p: int, x: int, y: int|
                    g0.enters(s4, p, x, y) && g0.enters(s4, id as int, x, y) implies p == id by {
                    if p != id {
                        assert(!l4.at(p) && !l4.at(id as int));
                        assert(!l3.at(p) && !l3.at(id as int));
                        assert(g0.head_on(p)) by {
                            assert(!g0.lost(id as int) && g0.next(id as int) == g0.next(p));
                        }
                        assert(g0.head_on(id as int)) by {
                            assert(!g0.lost(p) && g0.next(id as int) == g0.next(p));
                        }
                        assert(g0.field.captured_by(x, y, p));
                        assert(g0.field.captured_by(x, y, id as int));
                    }
                }
            }
            if !*losing.get(id) && !*self.has_lost.get(id) {
                let c = *next.get(id);
                proof {
                    assert(!l3.at(id as int));
                    assert((c.0 as int, c.1 as int) == g0.next(id as int));
                }
                let ghost fb = self.field;
                let ghost sb = *self;
                if !self.field.get(c).is_captured_by(id) {
                    self.field.set_trace(c, id);
                }
                let ghost pb = self.players;
                let mut pl = *self.players.get(id);
                pl.position = c;
                self.players.set(id, pl);
                proof {
                    assert forall|j: int, x: int, y: int|
                        #![trigger self.has_lost.at(j), self.field.state(x, y)]
                        1 <= j <= n && self.has_lost.at(j) && self.field.in_field(x, y) implies !self.field.owned_by(x, y, j) by {
                        assert(sb.has_lost.at(j));
                        assert(!fb.owned_by(x, y, j));
                    }
                    assert forall|j: int| 1 <= j <= n implies #[trigger] self.players.at(j) == if j == id {
                        pl
                    } else {
                        pb.at(j)
                    } by {
                    }
                    assert forall|j: int| 1 <= j <= n implies self.field.in_field(
                        #[trigger] self.players.at(j).position.0 as int,
                        self.players.at(j).position.1 as int,
                    ) by {
                        if j != id {
                            assert(sb.field.in_field(pb.at(j).position.0 as int, pb.at(j).position.1 as int));
                        }
                    }
                    assert forall|j: int|
                        1 <= j <= g0.players@.len() implies #[trigger] self.players.at(j).direction == g0.players.at(j).direction
                            && self.players.at(j).score >= g0.players.at(j).score
                            && (g0.has_lost.at(j) ==> self.players.at(j) == g0.players.at(j)) by {
                        assert(pb.at(j).score >= g0.players.at(j).score);
                    }
                }
            }
            proof {
                let x0 = g0.next(id as int).0;
                let y0 = g0.next(id as int).1;
                assert forall|j: int| 1 <= j <= n implies #[trigger] self.players.at(j).score == sc4[j - 1] by {
                    assert(self.players.at(j).score == pb6.at(j).score);
                }
                assert forall|p: int, x: int, y: int|
                    1 <= p < id + 1 && #[trigger] g0.enters(s4, p, x, y) implies self.field.state(x, y) == (CellState {
                        captured: f4.state(x, y).captured,
                        traced: Some(p as usize),
                    }) by {
                    if p == id {
                        assert(x == x0 && y == y0);
                        assert forall|p2: int| 1 <= p2 < id implies !#[trigger] g0.enters(s4, p2, x, y) by {
                            if g0.enters(s4, p2, x, y) {
                                assert(p2 == id);
                            }
                        }
                        assert(fb6.state(x, y) == f4.state(x, y));
                    } else {
                        if x == x0 && y == y0 && g0.enters(s4, id as int, x, y) {
                            assert(p == id);
                        }
                        assert(!l4.at(p));
                        assert(!l3.at(p));
                        assert(g0.field.in_field(x, y));
                        assert(fb6.state(x, y) == self.field.state(x, y) || (x == x0 && y == y0));
                    }
                }
                assert forall|x: int, y: int|
                    #![trigger self.field.state(x, y)]
                    f4.in_field(x, y) && (forall|p: int| 1 <= p < id + 1 ==> !#[trigger] g0.enters(s4, p, x, y))
                        implies self.field.state(x, y) == f4.state(x, y) by {
                    assert(forall|p: int| 1 <= p < id ==> !#[trigger] g0.enters(s4, p, x, y));
                    assert(!g0.enters(s4, id as int, x, y));
                    if x == x0 && y == y0 {
                        assert(fb6.state(x, y) == f4.state(x, y));
                    }
                }
            }
            id = id + 1;
        }

        // Players that lost this tick give up their cells.
        let ghost g6 = *self;
        proof {
            self.field.lemma_owners_valid();
            assert forall|x: int, y: int|
                #![trigger self.field.state(x, y)]
                g0.field.in_field(x, y) implies self.field.state(x, y) == g0.cleared(s4, 1, g0.moved_state(s4, x, y)) by {
                if exists|p: int| g0.enters(s4, p, x, y) {
                    let p = choose|p: int| g0.enters(s4, p, x, y);
                    assert(self.field.state(x, y) == (CellState { captured: f4.state(x, y).captured, traced: Some(p as usize) }));
                } else {
                    assert(forall|p: int| 1 <= p < n + 1 ==> !#[trigger] g0.enters(s4, p, x, y));
                }
                assert(self.field.state(x, y).captured matches Some(q) ==> 1 <= q);
                assert(self.field.state(x, y).traced matches Some(q) ==> 1 <= q);
            }
        }
        id = 1;
        while id <= n
            invariant
                self.wf(),
                self.tick == g0.tick,
                self.players == g6.players,
                g6.keeps(g0),
                g6.has_lost == g0.has_lost,
                forall|j: int|
                    1 <= j <= n ==> #[trigger] g6.players.at(j).position == if !l5.at(j) && !g0.has_lost.at(j) {
                        next.at(j)
                    } else {
                        g0.players.at(j).position
                    },
                next@.len() == n,
                forall|j: int| 1 <= j <= n ==> (#[trigger] next.at(j).0 as int, next.at(j).1 as int) == g0.next(j),
                forall|j: int| 1 <= j <= n && #[trigger] l3.at(j) ==> l5.at(j),
                forall|j: int|
                    1 <= j <= n ==> (#[trigger] l3.at(j) <==> !g0.lost(j) && (!g0.field().in_field(
                        g0.next(j).0,
                        g0.next(j).1,
                    ) || (g0.head_on(j) && !g0.field().captured_by(g0.next(j).0, g0.next(j).1, j)))),
                n == g0.players@.len(),
                n == self.players@.len(),
                n <= MAX_PLAYERS,
                1 <= id <= n + 1,
                losing == l5,
                losing@.len() == n,
                forall|j: int|
                    1 <= j <= n ==> #[trigger] self.has_lost.at(j) == (g0.has_lost.at(j) || (j < id && losing.at(j))),
                forall|j: int| 1 <= j <= n ==> #[trigger] l5.at(j) == g0.loses(s4, j),
                forall|x: int, y: int|
                    #![trigger self.field.state(x, y)]
                    g0.field.in_field(x, y) ==> self.field.state(x, y) == g0.cleared(s4, id as int, g0.moved_state(s4, x, y)),
                self.field.same_shape(&g0.field),
            decreases n + 1 - id,
        {
            let ghost fb7 = self.field;
            if *losing.get(id) {
                let ghost sb = *self;
                self.field.remove_player(id);
                self.has_lost.set(id, true);
                proof {
                    assert forall|j: int| 1 <= j <= n implies #[trigger] self.has_lost.at(j) == (j == id || sb.has_lost.at(j)) by {
                    }
                    assert forall|j: int, x: int, y: int|
                        #![trigger self.has_lost.at(j), self.field.state(x, y)]
                        1 <= j <= n && self.has_lost.at(j) && self.field.in_field(x, y) implies !self.field.owned_by(x, y, j) by {
                        if j != id {
                            assert(sb.has_lost.at(j));
                            assert(!sb.field.owned_by(x, y, j));
                        }
                    }
                    assert forall|j: int| 1 <= j <= n implies self.field.in_field(
                        #[trigger] self.players.at(j).position.0 as int,
                        self.players.at(j).position.1 as int,
                    ) by {
                        assert(sb.field.in_field(sb.players.at(j).position.0 as int, sb.players.at(j).position.1 as int));
                    }
                }
            }
            proof {
                assert forall|x: int, y: int|
                    #![trigger self.field.state(x, y)]
                    g0.field.in_field(x, y) implies self.field.state(x, y) == g0.cleared(s4, id + 1, g0.moved_state(s4, x, y)) by {
                    assert(fb7.state(x, y) == g0.cleared(s4, id as int, g0.moved_state(s4, x, y)));
                    assert(l5.at(id as int) == g0.loses(s4, id as int));
                }
            }
            id = id + 1;
        }
        self.tick = self.tick + 1;
        proof {
            assert forall|j: int| 1 <= j <= n implies #[trigger] self.players.at(j) == g6.players.at(j) by {
            }
            assert forall|j: int| 1 <= j <= n implies #[trigger] self.has_lost.at(j) == (g0.has_lost.at(j) || l5.at(j)) by {
            }
            assert(g0.closing(st));
            assert forall|j: int| g0.has_player(j) implies #[trigger] self.lost(j) == (g0.lost(j) || g0.loses(s4, j)) by {
                assert(l5.at(j) == g0.loses(s4, j));
            }
            assert forall|j: int|
                g0.has_player(j) implies #[trigger] self.player(j) == (Player {
                    score: s4.2[j - 1],
                    position: if g0.moves(s4, j) {
                        Cell(g0.next(j).0 as i32, g0.next(j).1 as i32)
                    } else {
                        g0.player(j).position
                    },
                    direction: g0.player(j).direction,
                }) by {
                assert(self.players.at(j) == g6.players.at(j));
                assert(g6.players.at(j).score == sc4[j - 1]);
                assert(g6.players.at(j).direction == g0.players.at(j).direction);
                assert(l5.at(j) == g0.loses(s4, j));
                assert((next.at(j).0 as int, next.at(j).1 as int) == g0.next(j));
            }
            assert forall|x: int, y: int|
                g0.field().in_field(x, y) implies #[trigger] self.field().state(x, y) == g0.end_state(s4, x, y) by {
            }
            assert forall|j: int| g0.has_player(j) && g0.lost(j) implies #[trigger] self.lost(j) && self.player(j) == g0.player(j) by {
                assert(self.players.at(j) == g6.players.at(j));
                assert(g6.players.at(j).direction == g0.players.at(j).direction);
                assert(g6.players.at(j) == g0.players.at(j));
            }
            assert forall|j: int|
                g0.has_player(j) && !g0.lost(j) && !g0.field().in_field(g0.next(j).0, g0.next(j).1) implies #[trigger] self.lost(j) by {
                assert(l3.at(j));
            }
            assert forall|j: int|
                g0.has_player(j) && !g0.lost(j) && g0.head_on(j) && !g0.field().captured_by(g0.next(j).0, g0.next(j).1, j)
                    implies #[trigger] self.lost(j) by {
                assert(l3.at(j));
            }
            assert forall|j: int|
                g0.has_player(j) && !g0.lost(j) && g0.field().in_field(g0.next(j).0, g0.next(j).1) && g0.field().traced_by(
                    g0.next(j).0,
                    g0.next(j).1,
                    j,
                ) implies #[trigger] self.lost(j) by {
                assert(l4.at(j));
            }
            assert forall|j: int, q: int|
                #![trigger self.lost(j), self.lost(q)]
                g0.has_player(j) && g0.has_player(q) && j != q && !g0.lost(j) && !self.lost(j) && g0.field().traced_by(
                    g0.next(j).0,
                    g0.next(j).1,
                    q,
                ) && !g0.field().captured_by(g0.next(q).0, g0.next(q).1, q) implies self.lost(q) by {
                assert(!l5.at(j));
                assert(!l4.at(j));
                assert(!l3.at(j));
                assert(g0.field.in_field(g0.next(j).0, g0.next(j).1));
                assert(f4.traced_by(g0.next(j).0, g0.next(j).1, q));
                assert(cut.at(q));
                assert(l5.at(q));
            }
            assert forall|j: int|
                g0.has_player(j) && !self.lost(j) implies (#[trigger] self.player(j).position.0 as int, self.player(j).position.1 as int)
                    == g0.next(j) by {
                assert(self.players.at(j) == g6.players.at(j));
                assert(g6.players.at(j).position == next.at(j));
            }
            assert forall|j: int|
                g0.has_player(j) implies #[trigger] self.player(j).score >= g0.player(j).score && self.player(j).direction
                    == g0.player(j).direction by {
                assert(self.players.at(j) == g6.players.at(j));
            }
        }
    }

    /// `e` is the snapshot entry of player `id` for `viewer`: its label, score,
    /// position, heading and status, the cells it has captured and the cells
    /// it traces, each listed once, row by row.
    pub open spec fn entry_matches(&self, viewer: int, id: int, e: (String, crate::proto::Player)) -> bool {
        let f = self.field();
        &&& e.0@ == label_of(viewer, id)
        &&& e.1.score == self.player(id).score
        &&& e.1.position == self.player(id).position
        &&& e.1.direction == Some(self.player(id).direction)
        &&& e.1.has_lost == self.lost(id)
        &&& e.1.territory@ == f.cells_with(id, false)
        &&& e.1.lines@ == f.cells_with(id, true)
        &&& e.1.territory@.no_duplicates()
        &&& e.1.lines@.no_duplicates()
        &&& forall|c: Cell|
            e.1.territory@.contains(c) <==> f.in_field(c.0 as int, c.1 as int) && f.captured_by(c.0 as int, c.1 as int, id)
        &&& forall|c: Cell|
            e.1.lines@.contains(c) <==> f.in_field(c.0 as int, c.1 as int) && f.traced_by(c.0 as int, c.1 as int, id)
    }

    /// `w` is the snapshot of this match for `viewer`: every player in order
    /// of number, and the tick number.
    pub open spec fn world_matches(&self, viewer: int, w: World) -> bool {
        &&& w.tick_num == self.tick_num()
        &&& w.players@.len() == self.player_count()
        &&& forall|i: int| 0 <= i < w.players@.len() ==> self.entry_matches(viewer, i + 1, #[trigger] w.players@[i])
    }

    /// The match as seen by player `i`.
    pub fn get_player_world(&self, i: PlayerId) -> (r: World)
        requires
            self.wf(),
        ensures
            self.world_matches(i as int, r),
    {
        let n = self.players.len();
        let mut players: Vec<(String, crate::proto::Player)> = Vec::new();
        let mut id: usize = 1;
        while id <= n
            invariant
                self.wf(),
                n == self.player_count(),
                n <= MAX_PLAYERS,
                1 <= id <= n + 1,
                players@.len() == id - 1,
                forall|j: int| 0 <= j < id - 1 ==> self.entry_matches(i as int, j + 1, #[trigger] players@[j]),
            decreases n + 1 - id,
        {
            let pl = *self.players.get(id);
            let (territory, lines) = self.field.get_for_player(id);
            let entry = crate::proto::Player {
                score: pl.score,
                territory,
                position: pl.position,
                lines,
                direction: Some(pl.direction),
                has_lost: *self.has_lost.get(id),
            };
            players.push((label(i, id), entry));
            id = id + 1;
        }
        World { players, tick_num: self.tick }
    }

    /// The match as seen by an onlooker: no entry is labelled `"i"`.
    pub fn get_spectator_world(&self) -> (r: World)
        requires
            self.wf(),
        ensures
            self.world_matches(usize::MAX as int, r),
    {
        self.get_player_world(usize::MAX)
    }

    /// Two snapshots taken for the same viewer of the same match agree: the
    /// same labels, scores, positions, headings and statuses, and the same
    /// lists of captured and traced cells.
    pub proof fn lemma_world_deterministic(&self, viewer: int, w1: World, w2: World)
        requires
            self.world_matches(viewer, w1),
            self.world_matches(viewer, w2),
        ensures
            w1.tick_num == w2.tick_num,
            w1.players@.len() == w2.players@.len(),
            forall|i: int|
                0 <= i < w1.players@.len() ==> {
                    let (a, b) = (#[trigger] w1.players@[i], w2.players@[i]);
                    &&& a.0@ == b.0@
                    &&& a.1.score == b.1.score
                    &&& a.1.position == b.1.position
                    &&& a.1.direction == b.1.direction
                    &&& a.1.has_lost == b.1.has_lost
                    &&& a.1.territory@ == b.1.territory@
                    &&& a.1.lines@ == b.1.lines@
                },
    {
        assert forall|i: int| 0 <= i < w1.players@.len() implies {
            let (a, b) = (#[trigger] w1.players@[i], w2.players@[i]);
            &&& a.1.territory@ == b.1.territory@
            &&& a.1.lines@ == b.1.lines@
        } by {
            assert(self.entry_matches(viewer, i + 1, w1.players@[i]));
            assert(self.entry_matches(viewer, i + 1, w2.players@[i]));
        }
    }

    /// Every player's score, in order of number.
    pub fn get_player_scores(&self) -> (r: Vec<u32>)
        requires
            self.wf(),
        ensures
            r@.len() == self.player_count(),
            forall|i: int| 0 <= i < r@.len() ==> #[trigger] r@[i] == self.player(i + 1).score,
    {
        let n = self.players.len();
        let mut r: Vec<u32> = Vec::new();
        let mut i: usize = 0;
        while i < n
            invariant
                self.wf(),
                n == self.player_count(),
                i <= n,
                r@.len() == i,
                forall|j: int| 0 <= j < i ==> #[trigger] r@[j] == self.player(j + 1).score,
            decreases n - i,
        {
            r.push(self.players.get(i + 1).score);
            i = i + 1;
        }
        r
    }

    /// Applies what player `player_id` answered for this tick: a direction
    /// change is tried, anything else (no answer included) leaves the match
    /// as it is. Says whether the heading changed.
    pub fn apply_command(&mut self, player_id: PlayerId, command: Option<Command>) -> (r: bool)
        requires
            old(self).wf(),
            old(self).has_player(player_id as int),
        ensures
            final(self).wf(),
            final(self).tick_num() == old(self).tick_num(),
            final(self).player_count() == old(self).player_count(),
            final(self).field() == old(self).field(),
            forall|id: int| #[trigger] final(self).lost(id) == old(self).lost(id),
            r == (command matches Some(Command::ChangeDirection(d)) && d != old(self).player(
                player_id as int,
            ).direction.opposite_spec()),
            forall|id: int|
                old(self).has_player(id) ==> #[trigger] final(self).player(id) == match command {
                    Some(Command::ChangeDirection(d)) if id == player_id && r => Player {
                        direction: d,
                        ..old(self).player(id)
                    },
                    _ => old(self).player(id),
                },
    {
        match command {
            Some(Command::ChangeDirection(d)) => self.try_change_direction(player_id, d),
            _ => false,
        }
    }
}

} // verus!
