//! A rectangular grid of booleans, as used for percolation experiments: a
//! `true` cell is blocked.
use vstd::prelude::*;
use crate::game_field::count_true;

verus! {

/// A `width` x `height` grid of booleans.
pub struct BoolGrid {
    width: usize,
    height: usize,
    lattice: Vec<bool>,
}

impl BoolGrid {
    pub closed spec fn width_spec(&self) -> int {
        self.width as int
    }

    pub closed spec fn height_spec(&self) -> int {
        self.height as int
    }

    /// The value at column `x`, row `y`.
    pub closed spec fn at(&self, x: int, y: int) -> bool {
        self.lattice@[x * self.height + y]
    }

    pub closed spec fn wf(&self) -> bool {
        &&& self.lattice@.len() == self.width * self.height
        &&& self.width * self.height <= usize::MAX
    }

    pub open spec fn in_grid(&self, x: int, y: int) -> bool {
        0 <= x < self.width_spec() && 0 <= y < self.height_spec()
    }

    proof fn lemma_index(&self, x: int, y: int)
        requires
            self.wf(),
            self.in_grid(x, y),
        ensures
            0 <= x * self.height <= x * self.height + y < self.lattice@.len(),
            self.lattice@.len() <= usize::MAX,
    {
        assert(0 <= x * self.height + y < self.width * self.height) by (nonlinear_arith)
            requires
                0 <= x < self.width,
                0 <= y < self.height,
        ;
    }

    proof fn lemma_index_unique(&self, x: int, y: int, a: int, b: int)
        requires
            self.in_grid(x, y),
            self.in_grid(a, b),
            x * self.height + y == a * self.height + b,
        ensures
            x == a && y == b,
    {
        vstd::arithmetic::div_mod::lemma_fundamental_div_mod_converse(x * self.height + y, self.height as int, x, y);
        vstd::arithmetic::div_mod::lemma_fundamental_div_mod_converse(a * self.height + b, self.height as int, a, b);
    }

    /// A grid with every value `false`.
    pub fn new(width: usize, height: usize) -> (r: Self)
        requires
            width * height <= usize::MAX,
        ensures
            r.wf(),
            r.width_spec() == width,
            r.height_spec() == height,
            forall|x: int, y: int| r.in_grid(x, y) ==> !#[trigger] r.at(x, y),
    {
        let n: usize = width * height;
        let mut lattice: Vec<bool> = Vec::new();
        let mut i: usize = 0;
        while i < n
            invariant
                i <= n,
                lattice@.len() == i,
                forall|j: int| 0 <= j < i ==> !#[trigger] lattice@[j],
            decreases n - i,
        {
            lattice.push(false);
            i = i + 1;
        }
        let r = BoolGrid { width, height, lattice };
        proof {
            assert forall|x: int, y: int| r.in_grid(x, y) implies !#[trigger] r.at(x, y) by {
                r.lemma_index(x, y);
            }
        }
        r
    }

    pub fn width(&self) -> (r: usize)
        ensures
            r == self.width_spec(),
    {
        self.width
    }

    pub fn height(&self) -> (r: usize)
        ensures
            r == self.height_spec(),
    {
        self.height
    }

    /// The value at column `x`, row `y`.
    pub fn get(&self, x: usize, y: usize) -> (r: bool)
        requires
            self.wf(),
            self.in_grid(x as int, y as int),
        ensures
            r == self.at(x as int, y as int),
    {
        proof {
            self.lemma_index(x as int, y as int);
        }
        self.lattice[x * self.height + y]
    }

    /// Sets the value at column `x`, row `y`.
    pub fn set(&mut self, x: usize, y: usize, value: bool)
        requires
            old(self).wf(),
            old(self).in_grid(x as int, y as int),
        ensures
            final(self).wf(),
            final(self).width_spec() == old(self).width_spec(),
            final(self).height_spec() == old(self).height_spec(),
            forall|a: int, b: int|
                final(self).in_grid(a, b) ==> #[trigger] final(self).at(a, b) == if a == x && b == y {
                    value
                } else {
                    old(self).at(a, b)
                },
    {
        proof {
            self.lemma_index(x as int, y as int);
        }
        let i = x * self.height + y;
        self.lattice.set(i, value);
        proof {
            assert forall|a: int, b: int| self.in_grid(a, b) implies #[trigger] self.at(a, b) == if a == x && b == y {
                value
            } else {
                old(self).at(a, b)
            } by {
                self.lemma_index(a, b);
                if a * self.height + b == i {
                    self.lemma_index_unique(a, b, x as int, y as int);
                }
            }
        }
    }
}

/// `a` and `b` are side by side.
pub open spec fn adjacent(a: (int, int), b: (int, int)) -> bool {
    (a.0 == b.0 && (a.1 == b.1 + 1 || a.1 + 1 == b.1)) || (a.1 == b.1 && (a.0 == b.0 + 1 || a.0 + 1 == b.0))
}

/// Number of marks in a grid of marks.
pub open spec fn count_marks(v: Seq<Vec<bool>>) -> nat
    decreases v.len(),
{
    if v.len() == 0 {
        0
    } else {
        count_marks(v.drop_last()) + count_true(v.last()@)
    }
}

proof fn lemma_count_true_mono(a: Seq<bool>, b: Seq<bool>)
    requires
        a.len() == b.len(),
        forall|i: int| 0 <= i < a.len() && #[trigger] a[i] ==> b[i],
    ensures
        count_true(a) <= count_true(b),
    decreases a.len(),
{
    if a.len() > 0 {
        lemma_count_true_mono(a.drop_last(), b.drop_last());
    }
}

proof fn lemma_count_true_bound(a: Seq<bool>)
    ensures
        count_true(a) <= a.len(),
    decreases a.len(),
{
    if a.len() > 0 {
        lemma_count_true_bound(a.drop_last());
    }
}

proof fn lemma_count_true_set(s: Seq<bool>, i: int)
    requires
        0 <= i < s.len(),
        !s[i],
    ensures
        count_true(s.update(i, true)) == count_true(s) + 1,
    decreases s.len(),
{
    let u = s.update(i, true);
    if i == s.len() - 1 {
        assert(u.drop_last() =~= s.drop_last());
    } else {
        assert(u.drop_last() =~= s.drop_last().update(i, true));
        lemma_count_true_set(s.drop_last(), i);
    }
}

proof fn lemma_count_marks_mono(a: Seq<Vec<bool>>, b: Seq<Vec<bool>>)
    requires
        a.len() == b.len(),
        forall|j: int| 0 <= j < a.len() ==> (#[trigger] a[j])@.len() == b[j]@.len(),
        forall|j: int, i: int| 0 <= j < a.len() && 0 <= i < a[j]@.len() && #[trigger] a[j]@[i] ==> b[j]@[i],
    ensures
        count_marks(a) <= count_marks(b),
    decreases a.len(),
{
    if a.len() > 0 {
        lemma_count_marks_mono(a.drop_last(), b.drop_last());
        let la = a.last()@;
        let lb = b.last()@;
        assert forall|i: int| 0 <= i < la.len() && #[trigger] la[i] implies lb[i] by {
            assert(a[a.len() - 1]@[i]);
        }
        lemma_count_true_mono(la, lb);
    }
}

proof fn lemma_count_marks_bound(v: Seq<Vec<bool>>, w: int)
    requires
        forall|j: int| 0 <= j < v.len() ==> (#[trigger] v[j])@.len() == w,
        0 <= w,
    ensures
        count_marks(v) <= v.len() * w,
    decreases v.len(),
{
    if v.len() > 0 {
        lemma_count_marks_bound(v.drop_last(), w);
        lemma_count_true_bound(v.last()@);
        assert((v.len() - 1) * w + w == v.len() * w) by (nonlinear_arith);
    }
}

proof fn lemma_count_marks_set(v: Seq<Vec<bool>>, u: Seq<Vec<bool>>, y: int, x: int)
    requires
        v.len() == u.len(),
        0 <= y < v.len(),
        0 <= x < v[y]@.len(),
        !v[y]@[x],
        u[y]@ == v[y]@.update(x, true),
        forall|j: int| 0 <= j < v.len() && j != y ==> #[trigger] u[j]@ == v[j]@,
    ensures
        count_marks(u) == count_marks(v) + 1,
    decreases v.len(),
{
    if y == v.len() - 1 {
        lemma_count_marks_same(v.drop_last(), u.drop_last());
        lemma_count_true_set(v[y]@, x);
    } else {
        lemma_count_marks_set(v.drop_last(), u.drop_last(), y, x);
        assert(u.last()@ == v.last()@);
    }
}

proof fn lemma_count_marks_same(v: Seq<Vec<bool>>, u: Seq<Vec<bool>>)
    requires
        v.len() == u.len(),
        forall|j: int| 0 <= j < v.len() ==> #[trigger] u[j]@ == v[j]@,
    ensures
        count_marks(u) == count_marks(v),
    decreases v.len(),
{
    if v.len() > 0 {
        lemma_count_marks_same(v.drop_last(), u.drop_last());
        assert(u.last()@ == v.last()@);
    }
}

impl BoolGrid {
    /// A path of open cells, each next to the one before.
    pub open spec fn open_path(&self, path: Seq<(int, int)>) -> bool {
        &&& path.len() >= 1
        &&& forall|i: int| 0 <= i < path.len() ==> self.in_grid(#[trigger] path[i].0, path[i].1) && !self.at(path[i].0, path[i].1)
        &&& forall|i: int| 0 <= i < path.len() - 1 ==> adjacent(#[trigger] path[i], path[i + 1])
    }

    /// An open path leads from `(x, y)` to the last row.
    pub open spec fn reaches_bottom(&self, x: int, y: int) -> bool {
        exists|path: Seq<(int, int)>|
            #[trigger] self.open_path(path) && path[0] == (x, y) && path.last().1 == self.height_spec() - 1
    }
}

/// `v` has one row of `width` marks for each of the grid's rows.
pub open spec fn marks_shape(grid: &BoolGrid, v: Seq<Vec<bool>>) -> bool {
    &&& v.len() == grid.height_spec()
    &&& forall|j: int| 0 <= j < v.len() ==> (#[trigger] v[j])@.len() == grid.width_spec()
}

/// Every marked cell is open and not in the last row.
pub open spec fn marks_ok(grid: &BoolGrid, v: Seq<Vec<bool>>) -> bool {
    forall|x: int, y: int|
        grid.in_grid(x, y) && #[trigger] v[y]@[x] ==> !grid.at(x, y) && y < grid.height_spec() - 1
}

/// Every cell marked in `v` but not in `v0` is open and not in the last row.
pub open spec fn new_marks_ok(grid: &BoolGrid, v0: Seq<Vec<bool>>, v: Seq<Vec<bool>>) -> bool {
    forall|a: int, b: int|
        grid.in_grid(a, b) && #[trigger] v[b]@[a] && !v0[b]@[a] ==> !grid.at(a, b) && b < grid.height_spec() - 1
}

/// Every open neighbour of a cell marked in `v` but not in `v0` is marked in
/// `v`.
pub open spec fn closed_since(grid: &BoolGrid, v0: Seq<Vec<bool>>, v: Seq<Vec<bool>>) -> bool {
    forall|a: int, b: int, c: int, d: int|
        #![trigger v[b]@[a], v[d]@[c]]
        grid.in_grid(a, b) && v[b]@[a] && !v0[b]@[a] && grid.in_grid(c, d) && adjacent((a, b), (c, d)) && !grid.at(c, d)
            ==> v[d]@[c]
}

/// Column offset of the `k`-th move: up, down, left, right in turn.
pub open spec fn move_x(k: int) -> int {
    if k == 2 {
        -1
    } else if k == 3 {
        1
    } else {
        0
    }
}

/// Row offset of the `k`-th move.
pub open spec fn move_y(k: int) -> int {
    if k == 0 {
        -1
    } else if k == 1 {
        1
    } else {
        0
    }
}

/// Whether an open path leads from `(x, y)` to the last row without
/// passing through marked cells; marks the cells it explores.
pub fn dfs(grid: &BoolGrid, visited: &mut Vec<Vec<bool>>, x: usize, y: usize) -> (r: bool)
    requires
        grid.wf(),
        grid.in_grid(x as int, y as int),
        marks_shape(grid, old(visited)@),
    ensures
        marks_shape(grid, final(visited)@),
        new_marks_ok(grid, old(visited)@, final(visited)@),
        forall|a: int, b: int| grid.in_grid(a, b) && #[trigger] old(visited)@[b]@[a] ==> final(visited)@[b]@[a],
        count_marks(old(visited)@) <= count_marks(final(visited)@),
        grid.at(x as int, y as int) ==> !r && final(visited)@ == old(visited)@,
        r ==> grid.reaches_bottom(x as int, y as int),
        !r ==> closed_since(grid, old(visited)@, final(visited)@),
        !r ==> grid.at(x as int, y as int) || final(visited)@[y as int]@[x as int],
    decreases
        grid.width_spec() * grid.height_spec() - count_marks(old(visited)@),
        if old(visited)@[y as int]@[x as int] {
            1int
        } else {
            0int
        },
{
    if grid.get(x, y) {
        return false;
    } else if y == grid.height() - 1 {
        proof {
            let path = seq![(x as int, y as int)];
            assert(grid.open_path(path));
        }
        return true;
    }
    let ghost v0 = visited@;
    visited[y].set(x, true);
    proof {
        if v0[y as int]@[x as int] {
            assert(visited@[y as int]@ =~= v0[y as int]@);
            lemma_count_marks_same(v0, visited@);
        } else {
            lemma_count_marks_set(v0, visited@, y as int, x as int);
        }
        lemma_count_marks_bound(visited@, grid.width_spec());
        assert(visited@.len() * grid.width_spec() == grid.width_spec() * grid.height_spec()) by (nonlinear_arith)
            requires
                visited@.len() == grid.height_spec(),
        ;
        assert forall|a: int, b: int| grid.in_grid(a, b) && #[trigger] v0[b]@[a] implies visited@[b]@[a] by {
            if b == y {
                assert(visited@[b]@ == v0[b]@.update(x as int, true));
            }
        }
        assert forall|a: int, b: int| grid.in_grid(a, b) && #[trigger] visited@[b]@[a] && !v0[b]@[a] implies !grid.at(a, b)
            && b < grid.height_spec() - 1 by {
            if b == y && a != x {
                assert(visited@[b]@ == v0[b]@.update(x as int, true));
            }
            if b != y {
                assert(visited@[b]@ == v0[b]@);
            }
        }
    }
    let ghost v1 = visited@;
    let mut k: usize = 0;
    while k < 4
        invariant
            grid.wf(),
            grid.in_grid(x as int, y as int),
            !grid.at(x as int, y as int),
            (y as int) < grid.height_spec() - 1,
            k <= 4,
            marks_shape(grid, visited@),
            new_marks_ok(grid, v0, visited@),
            marks_shape(grid, v0),
            v0 == old(visited)@,
            forall|a: int, b: int| grid.in_grid(a, b) && #[trigger] v0[b]@[a] ==> visited@[b]@[a],
            visited@[y as int]@[x as int],
            count_marks(v0) + (if v0[y as int]@[x as int] {
                0int
            } else {
                1int
            }) <= count_marks(visited@),
            count_marks(visited@) <= grid.width_spec() * grid.height_spec(),
            forall|a: int, b: int, c: int, d: int|
                #![trigger visited@[b]@[a], visited@[d]@[c]]
                grid.in_grid(a, b) && visited@[b]@[a] && !v0[b]@[a] && (a != x || b != y) && grid.in_grid(c, d)
                    && adjacent((a, b), (c, d)) && !grid.at(c, d) ==> visited@[d]@[c],
            forall|kk: int|
                0 <= kk < k && grid.in_grid(x + move_x(kk), y + move_y(kk)) && !grid.at(x + move_x(kk), y + move_y(kk))
                    ==> #[trigger] visited@[y + move_y(kk)]@[x + move_x(kk)],
        decreases 4 - k,
    {
        let ghost vh = visited@;
        let ok = if k == 0 {
            y > 0
        } else if k == 1 {
            y + 1 < grid.height()
        } else if k == 2 {
            x > 0
        } else {
            x + 1 < grid.width()
        };
        if ok {
            let nx: usize = if k == 2 {
                x - 1
            } else if k == 3 {
                x + 1
            } else {
                x
            };
            let ny: usize = if k == 0 {
                y - 1
            } else if k == 1 {
                y + 1
            } else {
                y
            };
            assert(nx == x + move_x(k as int) && ny == y + move_y(k as int));
            assert(adjacent((x as int, y as int), (nx as int, ny as int)));
            if !visited[ny][nx] {
                let ghost vb = visited@;
                let found = dfs(grid, visited, nx, ny);
                if found {
                    proof {
                        let tail = choose|path: Seq<(int, int)>|
                            #[trigger] grid.open_path(path) && path[0] == (nx as int, ny as int) && path.last().1
                                == grid.height_spec() - 1;
                        let path = seq![(x as int, y as int)] + tail;
                        assert(path[0] == (x as int, y as int));
                        assert(path.last() == tail.last());
                        assert forall|i: int| 0 <= i < path.len() implies grid.in_grid(#[trigger] path[i].0, path[i].1)
                            && !grid.at(path[i].0, path[i].1) by {
                            if i > 0 {
                                assert(path[i] == tail[i - 1]);
                            }
                        }
                        assert forall|i: int| 0 <= i < path.len() - 1 implies adjacent(#[trigger] path[i], path[i + 1]) by {
                            if i > 0 {
                                assert(path[i] == tail[i - 1]);
                                assert(path[i + 1] == tail[i]);
                            } else {
                                assert(path[1] == tail[0]);
                            }
                        }
                        assert(grid.open_path(path));
                        assert forall|a: int, b: int| grid.in_grid(a, b) && #[trigger] v0[b]@[a] implies visited@[b]@[a] by {
                            assert(vb[b]@[a]);
                        }
                        assert forall|a: int, b: int|
                            grid.in_grid(a, b) && #[trigger] visited@[b]@[a] && !v0[b]@[a] implies !grid.at(a, b)
                                && b < grid.height_spec() - 1 by {
                            if !vb[b]@[a] {
                                assert(!grid.at(a, b) && b < grid.height_spec() - 1);
                            }
                        }
                    }
                    return true;
                }
                proof {
                    assert(grid.at(nx as int, ny as int) || visited@[ny as int]@[nx as int]);
                    assert forall|a: int, b: int|
                        grid.in_grid(a, b) && #[trigger] visited@[b]@[a] && !v0[b]@[a] implies !grid.at(a, b)
                            && b < grid.height_spec() - 1 by {
                        if !vb[b]@[a] {
                            assert(!grid.at(a, b) && b < grid.height_spec() - 1);
                        }
                    }
                    lemma_count_marks_bound(visited@, grid.width_spec());
                    assert(visited@.len() * grid.width_spec() == grid.width_spec() * grid.height_spec()) by (nonlinear_arith)
                        requires
                            visited@.len() == grid.height_spec(),
                    ;
                    assert forall|a: int, b: int| grid.in_grid(a, b) && #[trigger] v0[b]@[a] implies visited@[b]@[a] by {
                        assert(vb[b]@[a]);
                    }
                }
            }
        }
        proof {
            assert(forall|a: int, b: int| grid.in_grid(a, b) && #[trigger] vh[b]@[a] ==> visited@[b]@[a]);
            assert(closed_since(grid, vh, visited@));
            assert forall|a: int, b: int, c: int, d: int|
                #![trigger visited@[b]@[a], visited@[d]@[c]]
                grid.in_grid(a, b) && visited@[b]@[a] && !v0[b]@[a] && (a != x || b != y) && grid.in_grid(c, d)
                    && adjacent((a, b), (c, d)) && !grid.at(c, d) implies visited@[d]@[c] by {
                if vh[b]@[a] {
                    assert(vh[d]@[c]);
                }
            }
            assert forall|kk: int|
                0 <= kk < k + 1 && grid.in_grid(x + move_x(kk), y + move_y(kk)) && !grid.at(x + move_x(kk), y + move_y(kk))
                    implies #[trigger] visited@[y + move_y(kk)]@[x + move_x(kk)] by {
                if kk < k {
                    assert(vh[y + move_y(kk)]@[x + move_x(kk)]);
                }
            }
        }
        k = k + 1;
    }
    proof {
        assert forall|a: int, b: int, c: int, d: int|
            #![trigger visited@[b]@[a], visited@[d]@[c]]
            grid.in_grid(a, b) && visited@[b]@[a] && !v0[b]@[a] && grid.in_grid(c, d) && adjacent((a, b), (c, d))
                && !grid.at(c, d) implies visited@[d]@[c] by {
            if a == x && b == y {
                let kk: int = if d == b - 1 {
                    0
                } else if d == b + 1 {
                    1
                } else if c == a - 1 {
                    2
                } else {
                    3
                };
                assert(c == x + move_x(kk) && d == y + move_y(kk));
            }
        }
    }
    false
}

/// If every open neighbour of a marked cell is marked, and no marked cell is
/// in the last row, no open path from a marked cell reaches the last row.
proof fn lemma_path_stays(grid: &BoolGrid, v: Seq<Vec<bool>>, path: Seq<(int, int)>, i: int)
    requires
        marks_ok(grid, v),
        forall|a: int, b: int, c: int, d: int|
            #![trigger v[b]@[a], v[d]@[c]]
            grid.in_grid(a, b) && v[b]@[a] && grid.in_grid(c, d) && adjacent((a, b), (c, d)) && !grid.at(c, d) ==> v[d]@[c],
        grid.open_path(path),
        v[path[0].1]@[path[0].0],
        0 <= i < path.len(),
    ensures
        v[path[i].1]@[path[i].0],
    decreases i,
{
    if i > 0 {
        lemma_path_stays(grid, v, path, i - 1);
        assert(adjacent(path[i - 1], path[i]));
        assert(grid.in_grid(path[i].0, path[i].1));
        assert(grid.in_grid(path[i - 1].0, path[i - 1].1));
    }
}

/// Whether an open path leads from the first row to the last one; an empty
/// grid percolates.
pub fn percolates(grid: &BoolGrid) -> (r: bool)
    requires
        grid.wf(),
    ensures
        r == (grid.width_spec() == 0 || grid.height_spec() == 0 || exists|x: int|
            0 <= x < grid.width_spec() && #[trigger] grid.reaches_bottom(x, 0)),
{
    if grid.width() == 0 || grid.height() == 0 {
        return true;
    }
    let w = grid.width();
    let h = grid.height();
    let mut x: usize = 0;
    while x < w
        invariant
            grid.wf(),
            w == grid.width_spec(),
            h == grid.height_spec(),
            w > 0 && h > 0,
            x <= w,
            forall|x0: int| 0 <= x0 < x ==> !#[trigger] grid.reaches_bottom(x0, 0),
        decreases w - x,
    {
        let mut visited: Vec<Vec<bool>> = Vec::new();
        let mut j: usize = 0;
        while j < h
            invariant
                j <= h,
                w == grid.width_spec(),
                visited@.len() == j,
                forall|jj: int| 0 <= jj < j ==> (#[trigger] visited@[jj])@.len() == w,
                forall|jj: int, i: int| 0 <= jj < j && 0 <= i < w ==> !#[trigger] visited@[jj]@[i],
            decreases h - j,
        {
            let mut row: Vec<bool> = Vec::new();
            let mut i: usize = 0;
            while i < w
                invariant
                    i <= w,
                    row@.len() == i,
                    forall|ii: int| 0 <= ii < i ==> !#[trigger] row@[ii],
                decreases w - i,
            {
                row.push(false);
                i = i + 1;
            }
            visited.push(row);
            j = j + 1;
        }
        let ghost v0 = visited@;
        if dfs(grid, &mut visited, x, 0) {
            return true;
        }
        proof {
            let v = visited@;
            assert(marks_ok(grid, v)) by {
                assert forall|a: int, b: int| grid.in_grid(a, b) && #[trigger] v[b]@[a] implies !grid.at(a, b)
                    && b < grid.height_spec() - 1 by {
                    assert(!v0[b]@[a]);
                }
            }
            assert forall|path: Seq<(int, int)>|
                #[trigger] grid.open_path(path) && path[0] == (x as int, 0int) implies path.last().1 != grid.height_spec() - 1 by {
                if !grid.at(x as int, 0) {
                    assert forall|a: int, b: int, c: int, d: int|
                        #![trigger v[b]@[a], v[d]@[c]]
                        grid.in_grid(a, b) && v[b]@[a] && grid.in_grid(c, d) && adjacent((a, b), (c, d)) && !grid.at(c, d)
                            implies v[d]@[c] by {
                        assert(!v0[b]@[a]);
                    }
                    lemma_path_stays(grid, v, path, path.len() - 1);
                    assert(grid.in_grid(path.last().0, path.last().1));
                } else {
                    assert(grid.in_grid(path[0].0, path[0].1) && !grid.at(path[0].0, path[0].1));
                }
            }
        }
        x = x + 1;
    }
    false
}

} // verus!
