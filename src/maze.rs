//! Grid mazes: the grid itself, shortest-path search over its open cells,
//! and the fitness of a maze for given start and goal cells.
use crate::genetic::{Evaluator, Evolutionable};
use crate::grid::{
    grid_cells, grid_clone, grid_default, grid_dim, grid_get, grid_set, grid_shape, Grid,
};
use crate::rng::random_below;
use pathfinding::prelude::astar;
use rand::rngs::ThreadRng;
use vstd::prelude::*;

verus! {

/// The state of one cell of a maze.
#[derive(Clone, Copy, PartialEq, Eq, Debug, Structural)]
pub enum TileState {
    Full,
    Empty,
}

impl Default for TileState {
    fn default() -> (r: Self)
        ensures
            r == TileState::Empty,
    {
        TileState::Empty
    }
}

/// The largest number of cells a maze may have; it keeps every score in `i32`.
pub const MAX_CELLS: usize = 0x2000_0000;

/// The fitness of a maze that cannot be solved.
pub const INFEASIBLE: i32 = -100000;

/// A fixed-size grid of cells, addressed by `(x, y)` with `x < width` and
/// `y < height`.
#[derive(PartialEq, Eq, Debug)]
pub struct Maze {
    data: Grid,
}

/// A cell coordinate; it may lie outside a maze.
pub type Pos = (i32, i32);

/// `p` walked backwards.
pub open spec fn reversed(p: Seq<Pos>) -> Seq<Pos> {
    Seq::new(p.len(), |i: int| p[p.len() - 1 - i])
}

/// Whether two coordinates are one step apart horizontally or vertically.
pub open spec fn adjacent(a: Pos, b: Pos) -> bool {
    (a.0 == b.0 && (a.1 - b.1 == 1 || b.1 - a.1 == 1))
    || (a.1 == b.1 && (a.0 - b.0 == 1 || b.0 - a.0 == 1))
}

impl Maze {
    #[verifier::type_invariant]
    spec fn inv(self) -> bool {
        grid_shape(self.data).0 * grid_shape(self.data).1 <= MAX_CELLS
    }

    pub closed spec fn spec_width(&self) -> nat {
        grid_shape(self.data).0
    }

    pub closed spec fn spec_height(&self) -> nat {
        grid_shape(self.data).1
    }

    /// The cell at `(x, y)`; meaningful only inside the grid.
    pub closed spec fn cell(&self, x: int, y: int) -> TileState {
        grid_cells(self.data)[(x, y)]
    }

    pub open spec fn in_bounds(&self, x: int, y: int) -> bool {
        0 <= x < self.spec_width() && 0 <= y < self.spec_height()
    }

    pub open spec fn blocked(&self, x: int, y: int) -> bool {
        self.in_bounds(x, y) && self.cell(x, y) == TileState::Full
    }

    pub open spec fn open_at(&self, p: Pos) -> bool {
        self.in_bounds(p.0 as int, p.1 as int) && self.cell(p.0 as int, p.1 as int)
            == TileState::Empty
    }

    /// `p` walks from `start` to `end` by unit steps, every cell after the
    /// first being an open cell of the grid.
    pub open spec fn is_path(&self, start: Pos, end: Pos, p: Seq<Pos>) -> bool {
        &&& p.len() >= 1
        &&& p[0] == start
        &&& p.last() == end
        &&& forall|i: int|
            1 <= i < p.len() ==> #[trigger] self.open_at(p[i]) && adjacent(p[i - 1], p[i])
    }

    pub open spec fn reachable(&self, start: Pos, end: Pos) -> bool {
        exists|p: Seq<Pos>| self.is_path(start, end, p)
    }

    /// `p` is a path from `start` to `end` and no path between them is shorter.
    pub open spec fn is_shortest_path(&self, start: Pos, end: Pos, p: Seq<Pos>) -> bool {
        &&& self.is_path(start, end, p)
        &&& forall|q: Seq<Pos>| #[trigger] self.is_path(start, end, q) ==> p.len() <= q.len()
    }

    /// The cost of a shortest path from `start` to `end`, one per step.
    pub open spec fn shortest_cost(&self, start: Pos, end: Pos) -> int {
        (choose|p: Seq<Pos>| self.is_shortest_path(start, end, p)).len() - 1
    }

    /// Every shortest path has the cost `shortest_cost`.
    pub proof fn lemma_shortest_cost(&self, start: Pos, end: Pos, p: Seq<Pos>)
        requires
            self.is_shortest_path(start, end, p),
        ensures
            self.reachable(start, end),
            self.shortest_cost(start, end) == p.len() - 1,
    {
        let q = choose|q: Seq<Pos>| self.is_shortest_path(start, end, q);
        assert(self.is_path(start, end, p));
        assert(self.is_path(start, end, q));
    }

    /// A path walked backwards, when the cell it starts from is open.
    pub proof fn lemma_reversed_path(&self, start: Pos, end: Pos, p: Seq<Pos>)
        requires
            self.is_path(start, end, p),
            self.open_at(start),
        ensures
            self.is_path(end, start, reversed(p)),
            reversed(p).len() == p.len(),
    {
        let r = reversed(p);
        let n = p.len();
        assert forall|i: int| 1 <= i < r.len() implies #[trigger] self.open_at(r[i]) && adjacent(
            r[i - 1],
            r[i],
        ) by {
            assert(r[i] == p[n - 1 - i]);
            assert(r[i - 1] == p[n - i]);
            assert(self.open_at(p[n - i]));
            if n - 1 - i >= 1 {
                assert(self.open_at(p[n - 1 - i]));
            }
        }
    }

    /// Between two open cells the shortest cost is the same both ways.
    pub proof fn lemma_cost_both_ways(&self, a: Pos, b: Pos)
        requires
            self.open_at(a),
            self.open_at(b),
            self.reachable(a, b),
        ensures
            self.reachable(b, a),
            self.shortest_cost(a, b) == self.shortest_cost(b, a),
    {
        let p = choose|p: Seq<Pos>| self.is_path(a, b, p);
        self.lemma_reversed_path(a, b, p);
        assert(self.is_path(b, a, reversed(p)));
        let sab = self.lemma_shortest_exists(a, b, p);
        let sba = self.lemma_shortest_exists(b, a, reversed(p));
        self.lemma_shortest_cost(a, b, sab);
        self.lemma_shortest_cost(b, a, sba);
        self.lemma_reversed_path(a, b, sab);
        self.lemma_reversed_path(b, a, sba);
        assert(self.is_path(a, b, reversed(sba)));
        assert(self.is_path(b, a, reversed(sab)));
    }

    /// Where there is a path there is a shortest one.
    pub proof fn lemma_shortest_exists(&self, start: Pos, end: Pos, p: Seq<Pos>) -> (s: Seq<Pos>)
        requires
            self.is_path(start, end, p),
        ensures
            self.is_shortest_path(start, end, s),
        decreases p.len(),
    {
        if exists|q: Seq<Pos>| #[trigger] self.is_path(start, end, q) && q.len() < p.len() {
            let q = choose|q: Seq<Pos>| #[trigger] self.is_path(start, end, q) && q.len() < p.len();
            self.lemma_shortest_exists(start, end, q)
        } else {
            p
        }
    }

    /// Two grids of equal dimensions that hold the same cells.
    pub open spec fn same_cells(&self, other: &Maze) -> bool {
        &&& self.spec_width() == other.spec_width()
        &&& self.spec_height() == other.spec_height()
        &&& forall|x: int, y: int| #[trigger]
            self.in_bounds(x, y) ==> self.cell(x, y) == other.cell(x, y)
    }

    /// Creates a grid of the given `(width, height)` whose cells are all open.
    pub fn new_empty(size: (usize, usize)) -> (r: Self)
        requires
            size.0 <= MAX_CELLS,
            size.1 <= MAX_CELLS,
            size.0 * size.1 <= MAX_CELLS,
        ensures
            r.spec_width() == size.0,
            r.spec_height() == size.1,
            forall|x: int, y: int| r.in_bounds(x, y) ==> #[trigger] r.cell(x, y) == TileState::Empty,
    {
        Maze { data: grid_default(size) }
    }

    /// Creates a grid from its rows: `rows[x][y]` is the cell `(x, y)`.
    /// All rows must have the same length.
    pub fn new_from(rows: Vec<Vec<TileState>>) -> (r: Self)
        requires
            rows@.len() <= MAX_CELLS,
            rows@.len() > 0 ==> rows@[0]@.len() <= MAX_CELLS && rows@.len() * rows@[0]@.len()
                <= MAX_CELLS,
            forall|i: int| 0 <= i < rows@.len() ==> #[trigger] rows@[i]@.len() == rows@[0]@.len(),
        ensures
            r.spec_width() == rows@.len(),
            r.spec_height() == if rows@.len() == 0 { 0 } else { rows@[0]@.len() },
            forall|x: int, y: int| r.in_bounds(x, y) ==> #[trigger] r.cell(x, y) == rows@[x]@[y],
    {
        let width = rows.len();
        let height: usize = if width == 0 {
            0
        } else {
            rows[0].len()
        };
        let mut data = grid_default((width, height));
        let mut x: usize = 0;
        while x < width
            invariant
                x <= width,
                width == rows@.len(),
                height == if width == 0 { 0 } else { rows@[0]@.len() },
                width * height <= MAX_CELLS,
                width <= MAX_CELLS,
                height <= MAX_CELLS,
                forall|i: int| 0 <= i < rows@.len() ==> #[trigger] rows@[i]@.len() == rows@[0]@.len(),
                grid_shape(data) == (width as nat, height as nat),
                forall|i: int, j: int|
                    0 <= i < x && 0 <= j < height ==> #[trigger] grid_cells(data)[(i, j)]
                        == rows@[i]@[j],
            decreases width - x,
        {
            let row = &rows[x];
            let mut y: usize = 0;
            while y < height
                invariant
                    x < width,
                    y <= height,
                    row@ == rows@[x as int]@,
                    row@.len() == height,
                    grid_shape(data) == (width as nat, height as nat),
                    forall|i: int, j: int|
                        0 <= i < x && 0 <= j < height ==> #[trigger] grid_cells(data)[(i, j)]
                            == rows@[i]@[j],
                    forall|j: int|
                        0 <= j < y ==> #[trigger] grid_cells(data)[(x as int, j)]
                            == rows@[x as int]@[j],
                decreases height - y,
            {
                grid_set(&mut data, x, y, row[y]);
                y = y + 1;
            }
            x = x + 1;
        }
        Maze { data }
    }

    /// The grid's `(width, height)`.
    pub fn size(&self) -> (r: (usize, usize))
        ensures
            r.0 == self.spec_width(),
            r.1 == self.spec_height(),
    {
        grid_dim(&self.data)
    }

    /// The cell at `(x, y)`, or `None` outside the grid.
    pub fn at(&self, x: usize, y: usize) -> (r: Option<TileState>)
        ensures
            r == if self.in_bounds(x as int, y as int) {
                Some(self.cell(x as int, y as int))
            } else {
                None::<TileState>
            },
    {
        grid_get(&self.data, x, y)
    }

    /// Whether `(x, y)` lies inside the grid.
    pub fn in_borders(&self, x: i32, y: i32) -> (r: bool)
        ensures
            r == self.in_bounds(x as int, y as int),
    {
        let (w, h) = self.size();
        x >= 0 && y >= 0 && (x as usize) < w && (y as usize) < h
    }
}

impl Maze {
    /// The open cell at `(x, y)`, if there is one.
    fn open_cell(&self, x: i64, y: i64) -> (r: Option<Pos>)
        requires
            i32::MIN <= x <= i32::MAX,
            i32::MIN <= y <= i32::MAX,
        ensures
            r == if self.open_at((x as i32, y as i32)) {
                Some((x as i32, y as i32))
            } else {
                None::<Pos>
            },
    {
        if x >= 0 && y >= 0 {
            match self.at(x as usize, y as usize) {
                Some(TileState::Empty) => Some((x as i32, y as i32)),
                _ => None,
            }
        } else {
            None
        }
    }

    /// The open cells one step away from `p`, each with the cost of the step.
    pub fn neighbours(&self, p: Pos) -> (r: Vec<(Pos, i32)>)
        ensures
            forall|k: int|
                0 <= k < r@.len() ==> #[trigger] r@[k].1 == 1 && self.open_at(r@[k].0)
                    && adjacent(p, r@[k].0),
            forall|q: Pos|
                adjacent(p, q) && #[trigger] self.open_at(q) ==> exists|k: int|
                    0 <= k < r@.len() && r@[k].0 == q,
    {
        let x = p.0 as i64;
        let y = p.1 as i64;
        let mut r: Vec<(Pos, i32)> = Vec::new();
        let steps: [(i64, i64); 4] = [(x - 1, y), (x + 1, y), (x, y - 1), (x, y + 1)];
        let mut i: usize = 0;
        while i < 4
            invariant
                i <= 4,
                x == p.0,
                y == p.1,
                steps@.len() == 4,
                steps@[0].0 == x - 1 && steps@[0].1 == y,
                steps@[1].0 == x + 1 && steps@[1].1 == y,
                steps@[2].0 == x && steps@[2].1 == y - 1,
                steps@[3].0 == x && steps@[3].1 == y + 1,
                forall|k: int|
                    0 <= k < r@.len() ==> #[trigger] r@[k].1 == 1 && self.open_at(r@[k].0)
                        && adjacent(p, r@[k].0),
                forall|j: int|
                    0 <= j < i && i32::MIN <= #[trigger] steps@[j].0 <= i32::MAX && i32::MIN
                        <= steps@[j].1 <= i32::MAX && self.open_at(
                        (steps@[j].0 as i32, steps@[j].1 as i32),
                    ) ==> exists|k: int|
                        0 <= k < r@.len() && r@[k].0 == (steps@[j].0 as i32, steps@[j].1 as i32),
            decreases 4 - i,
        {
            let (sx, sy) = steps[i];
            let ghost r0 = r@;
            if i32::MIN as i64 <= sx && sx <= i32::MAX as i64 && i32::MIN as i64 <= sy && sy
                <= i32::MAX as i64 {
                match self.open_cell(sx, sy) {
                    Some(q) => {
                        assert(adjacent(p, q));
                        r.push((q, 1));
                        assert(r@[r@.len() - 1].0 == q);
                    },
                    None => {},
                }
            }
            proof {
                assert forall|j: int|
                    0 <= j < i + 1 && i32::MIN <= #[trigger] steps@[j].0 <= i32::MAX && i32::MIN
                        <= steps@[j].1 <= i32::MAX && self.open_at(
                        (steps@[j].0 as i32, steps@[j].1 as i32),
                    ) implies exists|k: int|
                        0 <= k < r@.len() && r@[k].0 == (steps@[j].0 as i32, steps@[j].1 as i32)
                by {
                    if j < i {
                        let k = choose|k: int|
                            0 <= k < r0.len() && r0[k].0 == (steps@[j].0 as i32, steps@[j].1 as i32);
                        assert(r@[k] == r0[k]);
                    } else {
                        assert(r@[r@.len() - 1].0 == (steps@[j].0 as i32, steps@[j].1 as i32));
                    }
                }
            }
            i = i + 1;
        }
        proof {
            assert forall|q: Pos| adjacent(p, q) && #[trigger] self.open_at(q) implies exists|k: int|
                0 <= k < r@.len() && r@[k].0 == q by {
                if q.0 == p.0 - 1 {
                    assert(steps@[0].0 == q.0 && steps@[0].1 == q.1);
                } else if q.0 == p.0 + 1 {
                    assert(steps@[1].0 == q.0 && steps@[1].1 == q.1);
                } else if q.1 == p.1 - 1 {
                    assert(steps@[2].0 == q.0 && steps@[2].1 == q.1);
                } else {
                    assert(steps@[3].0 == q.0 && steps@[3].1 == q.1);
                }
            }
        }
        r
    }

    /// A shortest path from `start` to `end` through open cells, found by A*
    /// search, with its cost of one per step, or `None` when `end` cannot be
    /// reached. Where `start == end` it is `[start]` with cost zero.
    pub fn find_path(&self, start: Pos, end: Pos) -> (r: Option<(Vec<Pos>, i32)>)
        ensures
            match r {
                Some((p, c)) => self.is_shortest_path(start, end, p@) && c == p@.len() - 1,
                None => !self.reachable(start, end),
            },
            start == end ==> (r matches Some((p, c)) && p@ == seq![start] && c == 0),
    {
        let r = astar_search(self, start, end);
        proof {
            if start == end {
                let one = seq![start];
                assert(self.is_path(start, end, one));
                if r is Some {
                    let (pv, cv) = r->0;
                    let p = pv@;
                    assert(p.len() <= one.len());
                    assert(p =~= one);
                }
            }
        }
        r
    }
}

impl Maze {
    pub open spec fn blocked_count(&self, x: int, y: int) -> int {
        if self.blocked(x, y) {
            1
        } else {
            0
        }
    }

    /// What the cell `(x, y)` adds to the grid's look: a blocked cell costs
    /// one and earns one for each blocked cell beside it.
    pub open spec fn cell_prettiness(&self, x: int, y: int) -> int {
        if self.blocked(x, y) {
            -1 + self.blocked_count(x - 1, y) + self.blocked_count(x + 1, y) + self.blocked_count(
                x,
                y - 1,
            ) + self.blocked_count(x, y + 1)
        } else {
            0
        }
    }

    /// The sum of `cell_prettiness(x, y)` over `y < n`.
    pub open spec fn column_prettiness(&self, x: int, n: int) -> int
        decreases n,
    {
        if n <= 0 {
            0
        } else {
            self.column_prettiness(x, n - 1) + self.cell_prettiness(x, n - 1)
        }
    }

    /// The sum of the column sums over `x < n`.
    pub open spec fn columns_prettiness(&self, n: int) -> int
        decreases n,
    {
        if n <= 0 {
            0
        } else {
            self.columns_prettiness(n - 1) + self.column_prettiness(n - 1, self.spec_height() as int)
        }
    }

    /// How much the grid's blocked cells form walls rather than scattered specks.
    pub open spec fn prettiness(&self) -> int {
        self.columns_prettiness(self.spec_width() as int)
    }

    fn blocked_at(&self, x: i64, y: i64) -> (r: bool)
        requires
            -1 <= x <= MAX_CELLS,
            -1 <= y <= MAX_CELLS,
        ensures
            r == self.blocked(x as int, y as int),
    {
        x >= 0 && y >= 0 && match self.at(
            x as usize,
            y as usize,
        ) {
            Some(TileState::Full) => true,
            _ => false,
        }
    }

    /// Computes `prettiness`.
    pub fn prettiness_score(&self) -> (r: i32)
        ensures
            r == self.prettiness(),
    {
        proof {
            use_type_invariant(self);
        }
        let (w, h) = self.size();
        let mut score: i32 = 0;
        let mut x: usize = 0;
        while x < w
            invariant
                w == self.spec_width(),
                h == self.spec_height(),
                w * h <= MAX_CELLS,
                x <= w,
                score == self.columns_prettiness(x as int),
                -(x * h) <= score <= 3 * (x * h),
            decreases w - x,
        {
            let mut y: usize = 0;
            proof {
                assert(x * h + h <= w * h) by (nonlinear_arith)
                    requires x < w;
            }
            while y < h
                invariant
                    w == self.spec_width(),
                    h == self.spec_height(),
                    w * h <= MAX_CELLS,
                    x < w,
                    x * h + h <= w * h,
                    y <= h,
                    score == self.columns_prettiness(x as int) + self.column_prettiness(x as int, y as int),
                    -(x * h + y) <= score <= 3 * (x * h + y),
                decreases h - y,
            {
                proof {
                    assert(w <= w * h) by (nonlinear_arith)
                        requires h >= 1;
                }
                if self.blocked_at(x as i64, y as i64) {
                    let xi = x as i64;
                    let yi = y as i64;
                    let mut c: i32 = -1;
                    if self.blocked_at(xi - 1, yi) {
                        c = c + 1;
                    }
                    if self.blocked_at(xi + 1, yi) {
                        c = c + 1;
                    }
                    if self.blocked_at(xi, yi - 1) {
                        c = c + 1;
                    }
                    if self.blocked_at(xi, yi + 1) {
                        c = c + 1;
                    }
                    score = score + c;
                }
                y = y + 1;
            }
            proof {
                assert((x + 1) * h == x * h + h) by (nonlinear_arith);
            }
            x = x + 1;
        }
        score
    }
}

pub open spec fn flipped(t: TileState) -> TileState {
    match t {
        TileState::Full => TileState::Empty,
        TileState::Empty => TileState::Full,
    }
}

impl Maze {
    /// `other` is this grid with the one cell `(x, y)` flipped.
    pub open spec fn one_flip(&self, other: &Maze, x: int, y: int) -> bool {
        &&& self.in_bounds(x, y)
        &&& self.spec_width() == other.spec_width()
        &&& self.spec_height() == other.spec_height()
        &&& other.cell(x, y) == flipped(self.cell(x, y))
        &&& forall|i: int, j: int|
            #[trigger] self.in_bounds(i, j) && (i != x || j != y) ==> other.cell(i, j) == self.cell(
                i,
                j,
            )
    }

    /// This grid with the cell `(x, y)` flipped between open and blocked.
    pub fn toggled(&self, x: usize, y: usize) -> (r: Maze)
        requires
            self.in_bounds(x as int, y as int),
        ensures
            self.one_flip(&r, x as int, y as int),
    {
        proof {
            use_type_invariant(self);
        }
        let mut data = grid_clone(&self.data);
        let t = match grid_get(&self.data, x, y) {
            Some(TileState::Full) => TileState::Empty,
            _ => TileState::Full,
        };
        grid_set(&mut data, x, y, t);
        Maze { data }
    }
}

/// How many times the cell `c` occurs in `picks`.
pub open spec fn times_picked(picks: Seq<(int, int)>, c: (int, int)) -> nat
    decreases picks.len(),
{
    if picks.len() == 0 {
        0
    } else {
        times_picked(picks.drop_last(), c) + if picks.last() == c {
            1nat
        } else {
            0nat
        }
    }
}

/// `t` flipped `n` times over.
pub open spec fn flipped_times(t: TileState, n: nat) -> TileState {
    if n % 2 == 0 {
        t
    } else {
        flipped(t)
    }
}

impl Maze {
    /// `other` is this grid with its cells flipped one after another at the
    /// cells of `picks`: a cell picked an even number of times is as it was.
    pub open spec fn flips_of(&self, other: &Maze, picks: Seq<(int, int)>) -> bool {
        &&& self.spec_width() == other.spec_width()
        &&& self.spec_height() == other.spec_height()
        &&& forall|k: int| 0 <= k < picks.len() ==> self.in_bounds(#[trigger] picks[k].0, picks[k].1)
        &&& forall|x: int, y: int| #[trigger]
            self.in_bounds(x, y) ==> other.cell(x, y) == flipped_times(
                self.cell(x, y),
                times_picked(picks, (x, y)),
            )
    }
}

impl Evolutionable for Maze {
    open spec fn same_solution(&self, other: &Self) -> bool {
        self.same_cells(other)
    }

    /// A grid with cells is flipped at `mutations` cells picked one by one,
    /// with replacement; a grid without cells stays as it is.
    open spec fn offspring_of(&self, parent: &Self, mutations: u32) -> bool {
        if parent.spec_width() > 0 && parent.spec_height() > 0 {
            exists|picks: Seq<(int, int)>|
                picks.len() == mutations && #[trigger] parent.flips_of(self, picks)
        } else {
            self.same_cells(parent)
        }
    }

    /// Each step picks a cell uniformly at random and flips it.
    fn mutate(&self, mutations: u32, rng: &mut ThreadRng) -> (r: Self) {
        let mut offspring = self.clone();
        let (w, h) = self.size();
        if w == 0 || h == 0 {
            return offspring;
        }
        let ghost mut picks: Seq<(int, int)> = Seq::empty();
        assert forall|a: int, b: int| #[trigger] self.in_bounds(a, b) implies offspring.cell(a, b)
            == flipped_times(self.cell(a, b), times_picked(picks, (a, b))) by {
            assert(offspring.in_bounds(a, b));
        }
        let mut i: u32 = 0;
        while i < mutations
            invariant
                i <= mutations,
                w == self.spec_width(),
                h == self.spec_height(),
                w > 0,
                h > 0,
                picks.len() == i,
                self.flips_of(&offspring, picks),
            decreases mutations - i,
        {
            let x = random_below(rng, w);
            let y = random_below(rng, h);
            let next = offspring.toggled(x, y);
            proof {
                let p1 = picks.push((x as int, y as int));
                assert(p1.drop_last() == picks);
                assert forall|a: int, b: int| #[trigger] self.in_bounds(a, b) implies next.cell(a, b)
                    == flipped_times(self.cell(a, b), times_picked(p1, (a, b))) by {
                    assert(offspring.in_bounds(a, b));
                    let n = times_picked(picks, (a, b));
                    if a == x && b == y {
                        lemma_flip_once_more(self.cell(a, b), n);
                    }
                }
                assert forall|k: int| 0 <= k < p1.len() implies self.in_bounds(
                    #[trigger] p1[k].0,
                    p1[k].1,
                ) by {
                    if k < picks.len() {
                        assert(p1[k] == picks[k]);
                    }
                }
                picks = p1;
            }
            offspring = next;
            i = i + 1;
        }
        proof {
            if mutations == 0 {
                assert forall|a: int, b: int| #[trigger] offspring.in_bounds(a, b) implies offspring.cell(
                    a,
                    b,
                ) == self.cell(a, b) by {
                    assert(self.in_bounds(a, b));
                }
            }
        }
        offspring
    }
}

/// One more flip turns `n` flips into `n + 1`.
proof fn lemma_flip_once_more(t: TileState, n: nat)
    ensures
        flipped_times(t, n + 1) == flipped(flipped_times(t, n)),
{
    if n % 2 == 0 {
    } else {
        assert((n + 1) % 2 == 0);
        match t {
            TileState::Full => {},
            TileState::Empty => {},
        }
    }
}

/// The fitness of a maze whose search found a path of cost `cost`: fifty
/// per step of the path plus its prettiness, kept within `i32`.
pub open spec fn path_fitness(cost: int, prettiness: int) -> int {
    clamp_i32(cost * 50 + prettiness)
}

/// The fitness for the outcome of a search: `INFEASIBLE` where it found no
/// path, else `path_fitness` of the cost it found.
pub fn fitness_from_search(found: Option<i32>, prettiness: i32) -> (r: i32)
    ensures
        r == match found {
            Some(c) => path_fitness(c as int, prettiness as int),
            None => INFEASIBLE as int,
        },
{
    match found {
        Some(c) => clamp_to_i32(c as i64 * 50 + prettiness as i64),
        None => INFEASIBLE,
    }
}

/// Scores mazes for fixed start and goal cells.
pub struct MazeEval {
    start: Pos,
    end: Pos,
}

impl MazeEval {
    pub fn new(start: Pos, end: Pos) -> (r: Self)
        ensures
            r.spec_start() == start,
            r.spec_end() == end,
    {
        MazeEval { start, end }
    }

    pub closed spec fn spec_start(&self) -> Pos {
        self.start
    }

    pub closed spec fn spec_end(&self) -> Pos {
        self.end
    }
}

impl Clone for MazeEval {
    fn clone(&self) -> (r: Self)
        ensures
            r.spec_start() == self.spec_start(),
            r.spec_end() == self.spec_end(),
    {
        MazeEval { start: self.start, end: self.end }
    }
}

impl Default for MazeEval {
    fn default() -> (r: Self)
        ensures
            r.spec_start() == (0i32, 0i32),
            r.spec_end() == (0i32, 0i32),
    {
        MazeEval { start: (0, 0), end: (0, 0) }
    }
}

impl MazeEval {
    /// The fitness of `sol`: `INFEASIBLE` where the start cell is not open or
    /// the goal cannot be reached from it; else `path_fitness` of the cost of
    /// a shortest path.
    pub open spec fn maze_fitness(&self, sol: &Maze) -> i32 {
        if !sol.open_at(self.spec_start()) || !sol.reachable(self.spec_start(), self.spec_end()) {
            INFEASIBLE
        } else {
            path_fitness(
                sol.shortest_cost(self.spec_start(), self.spec_end()),
                sol.prettiness(),
            ) as i32
        }
    }
}

impl Evaluator<Maze> for MazeEval {
    open spec fn spec_evaluate(&self, sol: &Maze) -> i32 {
        self.maze_fitness(sol)
    }

    fn evaluate(&self, sol: &Maze) -> (r: i32)
        ensures
            !sol.open_at(self.spec_start()) ==> r == INFEASIBLE,
    {
        match sol.open_cell(self.start.0 as i64, self.start.1 as i64) {
            None => {
                return INFEASIBLE;
            },
            Some(_) => {},
        }
        let prettiness = sol.prettiness_score();
        match sol.find_path(self.start, self.end) {
            Some((p, c)) => {
                proof {
                    sol.lemma_shortest_cost(self.start, self.end, p@);
                }
                fitness_from_search(Some(c), prettiness)
            },
            None => fitness_from_search(None, prettiness),
        }
    }
}

/// The largest estimate the search is given: low enough that adding the cost
/// of any path through a maze stays within `i32`.
pub const ESTIMATE_MAX: i32 = 1_610_612_734;

pub open spec fn clamp_estimate(v: int) -> int {
    if v < i32::MIN {
        i32::MIN as int
    } else if v > ESTIMATE_MAX {
        ESTIMATE_MAX as int
    } else {
        v
    }
}

/// The search's estimate of the cost from `p` to `end`: the differences of
/// the two coordinates, summed with their signs, kept between `i32::MIN`
/// and `ESTIMATE_MAX`. It never exceeds the length of a path to `end`.
pub fn signed_remaining(p: Pos, end: Pos) -> (r: i32)
    ensures
        r == clamp_estimate(end.0 - p.0 + end.1 - p.1),
{
    let d: i64 = (end.0 as i64 - p.0 as i64) + (end.1 as i64 - p.1 as i64);
    if d > ESTIMATE_MAX as i64 {
        ESTIMATE_MAX
    } else {
        clamp_to_i32(d)
    }
}

/// Whether the search has arrived.
pub fn is_goal(p: &Pos, end: Pos) -> (r: bool)
    ensures
        r == (*p == end),
{
    p.0 == end.0 && p.1 == end.1
}

pub open spec fn clamp_i32(v: int) -> int {
    if v < i32::MIN {
        i32::MIN as int
    } else if v > i32::MAX {
        i32::MAX as int
    } else {
        v
    }
}

fn clamp_to_i32(v: i64) -> (r: i32)
    ensures
        r == clamp_i32(v as int),
{
    if v < i32::MIN as i64 {
        i32::MIN
    } else if v > i32::MAX as i64 {
        i32::MAX
    } else {
        v as i32
    }
}

/// Relies on pathfinding's `astar`: given an estimate that never exceeds
/// the real remaining cost, it returns a shortest path from `start` to a
/// node that `success` accepts, moving only by steps that `successors`
/// offers, with its cost, the sum of the step costs (one each here); it
/// returns `None` only when no such node can be reached. The estimate is at
/// most `ESTIMATE_MAX`, so no sum of a cost and an estimate leaves `i32`.
#[verifier::external_body]
fn astar_search(maze: &Maze, start: Pos, end: Pos) -> (r: Option<(Vec<Pos>, i32)>)
    ensures
        match r {
            Some((p, c)) => maze.is_shortest_path(start, end, p@) && c == p@.len() - 1,
            None => !maze.reachable(start, end),
        },
{
    astar(&start, |p| maze.neighbours(*p), |p| signed_remaining(*p, end), |p| is_goal(p, end))
}

impl Clone for Maze {
    fn clone(&self) -> (r: Self)
        ensures
            r.same_cells(self),
    {
        proof {
            use_type_invariant(self);
        }
        Maze { data: grid_clone(&self.data) }
    }
}

} // verus!
