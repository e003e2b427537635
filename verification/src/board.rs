//! The board: the two axes' constraints, the shared cell grid, and the
//! incremental solving loop that round-robins the line solver over every
//! row, then every column.

use vstd::prelude::*;

use crate::cell::Cell;
use crate::solver::lemma_intersection_preserves;
use crate::solver::solve_line;
use crate::solver::solved_line;

verus! {

/// One axis of the puzzle: how many lines it has, and the ordered run
/// lengths each of those lines must show.
#[derive(Clone, Debug)]
pub struct Side {
    pub len: usize,
    pub constraints: Vec<Vec<u32>>,
}

/// Which line the most recent step worked on, and the running counter that
/// round-robins over all rows, then all columns.
#[derive(Clone, Copy, Debug, PartialEq, Eq, Structural)]
pub struct SolveState {
    pub counter: usize,
    pub is_x: bool,
    pub idx: usize,
}

impl Default for SolveState {
    /// The cursor as the first step places it: at the first line of the
    /// x axis, before any counting.
    fn default() -> (st: SolveState)
        ensures
            st == (SolveState { counter: 0, is_x: true, idx: 0 }),
    {
        SolveState { counter: 0, is_x: true, idx: 0 }
    }
}

/// Why a board cannot be built from two sides.
#[derive(Clone, Copy, Debug, PartialEq, Eq, Structural)]
pub enum BoardError {
    /// A side's list of constraint lines does not match its declared length.
    ShapeMismatch,
    /// Some line's runs cannot fit its line even with minimal gaps, or a run
    /// of length zero occurs.
    InvalidConstraints,
}

/// The puzzle board: both sides, the grid indexed `[x][y]`, and the cursor
/// of the solving loop (absent until the first step).
#[derive(Clone, Debug)]
pub struct Board {
    pub x: Side,
    pub y: Side,
    pub state: Vec<Vec<Cell>>,
    pub solve_state: Option<SolveState>,
}

// ---------------------------------------------------------------------------
// Views and well-formedness.
// ---------------------------------------------------------------------------

pub open spec fn side_cons(s: Side) -> Seq<Seq<u32>> {
    s.constraints@.map_values(|v: Vec<u32>| v@)
}

pub open spec fn side_shape_ok(s: Side) -> bool {
    s.constraints@.len() == s.len
}

pub open spec fn grid_of(b: Board) -> Seq<Seq<Cell>> {
    b.state@.map_values(|row: Vec<Cell>| row@)
}

pub open spec fn all_unknown_grid(g: Seq<Seq<Cell>>, xl: int, yl: int) -> bool {
    &&& g.len() == xl
    &&& forall|i: int| 0 <= i < xl ==> (#[trigger] g[i]).len() == yl
    &&& forall|i: int, j: int| 0 <= i < xl && 0 <= j < yl ==> #[trigger] g[i][j] == Cell::Unknown
}

/// The sum of a line's run lengths.
pub open spec fn sum_runs(cons: Seq<u32>) -> int
    decreases cons.len(),
{
    if cons.len() == 0 {
        0
    } else {
        sum_runs(cons.drop_last()) + cons.last()
    }
}

/// The runs of one line fit that line: each is at least one cell long, and
/// their total length plus one separating cell between neighbours is no more
/// than the line.  An empty list always fits.
pub open spec fn line_fits(cons: Seq<u32>, len: int) -> bool {
    cons.len() == 0 || {
        &&& forall|i: int| 0 <= i < cons.len() ==> #[trigger] cons[i] >= 1
        &&& sum_runs(cons) + cons.len() - 1 <= len
    }
}

/// Every line of the side fits a crossing line of length `line_len`.
pub open spec fn side_fits(s: Side, line_len: int) -> bool {
    forall|i: int| 0 <= i < side_cons(s).len() ==> line_fits(#[trigger] side_cons(s)[i], line_len)
}

impl Board {
    /// The shape invariant: sides and grid agree on the dimensions, and the
    /// cursor stays inside one full rotation.
    pub open spec fn wf(self) -> bool {
        &&& side_shape_ok(self.x)
        &&& side_shape_ok(self.y)
        &&& self.state@.len() == self.x.len
        &&& forall|i: int| 0 <= i < self.state@.len() ==> (#[trigger] self.state@[i])@.len()
            == self.y.len
        &&& self.x.len + self.y.len < usize::MAX
        &&& match self.solve_state {
            Option::Some(st) => st.counter == 0 || st.counter < self.x.len + self.y.len,
            Option::None => true,
        }
    }
}

// ---------------------------------------------------------------------------
// Validating a line's constraints.
// ---------------------------------------------------------------------------

proof fn lemma_sum_take_step(cons: Seq<u32>, i: int)
    requires
        0 <= i < cons.len(),
    ensures
        sum_runs(cons.take(i + 1)) == sum_runs(cons.take(i)) + cons[i],
{
    assert(cons.take(i + 1).drop_last() =~= cons.take(i));
    assert(cons.take(i + 1).last() == cons[i]);
}

proof fn lemma_sum_prefix_bound(cons: Seq<u32>, i: int)
    requires
        0 <= i <= cons.len(),
    ensures
        sum_runs(cons) >= sum_runs(cons.take(i)),
    decreases cons.len() - i,
{
    if i == cons.len() {
        assert(cons.take(i) =~= cons);
    } else {
        lemma_sum_prefix_bound(cons, i + 1);
        lemma_sum_take_step(cons, i);
    }
}

/// Whether `cons` fits a line of `len` cells.
fn line_fits_exec(cons: &Vec<u32>, len: usize) -> (r: bool)
    ensures
        r == line_fits(cons@, len as int),
{
    let n = cons.len();
    if n == 0 {
        return true;
    }
    let mut span: usize = 0;
    let mut i: usize = 0;
    while i < n
        invariant
            0 <= i <= n,
            n == cons@.len(),
            forall|j: int| 0 <= j < i ==> #[trigger] cons@[j] >= 1,
            span as int == sum_runs(cons@.take(i as int)) + (if i == 0 {
                0int
            } else {
                i - 1
            }),
            span <= len,
        decreases n - i,
    {
        let run32 = cons[i];
        if run32 == 0 {
            return false;
        }
        let run = run32 as usize;
        let sep: usize = if i == 0 {
            0
        } else {
            1
        };
        proof {
            lemma_sum_take_step(cons@, i as int);
            lemma_sum_prefix_bound(cons@, i as int + 1);
        }
        if len - span < sep || run > len - span - sep {
            proof {
                assert(sum_runs(cons@) + cons@.len() - 1 >= sum_runs(cons@.take(i as int + 1)) + n
                    - 1);
            }
            return false;
        }
        span = span + sep + run;
        i += 1;
    }
    proof {
        assert(cons@.take(n as int) =~= cons@);
    }
    true
}

// ---------------------------------------------------------------------------
// Construction.
// ---------------------------------------------------------------------------

impl Side {
    /// An axis of `len` lines, each without any required run.
    pub fn new(len: usize) -> (s: Side)
        ensures
            s.len == len,
            side_shape_ok(s),
            forall|i: int| 0 <= i < len ==> (#[trigger] side_cons(s)[i]).len() == 0,
    {
        let mut constraints: Vec<Vec<u32>> = Vec::new();
        let mut i: usize = 0;
        while i < len
            invariant
                0 <= i <= len,
                constraints@.len() == i,
                forall|j: int| 0 <= j < i ==> (#[trigger] constraints@[j])@.len() == 0,
            decreases len - i,
        {
            constraints.push(Vec::new());
            i += 1;
        }
        Side { len, constraints }
    }
}

impl Board {
    /// A fresh all-unknown grid of the given dimensions.
    pub fn default_state(x_len: usize, y_len: usize) -> (g: Vec<Vec<Cell>>)
        ensures
            all_unknown_grid(g@.map_values(|row: Vec<Cell>| row@), x_len as int, y_len as int),
    {
        let mut g: Vec<Vec<Cell>> = Vec::new();
        let mut i: usize = 0;
        while i < x_len
            invariant
                0 <= i <= x_len,
                g@.len() == i,
                forall|ii: int| 0 <= ii < i ==> (#[trigger] g@[ii])@.len() == y_len,
                forall|ii: int, j: int| 0 <= ii < i && 0 <= j < y_len ==> #[trigger] g@[ii]@[j]
                    == Cell::Unknown,
            decreases x_len - i,
        {
            let mut row: Vec<Cell> = Vec::new();
            let mut j: usize = 0;
            while j < y_len
                invariant
                    0 <= j <= y_len,
                    row@.len() == j,
                    forall|jj: int| 0 <= jj < j ==> row@[jj] == Cell::Unknown,
                decreases y_len - j,
            {
                row.push(Cell::default());
                j += 1;
            }
            g.push(row);
            i += 1;
        }
        g
    }

    /// An empty board: all cells unknown, no required run on any line, no
    /// cursor yet.
    pub fn new(x_len: usize, y_len: usize) -> (b: Board)
        requires
            x_len + y_len < usize::MAX,
        ensures
            b.wf(),
            b.x.len == x_len,
            b.y.len == y_len,
            forall|i: int| 0 <= i < x_len ==> (#[trigger] side_cons(b.x)[i]).len() == 0,
            forall|i: int| 0 <= i < y_len ==> (#[trigger] side_cons(b.y)[i]).len() == 0,
            all_unknown_grid(grid_of(b), x_len as int, y_len as int),
            b.solve_state is None,
    {
        let b = Board {
            x: Side::new(x_len),
            y: Side::new(y_len),
            state: Self::default_state(x_len, y_len),
            solve_state: Option::None,
        };
        proof {
            assert forall|i: int| 0 <= i < b.state@.len() implies (#[trigger] b.state@[i])@.len()
                == b.y.len by {
                assert(grid_of(b)[i] == b.state@[i]@);
            }
        }
        b
    }

    /// A board shaped by the two given sides, every cell unknown and no
    /// cursor.  The sides are rejected when a constraint list does not match
    /// its side's declared length, or when some line's runs cannot fit the
    /// crossing axis.
    pub fn by_sides(x: Side, y: Side) -> (r: Result<Board, BoardError>)
        requires
            x.len + y.len < usize::MAX,
        ensures
            match r {
                Result::Ok(b) => {
                    &&& side_shape_ok(x) && side_shape_ok(y)
                    &&& side_fits(x, y.len as int) && side_fits(y, x.len as int)
                    &&& b.wf()
                    &&& b.x.len == x.len && side_cons(b.x) == side_cons(x)
                    &&& b.y.len == y.len && side_cons(b.y) == side_cons(y)
                    &&& all_unknown_grid(grid_of(b), x.len as int, y.len as int)
                    &&& b.solve_state is None
                },
                Result::Err(e) => match e {
                    BoardError::ShapeMismatch => !(side_shape_ok(x) && side_shape_ok(y)),
                    BoardError::InvalidConstraints => side_shape_ok(x) && side_shape_ok(y) && !(
                    side_fits(x, y.len as int) && side_fits(y, x.len as int)),
                },
            },
    {
        if x.constraints.len() != x.len || y.constraints.len() != y.len {
            return Result::Err(BoardError::ShapeMismatch);
        }
        let x_len = x.len;
        let y_len = y.len;
        let mut ok = true;
        let mut i: usize = 0;
        while i < x_len
            invariant
                0 <= i <= x_len,
                x.constraints@.len() == x_len,
                ok == (forall|j: int| 0 <= j < i ==> line_fits(
                    #[trigger] side_cons(x)[j],
                    y_len as int,
                )),
            decreases x_len - i,
        {
            let fits_i = line_fits_exec(&x.constraints[i], y_len);
            proof {
                assert(side_cons(x)[i as int] == x.constraints@[i as int]@);
            }
            if !fits_i {
                ok = false;
            }
            i += 1;
        }
        let mut i: usize = 0;
        let mut ok_y = true;
        while i < y_len
            invariant
                0 <= i <= y_len,
                y.constraints@.len() == y_len,
                ok_y == (forall|j: int| 0 <= j < i ==> line_fits(
                    #[trigger] side_cons(y)[j],
                    x_len as int,
                )),
            decreases y_len - i,
        {
            let fits_i = line_fits_exec(&y.constraints[i], x_len);
            proof {
                assert(side_cons(y)[i as int] == y.constraints@[i as int]@);
            }
            if !fits_i {
                ok_y = false;
            }
            i += 1;
        }
        if !(ok && ok_y) {
            return Result::Err(BoardError::InvalidConstraints);
        }
        let b = Board {
            x,
            y,
            state: Self::default_state(x_len, y_len),
            solve_state: Option::None,
        };
        proof {
            assert forall|i: int| 0 <= i < b.state@.len() implies (#[trigger] b.state@[i])@.len()
                == b.y.len by {
                assert(grid_of(b)[i] == b.state@[i]@);
            }
        }
        Result::Ok(b)
    }
}

// ---------------------------------------------------------------------------
// The solving loop.
// ---------------------------------------------------------------------------

/// Column `j` of the grid, read across every row.
pub open spec fn col_of(g: Seq<Seq<Cell>>, j: int) -> Seq<Cell> {
    Seq::new(g.len(), |i: int| g[i][j])
}

/// Whether the counter value names a row (`true`) or a column.
pub open spec fn visited_axis_is_x(counter: int, x_len: int) -> bool {
    counter < x_len
}

/// Which line of its axis the counter value names.
pub open spec fn visited_index(counter: int, x_len: int) -> int {
    if counter < x_len {
        counter
    } else {
        counter - x_len
    }
}

/// What one step of the solving loop does.  The first step only places the
/// cursor; afterwards each step solves the line the counter picks — all
/// rows in order, then all columns — writes any newly determined cells
/// back, and advances the counter by one, wrapping after a full rotation.
pub open spec fn step_rel(pre: Board, post: Board) -> bool {
    match pre.solve_state {
        Option::None => {
            &&& grid_of(post) == grid_of(pre)
            &&& post.solve_state == Option::Some(SolveState { counter: 0, is_x: true, idx: 0 })
        },
        Option::Some(st) => {
            let total = pre.x.len + pre.y.len;
            if total == 0 {
                &&& grid_of(post) == grid_of(pre)
                &&& post.solve_state == pre.solve_state
            } else {
                let use_x = visited_axis_is_x(st.counter as int, pre.x.len as int);
                let li = visited_index(st.counter as int, pre.x.len as int);
                &&& post.solve_state == Option::Some(
                    SolveState {
                        counter: (((st.counter + 1) as int % total as int) as usize),
                        is_x: use_x,
                        idx: li as usize,
                    },
                )
                &&& if use_x {
                    match solved_line(side_cons(pre.x)[li], grid_of(pre)[li]) {
                        Option::Some(upd) => grid_of(post) == grid_of(pre).update(li, upd),
                        Option::None => grid_of(post) == grid_of(pre),
                    }
                } else {
                    match solved_line(side_cons(pre.y)[li], col_of(grid_of(pre), li)) {
                        Option::Some(upd) => grid_of(post) == Seq::new(
                            grid_of(pre).len(),
                            |i: int| grid_of(pre)[i].update(li, upd[i]),
                        ),
                        Option::None => grid_of(post) == grid_of(pre),
                    }
                }
            }
        },
    }
}

impl Board {
    /// Advance the solving loop by one line's worth of work.  The very
    /// first call only places the cursor and solves nothing; every later
    /// call solves one line and merges the outcome into the grid.  The call
    /// always succeeds; a line that yields no new information leaves the
    /// grid untouched.  No cell ever moves back from determined to unknown,
    /// nor flips its determined value.
    pub fn next(&mut self) -> (r: Option<()>)
        requires
            old(self).wf(),
        ensures
            final(self).wf(),
            r == Option::<()>::Some(()),
            final(self).x == old(self).x,
            final(self).y == old(self).y,
            step_rel(*old(self), *final(self)),
            forall|i: int, j: int|
                0 <= i < old(self).x.len && 0 <= j < old(self).y.len && grid_of(*old(self))[i][j]
                    is Determined ==> #[trigger] grid_of(*final(self))[i][j] == grid_of(
                    *old(self),
                )[i][j],
    {
        let ghost pre = *old(self);
        let ghost g0 = grid_of(*old(self));
        proof {
            assert forall|i: int| 0 <= i < g0.len() implies #[trigger] g0[i] == pre.state@[i]@ by {}
        }
        let st = match self.solve_state {
            Option::None => {
                self.solve_state = Option::Some(SolveState::default());
                proof {
                    assert(grid_of(*self) == g0);
                }
                return Option::Some(());
            },
            Option::Some(st) => st,
        };
        let total = self.x.len + self.y.len;
        if total == 0 {
            return Option::Some(());
        }
        let use_x = st.counter < self.x.len;
        let li = if use_x {
            st.counter
        } else {
            st.counter - self.x.len
        };
        let ghost lii = li as int;
        if use_x {
            // Row `li`: its snapshot is the grid row itself.
            let y_len = self.y.len;
            let mut snap: Vec<Cell> = Vec::new();
            let mut j: usize = 0;
            while j < y_len
                invariant
                    0 <= j <= y_len,
                    snap@.len() == j,
                    *self == pre,
                    pre.wf(),
                    lii < pre.x.len,
                    y_len == pre.y.len,
                    lii == li as int,
                    forall|jj: int| 0 <= jj < j ==> snap@[jj] == pre.state@[lii]@[jj],
                decreases y_len - j,
            {
                snap.push(self.state[li][j]);
                j += 1;
            }
            proof {
                assert(snap@ =~= g0[lii]);
            }
            let res = solve_line(&self.x.constraints[li], &snap);
            let ghost consv = side_cons(pre.x)[lii];
            proof {
                assert(consv == pre.x.constraints@[lii]@);
            }
            match res {
                Option::Some(upd) => {
                    proof {
                        assert(solved_line(consv, g0[lii]) == Option::Some(upd@));
                        assert(upd@ == crate::solver::intersection(consv, g0[lii]));
                        assert(upd@.len() == g0[lii].len());
                    }
                    self.state[li] = upd;
                    proof {
                        assert(grid_of(*self) =~~= g0.update(lii, upd@));
                    }
                },
                Option::None => {
                    proof {
                        assert(grid_of(*self) == g0);
                    }
                },
            }
        } else {
            // Column `li`: gather its snapshot across the rows, then
            // scatter any update back, one cell per row.
            let x_len = self.x.len;
            let mut snap: Vec<Cell> = Vec::new();
            let mut i: usize = 0;
            while i < x_len
                invariant
                    0 <= i <= x_len,
                    snap@.len() == i,
                    *self == pre,
                    pre.wf(),
                    lii < pre.y.len,
                    x_len == pre.x.len,
                    lii == li as int,
                    forall|ii: int| 0 <= ii < i ==> snap@[ii] == pre.state@[ii]@[lii],
                decreases x_len - i,
            {
                snap.push(self.state[i][li]);
                i += 1;
            }
            proof {
                assert(snap@ =~= col_of(g0, lii));
            }
            let res = solve_line(&self.y.constraints[li], &snap);
            let ghost consv = side_cons(pre.y)[lii];
            proof {
                assert(consv == pre.y.constraints@[lii]@);
            }
            match res {
                Option::Some(upd) => {
                    proof {
                        assert(solved_line(consv, col_of(g0, lii)) == Option::Some(upd@));
                        assert(upd@ == crate::solver::intersection(consv, col_of(g0, lii)));
                        assert(upd@.len() == x_len);
                    }
                    let y_len = self.y.len;
                    let mut i: usize = 0;
                    while i < x_len
                        invariant
                            0 <= i <= x_len,
                            x_len == pre.x.len,
                            y_len == pre.y.len,
                            lii == li as int,
                            0 <= lii < y_len,
                            upd@.len() == x_len,
                            pre.wf(),
                            g0 == grid_of(pre),
                            g0.len() == x_len,
                            forall|ii: int| 0 <= ii < g0.len() ==> (#[trigger] g0[ii]).len()
                                == y_len,
                            self.x == pre.x,
                            self.y == pre.y,
                            self.solve_state == pre.solve_state,
                            self.state@.len() == x_len,
                            forall|ii: int| 0 <= ii < i ==> #[trigger] self.state@[ii]@ == g0[ii].update(
                                lii,
                                upd@[ii],
                            ),
                            forall|ii: int| i <= ii < x_len ==> #[trigger] self.state@[ii]@
                                == g0[ii],
                        decreases x_len - i,
                    {
                        let mut row: Vec<Cell> = Vec::new();
                        let mut j: usize = 0;
                        while j < y_len
                            invariant
                                0 <= j <= y_len,
                                0 <= i < x_len,
                                row@.len() == j,
                                upd@.len() == x_len,
                                lii == li as int,
                                0 <= lii < y_len,
                                self.state@.len() == x_len,
                                self.state@[i as int]@ == g0[i as int],
                                g0.len() == x_len,
                                g0[i as int].len() == y_len,
                                forall|jj: int| 0 <= jj < j ==> row@[jj] == (if jj == lii {
                                    upd@[i as int]
                                } else {
                                    g0[i as int][jj]
                                }),
                            decreases y_len - j,
                        {
                            let ghost jj0 = j as int;
                            if j == li {
                                row.push(upd[i]);
                                proof {
                                    assert(jj0 == lii);
                                    assert(row@[jj0] == upd@[i as int]);
                                }
                            } else {
                                row.push(self.state[i][j]);
                                proof {
                                    assert(jj0 != lii);
                                    assert(row@[jj0] == self.state@[i as int]@[jj0]);
                                    assert(row@[jj0] == g0[i as int][jj0]);
                                }
                            }
                            j += 1;
                        }
                        proof {
                            assert(row@ =~= g0[i as int].update(lii, upd@[i as int]));
                        }
                        self.state[i] = row;
                        i += 1;
                    }
                    proof {
                        assert(grid_of(*self) =~~= Seq::new(
                            g0.len(),
                            |i: int| g0[i].update(lii, upd@[i]),
                        ));
                    }
                },
                Option::None => {
                    proof {
                        assert(grid_of(*self) == g0);
                    }
                },
            }
        }
        self.solve_state = Option::Some(
            SolveState { counter: (st.counter + 1) % total, is_x: use_x, idx: li },
        );
        proof {
            let post = *self;
            // the step relation
            assert(step_rel(pre, post));
            // no determined cell changes
            assert forall|i: int, j: int|
                0 <= i < pre.x.len && 0 <= j < pre.y.len && g0[i][j] is Determined implies
                #[trigger] grid_of(post)[i][j] == g0[i][j] by {
                if use_x {
                    let consv = side_cons(pre.x)[lii];
                    match solved_line(consv, g0[lii]) {
                        Option::Some(upd) => {
                            if i == lii {
                                assert(upd == crate::solver::intersection(consv, g0[lii]));
                                if g0[i][j] == Cell::Determined(true) {
                                    lemma_intersection_preserves(consv, g0[lii], j, true);
                                }
                                if g0[i][j] == Cell::Determined(false) {
                                    lemma_intersection_preserves(consv, g0[lii], j, false);
                                }
                            }
                        },
                        Option::None => {},
                    }
                } else {
                    let consv = side_cons(pre.y)[lii];
                    let snapv = col_of(g0, lii);
                    match solved_line(consv, snapv) {
                        Option::Some(upd) => {
                            if j == lii {
                                assert(snapv[i] == g0[i][j]);
                                assert(upd == crate::solver::intersection(consv, snapv));
                                if g0[i][j] == Cell::Determined(true) {
                                    lemma_intersection_preserves(consv, snapv, i, true);
                                }
                                if g0[i][j] == Cell::Determined(false) {
                                    lemma_intersection_preserves(consv, snapv, i, false);
                                }
                                assert(grid_of(post)[i][j] == upd[i]);
                            }
                        },
                        Option::None => {},
                    }
                }
            }
        }
        Option::Some(())
    }
}

} // verus!
