//! The line solver: given one line's run-length constraints and its current,
//! partially determined cells, compute every cell that has the same value in
//! all placements of the runs that are consistent with the constraints and
//! with the already-known cells.

use vstd::prelude::*;

use crate::cell::Cell;

verus! {

// ---------------------------------------------------------------------------
// The model: what a placement of the runs into a line is.
// ---------------------------------------------------------------------------

/// No cell of `line` in `[lo, hi)` is already decided filled.
pub open spec fn no_filled_in(line: Seq<Cell>, lo: int, hi: int) -> bool {
    forall|p: int| lo <= p < hi ==> line[p] != Cell::Determined(true)
}

/// No cell of `line` in `[lo, hi)` is already decided blank.
pub open spec fn fillable_in(line: Seq<Cell>, lo: int, hi: int) -> bool {
    forall|p: int| lo <= p < hi ==> line[p] != Cell::Determined(false)
}

/// The first cell that a placement whose next run starts at or after `begin`
/// still has to leave blank.  For the first run this is the start of the
/// line; afterwards it is the separator cell just before `begin`.
pub open spec fn gap_lo(begin: int) -> int {
    if begin <= 0 {
        0
    } else {
        begin - 1
    }
}

/// `tail` lists the start positions of the runs `cons[k..]`, all at or after
/// `begin`, placed into `line` consistently with every already-determined
/// cell from `gap_lo(begin)` to the end of the line: cells between and after
/// runs must not be decided filled, and cells under a run must not be
/// decided blank.  Consecutive runs keep at least one cell between them.
pub open spec fn tail_ok(tail: Seq<int>, cons: Seq<u32>, line: Seq<Cell>, k: int, begin: int) -> bool
    decreases cons.len() - k when 0 <= k <= cons.len()
{
    if k == cons.len() {
        &&& tail.len() == 0
        &&& no_filled_in(line, gap_lo(begin), line.len() as int)
    } else {
        &&& tail.len() == cons.len() - k
        &&& begin <= tail[0]
        &&& tail[0] + cons[k] <= line.len()
        &&& no_filled_in(line, gap_lo(begin), tail[0])
        &&& fillable_in(line, tail[0], tail[0] + cons[k])
        &&& tail_ok(tail.skip(1), cons, line, k + 1, tail[0] + cons[k] + 1)
    }
}

/// A complete placement of all runs into the line.
pub open spec fn placement_ok(starts: Seq<int>, cons: Seq<u32>, line: Seq<Cell>) -> bool {
    tail_ok(starts, cons, line, 0, 0)
}

/// Position `p` lies under one of the runs that `tail` places, where run `i`
/// of the tail has length `cons[k + i]`.
pub open spec fn covered_from(tail: Seq<int>, cons: Seq<u32>, k: int, p: int) -> bool {
    exists|i: int| 0 <= i < tail.len() && #[trigger] tail[i] <= p < tail[i] + cons[k + i]
}

/// Position `p` lies under one of the runs of a complete placement.
pub open spec fn covered(starts: Seq<int>, cons: Seq<u32>, p: int) -> bool {
    covered_from(starts, cons, 0, p)
}

/// The fully decided line that a complete placement stands for.
pub open spec fn render(starts: Seq<int>, cons: Seq<u32>, len: int) -> Seq<Cell> {
    Seq::new(len as nat, |p: int| if covered(starts, cons, p) {
        Cell::Determined(true)
    } else {
        Cell::Determined(false)
    })
}

/// Some placement is consistent with the constraints and the current cells.
pub open spec fn satisfiable(cons: Seq<u32>, line: Seq<Cell>) -> bool {
    exists|starts: Seq<int>| placement_ok(starts, cons, line)
}

/// Every consistent placement agrees on whether `p` is filled.
pub open spec fn forced(cons: Seq<u32>, line: Seq<Cell>, p: int, v: bool) -> bool {
    forall|starts: Seq<int>| placement_ok(starts, cons, line) ==> covered(starts, cons, p) == v
}

/// The positional intersection of all consistent placements: a cell keeps a
/// value only if every consistent placement gives it that value.
pub open spec fn intersection_at(cons: Seq<u32>, line: Seq<Cell>, p: int) -> Cell {
    if forced(cons, line, p, true) {
        Cell::Determined(true)
    } else if forced(cons, line, p, false) {
        Cell::Determined(false)
    } else {
        Cell::Unknown
    }
}

pub open spec fn intersection(cons: Seq<u32>, line: Seq<Cell>) -> Seq<Cell> {
    Seq::new(line.len(), |p: int| intersection_at(cons, line, p))
}

pub open spec fn all_unknown(l: Seq<Cell>) -> bool {
    forall|p: int| 0 <= p < l.len() ==> l[p] == Cell::Unknown
}

/// What `solve_line` returns: the intersection of all consistent placements,
/// or `None` when no placement is consistent, or when the intersection
/// decides nothing at all.
pub open spec fn solved_line(cons: Seq<u32>, line: Seq<Cell>) -> Option<Seq<Cell>> {
    if satisfiable(cons, line) && !all_unknown(intersection(cons, line)) {
        Option::Some(intersection(cons, line))
    } else {
        Option::None
    }
}

// ---------------------------------------------------------------------------
// Private bookkeeping for the search: the running intersection.
// ---------------------------------------------------------------------------

spec fn to_ints(s: Seq<usize>) -> Seq<int> {
    s.map_values(|x: usize| x as int)
}

spec fn view_opt(o: Option<Vec<Cell>>) -> Option<Seq<Cell>> {
    match o {
        Option::Some(v) => Option::Some(v@),
        Option::None => Option::None,
    }
}

/// The running intersection, if present, gives `p` the value `v`.
spec fn acc_agrees(accv: Option<Seq<Cell>>, p: int, v: bool) -> bool {
    match accv {
        Option::Some(a) => a[p] == Cell::Determined(v),
        Option::None => true,
    }
}

/// Every completion of the prefix `pre` by runs `cons[k..]` at or after
/// `begin` renders position `p` as `Determined(v)`.
spec fn completions_agree(
    cons: Seq<u32>,
    line: Seq<Cell>,
    pre: Seq<int>,
    k: int,
    begin: int,
    p: int,
    v: bool,
) -> bool {
    forall|tail: Seq<int>|
        #[trigger] tail_ok(tail, cons, line, k, begin)
            ==> render(pre + tail, cons, line.len() as int)[p] == Cell::Determined(v)
}

spec fn some_completion(cons: Seq<u32>, line: Seq<Cell>, k: int, begin: int) -> bool {
    exists|tail: Seq<int>| tail_ok(tail, cons, line, k, begin)
}

/// The meet of the running intersection with all completions, at `p`.
spec fn meet_at(
    accv: Option<Seq<Cell>>,
    cons: Seq<u32>,
    line: Seq<Cell>,
    pre: Seq<int>,
    k: int,
    begin: int,
    p: int,
) -> Cell {
    if acc_agrees(accv, p, true) && completions_agree(cons, line, pre, k, begin, p, true) {
        Cell::Determined(true)
    } else if acc_agrees(accv, p, false) && completions_agree(cons, line, pre, k, begin, p, false) {
        Cell::Determined(false)
    } else {
        Cell::Unknown
    }
}

/// As `completions_agree`, over the completions whose first start is below
/// `bound` only.
spec fn completions_agree_below(
    cons: Seq<u32>,
    line: Seq<Cell>,
    pre: Seq<int>,
    k: int,
    begin: int,
    bound: int,
    p: int,
    v: bool,
) -> bool {
    forall|tail: Seq<int>|
        #[trigger] tail_ok(tail, cons, line, k, begin) && tail[0] < bound
            ==> render(pre + tail, cons, line.len() as int)[p] == Cell::Determined(v)
}

spec fn some_completion_below(cons: Seq<u32>, line: Seq<Cell>, k: int, begin: int, bound: int) -> bool {
    exists|tail: Seq<int>| tail_ok(tail, cons, line, k, begin) && tail[0] < bound
}

spec fn meet_below_at(
    accv: Option<Seq<Cell>>,
    cons: Seq<u32>,
    line: Seq<Cell>,
    pre: Seq<int>,
    k: int,
    begin: int,
    bound: int,
    p: int,
) -> Cell {
    if acc_agrees(accv, p, true) && completions_agree_below(cons, line, pre, k, begin, bound, p, true) {
        Cell::Determined(true)
    } else if acc_agrees(accv, p, false)
        && completions_agree_below(cons, line, pre, k, begin, bound, p, false) {
        Cell::Determined(false)
    } else {
        Cell::Unknown
    }
}

// ---------------------------------------------------------------------------
// Lemmas about placements.
// ---------------------------------------------------------------------------

/// Splitting a non-empty tail into its first start and the rest.
proof fn lemma_tail_cons(s: int, t2: Seq<int>, cons: Seq<u32>, line: Seq<Cell>, k: int, begin: int)
    requires
        0 <= k < cons.len(),
    ensures
        tail_ok(seq![s] + t2, cons, line, k, begin) <==> {
            &&& begin <= s
            &&& s + cons[k] <= line.len()
            &&& no_filled_in(line, gap_lo(begin), s)
            &&& fillable_in(line, s, s + cons[k])
            &&& tail_ok(t2, cons, line, k + 1, s + cons[k] + 1)
        },
{
    let t = seq![s] + t2;
    assert(t[0] == s);
    assert(t.skip(1) =~= t2);
    if tail_ok(t, cons, line, k, begin) {
        assert(tail_ok(t2, cons, line, k + 1, s + cons[k] + 1));
    }
    if tail_ok(t2, cons, line, k + 1, s + cons[k] + 1) {
        if k + 1 == cons.len() {
            assert(t2.len() == 0);
        }
        assert(t.len() == cons.len() - k);
    }
}

/// A non-empty tail is its first start followed by the rest.
proof fn lemma_head_tail(t: Seq<int>)
    requires
        t.len() > 0,
    ensures
        t == seq![t[0]] + t.skip(1),
{
    assert(t =~= seq![t[0]] + t.skip(1));
}

/// No run can start at or after `x + 1` when cell `x` is decided filled and
/// lies in the region the placement still has to account for.
proof fn lemma_no_tail_beyond(cons: Seq<u32>, line: Seq<Cell>, k: int, begin: int, x: int)
    requires
        0 <= k < cons.len(),
        gap_lo(begin) <= x,
        0 <= x < line.len(),
        line[x] == Cell::Determined(true),
    ensures
        forall|tail: Seq<int>| #[trigger] tail_ok(tail, cons, line, k, begin) ==> tail[0] <= x,
{
    assert forall|tail: Seq<int>| #[trigger] tail_ok(tail, cons, line, k, begin) implies tail[0]
        <= x by {
        if tail[0] > x {
            assert(no_filled_in(line, gap_lo(begin), tail[0]));
            assert(line[x] != Cell::Determined(true));
        }
    }
}

/// When every completion's first start lies below `bound`, the bounded and
/// the unbounded views of the search agree.
proof fn lemma_bound_covers_all(
    cons: Seq<u32>,
    line: Seq<Cell>,
    pre: Seq<int>,
    k: int,
    begin: int,
    bound: int,
)
    requires
        0 <= k < cons.len(),
        forall|tail: Seq<int>| #[trigger] tail_ok(tail, cons, line, k, begin) ==> tail[0] < bound,
    ensures
        forall|p: int, v: bool|
            completions_agree_below(cons, line, pre, k, begin, bound, p, v)
                == completions_agree(cons, line, pre, k, begin, p, v),
        some_completion_below(cons, line, k, begin, bound) == some_completion(cons, line, k, begin),
{
    assert forall|p: int, v: bool|
        completions_agree_below(cons, line, pre, k, begin, bound, p, v)
            == completions_agree(cons, line, pre, k, begin, p, v) by {
        if completions_agree_below(cons, line, pre, k, begin, bound, p, v) {
            assert forall|tail: Seq<int>| #[trigger] tail_ok(tail, cons, line, k, begin) implies
                render(pre + tail, cons, line.len() as int)[p] == Cell::Determined(v) by {
                assert(tail[0] < bound);
            }
        }
    }
    if some_completion_below(cons, line, k, begin, bound) {
        assert(some_completion(cons, line, k, begin));
    }
    if some_completion(cons, line, k, begin) {
        let t = choose|tail: Seq<int>| tail_ok(tail, cons, line, k, begin);
        assert(t[0] < bound);
        assert(some_completion_below(cons, line, k, begin, bound));
    }
}

// ---------------------------------------------------------------------------
// The search.
// ---------------------------------------------------------------------------

/// Whether the run cells `[s, s + c)` are all still fillable.
fn check_block(line: &Vec<Cell>, s: usize, c: usize) -> (r: bool)
    requires
        s + c <= line@.len(),
    ensures
        r == fillable_in(line@, s as int, s + c),
{
    let n = line.len();
    let mut q = s;
    let mut ok = true;
    while q < s + c
        invariant
            s <= q <= s + c,
            s + c <= n,
            n == line@.len(),
            ok == fillable_in(line@, s as int, q as int),
        decreases s + c - q,
    {
        if let Cell::Determined(false) = line[q] {
            ok = false;
        }
        q += 1;
    }
    ok
}

/// Render the complete placement `pre` as a fully decided line.
fn render_exec(pre: &Vec<usize>, cons: &Vec<u32>, line_len: usize) -> (r: Vec<Cell>)
    requires
        pre@.len() == cons@.len(),
        forall|j: int| 0 <= j < pre@.len() ==> pre@[j] + cons@[j] <= line_len,
    ensures
        r@ == render(to_ints(pre@), cons@, line_len as int),
{
    let k = pre.len();
    let starts = Ghost(to_ints(pre@));
    let mut v: Vec<Cell> = Vec::new();
    let mut p: usize = 0;
    while p < line_len
        invariant
            v@.len() == p,
            p <= line_len,
            forall|q: int| 0 <= q < p ==> v@[q] == Cell::Determined(false),
        decreases line_len - p,
    {
        v.push(Cell::Determined(false));
        p += 1;
    }
    let mut j: usize = 0;
    while j < k
        invariant
            0 <= j <= k,
            k == pre@.len() == cons@.len(),
            starts@ == to_ints(pre@),
            v@.len() == line_len,
            forall|jj: int| 0 <= jj < k ==> pre@[jj] + cons@[jj] <= line_len,
            forall|q: int| 0 <= q < line_len ==> v@[q] == (if covered_upto(starts@, cons@, j as int, q) {
                Cell::Determined(true)
            } else {
                Cell::Determined(false)
            }),
        decreases k - j,
    {
        let st = pre[j];
        let c = cons[j] as usize;
        let ghost j0 = j as int;
        let mut q = st;
        while q < st + c
            invariant
                st <= q <= st + c,
                st + c <= line_len,
                st == pre@[j0],
                c == cons@[j0],
                0 <= j0 < k,
                k == pre@.len() == cons@.len(),
                starts@ == to_ints(pre@),
                v@.len() == line_len,
                forall|q2: int| 0 <= q2 < line_len ==> v@[q2] == (
                    if covered_upto(starts@, cons@, j0, q2) || (st <= q2 < q) {
                        Cell::Determined(true)
                    } else {
                        Cell::Determined(false)
                    }
                ),
            decreases st + c - q,
        {
            v[q] = Cell::Determined(true);
            q += 1;
        }
        j += 1;
        assert forall|q2: int| 0 <= q2 < line_len implies v@[q2] == (
            if covered_upto(starts@, cons@, j as int, q2) {
                Cell::Determined(true)
            } else {
                Cell::Determined(false)
            }
        ) by {
            if covered_upto(starts@, cons@, j as int, q2) {
                let i = choose|i: int|
                    0 <= i < j && i < starts@.len() && #[trigger] starts@[i] <= q2 < starts@[i]
                        + cons@[i];
                if i < j0 {
                    assert(covered_upto(starts@, cons@, j0, q2));
                } else {
                    assert(starts@[j0] <= q2 < starts@[j0] + cons@[j0]);
                }
            } else {
                assert(!covered_upto(starts@, cons@, j0, q2));
                assert(!(starts@[j0] <= q2 < starts@[j0] + cons@[j0]));
            }
        }
    }
    proof {
        assert forall|q: int| 0 <= q < line_len implies
            covered_upto(starts@, cons@, k as int, q) == covered(starts@, cons@, q) by {
            if covered_upto(starts@, cons@, k as int, q) {
                let i = choose|i: int|
                    0 <= i < k && i < starts@.len() && #[trigger] starts@[i] <= q < starts@[i]
                        + cons@[i];
                assert(starts@[i] <= q < starts@[i] + cons@[0 + i]);
            }
            if covered(starts@, cons@, q) {
                let i = choose|i: int|
                    0 <= i < starts@.len() && #[trigger] starts@[i] <= q < starts@[i] + cons@[0 + i];
                assert(0 <= i < k && i < starts@.len() && starts@[i] <= q < starts@[i] + cons@[i]);
            }
        }
        assert(v@ =~= render(starts@, cons@, line_len as int));
    }
    v
}

/// Position `p` lies under one of the first `j` runs of `starts`.
spec fn covered_upto(starts: Seq<int>, cons: Seq<u32>, j: int, p: int) -> bool {
    exists|i: int| 0 <= i < j && i < starts.len() && #[trigger] starts[i] <= p < starts[i] + cons[i]
}

/// Meet the freshly found candidate `cand` into the running intersection `a`:
/// keep a cell only where the two agree.
fn meet_into(a: &mut Vec<Cell>, cand: &Vec<Cell>)
    requires
        old(a)@.len() == cand@.len(),
    ensures
        final(a)@.len() == old(a)@.len(),
        forall|p: int| 0 <= p < final(a)@.len() ==> final(a)@[p] == (if old(a)@[p] == cand@[p] {
            old(a)@[p]
        } else {
            Cell::Unknown
        }),
{
    let ghost a0 = a@;
    let mut p: usize = 0;
    let n = a.len();
    while p < n
        invariant
            0 <= p <= n,
            n == a@.len() == a0.len() == cand@.len(),
            forall|q: int| 0 <= q < p ==> a@[q] == (if a0[q] == cand@[q] {
                a0[q]
            } else {
                Cell::Unknown
            }),
            forall|q: int| p <= q < n ==> a@[q] == a0[q],
        decreases n - p,
    {
        if !(a[p] == cand[p]) {
            a[p] = Cell::Unknown;
        }
        p += 1;
    }
}

// ---------------------------------------------------------------------------
// Lemmas that drive the search's bookkeeping.
// ---------------------------------------------------------------------------

/// With an empty family of completions the meet leaves the running
/// intersection as it is.
proof fn lemma_empty_family(
    accv: Option<Seq<Cell>>,
    cons: Seq<u32>,
    line: Seq<Cell>,
    pre: Seq<int>,
    k: int,
    begin: int,
)
    requires
        !some_completion(cons, line, k, begin),
    ensures
        forall|p: int, v: bool| completions_agree(cons, line, pre, k, begin, p, v),
        forall|p: int| 0 <= p < line.len() ==> (match accv {
            Option::Some(a) => a[p] == #[trigger] meet_at(accv, cons, line, pre, k, begin, p),
            Option::None => true,
        }),
{
    assert forall|p: int, v: bool| completions_agree(cons, line, pre, k, begin, p, v) by {
        assert forall|tail: Seq<int>| #[trigger] tail_ok(tail, cons, line, k, begin) implies
            render(pre + tail, cons, line.len() as int)[p] == Cell::Determined(v) by {
            assert(some_completion(cons, line, k, begin));
        }
    }
}

/// At a leaf of the search the only completion is the empty tail, so the
/// family of completed lines is the rendering of the prefix alone.
proof fn lemma_leaf_agree(cons: Seq<u32>, line: Seq<Cell>, pre: Seq<int>, k: int, begin: int)
    requires
        k == cons.len(),
        tail_ok(Seq::<int>::empty(), cons, line, k, begin),
    ensures
        forall|p: int, v: bool| 0 <= p < line.len() ==> (completions_agree(
            cons,
            line,
            pre,
            k,
            begin,
            p,
            v,
        ) == (render(pre, cons, line.len() as int)[p] == Cell::Determined(v))),
{
    let len = line.len() as int;
    assert(pre + Seq::<int>::empty() =~= pre);
    assert forall|p: int, v: bool| 0 <= p < line.len() implies (completions_agree(
        cons,
        line,
        pre,
        k,
        begin,
        p,
        v,
    ) == (render(pre, cons, len)[p] == Cell::Determined(v))) by {
        if render(pre, cons, len)[p] == Cell::Determined(v) {
            assert forall|tail: Seq<int>| #[trigger] tail_ok(tail, cons, line, k, begin) implies
                render(pre + tail, cons, len)[p] == Cell::Determined(v) by {
                assert(tail.len() == 0);
                assert(tail =~= Seq::<int>::empty());
                assert(pre + tail == pre);
            }
        }
        if completions_agree(cons, line, pre, k, begin, p, v) {
            assert(tail_ok(Seq::<int>::empty(), cons, line, k, begin));
            assert(render(pre + Seq::<int>::empty(), cons, len)[p] == Cell::Determined(v));
        }
    }
}

/// Trying the next start `s`: the completions whose first run starts below
/// `s + 1` are those starting below `s` together with those that start
/// exactly at `s`, and the latter are the completions of the longer prefix.
proof fn lemma_decompose(
    cons: Seq<u32>,
    line: Seq<Cell>,
    pre: Seq<int>,
    k: int,
    begin: int,
    s: int,
)
    requires
        0 <= k < cons.len(),
        0 <= begin <= s,
        s + cons[k] <= line.len(),
        no_filled_in(line, gap_lo(begin), s),
        fillable_in(line, s, s + cons[k]),
    ensures
        forall|p: int, v: bool| completions_agree_below(cons, line, pre, k, begin, s + 1, p, v)
            == (completions_agree_below(cons, line, pre, k, begin, s, p, v)
                && completions_agree(cons, line, pre + seq![s], k + 1, s + cons[k] + 1, p, v)),
        some_completion_below(cons, line, k, begin, s + 1) == (some_completion_below(
            cons,
            line,
            k,
            begin,
            s,
        ) || some_completion(cons, line, k + 1, s + cons[k] + 1)),
{
    let len = line.len() as int;
    let begin2 = s + cons[k] + 1;
    assert forall|p: int, v: bool| completions_agree_below(cons, line, pre, k, begin, s + 1, p, v)
        == (completions_agree_below(cons, line, pre, k, begin, s, p, v) && completions_agree(
        cons,
        line,
        pre + seq![s],
        k + 1,
        begin2,
        p,
        v,
    )) by {
        if completions_agree_below(cons, line, pre, k, begin, s + 1, p, v) {
            assert forall|tail: Seq<int>| #[trigger] tail_ok(tail, cons, line, k, begin) && tail[0]
                < s implies render(pre + tail, cons, len)[p] == Cell::Determined(v) by {
                assert(tail[0] < s + 1);
            }
            assert forall|t2: Seq<int>| #[trigger] tail_ok(t2, cons, line, k + 1, begin2) implies
                render((pre + seq![s]) + t2, cons, len)[p] == Cell::Determined(v) by {
                lemma_tail_cons(s, t2, cons, line, k, begin);
                let t = seq![s] + t2;
                assert(tail_ok(t, cons, line, k, begin));
                assert(t[0] == s < s + 1);
                assert(pre + t =~= (pre + seq![s]) + t2);
            }
        }
        if completions_agree_below(cons, line, pre, k, begin, s, p, v) && completions_agree(
            cons,
            line,
            pre + seq![s],
            k + 1,
            begin2,
            p,
            v,
        ) {
            assert forall|tail: Seq<int>| #[trigger] tail_ok(tail, cons, line, k, begin) && tail[0]
                < s + 1 implies render(pre + tail, cons, len)[p] == Cell::Determined(v) by {
                if tail[0] < s {
                } else {
                    assert(tail[0] == s);
                    lemma_head_tail(tail);
                    lemma_tail_cons(s, tail.skip(1), cons, line, k, begin);
                    assert(tail_ok(tail.skip(1), cons, line, k + 1, begin2));
                    assert(render((pre + seq![s]) + tail.skip(1), cons, len)[p]
                        == Cell::Determined(v));
                    assert(pre + tail =~= (pre + seq![s]) + tail.skip(1));
                }
            }
        }
    }
    if some_completion_below(cons, line, k, begin, s + 1) {
        let t = choose|tail: Seq<int>| tail_ok(tail, cons, line, k, begin) && tail[0] < s + 1;
        if t[0] < s {
            assert(some_completion_below(cons, line, k, begin, s));
        } else {
            lemma_head_tail(t);
            lemma_tail_cons(s, t.skip(1), cons, line, k, begin);
            assert(tail_ok(t.skip(1), cons, line, k + 1, begin2));
            assert(some_completion(cons, line, k + 1, begin2));
        }
    }
    if some_completion_below(cons, line, k, begin, s) {
        let t = choose|tail: Seq<int>| tail_ok(tail, cons, line, k, begin) && tail[0] < s;
        assert(tail_ok(t, cons, line, k, begin) && t[0] < s + 1);
        assert(some_completion_below(cons, line, k, begin, s + 1));
    }
    if some_completion(cons, line, k + 1, begin2) {
        let k2 = k + 1;
        let t2 = choose|tail: Seq<int>| tail_ok(tail, cons, line, k2, begin2);
        lemma_tail_cons(s, t2, cons, line, k, begin);
        let t = seq![s] + t2;
        assert(tail_ok(t, cons, line, k, begin) && t[0] < s + 1);
        assert(some_completion_below(cons, line, k, begin, s + 1));
    }
}

/// A start whose run would sit on a cell already decided blank places
/// nothing, so skipping it loses no completion.
proof fn lemma_skip_start(
    cons: Seq<u32>,
    line: Seq<Cell>,
    pre: Seq<int>,
    k: int,
    begin: int,
    s: int,
    q: int,
)
    requires
        0 <= k < cons.len(),
        s <= q < s + cons[k],
        0 <= q < line.len(),
        line[q] == Cell::Determined(false),
    ensures
        forall|p: int, v: bool| completions_agree_below(cons, line, pre, k, begin, s + 1, p, v)
            == completions_agree_below(cons, line, pre, k, begin, s, p, v),
        some_completion_below(cons, line, k, begin, s + 1) == some_completion_below(
            cons,
            line,
            k,
            begin,
            s,
        ),
{
    let len = line.len() as int;
    assert forall|tail: Seq<int>| #[trigger] tail_ok(tail, cons, line, k, begin) implies tail[0]
        != s by {
        if tail[0] == s {
            assert(fillable_in(line, s, s + cons[k]));
            assert(line[q] != Cell::Determined(false));
        }
    }
    assert forall|p: int, v: bool| completions_agree_below(cons, line, pre, k, begin, s + 1, p, v)
        == completions_agree_below(cons, line, pre, k, begin, s, p, v) by {
        if completions_agree_below(cons, line, pre, k, begin, s + 1, p, v) {
            assert forall|tail: Seq<int>| #[trigger] tail_ok(tail, cons, line, k, begin) && tail[0]
                < s implies render(pre + tail, cons, len)[p] == Cell::Determined(v) by {
                assert(tail[0] < s + 1);
            }
        }
        if completions_agree_below(cons, line, pre, k, begin, s, p, v) {
            assert forall|tail: Seq<int>| #[trigger] tail_ok(tail, cons, line, k, begin) && tail[0]
                < s + 1 implies render(pre + tail, cons, len)[p] == Cell::Determined(v) by {
                assert(tail[0] != s);
            }
        }
    }
    if some_completion_below(cons, line, k, begin, s + 1) {
        let t = choose|tail: Seq<int>| tail_ok(tail, cons, line, k, begin) && tail[0] < s + 1;
        assert(t[0] != s);
        assert(some_completion_below(cons, line, k, begin, s));
    }
    if some_completion_below(cons, line, k, begin, s) {
        let t = choose|tail: Seq<int>| tail_ok(tail, cons, line, k, begin) && tail[0] < s;
        assert(tail_ok(t, cons, line, k, begin) && t[0] < s + 1);
    }
}

/// Folding the completions of one tried start into the running
/// intersection keeps it the meet of everything found so far.
proof fn lemma_fold_step(
    acc0: Option<Seq<Cell>>,
    mv: Option<Seq<Cell>>,
    outv: Seq<Cell>,
    cons: Seq<u32>,
    line: Seq<Cell>,
    pre: Seq<int>,
    k: int,
    begin: int,
    s: int,
)
    requires
        0 <= k < cons.len(),
        0 <= begin <= s,
        s + cons[k] <= line.len(),
        no_filled_in(line, gap_lo(begin), s),
        fillable_in(line, s, s + cons[k]),
        (mv is Some) == (acc0 is Some || some_completion_below(cons, line, k, begin, s)),
        outv.len() == line.len(),
        mv matches Option::Some(m) ==> m.len() == line.len() && forall|p: int|
            0 <= p < line.len() ==> m[p] == meet_below_at(acc0, cons, line, pre, k, begin, s, p),
        forall|p: int| 0 <= p < line.len() ==> outv[p] == meet_at(
            mv,
            cons,
            line,
            pre + seq![s],
            k + 1,
            s + cons[k] + 1,
            p,
        ),
    ensures
        forall|p: int| 0 <= p < line.len() ==> outv[p] == meet_below_at(
            acc0,
            cons,
            line,
            pre,
            k,
            begin,
            s + 1,
            p,
        ),
{
    lemma_decompose(cons, line, pre, k, begin, s);
    let len = line.len() as int;
    let begin2 = s + cons[k] + 1;
    let pre2 = pre + seq![s];
    assert forall|p: int| 0 <= p < len implies outv[p] == meet_below_at(
        acc0,
        cons,
        line,
        pre,
        k,
        begin,
        s + 1,
        p,
    ) by {
        assert(outv[p] == meet_at(mv, cons, line, pre2, k + 1, begin2, p));
        assert(completions_agree_below(cons, line, pre, k, begin, s + 1, p, true) == (
        completions_agree_below(cons, line, pre, k, begin, s, p, true) && completions_agree(
            cons,
            line,
            pre2,
            k + 1,
            begin2,
            p,
            true,
        )));
        assert(completions_agree_below(cons, line, pre, k, begin, s + 1, p, false) == (
        completions_agree_below(cons, line, pre, k, begin, s, p, false) && completions_agree(
            cons,
            line,
            pre2,
            k + 1,
            begin2,
            p,
            false,
        )));
        if mv is Some {
            let m = mv->Some_0;
            assert(m[p] == meet_below_at(acc0, cons, line, pre, k, begin, s, p));
            if acc0 is None {
                assert(some_completion_below(cons, line, k, begin, s));
                if completions_agree_below(cons, line, pre, k, begin, s, p, true)
                    && completions_agree_below(cons, line, pre, k, begin, s, p, false) {
                    let t = choose|tail: Seq<int>|
                        tail_ok(tail, cons, line, k, begin) && tail[0] < s;
                    assert(tail_ok(t, cons, line, k, begin));
                    assert(render(pre + t, cons, len)[p] == Cell::Determined(true));
                    assert(render(pre + t, cons, len)[p] == Cell::Determined(false));
                }
            }
        } else {
            assert(acc0 is None);
            assert(!some_completion_below(cons, line, k, begin, s));
            assert forall|v: bool| completions_agree_below(cons, line, pre, k, begin, s, p, v) by {
                assert forall|tail: Seq<int>|
                    #[trigger] tail_ok(tail, cons, line, k, begin) && tail[0] < s implies render(
                    pre + tail,
                    cons,
                    len,
                )[p] == Cell::Determined(v) by {
                    assert(some_completion_below(cons, line, k, begin, s));
                }
            }
        }
    }
}

// ---------------------------------------------------------------------------
// Placements respect every cell that is already determined.
// ---------------------------------------------------------------------------

/// Every run of a placement starts at or after `begin`.
pub proof fn lemma_tail_min(tail: Seq<int>, cons: Seq<u32>, line: Seq<Cell>, k: int, begin: int)
    requires
        0 <= k <= cons.len(),
        tail_ok(tail, cons, line, k, begin),
    ensures
        forall|i: int| 0 <= i < tail.len() ==> tail[i] >= begin,
    decreases cons.len() - k,
{
    if k < cons.len() {
        lemma_tail_min(tail.skip(1), cons, line, k + 1, tail[0] + cons[k] + 1);
        assert forall|i: int| 0 <= i < tail.len() implies tail[i] >= begin by {
            if i > 0 {
                assert(tail.skip(1)[i - 1] == tail[i]);
                assert(tail[i] >= tail[0] + cons[k] + 1);
            }
        }
    }
}

/// A placement agrees with every cell the line already determines: a cell
/// decided filled is covered by some run, a cell decided blank by none.
pub proof fn lemma_tail_compat(
    tail: Seq<int>,
    cons: Seq<u32>,
    line: Seq<Cell>,
    k: int,
    begin: int,
    p: int,
    v: bool,
)
    requires
        0 <= k <= cons.len(),
        tail_ok(tail, cons, line, k, begin),
        gap_lo(begin) <= p < line.len(),
        line[p] == Cell::Determined(v),
    ensures
        covered_from(tail, cons, k, p) == v,
    decreases cons.len() - k,
{
    if k == cons.len() {
        assert(tail.len() == 0);
        assert(!covered_from(tail, cons, k, p));
        assert(line[p] != Cell::Determined(true));
    } else {
        let s = tail[0];
        let c = cons[k];
        lemma_tail_min(tail.skip(1), cons, line, k + 1, s + c + 1);
        if p < s {
            assert(line[p] != Cell::Determined(true));
            assert forall|i: int|
                0 <= i < tail.len() implies !(#[trigger] tail[i] <= p < tail[i] + cons[k + i]) by {
                if i > 0 {
                    assert(tail.skip(1)[i - 1] == tail[i]);
                    assert(tail[i] >= s + c + 1);
                }
            }
            assert(!covered_from(tail, cons, k, p));
        } else if p < s + c {
            assert(line[p] != Cell::Determined(false));
            assert(tail[0] <= p < tail[0] + cons[k + 0]);
            assert(covered_from(tail, cons, k, p));
        } else {
            lemma_tail_compat(tail.skip(1), cons, line, k + 1, s + c + 1, p, v);
            if covered_from(tail.skip(1), cons, k + 1, p) {
                let i = choose|i: int|
                    0 <= i < tail.skip(1).len() && #[trigger] tail.skip(1)[i] <= p < tail.skip(1)[i]
                        + cons[k + 1 + i];
                assert(tail[i + 1] <= p < tail[i + 1] + cons[k + (i + 1)]);
                assert(covered_from(tail, cons, k, p));
            }
            if covered_from(tail, cons, k, p) {
                let i = choose|i: int|
                    0 <= i < tail.len() && #[trigger] tail[i] <= p < tail[i] + cons[k + i];
                assert(i != 0);
                assert(tail.skip(1)[i - 1] <= p < tail.skip(1)[i - 1] + cons[k + 1 + (i - 1)]);
                assert(covered_from(tail.skip(1), cons, k + 1, p));
            }
        }
    }
}

/// The intersection keeps every cell the line already determines.
pub proof fn lemma_intersection_preserves(cons: Seq<u32>, line: Seq<Cell>, p: int, v: bool)
    requires
        0 <= p < line.len(),
        line[p] == Cell::Determined(v),
        satisfiable(cons, line),
    ensures
        intersection_at(cons, line, p) == Cell::Determined(v),
{
    assert forall|starts: Seq<int>| placement_ok(starts, cons, line) implies covered(
        starts,
        cons,
        p,
    ) == v by {
        lemma_tail_compat(starts, cons, line, 0, 0, p, v);
    }
    assert(forced(cons, line, p, v));
    let w = choose|starts: Seq<int>| placement_ok(starts, cons, line);
    if v == false && forced(cons, line, p, true) {
        assert(covered(w, cons, p) == true && covered(w, cons, p) == false);
    }
}

// ---------------------------------------------------------------------------
// The search itself.
// ---------------------------------------------------------------------------

/// One node of the search: place the runs `cons[k..]` at or after `begin`,
/// fold the line of every complete placement found into the running
/// intersection `cur`, and hand the fold back.
fn solve_rec(
    cons: &Vec<u32>,
    line: &Vec<Cell>,
    k: usize,
    begin: usize,
    pre: &mut Vec<usize>,
    cur: Option<Vec<Cell>>,
) -> (r: Option<Vec<Cell>>)
    requires
        line@.len() < usize::MAX,
        k <= cons@.len(),
        old(pre)@.len() == k,
        forall|j: int| 0 <= j < k ==> old(pre)@[j] + cons@[j] <= line@.len(),
        begin <= line@.len() + 1,
        cur matches Option::Some(a) ==> a@.len() == line@.len(),
    ensures
        final(pre)@ == old(pre)@,
        (r is Some) == (cur is Some || some_completion(
            cons@,
            line@,
            k as int,
            begin as int,
        )),
        r matches Option::Some(out) ==> out@.len() == line@.len() && forall|p: int|
            0 <= p < line@.len() ==> out@[p] == meet_at(
                view_opt(cur),
                cons@,
                line@,
                to_ints(old(pre)@),
                k as int,
                begin as int,
                p,
            ),
    decreases cons@.len() - k,
{
    let len = line.len();
    let ncons = cons.len();
    let ghost acc0 = view_opt(cur);
    let ghost preints = to_ints(old(pre)@);
    let ghost ki = k as int;
    let ghost bi = begin as int;
    if k == ncons {
        // Leaf: the runs are all placed; the rest of the line must hold no
        // cell already decided filled.
        let lo = if begin == 0 { 0 } else { begin - 1 };
        assert(lo as int == gap_lo(bi));
        let mut i = lo;
        let mut clear = true;
        while i < len
            invariant
                lo <= i <= len,
                len == line@.len(),
                clear == no_filled_in(line@, lo as int, i as int),
            decreases len - i,
        {
            if let Cell::Determined(true) = line[i] {
                clear = false;
            }
            i += 1;
        }
        if !clear {
            proof {
                if some_completion(cons@, line@, ki, bi) {
                    let t = choose|tail: Seq<int>| tail_ok(tail, cons@, line@, ki, bi);
                    assert(no_filled_in(line@, gap_lo(bi), line@.len() as int));
                }
                lemma_empty_family(acc0, cons@, line@, preints, ki, bi);
            }
            return cur;
        }
        proof {
            assert(tail_ok(Seq::<int>::empty(), cons@, line@, ki, bi));
            lemma_leaf_agree(cons@, line@, preints, ki, bi);
        }
        let cand = render_exec(pre, cons, len);
        match cur {
            Option::None => {
                proof {
                    assert forall|p: int| 0 <= p < len implies cand@[p] == meet_at(
                        acc0,
                        cons@,
                        line@,
                        preints,
                        ki,
                        bi,
                        p,
                    ) by {
                        assert(cand@[p] == render(preints, cons@, len as int)[p]);
                    }
                }
                Option::Some(cand)
            },
            Option::Some(mut a) => {
                let ghost av = a@;
                meet_into(&mut a, &cand);
                proof {
                    assert forall|p: int| 0 <= p < len implies a@[p] == meet_at(
                        acc0,
                        cons@,
                        line@,
                        preints,
                        ki,
                        bi,
                        p,
                    ) by {
                        assert(cand@[p] == render(preints, cons@, len as int)[p]);
                        assert(a@[p] == (if av[p] == cand@[p] {
                            av[p]
                        } else {
                            Cell::Unknown
                        }));
                    }
                }
                Option::Some(a)
            },
        }
    } else {
        let c32 = cons[k];
        let c = c32 as usize;
        assert(c == cons@[ki]);
        if c > len {
            proof {
                if some_completion(cons@, line@, ki, bi) {
                    let t = choose|tail: Seq<int>| tail_ok(tail, cons@, line@, ki, bi);
                    assert(t[0] + cons@[ki] <= len);
                    assert(bi <= t[0]);
                }
                lemma_empty_family(acc0, cons@, line@, preints, ki, bi);
            }
            return cur;
        }
        let mut fold = cur;
        // The separator cell just before `begin` (when there is one) must
        // not be decided filled, or no run can be placed any more.
        if begin > 0 && begin - 1 < len {
            let mut sep_filled = false;
            if let Cell::Determined(true) = line[begin - 1] {
                sep_filled = true;
            }
            if sep_filled {
                proof {
                    lemma_no_tail_beyond(cons@, line@, ki, bi, bi - 1);
                    if some_completion(cons@, line@, ki, bi) {
                        let t = choose|tail: Seq<int>| tail_ok(tail, cons@, line@, ki, bi);
                        assert(bi <= t[0]);
                    }
                    lemma_empty_family(acc0, cons@, line@, preints, ki, bi);
                }
                return fold;
            }
        }
        let mut s = begin;
        proof {
            if some_completion_below(cons@, line@, ki, bi, s as int) {
                let t = choose|tail: Seq<int>| tail_ok(tail, cons@, line@, ki, bi) && tail[0]
                    < s as int;
                assert(bi <= t[0]);
            }
        }
        let mut stop = false;
        while !stop && s <= len - c
            invariant
                line@.len() == len < usize::MAX,
                k < ncons,
                ncons == cons@.len(),
                ki == k as int,
                bi == begin as int,
                c == cons@[ki] <= len,
                begin <= s <= len + 1,
                pre@ == old(pre)@,
                pre@.len() == k,
                forall|j: int| 0 <= j < k ==> old(pre)@[j] + cons@[j] <= line@.len(),
                preints == to_ints(old(pre)@),
                !stop ==> forall|p: int| gap_lo(bi) <= p < s && p < len ==> line@[p]
                    != Cell::Determined(true),
                stop ==> forall|tail: Seq<int>| #[trigger] tail_ok(tail, cons@, line@, ki, bi)
                    ==> tail[0] < s as int,
                (fold is Some) == (acc0 is Some || some_completion_below(
                    cons@,
                    line@,
                    ki,
                    bi,
                    s as int,
                )),
                fold matches Option::Some(aa) ==> aa@.len() == len && forall|p: int|
                    0 <= p < len ==> aa@[p] == meet_below_at(
                        acc0,
                        cons@,
                        line@,
                        preints,
                        ki,
                        bi,
                        s as int,
                        p,
                    ),
            decreases len + 1 - s,
        {
            let ghost s0 = s as int;
            proof {
                assert(no_filled_in(line@, gap_lo(bi), s0));
            }
            let ok = check_block(line, s, c);
            if ok {
                let ghost mv = view_opt(fold);
                proof {
                    lemma_decompose(cons@, line@, preints, ki, bi, s0);
                }
                pre.push(s);
                proof {
                    assert(to_ints(pre@) =~= preints + seq![s0]);
                }
                let fold2 = solve_rec(cons, line, k + 1, s + c + 1, pre, fold);
                pre.pop();
                proof {
                    assert(pre@ =~= old(pre)@);
                }
                fold = fold2;
                proof {
                    assert((fold is Some) == (acc0 is Some || some_completion_below(
                        cons@,
                        line@,
                        ki,
                        bi,
                        s0 + 1,
                    )));
                    if fold is Some {
                        lemma_fold_step(
                            acc0,
                            mv,
                            view_opt(fold)->Some_0,
                            cons@,
                            line@,
                            preints,
                            ki,
                            bi,
                            s0,
                        );
                    }
                }
            } else {
                proof {
                    let q = choose|q: int| s0 <= q < s0 + c && line@[q] == Cell::Determined(false);
                    lemma_skip_start(cons@, line@, preints, ki, bi, s0, q);
                    assert((fold is Some) == (acc0 is Some || some_completion_below(
                        cons@,
                        line@,
                        ki,
                        bi,
                        s0 + 1,
                    )));
                    if fold is Some {
                        let aa = view_opt(fold)->Some_0;
                        assert forall|p: int| 0 <= p < len implies aa[p] == meet_below_at(
                            acc0,
                            cons@,
                            line@,
                            preints,
                            ki,
                            bi,
                            s0 + 1,
                            p,
                        ) by {
                            assert(aa[p] == meet_below_at(acc0, cons@, line@, preints, ki, bi, s0, p));
                            assert(completions_agree_below(cons@, line@, preints, ki, bi, s0 + 1, p, true)
                                == completions_agree_below(cons@, line@, preints, ki, bi, s0, p, true));
                            assert(completions_agree_below(cons@, line@, preints, ki, bi, s0 + 1, p, false)
                                == completions_agree_below(cons@, line@, preints, ki, bi, s0, p, false));
                        }
                    }
                }
            }
            // A later start would have to skip cell `s`; if that cell is
            // already decided filled, no completion remains beyond it.
            if s < len {
                if let Cell::Determined(true) = line[s] {
                    proof {
                        lemma_no_tail_beyond(cons@, line@, ki, bi, s0);
                    }
                    stop = true;
                }
            }
            s += 1;
        }
        proof {
            let sb = s as int;
            assert forall|tail: Seq<int>| #[trigger] tail_ok(tail, cons@, line@, ki, bi) implies
                tail[0] < sb by {
                if !stop {
                    assert(tail[0] + cons@[ki] <= len);
                }
            }
            lemma_bound_covers_all(cons@, line@, preints, ki, bi, sb);
            if fold is Some {
                let aa = view_opt(fold)->Some_0;
                assert forall|p: int| 0 <= p < len implies aa[p] == meet_at(
                    acc0,
                    cons@,
                    line@,
                    preints,
                    ki,
                    bi,
                    p,
                ) by {
                    assert(aa[p] == meet_below_at(acc0, cons@, line@, preints, ki, bi, sb, p));
                    assert(completions_agree_below(cons@, line@, preints, ki, bi, sb, p, true)
                        == completions_agree(cons@, line@, preints, ki, bi, p, true));
                    assert(completions_agree_below(cons@, line@, preints, ki, bi, sb, p, false)
                        == completions_agree(cons@, line@, preints, ki, bi, p, false));
                }
            }
        }
        fold
    }
}

/// Solve one line: the result is the positional intersection of every
/// placement of the runs `constraints` that is consistent with the cells of
/// `current` already determined, or `None` when no placement is consistent
/// or when the intersection leaves every cell unknown.
pub fn solve_line(constraints: &Vec<u32>, current: &Vec<Cell>) -> (r: Option<Vec<Cell>>)
    requires
        current@.len() < usize::MAX,
    ensures
        match r {
            Option::Some(upd) => solved_line(constraints@, current@) == Option::Some(upd@),
            Option::None => solved_line(constraints@, current@) is None,
        },
{
    let cons = constraints;
    let ghost consv = cons@;
    let ghost linev = current@;
    let ghost len = current@.len() as int;
    let mut pre: Vec<usize> = Vec::new();
    proof {
        assert(to_ints(pre@) =~= Seq::<int>::empty());
    }
    let r0 = solve_rec(cons, current, 0, 0, &mut pre, Option::None);
    proof {
        // a completion of the empty prefix is exactly a placement
        if satisfiable(consv, linev) {
            let w = choose|starts: Seq<int>| placement_ok(starts, consv, linev);
            assert(tail_ok(w, consv, linev, 0, 0));
            assert(some_completion(consv, linev, 0, 0));
        }
        if some_completion(consv, linev, 0, 0) {
            let w = choose|tail: Seq<int>| tail_ok(tail, consv, linev, 0, 0);
            assert(placement_ok(w, consv, linev));
            assert(satisfiable(consv, linev));
        }
    }
    match r0 {
        Option::None => {
            assert(!satisfiable(consv, linev));
            Option::None
        },
        Option::Some(out) => {
            proof {
                assert forall|p: int| 0 <= p < len implies out@[p] == intersection_at(
                    consv,
                    linev,
                    p,
                ) by {
                    assert(out@[p] == meet_at(
                        Option::None,
                        consv,
                        linev,
                        Seq::<int>::empty(),
                        0,
                        0,
                        p,
                    ));
                    assert forall|v: bool| completions_agree(
                        consv,
                        linev,
                        Seq::<int>::empty(),
                        0,
                        0,
                        p,
                        v,
                    ) == forced(consv, linev, p, v) by {
                        if completions_agree(consv, linev, Seq::<int>::empty(), 0, 0, p, v) {
                            assert forall|starts: Seq<int>|
                                placement_ok(starts, consv, linev) implies covered(
                                starts,
                                consv,
                                p,
                            ) == v by {
                                assert(tail_ok(starts, consv, linev, 0, 0));
                                assert(Seq::<int>::empty() + starts =~= starts);
                                assert(render(starts, consv, len)[p] == Cell::Determined(v));
                            }
                        }
                        if forced(consv, linev, p, v) {
                            assert forall|tail: Seq<int>|
                                #[trigger] tail_ok(tail, consv, linev, 0, 0) implies render(
                                Seq::<int>::empty() + tail,
                                consv,
                                len,
                            )[p] == Cell::Determined(v) by {
                                assert(placement_ok(tail, consv, linev));
                                assert(covered(tail, consv, p) == v);
                                assert(Seq::<int>::empty() + tail =~= tail);
                            }
                        }
                    }
                }
                assert(out@ =~= intersection(consv, linev));
            }
            let n = out.len();
            let mut any = false;
            let mut p: usize = 0;
            while p < n
                invariant
                    0 <= p <= n,
                    n == out@.len(),
                    any == exists|q: int| 0 <= q < p && out@[q] != Cell::Unknown,
                decreases n - p,
            {
                let ghost anyb = any;
                match out[p] {
                    Cell::Unknown => {},
                    _ => {
                        any = true;
                    },
                }
                proof {
                    if any {
                        if anyb {
                            let q = choose|q: int| 0 <= q < p && out@[q] != Cell::Unknown;
                            assert(0 <= q < p + 1 && out@[q] != Cell::Unknown);
                        } else {
                            assert(0 <= p < p + 1 && out@[p as int] != Cell::Unknown);
                        }
                    } else {
                        assert forall|q: int| 0 <= q < p + 1 implies out@[q]
                            == Cell::Unknown by {}
                    }
                }
                p += 1;
            }
            if any {
                proof {
                    let q = choose|q: int| 0 <= q < n && out@[q] != Cell::Unknown;
                    assert(!all_unknown(intersection(consv, linev)));
                }
                Option::Some(out)
            } else {
                proof {
                    assert(all_unknown(intersection(consv, linev)));
                }
                Option::None
            }
        },
    }
}

} // verus!
