//! Laws of the line solver and of the solving loop, stated and proved over
//! the same spec functions the executable contracts use.

use vstd::prelude::*;

use crate::cell::Cell;
use crate::solver::all_unknown;
use crate::solver::covered;
use crate::solver::covered_from;
use crate::solver::fillable_in;
use crate::solver::forced;
use crate::solver::gap_lo;
use crate::solver::intersection;
use crate::solver::intersection_at;
use crate::solver::lemma_intersection_preserves;
use crate::solver::lemma_tail_min;
use crate::solver::no_filled_in;
use crate::solver::placement_ok;
use crate::solver::satisfiable;
use crate::solver::solved_line;
use crate::solver::tail_ok;
use crate::board::sum_runs;

verus! {

// ---------------------------------------------------------------------------
// A line without constraints.
// ---------------------------------------------------------------------------

/// A line with no required run: if any cell is already decided filled, no
/// placement is consistent and the solver reports nothing new; otherwise the
/// one placement is the empty one, and every cell of a non-empty line is
/// decided blank.
pub proof fn lemma_empty_constraints(line: Seq<Cell>)
    ensures
        (exists|p: int| 0 <= p < line.len() && line[p] == Cell::Determined(true)) ==> solved_line(
            Seq::<u32>::empty(),
            line,
        ) is None,
        (line.len() > 0 && forall|p: int|
            0 <= p < line.len() ==> line[p] != Cell::Determined(true)) ==> solved_line(
            Seq::<u32>::empty(),
            line,
        ) == Option::Some(Seq::new(line.len(), |p: int| Cell::Determined(false))),
{
    let cons = Seq::<u32>::empty();
    if exists|p: int| 0 <= p < line.len() && line[p] == Cell::Determined(true) {
        let p = choose|p: int| 0 <= p < line.len() && line[p] == Cell::Determined(true);
        if satisfiable(cons, line) {
            let w = choose|starts: Seq<int>| placement_ok(starts, cons, line);
            assert(no_filled_in(line, gap_lo(0), line.len() as int));
            assert(line[p] != Cell::Determined(true));
        }
        assert(solved_line(cons, line) is None);
    }
    if line.len() > 0 && forall|p: int| 0 <= p < line.len() ==> line[p] != Cell::Determined(true) {
        assert(no_filled_in(line, 0, line.len() as int));
        assert(tail_ok(Seq::<int>::empty(), cons, line, 0, 0));
        assert(placement_ok(Seq::<int>::empty(), cons, line));
        assert(satisfiable(cons, line));
        assert forall|p: int| 0 <= p < line.len() implies intersection_at(cons, line, p)
            == Cell::Determined(false) by {
            assert(!covered(Seq::<int>::empty(), cons, p));
            assert forall|starts: Seq<int>| placement_ok(starts, cons, line) implies covered(
                starts,
                cons,
                p,
            ) == false by {
                assert(starts.len() == 0);
            }
            assert(forced(cons, line, p, false));
            assert(!forced(cons, line, p, true));
        }
        assert(!all_unknown(intersection(cons, line))) by {
            assert(intersection(cons, line)[0] == Cell::Determined(false));
        }
        assert(intersection(cons, line) =~= Seq::new(line.len(), |p: int| Cell::Determined(false)));
    }
}

// ---------------------------------------------------------------------------
// A line whose runs fit exactly.
// ---------------------------------------------------------------------------

proof fn lemma_sum_head(s: Seq<u32>)
    requires
        s.len() > 0,
    ensures
        sum_runs(s) == s[0] + sum_runs(s.skip(1)),
    decreases s.len(),
{
    if s.len() == 1 {
        assert(s.drop_last().len() == 0);
        assert(s.skip(1).len() == 0);
        assert(sum_runs(s.drop_last()) == 0);
        assert(sum_runs(s.skip(1)) == 0);
        assert(s.last() == s[0]);
    } else {
        lemma_sum_head(s.drop_last());
        assert(s.drop_last().skip(1) =~= s.skip(1).drop_last());
        assert(s.drop_last()[0] == s[0]);
        assert(s.skip(1).last() == s.last());
        assert(sum_runs(s) == sum_runs(s.drop_last()) + s.last());
        assert(sum_runs(s.drop_last()) == s[0] + sum_runs(s.skip(1).drop_last()));
        assert(sum_runs(s.skip(1)) == sum_runs(s.skip(1).drop_last()) + s.skip(1).last());
    }
}

/// Every placement of the runs `cons[k..]` starting at or after `begin`
/// needs at least their total length plus a gap between neighbours.
proof fn lemma_span(tail: Seq<int>, cons: Seq<u32>, line: Seq<Cell>, k: int, begin: int)
    requires
        0 <= k < cons.len(),
        tail_ok(tail, cons, line, k, begin),
    ensures
        begin + sum_runs(cons.skip(k)) + (cons.len() - k) - 1 <= line.len(),
    decreases cons.len() - k,
{
    let s = tail[0];
    let c = cons[k];
    assert(cons.skip(k)[0] == cons[k]);
    assert(cons.skip(k).skip(1) =~= cons.skip(k + 1));
    lemma_sum_head(cons.skip(k));
    if k + 1 < cons.len() {
        lemma_span(tail.skip(1), cons, line, k + 1, s + c + 1);
    } else {
        assert(sum_runs(cons.skip(k + 1)) == 0);
    }
}

spec fn tight_starts(cons: Seq<u32>, k: int, begin: int) -> Seq<int>
    decreases cons.len() - k when 0 <= k <= cons.len()
{
    if k < 0 || k >= cons.len() {
        Seq::<int>::empty()
    } else {
        seq![begin] + tight_starts(cons, k + 1, begin + cons[k] + 1)
    }
}

/// When the runs fill the line exactly (counting one cell between
/// neighbours), the packed placement is the only one.
proof fn lemma_tight_unique(tail: Seq<int>, cons: Seq<u32>, line: Seq<Cell>, k: int, begin: int)
    requires
        0 <= k <= cons.len(),
        0 <= begin,
        tail_ok(tail, cons, line, k, begin),
        begin + sum_runs(cons.skip(k)) + (cons.len() - k) - 1 == line.len(),
    ensures
        tail == tight_starts(cons, k, begin),
    decreases cons.len() - k,
{
    if k == cons.len() {
        assert(tail.len() == 0);
        assert(tail =~= tight_starts(cons, k, begin));
    } else {
        let s = tail[0];
        let c = cons[k];
        assert(cons.skip(k)[0] == cons[k]);
        assert(cons.skip(k).skip(1) =~= cons.skip(k + 1));
        lemma_sum_head(cons.skip(k));
        if s > begin {
            if k + 1 < cons.len() {
                lemma_span(tail.skip(1), cons, line, k + 1, s + c + 1);
            } else {
                assert(sum_runs(cons.skip(k + 1)) == 0);
            }
            assert(false);
        }
        assert(s == begin);
        lemma_tight_unique(tail.skip(1), cons, line, k + 1, begin + c + 1);
        assert(tail =~= seq![tail[0]] + tail.skip(1));
        assert(tail == tight_starts(cons, k, begin));
    }
}

/// The exact-fit law: when the runs' total length plus one gap between each
/// pair of neighbours equals the line length, and some placement is
/// consistent with the snapshot, it is the only one, and the solver returns
/// a fully determined line.
pub proof fn lemma_exact_fit(cons: Seq<u32>, line: Seq<Cell>)
    requires
        cons.len() >= 1,
        forall|i: int| 0 <= i < cons.len() ==> #[trigger] cons[i] >= 1,
        sum_runs(cons) + cons.len() - 1 == line.len(),
        satisfiable(cons, line),
    ensures
        solved_line(cons, line) is Some,
        forall|p: int| 0 <= p < line.len() ==> solved_line(cons, line)->Some_0[p]
            != Cell::Unknown,
{
    let w = choose|starts: Seq<int>| placement_ok(starts, cons, line);
    assert(cons.skip(0) =~= cons);
    lemma_tight_unique(w, cons, line, 0, 0);
    let tight = tight_starts(cons, 0, 0);
    assert forall|starts: Seq<int>| placement_ok(starts, cons, line) implies starts == tight by {
        lemma_tight_unique(starts, cons, line, 0, 0);
    }
    assert forall|p: int| 0 <= p < line.len() implies intersection_at(cons, line, p)
        != Cell::Unknown by {
        let b = covered(tight, cons, p);
        assert forall|starts: Seq<int>| placement_ok(starts, cons, line) implies covered(
            starts,
            cons,
            p,
        ) == b by {}
        assert(forced(cons, line, p, b));
        if b {
            assert(intersection_at(cons, line, p) == Cell::Determined(true));
        } else {
            assert(covered(w, cons, p) == false);
            assert(!forced(cons, line, p, true));
            assert(intersection_at(cons, line, p) == Cell::Determined(false));
        }
    }
    assert(line.len() >= 1) by {
        assert(cons[0] >= 1);
        assert(sum_runs(cons) >= 0) by {
            lemma_sum_nonneg(cons);
        }
    }
    assert(!all_unknown(intersection(cons, line))) by {
        assert(intersection(cons, line)[0] == intersection_at(cons, line, 0));
        assert(intersection_at(cons, line, 0) != Cell::Unknown);
    }
    assert(solved_line(cons, line) is Some);
    assert forall|p: int| 0 <= p < line.len() implies solved_line(cons, line)->Some_0[p]
        != Cell::Unknown by {
        assert(solved_line(cons, line)->Some_0[p] == intersection_at(cons, line, p));
    }
}

proof fn lemma_sum_nonneg(cons: Seq<u32>)
    ensures
        sum_runs(cons) >= 0,
    decreases cons.len(),
{
    if cons.len() > 0 {
        lemma_sum_nonneg(cons.drop_last());
    }
}

// ---------------------------------------------------------------------------
// Idempotence: the solver's output is a fixed point.
// ---------------------------------------------------------------------------

proof fn lemma_covered_shift(tail: Seq<int>, cons: Seq<u32>, k: int, p: int)
    requires
        0 <= k < cons.len(),
        tail.len() == cons.len() - k,
        p >= tail[0] + cons[k],
    ensures
        covered_from(tail, cons, k, p) == covered_from(tail.skip(1), cons, k + 1, p),
{
    if covered_from(tail, cons, k, p) {
        let i = choose|i: int|
            0 <= i < tail.len() && #[trigger] tail[i] <= p < tail[i] + cons[k + i];
        assert(i != 0);
        assert(tail.skip(1)[i - 1] <= p < tail.skip(1)[i - 1] + cons[k + 1 + (i - 1)]);
        assert(covered_from(tail.skip(1), cons, k + 1, p));
    }
    if covered_from(tail.skip(1), cons, k + 1, p) {
        let i = choose|i: int|
            0 <= i < tail.skip(1).len() && #[trigger] tail.skip(1)[i] <= p < tail.skip(1)[i]
                + cons[k + 1 + i];
        assert(tail[i + 1] <= p < tail[i + 1] + cons[k + (i + 1)]);
        assert(covered_from(tail, cons, k, p));
    }
}

/// A placement consistent with snapshot `a` is also consistent with any
/// snapshot `b` of the same length whose determined cells it matches.
proof fn lemma_resnap(
    tail: Seq<int>,
    cons: Seq<u32>,
    a: Seq<Cell>,
    b: Seq<Cell>,
    k: int,
    begin: int,
)
    requires
        0 <= k <= cons.len(),
        0 <= begin,
        tail_ok(tail, cons, a, k, begin),
        b.len() == a.len(),
        forall|p: int|
            gap_lo(begin) <= p < b.len() && b[p] == Cell::Determined(true) ==> covered_from(
                tail,
                cons,
                k,
                p,
            ),
        forall|p: int|
            gap_lo(begin) <= p < b.len() && b[p] == Cell::Determined(false) ==> !covered_from(
                tail,
                cons,
                k,
                p,
            ),
    ensures
        tail_ok(tail, cons, b, k, begin),
    decreases cons.len() - k,
{
    if k == cons.len() {
        assert forall|p: int| gap_lo(begin) <= p < b.len() implies b[p] != Cell::Determined(
            true,
        ) by {
            if b[p] == Cell::Determined(true) {
                assert(covered_from(tail, cons, k, p));
                assert(tail.len() == 0);
            }
        }
        assert(no_filled_in(b, gap_lo(begin), b.len() as int));
    } else {
        let s = tail[0];
        let c = cons[k];
        lemma_tail_min(tail.skip(1), cons, a, k + 1, s + c + 1);
        assert forall|p: int| gap_lo(begin) <= p < s implies b[p] != Cell::Determined(true) by {
            if b[p] == Cell::Determined(true) {
                assert(covered_from(tail, cons, k, p));
                let i = choose|i: int|
                    0 <= i < tail.len() && #[trigger] tail[i] <= p < tail[i] + cons[k + i];
                if i > 0 {
                    assert(tail.skip(1)[i - 1] == tail[i]);
                    assert(tail[i] >= s + c + 1);
                }
            }
        }
        assert(no_filled_in(b, gap_lo(begin), s));
        assert forall|p: int| s <= p < s + c implies b[p] != Cell::Determined(false) by {
            if b[p] == Cell::Determined(false) {
                assert(tail[0] <= p < tail[0] + cons[k + 0]);
                assert(covered_from(tail, cons, k, p));
            }
        }
        assert(fillable_in(b, s, s + c));
        assert forall|p: int|
            gap_lo(s + c + 1) <= p < b.len() && b[p] == Cell::Determined(true) implies
            covered_from(tail.skip(1), cons, k + 1, p) by {
            assert(covered_from(tail, cons, k, p));
            lemma_covered_shift(tail, cons, k, p);
        }
        assert forall|p: int|
            gap_lo(s + c + 1) <= p < b.len() && b[p] == Cell::Determined(false) implies
            !covered_from(tail.skip(1), cons, k + 1, p) by {
            assert(!covered_from(tail, cons, k, p));
            lemma_covered_shift(tail, cons, k, p);
        }
        lemma_resnap(tail.skip(1), cons, a, b, k + 1, s + c + 1);
    }
}

/// Idempotence: feeding the solver's own output back as the snapshot, with
/// the same constraints, changes nothing — the consistent placements are
/// the same, so the intersection is the same line again.
pub proof fn lemma_idempotent(cons: Seq<u32>, line: Seq<Cell>)
    requires
        solved_line(cons, line) is Some,
    ensures
        solved_line(cons, solved_line(cons, line)->Some_0) == solved_line(cons, line),
{
    let out = intersection(cons, line);
    assert(solved_line(cons, line)->Some_0 == out);
    assert(out.len() == line.len());
    // every placement consistent with `line` is consistent with `out` ...
    assert forall|w: Seq<int>| placement_ok(w, cons, line) implies placement_ok(
        w,
        cons,
        out,
    ) by {
        assert forall|p: int|
            0 <= p < out.len() && out[p] == Cell::Determined(true) implies covered(
            w,
            cons,
            p,
        ) by {
            assert(forced(cons, line, p, true));
        }
        assert forall|p: int|
            0 <= p < out.len() && out[p] == Cell::Determined(false) implies !covered(
            w,
            cons,
            p,
        ) by {
            assert(forced(cons, line, p, false));
        }
        lemma_resnap(w, cons, line, out, 0, 0);
    }
    // ... and the other way round.
    assert forall|w: Seq<int>| placement_ok(w, cons, out) implies placement_ok(
        w,
        cons,
        line,
    ) by {
        assert forall|p: int|
            0 <= p < line.len() && line[p] == Cell::Determined(true) implies covered(
            w,
            cons,
            p,
        ) by {
            lemma_intersection_preserves(cons, line, p, true);
            assert(out[p] == Cell::Determined(true));
            crate::solver::lemma_tail_compat(w, cons, out, 0, 0, p, true);
        }
        assert forall|p: int|
            0 <= p < line.len() && line[p] == Cell::Determined(false) implies !covered(
            w,
            cons,
            p,
        ) by {
            lemma_intersection_preserves(cons, line, p, false);
            assert(out[p] == Cell::Determined(false));
            crate::solver::lemma_tail_compat(w, cons, out, 0, 0, p, false);
        }
        lemma_resnap(w, cons, out, line, 0, 0);
    }
    assert(satisfiable(cons, out)) by {
        let w = choose|w: Seq<int>| placement_ok(w, cons, line);
        assert(placement_ok(w, cons, out));
    }
    assert forall|p: int, v: bool| 0 <= p < line.len() implies forced(cons, out, p, v) == forced(
        cons,
        line,
        p,
        v,
    ) by {
        if forced(cons, out, p, v) {
            assert forall|w: Seq<int>| placement_ok(w, cons, line) implies covered(w, cons, p)
                == v by {
                assert(placement_ok(w, cons, out));
            }
        }
        if forced(cons, line, p, v) {
            assert forall|w: Seq<int>| placement_ok(w, cons, out) implies covered(w, cons, p)
                == v by {
                assert(placement_ok(w, cons, line));
            }
        }
    }
    assert(intersection(cons, out) =~= out);
    assert(!all_unknown(out));
    assert(solved_line(cons, out) == Option::Some(out));
}

// ---------------------------------------------------------------------------
// The round-robin rotation of the solving loop.
// ---------------------------------------------------------------------------

/// One full rotation of the counter visits every row once, then every
/// column once: the first `x_len` counter values name the rows in order,
/// the next `y_len` name the columns in order, and no two counter values of
/// one rotation name the same line.
pub proof fn lemma_cursor_rotation(x_len: int, y_len: int)
    requires
        x_len >= 0,
        y_len >= 0,
    ensures
        forall|c: int| 0 <= c < x_len ==> crate::board::visited_axis_is_x(c, x_len)
            && crate::board::visited_index(c, x_len) == c,
        forall|c: int| x_len <= c < x_len + y_len ==> !crate::board::visited_axis_is_x(c, x_len)
            && crate::board::visited_index(c, x_len) == c - x_len,
        forall|c1: int, c2: int|
            0 <= c1 < c2 < x_len + y_len ==> !(crate::board::visited_axis_is_x(c1, x_len)
                == crate::board::visited_axis_is_x(c2, x_len) && crate::board::visited_index(
                c1,
                x_len,
            ) == crate::board::visited_index(c2, x_len)),
{
}

} // verus!
