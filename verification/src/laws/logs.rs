//! What a solver's log shows.
use crate::cost::{Cost, INFINITY, NEG_INFINITY};
use crate::milp::trajectory::{
    at_start, end_line, flushed, header_line, is_segment_end, is_table_header,
    is_warm_start_submip, moved, parse_log, parse_log_for_backend, primal_bound, row_in, run,
    shift_of, step, submip_line, time_to_first_incumbent, trajectory_of, with_row, Incumbent,
    LogDialect, LogModel,
};
use crate::text::{begins_with, decimal, has_part, lines_from, trimmed, words_from, Decimal};
use vstd::prelude::*;

verus! {

// ---------------------------------------------------------------------------
// Lines
// ---------------------------------------------------------------------------

/// How the lines of a log are told apart.
pub proof fn lines_are_told_by_their_words(
    line: &[char],
    dialect: LogDialect,
    submip: bool,
    header: bool,
    end: bool,
)
    requires
        call_ensures(is_warm_start_submip, (line, dialect), submip),
        call_ensures(is_table_header, (line, dialect), header),
        call_ensures(is_segment_end, (line, dialect), end),
    ensures
        dialect == LogDialect::Gurobi ==> !submip,
        dialect == LogDialect::Highs ==> submip == begins_with(
            line@,
            "Attempting to find feasible solution"@,
        ),
        dialect == LogDialect::Gurobi ==> header == (has_part(line@, "Incumbent"@) && has_part(
            line@,
            "BestBd"@,
        )),
        dialect == LogDialect::Highs ==> header == (has_part(line@, "InQueue"@) && has_part(
            line@,
            "Leaves"@,
        )),
        dialect == LogDialect::Highs ==> end == begins_with(line@, "Solving report"@),
        dialect == LogDialect::Gurobi ==> end == (begins_with(line@, "Explored "@) || begins_with(
            line@,
            "Cutting planes:"@,
        ) || begins_with(line@, "Optimal solution found"@) || begins_with(
            line@,
            "Time limit reached"@,
        ) || begins_with(line@, "Solution count"@)),
{
}

/// Line `k` stands above a progress table.
pub open spec fn opens(lines: Seq<Seq<char>>, dialect: LogDialect, k: int) -> bool {
    header_line(trimmed(lines[k]), dialect)
}

/// Line `k` ends a table.
pub open spec fn closes(lines: Seq<Seq<char>>, dialect: LogDialect, k: int) -> bool {
    !header_line(trimmed(lines[k]), dialect) && end_line(trimmed(lines[k]), dialect)
}

/// Line `k` is below the header of a table that has not ended.
pub open spec fn in_table(lines: Seq<Seq<char>>, dialect: LogDialect, k: int) -> bool {
    exists|h: int| 0 <= h < k && #[trigger] opens(lines, dialect, h) && !ends_between(
        lines,
        dialect,
        h,
        k,
    )
}

/// A table ends between lines `a` and `b`.
pub open spec fn ends_between(lines: Seq<Seq<char>>, dialect: LogDialect, a: int, b: int) -> bool {
    exists|e: int| a < e < b && #[trigger] closes(lines, dialect, e)
}

/// Line `k` is a row of a progress table.
pub open spec fn is_row(lines: Seq<Seq<char>>, dialect: LogDialect, k: int) -> bool {
    &&& in_table(lines, dialect, k)
    &&& !opens(lines, dialect, k)
    &&& !closes(lines, dialect, k)
    &&& trimmed(lines[k]).len() > 0
    &&& row_in(lines[k], dialect) is Some
}

/// The time of a row.
pub open spec fn secs_in(line: Seq<char>, dialect: LogDialect) -> Cost {
    match row_in(line, dialect) {
        Some((secs, objective, bound)) => secs,
        None => 0,
    }
}

/// The objective of a row.
pub open spec fn objective_in(line: Seq<char>, dialect: LogDialect) -> Cost {
    match row_in(line, dialect) {
        Some((secs, objective, bound)) => objective,
        None => 0,
    }
}

/// The bound of a row, if it has one.
pub open spec fn bound_in(line: Seq<char>, dialect: LogDialect) -> Option<Cost> {
    match row_in(line, dialect) {
        Some((secs, objective, bound)) => bound,
        None => None,
    }
}

/// The last row above line `k`, and `-1` without one.
pub open spec fn row_above(lines: Seq<Seq<char>>, dialect: LogDialect, k: nat) -> int
    decreases k,
{
    if k == 0 {
        -1
    } else if is_row(lines, dialect, k - 1) {
        k - 1
    } else {
        row_above(lines, dialect, (k - 1) as nat)
    }
}

/// Line `k` is a row at which the incumbent moved: the first of its table, or one with
/// another objective than the row above.
pub open spec fn moves(lines: Seq<Seq<char>>, dialect: LogDialect, k: int) -> bool {
    &&& is_row(lines, dialect, k)
    &&& {
        let j = row_above(lines, dialect, k as nat);
        j < 0 || ends_between(lines, dialect, j, k) || objective_in(lines[j], dialect) != objective_in(
            lines[k],
            dialect,
        )
    }
}

/// The rows among the first `n` lines at which the incumbent moved.
pub open spec fn moving_rows(lines: Seq<Seq<char>>, dialect: LogDialect, n: nat) -> Seq<int>
    decreases n,
{
    if n == 0 {
        Seq::empty()
    } else if moves(lines, dialect, n - 1) {
        moving_rows(lines, dialect, (n - 1) as nat).push(n - 1)
    } else {
        moving_rows(lines, dialect, (n - 1) as nat)
    }
}

/// No line announces a sub-MIP, and a line with a primal bound is no header, end or
/// row.
pub open spec fn is_plain(lines: Seq<Seq<char>>, dialect: LogDialect) -> bool {
    forall|k: int| 0 <= k < lines.len() ==> !#[trigger] is_odd(lines, dialect, k)
}

pub open spec fn is_odd(lines: Seq<Seq<char>>, dialect: LogDialect, k: int) -> bool {
    let t = trimmed(lines[k]);
    submip_line(t, dialect) || (primal_bound(t, dialect) is Some && (header_line(t, dialect)
        || end_line(t, dialect) || row_in(lines[k], dialect) is Some))
}

// ---------------------------------------------------------------------------
// What reading has come to
// ---------------------------------------------------------------------------

/// The points of a model are those of the rows at which the incumbent moved.
spec fn follows_rows(
    m: LogModel,
    lines: Seq<Seq<char>>,
    dialect: LogDialect,
    n: nat,
) -> bool {
    let at = moving_rows(lines, dialect, n);
    let points = m.out + m.pending;
    let j = row_above(lines, dialect, n);
    &&& !m.skip_table
    &&& m.in_table == in_table(lines, dialect, n as int)
    &&& points.len() == at.len()
    &&& forall|i: int|
        0 <= i < at.len() ==> (#[trigger] points[i]).secs == secs_in(lines[at[i]], dialect)
    &&& dialect == LogDialect::Gurobi ==> forall|i: int|
        0 <= i < at.len() ==> (#[trigger] points[i]).objective == objective_in(lines[at[i]], dialect)
            && points[i].bound == bound_in(lines[at[i]], dialect)
    &&& m.pending.len() > 0 ==> j >= 0 && at.len() > 0 && at.last() <= j
        && objective_in(lines[j], dialect) == m.pending.last().objective && !ends_between(
        lines,
        dialect,
        at.last(),
        j,
    ) && (m.awaiting_bound <==> ends_between(lines, dialect, j, n as int))
    &&& m.pending.len() == 0 && j >= 0 ==> ends_between(lines, dialect, j, n as int)
    &&& m.pending.len() == 0 ==> !m.awaiting_bound
    &&& m.awaiting_bound ==> !m.in_table
    &&& m.solve_index <= m.out.len() <= n
    &&& m.out.len() == 0 <==> m.solve_index == 0
    &&& m.out.len() > 0 ==> m.out.last().solve_index + 1 == m.solve_index
    &&& forall|i: int|
        0 <= i < m.pending.len() ==> (#[trigger] m.pending[i]).solve_index == m.solve_index
    &&& points.len() > 0 ==> points[0].solve_index == 0
    &&& forall|i: int|
        0 <= i < at.len() - 1 ==> (#[trigger] points[i + 1]).solve_index == points[i].solve_index + (
        if ends_between(lines, dialect, at[i], at[i + 1]) {
            1int
        } else {
            0
        })
    &&& at.len() > 0 ==> at.last() <= j
    &&& at.len() > 0 && m.pending.len() == 0 ==> ends_between(
        lines,
        dialect,
        at.last(),
        n as int,
    )
}

proof fn lemma_positions(lines: Seq<Seq<char>>, dialect: LogDialect, n: nat)
    ensures
        forall|i: int|
            0 <= i < moving_rows(lines, dialect, n).len() ==> 0 <= (#[trigger] moving_rows(
                lines,
                dialect,
                n,
            )[i]) < n && moves(lines, dialect, moving_rows(lines, dialect, n)[i]),
        forall|i: int, j: int|
            0 <= i < j < moving_rows(lines, dialect, n).len() ==> moving_rows(
                lines,
                dialect,
                n,
            )[i] < moving_rows(lines, dialect, n)[j],
        forall|k: int|
            0 <= k < n && #[trigger] moves(lines, dialect, k) ==> moving_rows(
                lines,
                dialect,
                n,
            ).contains(k),
        -1 <= row_above(lines, dialect, n) < n,
        row_above(lines, dialect, n) >= 0 ==> is_row(lines, dialect, row_above(lines, dialect, n)),
        moving_rows(lines, dialect, n).len() <= n,
    decreases n,
{
    if n > 0 {
        lemma_positions(lines, dialect, (n - 1) as nat);
        let before = moving_rows(lines, dialect, (n - 1) as nat);
        let after = moving_rows(lines, dialect, n);
        assert forall|k: int| 0 <= k < n && #[trigger] moves(lines, dialect, k) implies
            after.contains(k) by {
            if k == n - 1 {
                assert(after[after.len() - 1] == k);
            } else {
                assert(before.contains(k));
                let i = choose|i: int| 0 <= i < before.len() && before[i] == k;
                assert(after[i] == k);
            }
        }
    }
}

proof fn lemma_table_step(lines: Seq<Seq<char>>, dialect: LogDialect, n: nat)
    requires
        n > 0,
    ensures
        in_table(lines, dialect, n as int) == (if opens(lines, dialect, n - 1) {
            true
        } else if closes(lines, dialect, n - 1) {
            false
        } else {
            in_table(lines, dialect, n - 1)
        }),
{
    if opens(lines, dialect, n - 1) {
        assert(!ends_between(lines, dialect, n - 1, n as int));
    } else if closes(lines, dialect, n - 1) {
        if in_table(lines, dialect, n as int) {
            let h = choose|h: int|
                0 <= h < n && #[trigger] opens(lines, dialect, h) && !ends_between(
                    lines,
                    dialect,
                    h,
                    n as int,
                );
            assert(h < n - 1);
            assert(closes(lines, dialect, n - 1));
        }
    } else {
        if in_table(lines, dialect, n as int) {
            let h = choose|h: int|
                0 <= h < n && #[trigger] opens(lines, dialect, h) && !ends_between(
                    lines,
                    dialect,
                    h,
                    n as int,
                );
            assert(!ends_between(lines, dialect, h, n - 1));
        }
        if in_table(lines, dialect, n - 1) {
            let h = choose|h: int|
                0 <= h < n - 1 && #[trigger] opens(lines, dialect, h) && !ends_between(
                    lines,
                    dialect,
                    h,
                    n - 1,
                );
            assert(!ends_between(lines, dialect, h, n as int));
        }
    }
}

proof fn lemma_between_step(lines: Seq<Seq<char>>, dialect: LogDialect, a: int, n: nat)
    requires
        n > 0,
        a < n - 1,
    ensures
        ends_between(lines, dialect, a, n as int) == (ends_between(lines, dialect, a, n - 1)
            || closes(lines, dialect, n - 1)),
{
    if ends_between(lines, dialect, a, n - 1) {
        let e = choose|e: int| a < e < n - 1 && #[trigger] closes(lines, dialect, e);
        assert(closes(lines, dialect, e));
    }
}

/// A point moved within its solve keeps its time.
proof fn lemma_flush_keeps(
    m: LogModel,
    bound: Option<Cost>,
    lines: Seq<Seq<char>>,
    dialect: LogDialect,
    n: nat,
)
    requires
        n <= usize::MAX,
        follows_rows(m, lines, dialect, n),
        dialect == LogDialect::Gurobi ==> bound is None,
    ensures
        ({
            let f = flushed(m, bound);
            let points = m.out + m.pending;
            &&& f.pending.len() == 0
            &&& f.out.len() == points.len()
            &&& forall|i: int|
                0 <= i < f.out.len() ==> (#[trigger] f.out[i]).secs == points[i].secs
                    && f.out[i].solve_index == points[i].solve_index
            &&& bound is None ==> forall|i: int|
                0 <= i < f.out.len() ==> (#[trigger] f.out[i]).objective == points[i].objective
                    && f.out[i].bound == points[i].bound
            &&& m.pending.len() > 0 ==> f.solve_index == m.solve_index + 1
            &&& m.pending.len() == 0 ==> f == m
            &&& f.in_table == m.in_table && f.skip_table == m.skip_table && f.awaiting_bound
                == m.awaiting_bound
        }),
{
    lemma_positions(lines, dialect, n);
    let f = flushed(m, bound);
    let points = m.out + m.pending;
    if m.pending.len() > 0 {
        assert forall|i: int| 0 <= i < f.out.len() implies (#[trigger] f.out[i]).secs
            == points[i].secs && f.out[i].solve_index == points[i].solve_index by {
            if i >= m.out.len() {
                assert(f.out[i] == moved(
                    m.pending[i - m.out.len()],
                    shift_of(m.pending, bound),
                    m.solve_index,
                ));
                assert(points[i] == m.pending[i - m.out.len()]);
            }
        }
        if bound is None {
            assert forall|i: int| 0 <= i < f.out.len() implies (#[trigger] f.out[i]).objective
                == points[i].objective && f.out[i].bound == points[i].bound by {
                if i >= m.out.len() {
                    assert(f.out[i] == moved(m.pending[i - m.out.len()], 0, m.solve_index));
                    assert(points[i] == m.pending[i - m.out.len()]);
                }
            }
        }
    } else {
        assert(points =~= m.out);
    }
}

proof fn lemma_rows_followed(lines: Seq<Seq<char>>, dialect: LogDialect, n: nat)
    requires
        n <= lines.len() <= usize::MAX,
        is_plain(lines, dialect),
    ensures
        follows_rows(run(at_start(), lines, n, dialect), lines, dialect, n),
    decreases n,
{
    if n == 0 {
        assert(!in_table(lines, dialect, 0));
    } else {
        lemma_rows_followed(lines, dialect, (n - 1) as nat);
        lemma_row_step(run(at_start(), lines, (n - 1) as nat, dialect), lines, dialect, n);
    }
}

proof fn lemma_row_step(m: LogModel, lines: Seq<Seq<char>>, dialect: LogDialect, n: nat)
    requires
        0 < n <= lines.len() <= usize::MAX,
        is_plain(lines, dialect),
        follows_rows(m, lines, dialect, (n - 1) as nat),
    ensures
        follows_rows(step(m, lines[n - 1], dialect), lines, dialect, n),
{
    let line = lines[n - 1];
    let t = trimmed(line);
    let f = step(m, line, dialect);
    assert(!is_odd(lines, dialect, n - 1));
    lemma_table_step(lines, dialect, n);
    if m.awaiting_bound && primal_bound(t, dialect) is Some {
        assert(f =~= (LogModel {
            awaiting_bound: false,
            in_table: in_table(lines, dialect, n as int),
            ..flushed(m, primal_bound(t, dialect))
        }));
        lemma_flushed_follows(m, primal_bound(t, dialect), f, lines, dialect, n);
    } else if opens(lines, dialect, n - 1) && m.awaiting_bound {
        assert(f =~= (LogModel {
            awaiting_bound: false,
            in_table: in_table(lines, dialect, n as int),
            ..flushed(m, None)
        }));
        lemma_flushed_follows(m, None, f, lines, dialect, n);
    } else if opens(lines, dialect, n - 1) || closes(lines, dialect, n - 1) {
        lemma_edge_step(m, f, lines, dialect, n);
    } else if !is_row(lines, dialect, n - 1) {
        assert(f == m);
        lemma_edge_step(m, f, lines, dialect, n);
    } else {
        let row = row_in(line, dialect)->0;
        assert(f == with_row(m, row));
        if m.pending.len() > 0 && m.pending.last().objective == row.1 {
            lemma_still_step(m, lines, dialect, n);
        } else {
            lemma_move_step(m, f, lines, dialect, n);
        }
    }
}

/// A line that is no row.
#[verifier::spinoff_prover]
#[verifier::rlimit(40)]
proof fn lemma_edge_step(
    m: LogModel,
    f: LogModel,
    lines: Seq<Seq<char>>,
    dialect: LogDialect,
    n: nat,
)
    requires
        0 < n <= lines.len() <= usize::MAX,
        follows_rows(m, lines, dialect, (n - 1) as nat),
        !is_row(lines, dialect, n - 1),
        f == (LogModel {
            in_table: in_table(lines, dialect, n as int),
            awaiting_bound: m.awaiting_bound || (closes(lines, dialect, n - 1) && m.pending.len()
                > 0),
            ..m
        }),
        m.awaiting_bound ==> !opens(lines, dialect, n - 1),
    ensures
        follows_rows(f, lines, dialect, n),
{
    let before = moving_rows(lines, dialect, (n - 1) as nat);
    let j = row_above(lines, dialect, (n - 1) as nat);
    lemma_positions(lines, dialect, (n - 1) as nat);
    lemma_positions(lines, dialect, n);
    lemma_table_step(lines, dialect, n);
    lemma_between_step(lines, dialect, j, n);
    if before.len() > 0 {
        lemma_between_step(lines, dialect, before.last(), n);
    }
    assert(moving_rows(lines, dialect, n) == before);
    assert(row_above(lines, dialect, n) == j);
}

/// A row at which the incumbent did not move.
#[verifier::spinoff_prover]
#[verifier::rlimit(40)]
proof fn lemma_still_step(m: LogModel, lines: Seq<Seq<char>>, dialect: LogDialect, n: nat)
    requires
        0 < n <= lines.len() <= usize::MAX,
        follows_rows(m, lines, dialect, (n - 1) as nat),
        is_row(lines, dialect, n - 1),
        m.pending.len() > 0,
        m.pending.last().objective == objective_in(lines[n - 1], dialect),
    ensures
        follows_rows(m, lines, dialect, n),
{
    let before = moving_rows(lines, dialect, (n - 1) as nat);
    let j = row_above(lines, dialect, (n - 1) as nat);
    lemma_positions(lines, dialect, (n - 1) as nat);
    lemma_positions(lines, dialect, n);
    lemma_table_step(lines, dialect, n);
    assert(!ends_between(lines, dialect, j, n - 1));
    assert(!moves(lines, dialect, n - 1));
    assert(moving_rows(lines, dialect, n) == before);
    lemma_no_end(lines, dialect, before.last(), j, n - 1);
    assert(!ends_between(lines, dialect, n - 1, n as int));
}

/// A row at which the incumbent moved.
#[verifier::spinoff_prover]
#[verifier::rlimit(80)]
proof fn lemma_move_step(
    m: LogModel,
    f: LogModel,
    lines: Seq<Seq<char>>,
    dialect: LogDialect,
    n: nat,
)
    requires
        0 < n <= lines.len() <= usize::MAX,
        follows_rows(m, lines, dialect, (n - 1) as nat),
        is_row(lines, dialect, n - 1),
        m.pending.len() > 0 ==> m.pending.last().objective != objective_in(lines[n - 1], dialect),
        f == (LogModel {
            pending: m.pending.push(
                Incumbent {
                    solve_index: m.solve_index,
                    secs: secs_in(lines[n - 1], dialect),
                    objective: objective_in(lines[n - 1], dialect),
                    bound: bound_in(lines[n - 1], dialect),
                },
            ),
            ..m
        }),
    ensures
        follows_rows(f, lines, dialect, n),
{
    let before = moving_rows(lines, dialect, (n - 1) as nat);
    let after = moving_rows(lines, dialect, n);
    let j = row_above(lines, dialect, (n - 1) as nat);
    let points = m.out + m.pending;
    let more = f.out + f.pending;
    lemma_positions(lines, dialect, (n - 1) as nat);
    lemma_positions(lines, dialect, n);
    lemma_table_step(lines, dialect, n);
    assert(!m.awaiting_bound);
    assert(moves(lines, dialect, n - 1));
    assert(after == before.push(n - 1));
    assert(more =~= points.push(f.pending.last()));
    assert(!ends_between(lines, dialect, n - 1, n - 1));
    assert(!ends_between(lines, dialect, n - 1, n as int));
    if before.len() > 0 {
        if m.pending.len() > 0 {
            lemma_no_end(lines, dialect, before.last(), j, n - 1);
            assert(points.last() == m.pending.last());
        } else {
            assert(points.last() == m.out.last());
        }
    }
    assert forall|i: int| 0 <= i < after.len() - 1 implies (#[trigger] more[i + 1]).solve_index
        == more[i].solve_index + (if ends_between(lines, dialect, after[i], after[i + 1]) {
        1int
    } else {
        0
    }) by {
        if i + 1 < before.len() {
            assert(more[i + 1] == points[i + 1] && more[i] == points[i]);
            assert(after[i] == before[i] && after[i + 1] == before[i + 1]);
        } else {
            assert(more[i] == points.last());
        }
    }
    assert forall|i: int| 0 <= i < after.len() implies (#[trigger] more[i]).secs == secs_in(
        lines[after[i]],
        dialect,
    ) && (dialect == LogDialect::Gurobi ==> more[i].objective == objective_in(
        lines[after[i]],
        dialect,
    ) && more[i].bound == bound_in(lines[after[i]], dialect)) by {
        if i < before.len() {
            assert(more[i] == points[i]);
            assert(after[i] == before[i]);
        }
    }
}

/// No end between `a` and `b` nor between `b` and `c`, and row `b` is none.
proof fn lemma_no_end(lines: Seq<Seq<char>>, dialect: LogDialect, a: int, b: int, c: int)
    requires
        a <= b < c,
        is_row(lines, dialect, b),
        !ends_between(lines, dialect, a, b),
        !ends_between(lines, dialect, b, c),
    ensures
        !ends_between(lines, dialect, a, c),
{
    if ends_between(lines, dialect, a, c) {
        let e = choose|e: int| a < e < c && #[trigger] closes(lines, dialect, e);
        if e < b {
            assert(ends_between(lines, dialect, a, b));
        } else if e > b {
            assert(ends_between(lines, dialect, b, c));
        }
    }
}

/// After a segment is complete.
#[verifier::spinoff_prover]
#[verifier::rlimit(60)]
proof fn lemma_flushed_follows(
    m: LogModel,
    bound: Option<Cost>,
    f: LogModel,
    lines: Seq<Seq<char>>,
    dialect: LogDialect,
    n: nat,
)
    requires
        0 < n <= lines.len() <= usize::MAX,
        follows_rows(m, lines, dialect, (n - 1) as nat),
        m.awaiting_bound,
        dialect == LogDialect::Gurobi ==> bound is None,
        !is_row(lines, dialect, n - 1),
        f == (LogModel {
            awaiting_bound: false,
            in_table: in_table(lines, dialect, n as int),
            ..flushed(m, bound)
        }),
    ensures
        follows_rows(f, lines, dialect, n),
{
    let before = moving_rows(lines, dialect, (n - 1) as nat);
    let after = moving_rows(lines, dialect, n);
    let j = row_above(lines, dialect, (n - 1) as nat);
    lemma_positions(lines, dialect, (n - 1) as nat);
    lemma_positions(lines, dialect, n);
    lemma_between_step(lines, dialect, j, n);
    lemma_between_step(lines, dialect, before.last(), n);
    lemma_flush_keeps(m, bound, lines, dialect, (n - 1) as nat);
    assert(after == before);
    assert(f.out + f.pending =~= f.out);
    let points = m.out + m.pending;
    assert(points.last() == m.pending.last());
    assert(ends_between(lines, dialect, before.last(), n as int)) by {
        let e = choose|e: int| j < e < n - 1 && #[trigger] closes(lines, dialect, e);
        assert(before.last() < e < n);
    }
}

// ---------------------------------------------------------------------------
// The laws
// ---------------------------------------------------------------------------

/// The points of a trajectory are the rows of the progress tables at which the
/// incumbent moved, all of them, each once and in order, at the time of the row. A new
/// solve begins where a table ends in between. In Gurobi's dialect objective and bound
/// are those of the row. Left out are logs with a sub-MIP.
pub proof fn points_are_the_rows_that_move(
    text: &str,
    dialect: LogDialect,
    r: Vec<Incumbent>,
    lines: Seq<Seq<char>>,
    at: Seq<int>,
)
    requires
        call_ensures(parse_log, (text, dialect), r),
        lines == lines_from(text@, 0),
        lines.len() <= usize::MAX,
        is_plain(lines, dialect),
        at == moving_rows(lines, dialect, lines.len()),
    ensures
        r@.len() == at.len(),
        forall|i: int|
            0 <= i < r@.len() ==> 0 <= (#[trigger] at[i]) < lines.len() && moves(
                lines,
                dialect,
                at[i],
            ),
        forall|i: int, j: int| 0 <= i < j < at.len() ==> at[i] < at[j],
        forall|k: int|
            0 <= k < lines.len() && #[trigger] moves(lines, dialect, k) ==> at.contains(k),
        forall|i: int|
            0 <= i < r@.len() ==> (#[trigger] r@[i]).secs == secs_in(lines[at[i]], dialect),
        dialect == LogDialect::Gurobi ==> forall|i: int|
            0 <= i < r@.len() ==> (#[trigger] r@[i]).objective == objective_in(lines[at[i]], dialect)
                && r@[i].bound == bound_in(lines[at[i]], dialect),
        r@.len() > 0 ==> r@[0].solve_index == 0,
        forall|i: int|
            0 <= i < r@.len() - 1 ==> (#[trigger] r@[i + 1]).solve_index == r@[i].solve_index + (
            if ends_between(lines, dialect, at[i], at[i + 1]) {
                1int
            } else {
                0
            }),
{
    let n = lines.len();
    let m = run(at_start(), lines, n, dialect);
    lemma_rows_followed(lines, dialect, n);
    lemma_positions(lines, dialect, n);
    lemma_flush_keeps(m, None, lines, dialect, n);
    let points = m.out + m.pending;
    assert forall|i: int| 0 <= i < r@.len() implies (#[trigger] r@[i]).secs == secs_in(
        lines[at[i]],
        dialect,
    ) by {
        assert(points[i].secs == secs_in(lines[at[i]], dialect));
    }
    if dialect == LogDialect::Gurobi {
        assert forall|i: int| 0 <= i < r@.len() implies (#[trigger] r@[i]).objective == objective_in(
            lines[at[i]],
            dialect,
        ) && r@[i].bound == bound_in(lines[at[i]], dialect) by {
            assert(points[i].objective == objective_in(lines[at[i]], dialect));
        }
    }
    assert forall|i: int| 0 <= i < r@.len() - 1 implies (#[trigger] r@[i + 1]).solve_index
        == r@[i].solve_index + (if ends_between(lines, dialect, at[i], at[i + 1]) {
        1int
    } else {
        0
    }) by {
        assert(points[i + 1].solve_index == points[i].solve_index + (if ends_between(
            lines,
            dialect,
            at[i],
            at[i + 1],
        ) {
            1int
        } else {
            0
        }));
        assert(r@[i].solve_index == points[i].solve_index);
    }
    if r@.len() > 0 {
        assert(r@[0].solve_index == points[0].solve_index);
    }
}

/// A table that is skipped has no rows pending.
proof fn lemma_skipped_is_empty(lines: Seq<Seq<char>>, dialect: LogDialect, n: nat)
    ensures
        run(at_start(), lines, n, dialect).skip_table ==> run(
            at_start(),
            lines,
            n,
            dialect,
        ).pending.len() == 0,
    decreases n,
{
    if n > 0 {
        lemma_skipped_is_empty(lines, dialect, (n - 1) as nat);
    }
}

proof fn lemma_run_prefix(a: Seq<Seq<char>>, b: Seq<Seq<char>>, dialect: LogDialect, n: nat)
    requires
        n <= a.len(),
        n <= b.len(),
        forall|k: int| 0 <= k < n ==> #[trigger] a[k] == b[k],
    ensures
        run(at_start(), a, n, dialect) == run(at_start(), b, n, dialect),
    decreases n,
{
    if n > 0 {
        lemma_run_prefix(a, b, dialect, (n - 1) as nat);
        assert(a[n - 1] == b[n - 1]);
    }
}

/// A line that ends a table adds no point and takes none away: a log has the same
/// points with and without such a line at its end.
pub proof fn end_lines_change_no_point(
    short: &str,
    long: &str,
    dialect: LogDialect,
    line: Seq<char>,
    r: Vec<Incumbent>,
    s: Vec<Incumbent>,
)
    requires
        call_ensures(parse_log, (short, dialect), r),
        call_ensures(parse_log, (long, dialect), s),
        lines_from(long@, 0) == lines_from(short@, 0).push(line),
        end_line(trimmed(line), dialect),
        !submip_line(trimmed(line), dialect),
        !header_line(trimmed(line), dialect),
        primal_bound(trimmed(line), dialect) is None,
    ensures
        r@ == s@,
{
    let a = lines_from(short@, 0);
    let b = lines_from(long@, 0);
    let n = a.len();
    lemma_run_prefix(a, b, dialect, n);
    lemma_skipped_is_empty(a, dialect, n);
    assert(b[n as int] == line);
    let m = run(at_start(), a, n, dialect);
    assert(run(at_start(), b, n + 1, dialect) == step(m, line, dialect));
    if m.skip_table {
        assert(m.pending =~= Seq::empty());
    }
}

/// A sub-MIP leaves no point: a log has the same points with and without the
/// announcement of one, its table and the end of it at its end.
pub proof fn sub_mips_leave_no_point(
    short: &str,
    long: &str,
    dialect: LogDialect,
    block: Seq<Seq<char>>,
    r: Vec<Incumbent>,
    s: Vec<Incumbent>,
)
    requires
        call_ensures(parse_log, (short, dialect), r),
        call_ensures(parse_log, (long, dialect), s),
        lines_from(long@, 0) == lines_from(short@, 0) + block,
        block.len() > 0,
        submip_line(trimmed(block[0]), dialect),
        forall|k: int|
            0 < k < block.len() - 1 ==> !#[trigger] end_line(trimmed(block[k]), dialect),
    ensures
        r@ == s@,
{
    let a = lines_from(short@, 0);
    let b = lines_from(long@, 0);
    let n = a.len();
    lemma_run_prefix(a, b, dialect, n);
    let m = run(at_start(), a, n, dialect);
    lemma_sub_mip(a, b, dialect, block, block.len());
    let f = run(at_start(), b, b.len(), dialect);
    assert(b.len() == n + block.len());
    assert(flushed(f, None) == f);
}

proof fn lemma_sub_mip(
    a: Seq<Seq<char>>,
    b: Seq<Seq<char>>,
    dialect: LogDialect,
    block: Seq<Seq<char>>,
    k: nat,
)
    requires
        b == a + block,
        0 < k <= block.len(),
        submip_line(trimmed(block[0]), dialect),
        forall|i: int|
            0 < i < block.len() - 1 ==> !#[trigger] end_line(trimmed(block[i]), dialect),
    ensures
        ({
            let m = run(at_start(), a, a.len(), dialect);
            let f = run(at_start(), b, a.len() + k, dialect);
            &&& f.out == flushed(m, None).out
            &&& f.pending.len() == 0
            &&& f.solve_index == flushed(m, None).solve_index
            &&& !f.awaiting_bound
            &&& k < block.len() ==> f.skip_table
        }),
    decreases k,
{
    let m = run(at_start(), a, a.len(), dialect);
    assert(b[a.len() + k - 1] == block[k - 1]);
    if k == 1 {
        assert forall|i: int| 0 <= i < a.len() implies #[trigger] a[i] == b[i] by {}
        lemma_run_prefix(a, b, dialect, a.len());
    } else {
        lemma_sub_mip(a, b, dialect, block, (k - 1) as nat);
        let g = run(at_start(), b, (a.len() + k - 1) as nat, dialect);
        assert(flushed(g, None) == g);
        if k < block.len() {
            assert(!end_line(trimmed(block[k - 1]), dialect));
        }
    }
}

/// The rows of a segment are moved together, so that the last of them agrees with the
/// primal bound that the solver reports; without one they stay as they are. No segment
/// is lost, and the times stay.
pub proof fn segments_agree_with_their_primal_bound(m: LogModel, bound: Option<Cost>, i: int)
    requires
        0 <= i < m.pending.len(),
        m.solve_index < usize::MAX,
    ensures
        flushed(m, bound).pending.len() == 0,
        flushed(m, bound).solve_index == m.solve_index + 1,
        flushed(m, bound).out.len() == m.out.len() + m.pending.len(),
        flushed(m, bound).out.take(m.out.len() as int) =~= m.out,
        ({
            let p = m.pending[i];
            let last = m.pending.last();
            let q = flushed(m, bound).out[m.out.len() + i];
            &&& q.secs == p.secs
            &&& q.solve_index == m.solve_index
            &&& bound is None ==> q.objective == p.objective && q.bound == p.bound
            &&& bound matches Some(pb) ==> {
                let shift = pb - last.objective;
                NEG_INFINITY < pb < INFINITY && NEG_INFINITY < last.objective < INFINITY
                    && NEG_INFINITY < shift < INFINITY && NEG_INFINITY < p.objective + shift
                    < INFINITY && p.objective < INFINITY ==> {
                    &&& q.objective == p.objective + shift
                    &&& i == m.pending.len() - 1 ==> q.objective == pb
                    &&& p.bound is None ==> q.bound is None
                    &&& p.bound matches Some(b) ==> (NEG_INFINITY < b < INFINITY && NEG_INFINITY < b
                        + shift < INFINITY ==> q.bound == Some((b + shift) as Cost))
                }
            }
        }),
{
    let q = flushed(m, bound).out[m.out.len() + i];
    assert(q == moved(m.pending[i], shift_of(m.pending, bound), m.solve_index));
}

/// Logs are read in the dialect of the backend that is named, and not at all for
/// another.
pub proof fn backends_have_their_dialect(text: &str, name: &str, r: Vec<Incumbent>)
    requires
        call_ensures(parse_log_for_backend, (text, name), r),
    ensures
        name@ == "Gurobi"@ ==> r@ == trajectory_of(text@, LogDialect::Gurobi),
        name@ == "HiGHS"@ ==> r@ == trajectory_of(text@, LogDialect::Highs),
        name@ != "Gurobi"@ && name@ != "HiGHS"@ ==> r@.len() == 0,
{
    reveal_strlit("Gurobi");
    reveal_strlit("HiGHS");
    assert("HiGHS"@.len() != "Gurobi"@.len());
}

/// The time to the first incumbent is that of the first point.
pub proof fn first_incumbent_is_the_first_point(points: &[Incumbent], secs: Option<Cost>)
    requires
        call_ensures(time_to_first_incumbent, (points,), secs),
    ensures
        points@.len() == 0 ==> secs is None,
        points@.len() > 0 ==> secs == Some(points@[0].secs),
{
}

/// A row is read from the right: the time last, a number before an `s`; the objective
/// and the bound in the fifth and fourth column from the right in Gurobi's dialect, in
/// the seventh and eighth in that of HiGHS. A bound that is no finite number is none,
/// and a line without a time or an objective no row.
pub proof fn rows_are_read_from_the_right(
    line: Seq<char>,
    dialect: LogDialect,
    w: Seq<Seq<char>>,
    objective_word: Seq<char>,
    bound_word: Seq<char>,
)
    requires
        w == words_from(line, 0),
        dialect == LogDialect::Gurobi ==> w.len() >= 5 && objective_word == w[w.len() - 5]
            && bound_word == w[w.len() - 4],
        dialect == LogDialect::Highs ==> w.len() >= 8 && objective_word == w[w.len() - 7]
            && bound_word == w[w.len() - 8],
    ensures
        (row_in(line, dialect) matches Some((secs, objective, bound)) ==> {
            &&& w.last().len() > 0 && w.last().last() == 's'
            &&& decimal(w.last().drop_last()) is Some
            &&& decimal(w.last().drop_last()) matches Some(Decimal::Finite(v)) ==> secs == v
            &&& decimal(objective_word) == Some(Decimal::Finite(objective))
            &&& bound matches Some(b) ==> decimal(bound_word) == Some(Decimal::Finite(b))
            &&& bound is None ==> !(decimal(bound_word) matches Some(Decimal::Finite(_)))
        }),
        w.last().len() > 0 && w.last().last() == 's' && (decimal(w.last().drop_last()) matches Some(
            Decimal::Finite(_),
        )) && (decimal(objective_word) matches Some(Decimal::Finite(_))) ==> row_in(
            line,
            dialect,
        ) is Some,
{
}

/// A line of fewer words is no row.
pub proof fn short_lines_are_no_rows(line: Seq<char>, dialect: LogDialect)
    requires
        words_from(line, 0).len() < (if dialect == LogDialect::Gurobi {
            5int
        } else {
            8
        }),
    ensures
        row_in(line, dialect) is None,
{
}

/// HiGHS reports the primal bound of a solve after its table, and the points of that solve
/// are moved together so that the last of them is worth that; the points of earlier solves
/// stay, and so do the times. `k` is where the points of the last solve begin.
pub proof fn reported_bounds_move_the_last_solve(
    short: &str,
    long: &str,
    end: Seq<char>,
    line: Seq<char>,
    bound: Cost,
    r: Vec<Incumbent>,
    s: Vec<Incumbent>,
) -> (k: int)
    requires
        call_ensures(parse_log, (short, LogDialect::Highs), r),
        call_ensures(parse_log, (long, LogDialect::Highs), s),
        lines_from(long@, 0) == lines_from(short@, 0).push(end).push(line),
        lines_from(short@, 0).len() <= usize::MAX,
        is_plain(lines_from(short@, 0), LogDialect::Highs),
        begins_with(trimmed(end), "Solving report"@),
        !submip_line(trimmed(end), LogDialect::Highs),
        !header_line(trimmed(end), LogDialect::Highs),
        begins_with(trimmed(line), "Primal bound"@),
        !submip_line(trimmed(line), LogDialect::Highs),
        decimal(trimmed(trimmed(line).skip("Primal bound"@.len() as int))) == Some(
            Decimal::Finite(bound),
        ),
        r@.len() > 0,
        !ends_between(
            lines_from(short@, 0),
            LogDialect::Highs,
            moving_rows(
                lines_from(short@, 0),
                LogDialect::Highs,
                lines_from(short@, 0).len(),
            ).last(),
            lines_from(short@, 0).len() as int,
        ),
        NEG_INFINITY < bound < INFINITY,
        NEG_INFINITY < r@.last().objective < INFINITY,
        NEG_INFINITY < bound - r@.last().objective < INFINITY,
    ensures
        0 <= k < r@.len(),
        s@.len() == r@.len(),
        s@.take(k) =~= r@.take(k),
        k > 0 ==> r@[k - 1].solve_index < r@.last().solve_index,
        forall|i: int|
            k <= i < r@.len() ==> (#[trigger] s@[i]).secs == r@[i].secs && s@[i].solve_index
                == r@[i].solve_index && r@[i].solve_index == r@.last().solve_index,
        forall|i: int|
            k <= i < r@.len() && r@[i].objective < INFINITY && NEG_INFINITY < r@[i].objective + bound
                - r@.last().objective < INFINITY ==> (#[trigger] s@[i]).objective == r@[i].objective
                + bound - r@.last().objective,
        s@.last().objective == bound,
{
    let dialect = LogDialect::Highs;
    let a = lines_from(short@, 0);
    let b = lines_from(long@, 0);
    let n = a.len();
    let at = moving_rows(a, dialect, n);
    let m = run(at_start(), a, n, dialect);
    lemma_rows_followed(a, dialect, n);
    lemma_positions(a, dialect, n);
    lemma_run_prefix(a, b, dialect, n);
    let j = row_above(a, dialect, n);
    assert(flushed(m, None).out.len() == (m.out + m.pending).len());
    assert(at.len() > 0);
    assert(m.pending.len() > 0);
    assert(!m.awaiting_bound) by {
        if ends_between(a, dialect, j, n as int) {
            let e = choose|e: int| j < e < n && #[trigger] closes(a, dialect, e);
            assert(ends_between(a, dialect, at.last(), n as int));
        }
    }
    assert(b[n as int] == end);
    assert(b[(n + 1) as int] == line);
    let closed = run(at_start(), b, n + 1, dialect);
    assert(closed == step(m, end, dialect));
    assert(closed == (LogModel { in_table: false, awaiting_bound: true, ..m }));
    let told = run(at_start(), b, n + 2, dialect);
    assert(told == step(closed, line, dialect));
    assert(primal_bound(trimmed(line), dialect) == Some(bound));
    assert(told.out == flushed(closed, Some(bound)).out);
    assert(told.pending.len() == 0);
    let k = m.out.len() as int;
    let shift = shift_of(m.pending, Some(bound));
    assert forall|i: int| k <= i < r@.len() implies #[trigger] s@[i] == moved(
        m.pending[i - k],
        shift,
        m.solve_index,
    ) && r@[i] == moved(m.pending[i - k], 0, m.solve_index) && m.pending[i - k].solve_index
        == m.solve_index by {}
    assert(r@.last() == moved(m.pending.last(), 0, m.solve_index));
    k
}

} // verus!
