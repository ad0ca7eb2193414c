//! Recovers an incumbent-vs-time trajectory from a solver's own log.
//!
//! On instances where every configuration times out, the final objective alone
//! cannot say whether a configuration was *converging*. Gurobi and HiGHS both
//! print a timestamped line every time the incumbent or the bound moves, so
//! the information is there once the log is written to a file.
//!
//! Log formats are not a stable API. Every line that does not parse is
//! skipped, and a log that yields nothing gives an empty trajectory: a missing
//! trajectory must degrade the *reporting*, never the run. "Empty" means
//! "unknown", not "no improvement".
use crate::cost::{add_costs, minus, plus, sub_costs, Cost, INFINITY, NEG_INFINITY};
use crate::text::{
    begins_with, chars_of, contains, decimal, has_part, lines_from, next_line, parse_decimal,
    starts_with, trim, trimmed, words, words_from, Decimal,
};
use vstd::prelude::*;
use vstd::slice::slice_subrange;

verus! {

/// One point on the incumbent/bound trajectory.
#[derive(Debug, Clone, Copy, PartialEq, Eq)]
pub struct Incumbent {
    /// Which solve this came from. Each solve restarts the solver's own clock,
    /// so `secs` is only comparable within one `solve_index`; and where rows
    /// were added in between, so is `objective`.
    pub solve_index: usize,
    /// Seconds since the start of that solve, as the solver reported them.
    pub secs: Cost,
    /// Objective value of the incumbent at that moment.
    pub objective: Cost,
    /// Best proven bound at that moment, when the log reported one.
    pub bound: Option<Cost>,
}

/// Which log dialect to expect.
#[derive(Debug, Clone, Copy, PartialEq, Eq, Structural)]
pub enum LogDialect {
    Gurobi,
    Highs,
}

// ---------------------------------------------------------------------------
// Lines
// ---------------------------------------------------------------------------

/// The line announces HiGHS' MIP-start completion sub-MIP. Gurobi completes a
/// partial start without a log section of its own.
pub open spec fn submip_line(line: Seq<char>, dialect: LogDialect) -> bool {
    dialect == LogDialect::Highs && begins_with(line, "Attempting to find feasible solution"@)
}

/// The line stands immediately above a progress table.
pub open spec fn header_line(line: Seq<char>, dialect: LogDialect) -> bool {
    match dialect {
        LogDialect::Highs => has_part(line, "InQueue"@) && has_part(line, "Leaves"@),
        LogDialect::Gurobi => has_part(line, "Incumbent"@) && has_part(line, "BestBd"@),
    }
}

/// The line ends the current table.
pub open spec fn end_line(line: Seq<char>, dialect: LogDialect) -> bool {
    match dialect {
        LogDialect::Highs => begins_with(line, "Solving report"@),
        LogDialect::Gurobi => {
            ||| begins_with(line, "Explored "@)
            ||| begins_with(line, "Cutting planes:"@)
            ||| begins_with(line, "Optimal solution found"@)
            ||| begins_with(line, "Time limit reached"@)
            ||| begins_with(line, "Solution count"@)
        },
    }
}

/// The amount a number stands for; what is not a number, or too large to hold,
/// stands for none.
pub open spec fn amount(number: Option<Decimal>) -> Option<Cost> {
    match number {
        Some(Decimal::Finite(v)) => Some(v),
        Some(Decimal::Infinite { negative }) => Some(
            if negative {
                NEG_INFINITY
            } else {
                INFINITY
            },
        ),
        _ => None,
    }
}

/// The solver's own statement of a segment's true incumbent. Gurobi's table is
/// in the objective space of the model already.
pub open spec fn primal_bound(line: Seq<char>, dialect: LogDialect) -> Option<Cost> {
    if dialect == LogDialect::Highs && begins_with(line, "Primal bound"@) {
        amount(decimal(trimmed(line.skip("Primal bound"@.len() as int))))
    } else {
        None
    }
}

/// Both dialects put the elapsed time last, formatted as `<number>s`.
pub open spec fn time_in(word: Seq<char>) -> Option<Cost> {
    if word.len() > 0 && word.last() == 's' {
        amount(decimal(word.drop_last()))
    } else {
        None
    }
}

/// A number, or `None` for the placeholders both solvers use for "not known
/// yet" (`-`, `inf`, `-inf`, `1e+30`, `Large`).
pub open spec fn number_in(word: Seq<char>) -> Option<Cost> {
    match decimal(word) {
        Some(Decimal::Finite(v)) => Some(v),
        _ => None,
    }
}

/// Seconds, incumbent and bound of one progress row. Both dialects have fixed
/// right-hand columns; the left-hand ones vary.
pub open spec fn row_in(line: Seq<char>, dialect: LogDialect) -> Option<(Cost, Cost, Option<Cost>)> {
    let parts = words_from(line, 0);
    let n = parts.len() as int;
    let (least, objective, bound) = match dialect {
        // ... Incumbent  BestBd  Gap  It/Node  Time
        LogDialect::Gurobi => (5int, n - 5, n - 4),
        // ... BestBound  BestSol  Gap  Cuts  InLp  Confl.  LpIters  Time
        LogDialect::Highs => (8int, n - 7, n - 8),
    };
    if n < least || n == 0 {
        None
    } else {
        match (time_in(parts[n - 1]), number_in(parts[objective])) {
            (Some(secs), Some(obj)) => Some((secs, obj, number_in(parts[bound]))),
            _ => None,
        }
    }
}

// ---------------------------------------------------------------------------
// The state machine
// ---------------------------------------------------------------------------

/// What reading a log has come to.
#[verifier::ext_equal]
pub struct LogModel {
    /// The segments that are complete.
    pub out: Seq<Incumbent>,
    /// The rows of the current segment.
    pub pending: Seq<Incumbent>,
    /// The number of complete segments.
    pub solve_index: usize,
    pub in_table: bool,
    /// The next table belongs to the MIP-start completion sub-MIP.
    pub skip_table: bool,
    /// Between a segment's end and its "Primal bound" line.
    pub awaiting_bound: bool,
}

/// A point moved by `shift` into solve `solve_index`.
pub open spec fn moved(p: Incumbent, shift: Cost, solve_index: usize) -> Incumbent {
    Incumbent {
        solve_index,
        secs: p.secs,
        objective: if shift != 0 {
            plus(p.objective, shift)
        } else {
            p.objective
        },
        bound: match p.bound {
            Some(b) => Some(
                if shift != 0 {
                    plus(b, shift)
                } else {
                    b
                },
            ),
            None => None,
        },
    }
}

/// How far a segment's rows are from its reported primal bound.
pub open spec fn shift_of(pending: Seq<Incumbent>, primal_bound: Option<Cost>) -> Cost {
    match primal_bound {
        Some(pb) => minus(pb, pending.last().objective),
        None => 0,
    }
}

/// The current segment completed, its rows moved to agree with its primal
/// bound where that is known.
pub open spec fn flushed(m: LogModel, primal_bound: Option<Cost>) -> LogModel {
    if m.pending.len() == 0 {
        m
    } else {
        let shift = shift_of(m.pending, primal_bound);
        LogModel {
            out: m.out + Seq::new(
                m.pending.len(),
                |i: int| moved(m.pending[i], shift, m.solve_index),
            ),
            pending: Seq::empty(),
            solve_index: (m.solve_index + 1) as usize,
            ..m
        }
    }
}

/// A progress row taken in, unless the incumbent did not move.
pub open spec fn with_row(m: LogModel, row: (Cost, Cost, Option<Cost>)) -> LogModel {
    if m.pending.len() > 0 && m.pending.last().objective == row.1 {
        m
    } else {
        LogModel {
            pending: m.pending.push(
                Incumbent {
                    solve_index: m.solve_index,
                    secs: row.0,
                    objective: row.1,
                    bound: row.2,
                },
            ),
            ..m
        }
    }
}

/// One line read.
pub open spec fn step(m: LogModel, line: Seq<char>, dialect: LogDialect) -> LogModel {
    let t = trimmed(line);
    if submip_line(t, dialect) {
        LogModel { skip_table: true, awaiting_bound: false, ..flushed(m, None) }
    } else if m.awaiting_bound && primal_bound(t, dialect) is Some {
        LogModel { awaiting_bound: false, ..flushed(m, primal_bound(t, dialect)) }
    } else if header_line(t, dialect) {
        if m.awaiting_bound {
            LogModel { awaiting_bound: false, in_table: true, ..flushed(m, None) }
        } else {
            LogModel { in_table: true, ..m }
        }
    } else if end_line(t, dialect) {
        if m.skip_table {
            LogModel { in_table: false, skip_table: false, pending: Seq::empty(), ..m }
        } else if m.pending.len() > 0 {
            LogModel { in_table: false, awaiting_bound: true, ..m }
        } else {
            LogModel { in_table: false, ..m }
        }
    } else if !m.in_table || m.skip_table || t.len() == 0 {
        m
    } else {
        match row_in(line, dialect) {
            Some(row) => with_row(m, row),
            None => m,
        }
    }
}

/// The first `n` lines read.
pub open spec fn run(m: LogModel, lines: Seq<Seq<char>>, n: nat, dialect: LogDialect) -> LogModel
    decreases n,
{
    if n == 0 {
        m
    } else {
        step(run(m, lines, (n - 1) as nat, dialect), lines[n - 1], dialect)
    }
}

/// Before the first line.
pub open spec fn at_start() -> LogModel {
    LogModel {
        out: Seq::empty(),
        pending: Seq::empty(),
        solve_index: 0,
        in_table: false,
        skip_table: false,
        awaiting_bound: false,
    }
}

/// The trajectory a log shows.
pub open spec fn trajectory_of(text: Seq<char>, dialect: LogDialect) -> Seq<Incumbent> {
    let lines = lines_from(text, 0);
    flushed(run(at_start(), lines, lines.len(), dialect), None).out
}

// ---------------------------------------------------------------------------
// Reading
// ---------------------------------------------------------------------------

fn has_prefix(line: &[char], prefix: &str) -> (r: bool)
    ensures
        r == begins_with(line@, prefix@),
{
    let p: Vec<char> = chars_of(prefix);
    starts_with(line, p.as_slice())
}

fn mentions(line: &[char], part: &str) -> (r: bool)
    ensures
        r == has_part(line@, part@),
{
    let p: Vec<char> = chars_of(part);
    contains(line, p.as_slice())
}

/// [`submip_line`].
pub fn is_warm_start_submip(line: &[char], dialect: LogDialect) -> (r: bool)
    ensures
        r == submip_line(line@, dialect),
{
    match dialect {
        LogDialect::Highs => has_prefix(line, "Attempting to find feasible solution"),
        LogDialect::Gurobi => false,
    }
}

/// [`header_line`].
pub fn is_table_header(line: &[char], dialect: LogDialect) -> (r: bool)
    ensures
        r == header_line(line@, dialect),
{
    match dialect {
        LogDialect::Highs => mentions(line, "InQueue") && mentions(line, "Leaves"),
        LogDialect::Gurobi => mentions(line, "Incumbent") && mentions(line, "BestBd"),
    }
}

/// [`end_line`].
pub fn is_segment_end(line: &[char], dialect: LogDialect) -> (r: bool)
    ensures
        r == end_line(line@, dialect),
{
    match dialect {
        LogDialect::Highs => has_prefix(line, "Solving report"),
        LogDialect::Gurobi => {
            has_prefix(line, "Explored ") || has_prefix(line, "Cutting planes:") || has_prefix(
                line,
                "Optimal solution found",
            ) || has_prefix(line, "Time limit reached") || has_prefix(line, "Solution count")
        },
    }
}

fn read_amount(word: &[char]) -> (r: Option<Cost>)
    ensures
        r == amount(decimal(word@)),
{
    match parse_decimal(word) {
        Some(Decimal::Finite(v)) => Some(v),
        Some(Decimal::Infinite { negative }) => if negative {
            Some(NEG_INFINITY)
        } else {
            Some(INFINITY)
        },
        _ => None,
    }
}

/// [`primal_bound`].
fn parse_primal_bound(line: &[char], dialect: LogDialect) -> (r: Option<Cost>)
    ensures
        r == primal_bound(line@, dialect),
{
    match dialect {
        LogDialect::Highs => {
            let prefix: Vec<char> = chars_of("Primal bound");
            if !starts_with(line, prefix.as_slice()) {
                return None;
            }
            let rest: &[char] = slice_subrange(line, prefix.len(), line.len());
            proof {
                assert(rest@ =~= line@.skip("Primal bound"@.len() as int));
            }
            read_amount(trim(rest))
        },
        LogDialect::Gurobi => None,
    }
}

/// [`time_in`].
fn parse_time_token(word: &[char]) -> (r: Option<Cost>)
    ensures
        r == time_in(word@),
{
    let n: usize = word.len();
    if n == 0 || word[n - 1] != 's' {
        return None;
    }
    let digits: &[char] = slice_subrange(word, 0, n - 1);
    proof {
        assert(digits@ =~= word@.drop_last());
    }
    read_amount(digits)
}

/// [`number_in`].
fn parse_num(word: &[char]) -> (r: Option<Cost>)
    ensures
        r == number_in(word@),
{
    match parse_decimal(word) {
        Some(Decimal::Finite(v)) => Some(v),
        _ => None,
    }
}

/// [`row_in`].
fn parse_row(line: &[char], dialect: LogDialect) -> (r: Option<(Cost, Cost, Option<Cost>)>)
    ensures
        r == row_in(line@, dialect),
{
    let parts: Vec<&[char]> = words(line);
    let n: usize = parts.len();
    if n == 0 {
        return None;
    }
    let secs: Option<Cost> = parse_time_token(parts[n - 1]);
    match dialect {
        LogDialect::Gurobi => {
            if n < 5 {
                return None;
            }
            let objective: Option<Cost> = parse_num(parts[n - 5]);
            let bound: Option<Cost> = parse_num(parts[n - 4]);
            match (secs, objective) {
                (Some(secs), Some(objective)) => Some((secs, objective, bound)),
                _ => None,
            }
        },
        LogDialect::Highs => {
            if n < 8 {
                return None;
            }
            let bound: Option<Cost> = parse_num(parts[n - 8]);
            let objective: Option<Cost> = parse_num(parts[n - 7]);
            match (secs, objective) {
                (Some(secs), Some(objective)) => Some((secs, objective, bound)),
                _ => None,
            }
        },
    }
}

/// Moves `pending` into `out`, shifted into true objective space if the
/// segment's reported primal bound is known, and advances the solve counter.
fn flush(
    out: &mut Vec<Incumbent>,
    pending: &mut Vec<Incumbent>,
    primal_bound: Option<Cost>,
    solve_index: &mut usize,
    Ghost(m): Ghost<LogModel>,
)
    requires
        m.out == old(out)@,
        m.pending == old(pending)@,
        m.solve_index == *old(solve_index),
        *old(solve_index) <= old(out)@.len(),
    ensures
        final(out)@ == flushed(m, primal_bound).out,
        final(pending)@ == flushed(m, primal_bound).pending,
        *final(solve_index) == flushed(m, primal_bound).solve_index,
        *final(solve_index) <= final(out)@.len(),
{
    let n: usize = pending.len();
    if n == 0 {
        return ;
    }
    let last: Incumbent = pending[n - 1];
    let shift: Cost = match primal_bound {
        Some(pb) => sub_costs(pb, last.objective),
        None => 0,
    };
    let ghost base = out@;
    let index: usize = *solve_index;
    let mut i: usize = 0;
    while i < n
        invariant
            i <= n == pending@.len(),
            pending@ == m.pending,
            index == m.solve_index,
            shift == shift_of(m.pending, primal_bound),
            out@ == base + Seq::new(i as nat, |k: int| moved(m.pending[k], shift, index)),
        decreases n - i,
    {
        let mut p: Incumbent = pending[i];
        p.solve_index = index;
        if shift != 0 {
            p.objective = add_costs(p.objective, shift);
            p.bound = match p.bound {
                Some(b) => Some(add_costs(b, shift)),
                None => None,
            };
        }
        let ghost before = out@;
        out.push(p);
        proof {
            assert(p == moved(m.pending[i as int], shift, index));
            assert(out@ =~= base + Seq::new(
                (i + 1) as nat,
                |k: int| moved(m.pending[k], shift, index),
            ));
        }
        i += 1;
    }
    let total: usize = out.len();
    pending.clear();
    *solve_index = index + 1;
    proof {
        assert(out@ =~= flushed(m, primal_bound).out);
        assert(pending@ =~= Seq::empty());
    }
}

/// Parses the body of a log.
///
/// Rows are only read while inside a genuine progress table, and the table of
/// a warm-start completion sub-MIP, whose objective is unrelated, is skipped
/// entirely. Each segment is normalised against its own reported primal bound,
/// which guards against a solver whose progress table is in a shifted
/// objective space.
pub fn parse_log(text: &str, dialect: LogDialect) -> (r: Vec<Incumbent>)
    ensures
        r@ == trajectory_of(text@, dialect),
{
    let chars: Vec<char> = chars_of(text);
    let s: &[char] = chars.as_slice();
    let ghost lines = lines_from(s@, 0);
    let mut out: Vec<Incumbent> = Vec::new();
    let mut pending: Vec<Incumbent> = Vec::new();
    let mut solve_index: usize = 0;
    let mut in_table: bool = false;
    let mut skip_table: bool = false;
    let mut awaiting_bound: bool = false;
    let mut at: usize = 0;
    let ghost mut m: LogModel = at_start();
    let ghost mut n: nat = 0;
    proof {
        assert(out@ =~= m.out);
        assert(pending@ =~= m.pending);
        assert(lines.skip(0) =~= lines);
    }
    while at < s.len()
        invariant
            at <= s@.len(),
            lines == lines_from(s@, 0),
            n <= lines.len(),
            lines.skip(n as int) == lines_from(s@, at as int),
            m == run(at_start(), lines, n, dialect),
            m == (LogModel {
                out: out@,
                pending: pending@,
                solve_index,
                in_table,
                skip_table,
                awaiting_bound,
            }),
            solve_index <= out@.len(),
        decreases s@.len() - at,
    {
        let (line, next) = next_line(s, at);
        let t: &[char] = trim(line);
        let ghost before = m;
        proof {
            let rest = lines_from(s@, at as int);
            assert(rest[0] == line@);
            assert(lines.skip(n as int).len() == lines.len() - n);
            assert(lines.skip(n as int)[0] == lines[n as int]);
            assert(lines[n as int] == line@);
            m = step(before, line@, dialect);
            n = n + 1;
            assert(lines.skip(n as int) =~= rest.skip(1));
            assert(rest.skip(1) =~= lines_from(s@, next as int));
            assert(m == run(at_start(), lines, n, dialect));
        }
        at = if next <= s.len() {
            next
        } else {
            s.len()
        };
        proof {
            if next > s@.len() {
                assert(lines_from(s@, next as int) =~= Seq::empty());
                assert(lines_from(s@, at as int) =~= Seq::empty());
            }
        }
        if is_warm_start_submip(t, dialect) {
            skip_table = true;
            // A pending segment ends here unshifted; the sub-MIP's own report
            // must not be read as its bound.
            flush(&mut out, &mut pending, None, &mut solve_index, Ghost(before));
            awaiting_bound = false;
            continue;
        }
        if awaiting_bound {
            let bound: Option<Cost> = parse_primal_bound(t, dialect);
            if bound.is_some() {
                flush(&mut out, &mut pending, bound, &mut solve_index, Ghost(before));
                awaiting_bound = false;
                continue;
            }
        }
        if is_table_header(t, dialect) {
            // A new table with the previous segment still unresolved: emit it
            // as it is rather than losing it.
            if awaiting_bound {
                flush(&mut out, &mut pending, None, &mut solve_index, Ghost(before));
                awaiting_bound = false;
            }
            in_table = true;
            continue;
        }
        if is_segment_end(t, dialect) {
            in_table = false;
            if skip_table {
                // That was the completion sub-MIP, not a solve of the model.
                skip_table = false;
                pending.clear();
                proof {
                    assert(pending@ =~= Seq::empty());
                }
            } else if pending.len() > 0 {
                awaiting_bound = true;
            }
            continue;
        }
        if !in_table || skip_table || t.len() == 0 {
            continue;
        }
        if let Some((secs, objective, bound)) = parse_row(line, dialect) {
            // Keep only points where the incumbent actually moved.
            let k: usize = pending.len();
            if k > 0 && pending[k - 1].objective == objective {
                continue;
            }
            pending.push(Incumbent { solve_index, secs, objective, bound });
        }
    }
    proof {
        assert(lines_from(s@, at as int) =~= Seq::empty());
        assert(lines.skip(n as int).len() == lines.len() - n);
        assert(n == lines.len());
    }
    flush(&mut out, &mut pending, None, &mut solve_index, Ghost(m));
    out
}

/// The dialect of a backend's logs, if it has one.
pub open spec fn dialect_named(backend_name: Seq<char>) -> Option<LogDialect> {
    if backend_name == "Gurobi"@ {
        Some(LogDialect::Gurobi)
    } else if backend_name == "HiGHS"@ {
        Some(LogDialect::Highs)
    } else {
        None
    }
}

/// Both texts are the same.
fn same_text(a: &str, b: &str) -> (r: bool)
    ensures
        r == (a@ == b@),
{
    let a: Vec<char> = chars_of(a);
    let b: Vec<char> = chars_of(b);
    if a.len() != b.len() {
        return false;
    }
    let r: bool = starts_with(a.as_slice(), b.as_slice());
    proof {
        assert(a@.take(b@.len() as int) =~= a@);
    }
    r
}

/// Parses the log `text` in the dialect matching `backend_name`. Empty for an
/// unknown backend, or a log with no recognisable rows.
pub fn parse_log_for_backend(text: &str, backend_name: &str) -> (r: Vec<Incumbent>)
    ensures
        r@ == (match dialect_named(backend_name@) {
            Some(dialect) => trajectory_of(text@, dialect),
            None => Seq::empty(),
        }),
{
    if same_text(backend_name, "Gurobi") {
        parse_log(text, LogDialect::Gurobi)
    } else if same_text(backend_name, "HiGHS") {
        parse_log(text, LogDialect::Highs)
    } else {
        Vec::new()
    }
}

/// Seconds at which the first feasible incumbent appeared, within the first
/// solve that produced one. `None` if the trajectory is empty.
pub fn time_to_first_incumbent(trajectory: &[Incumbent]) -> (r: Option<Cost>)
    ensures
        r == (if trajectory@.len() > 0 {
            Some(trajectory@[0].secs)
        } else {
            None
        }),
{
    if trajectory.len() > 0 {
        Some(trajectory[0].secs)
    } else {
        None
    }
}

} // verus!
