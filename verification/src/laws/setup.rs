//! How a solver is set up before it is asked.
use crate::cost::Cost;
use crate::egraph::{ClassId, EGraph, NodeId};
use crate::extract::faster_ilp_cbc::is_opened;
use crate::extract::ilp::model::IlpVars;
use crate::extract::ilp::objective::IlpObjective;
use crate::extract::ilp::options::{whole_seconds, IlpOptions};
use crate::extract::ilp::report::{FallbackReason, SolveReport};
use crate::extract::ilp::solve::{is_outcome, is_outcome_of, is_run_of, is_set_up, Prepared};
use crate::extract::CompleteExtraction;
use crate::milp::stage::Staged;
use crate::milp::steps::{
    is_step, leads, may_answer, may_limit, may_log_at, may_log_to, may_pass, may_tune,
    may_use_threads, use_limit, use_log_file, use_log_level, use_parameter, use_threads,
};
use crate::milp::{MilpModel, MilpSolution};
use vstd::prelude::*;

verus! {

/// A solver that is limited has its time limit set to those seconds.
pub proof fn limits_are_set<M: MilpModel>(before: M, seconds: u32, after: M)
    requires
        may_limit(before, seconds, after),
    ensures
        exists|h: &mut M|
            {
                &&& *h == before
                &&& *final(h) == after
                &&& #[trigger] call_ensures(M::set_time_limit_seconds, (h, seconds), ())
            },
{
    let h = choose|h: &mut M|
        *h == before && #[trigger] call_ensures(use_limit::<M>, (h, seconds), Ghost(after));
    assert(Ghost(after)@ == *final(h));
}

/// A solver that is given threads has its threads set to that number.
pub proof fn threads_are_set<M: MilpModel>(before: M, threads: u32, after: M)
    requires
        may_use_threads(before, threads, after),
    ensures
        exists|h: &mut M|
            {
                &&& *h == before
                &&& *final(h) == after
                &&& #[trigger] call_ensures(M::set_threads, (h, threads), ())
            },
{
    let h = choose|h: &mut M|
        *h == before && #[trigger] call_ensures(use_threads::<M>, (h, threads), Ghost(after));
    assert(Ghost(after)@ == *final(h));
}

/// A solver that is given a log level has it set to that.
pub proof fn log_levels_are_set<M: MilpModel>(before: M, level: u32, after: M)
    requires
        may_log_at(before, level, after),
    ensures
        exists|h: &mut M|
            {
                &&& *h == before
                &&& *final(h) == after
                &&& #[trigger] call_ensures(M::set_log_level, (h, level), ())
            },
{
    let h = choose|h: &mut M|
        *h == before && #[trigger] call_ensures(use_log_level::<M>, (h, level), Ghost(after));
    assert(Ghost(after)@ == *final(h));
}

/// A solver that is to log is told that path.
pub proof fn log_files_are_set<M: MilpModel>(before: M, path: Seq<char>, after: M)
    requires
        may_log_to(before, path, after),
    ensures
        exists|h: &mut M, text: &str|
            {
                &&& *h == before
                &&& *final(h) == after
                &&& text@ == path
                &&& #[trigger] call_ensures(M::set_log_file, (h, text), ())
            },
{
    let (h, text) = choose|h: &mut M, text: &str|
        {
            &&& *h == before
            &&& text@ == path
            &&& #[trigger] call_ensures(use_log_file::<M>, (h, text), Ghost(after))
        };
    assert(Ghost(after)@ == *final(h));
}

/// A solver that is passed a parameter has that key set to that value.
pub proof fn parameters_are_set<M: MilpModel>(
    before: M,
    key: Seq<char>,
    value: Seq<char>,
    after: M,
)
    requires
        may_pass(before, key, value, after),
    ensures
        exists|h: &mut M, k: &str, v: &str|
            {
                &&& *h == before
                &&& *final(h) == after
                &&& k@ == key
                &&& v@ == value
                &&& #[trigger] call_ensures(M::set_raw_parameter, (h, k, v), ())
            },
{
    let (h, k, v) = choose|h: &mut M, k: &str, v: &str|
        {
            &&& *h == before
            &&& k@ == key
            &&& v@ == value
            &&& #[trigger] call_ensures(use_parameter::<M>, (h, k, v), Ghost(after))
        };
    assert(Ghost(after)@ == *final(h));
}

/// Before a solver is asked it is given the time, in whole seconds, and the threads of the
/// options, then their parameters, each once and in order, and then the log, if there is
/// one. The states that it goes through are returned.
pub proof fn solvers_are_set_up_as_asked<M: MilpModel>(
    first: M,
    options: IlpOptions,
    ready: M,
) -> (r: (M, Seq<M>))
    requires
        is_set_up(first, options, ready),
    ensures
        ({
            let (limited, states) = r;
            let params = options.raw_params@;
            &&& exists|seconds: u32| #[trigger]
                may_limit(first, seconds, limited) && seconds == whole_seconds(options.time_limit) as u32
            &&& states.len() == params.len() + 1
            &&& may_use_threads(limited, options.threads, states[0])
            &&& forall|i: int|
                0 <= i < params.len() ==> may_pass(
                    states[i],
                    (#[trigger] params[i]).0@,
                    params[i].1@,
                    states[i + 1],
                )
            &&& options.solver_log is None ==> ready == states.last()
            &&& options.solver_log matches Some(path) ==> may_log_to(states.last(), path@, ready)
        }),
{
    let (limited, threaded, tuned) = choose|limited: M, threaded: M, tuned: M|
        {
            &&& #[trigger] may_limit(first, whole_seconds(options.time_limit) as u32, limited)
            &&& #[trigger] may_use_threads(limited, options.threads, threaded)
            &&& #[trigger] may_tune(threaded, options.raw_params@, tuned)
            &&& match options.solver_log {
                Some(path) => may_log_to(tuned, path@, ready),
                None => ready == tuned,
            }
        };
    let params = options.raw_params@;
    let states = choose|states: Seq<M>| #[trigger]
        leads(states, threaded, tuned, params.len()) && forall|i: int| #[trigger]
            is_step(states, i) ==> may_pass(
                states[i],
                params[i].0@,
                params[i].1@,
                states[i + 1],
            );
    assert forall|i: int| 0 <= i < params.len() implies may_pass(
        states[i],
        (#[trigger] params[i]).0@,
        params[i].1@,
        states[i + 1],
    ) by {
        assert(is_step(states, i));
    }
    (limited, states)
}

/// A request is answered by a new solver that is set up as the options ask and is then
/// handed the model, all of which is new to it.
pub proof fn a_new_solver_is_asked<M: MilpModel>(
    g: EGraph,
    roots: Seq<ClassId>,
    objective: IlpObjective,
    options: IlpOptions,
    initial: Option<CompleteExtraction>,
    wall: Option<Cost>,
    sel: Map<ClassId, NodeId>,
    report: SolveReport,
) -> (r: (M, M, Staged, MilpSolution, M))
    requires
        is_outcome::<M>(g, roots, objective, options, initial, wall, sel, report),
    ensures
        call_ensures(M::new, (), r.0),
        is_set_up(r.0, options, r.1),
        r.2.sent() == (0nat, 0nat),
        may_answer(r.1, r.2, r.3, r.4),
        report.best_bound == r.3.bound,
        report.objective is Some ==> report.objective == Some(r.3.objective),
{
    let (p, first, asked, solved) = choose|
        p: Prepared,
        first: M,
        asked: SolveReport,
        solved: Result<(CompleteExtraction, bool), FallbackReason>,
    | #[trigger]
        is_outcome_of(
            g,
            roots,
            objective,
            options,
            initial,
            wall,
            sel,
            report,
            p,
            first,
            asked,
            solved,
        );
    let (ready, staged, vars, solution, done) = choose|
        ready: M,
        staged: Staged,
        vars: IlpVars,
        solution: MilpSolution,
        done: M,
    | #[trigger]
        is_run_of(
            g,
            roots,
            p.objective,
            options,
            p.start_from(),
            first,
            p.report,
            asked,
            solved,
            ready,
            staged,
            vars,
            solution,
            done,
        );
    (first, ready, staged, solution, done)
}

/// The simplifying extractor begins a new solver, silences it, gives it its threads, and
/// tells it where to log, if it is to.
pub proof fn searches_begin_with_a_silent_solver<M: MilpModel>(
    threads: u32,
    log: Option<String>,
    backend: Seq<char>,
    first: M,
    ready: M,
) -> (r: (M, M))
    requires
        is_opened(threads, log, backend, first, ready),
    ensures
        call_ensures(M::new, (), first),
        may_log_at(first, 0, r.0),
        may_use_threads(r.0, threads, r.1),
        log is None ==> ready == r.1,
        (log matches Some(path) ==> may_log_to(r.1, path@, ready)),
{
    let (quiet, threaded) = choose|quiet: M, threaded: M|
        {
            &&& #[trigger] may_log_at(first, 0, quiet)
            &&& #[trigger] may_use_threads(quiet, threads, threaded)
            &&& match log {
                Some(path) => may_log_to(threaded, path@, ready),
                None => ready == threaded,
            }
        };
    (quiet, threaded)
}

} // verus!
