//! What solves start from, and what is reported of them.
use crate::cost::{minus, Cost, ONE};
use crate::egraph::{ClassId, EGraph, NodeId};
use crate::extract::faster_ilp_cbc::cycles::{is_part, is_used};
use crate::extract::faster_ilp_cbc::problem::{
    lemma_offered, offers, place, solves, sound, Choice, Problem, Vars,
};
use crate::extract::faster_ilp_cbc::read::on_in;
use crate::extract::faster_ilp_cbc::seed::{
    first_cheapest, is_seed_pick, is_start, lemma_seed_pick_unique, reseeded, seed_choices,
};
use crate::extract::faster_ilp_cbc::simplify::completed;
use crate::extract::faster_ilp_cbc::{is_warmed, preferred_by, WarmConfig};
use crate::extract::ilp::fallback::{candidates, has_extraction, Candidate};
use crate::extract::ilp::model::{member, IlpVars, Role};
use crate::extract::ilp::objective::{CandidateName, IlpObjective};
use crate::extract::ilp::options::{TimeLimit, WarmStart};
use crate::extract::ilp::report::{FallbackReason, SolveOutcome, SolveReport, WarmNote};
use crate::extract::ilp::solve::{
    initial_extraction, is_slack, is_start_of, latest_arrival, over_budget, stage_model,
    MissingInitial,
};
use crate::extract::ilp::warm::{push_seed, times_in};
use crate::extract::selection::{dag_size, reaches, timing};
use crate::extract::{CompleteExtraction, ExtractionError, ExtractionResult};
use crate::laws::simplification::{picked_at, picks_out};
use crate::milp::highs::{known_part, lists_start, start_pairs, HighsStatus};
use crate::milp::stage::{Col, Staged};
use crate::milp::{MilpSolution, MilpStatus};
use indexmap::IndexMap;
use vstd::prelude::*;

verus! {

// ---------------------------------------------------------------------------
// Reports
// ---------------------------------------------------------------------------

/// A new report says what was asked for, and that nothing has been solved.
pub proof fn new_reports_say_what_was_asked(
    backend: String,
    model: &'static str,
    threads: u32,
    time_limit: Option<TimeLimit>,
    requested: WarmStart,
    r: SolveReport,
)
    requires
        call_ensures(SolveReport::new, (backend, model, threads, time_limit, requested), r),
    ensures
        r.backend == backend && r.model == model && r.threads == threads && r.time_limit
            == time_limit && r.warm_start_requested == requested,
        r.warm_start_applied == WarmStart::Off,
        r.warm_start_note is None && r.warm_start_objective is None && r.fallback_objective is None,
        r.status is None && r.status_detail is None && r.objective is None && r.best_bound is None
            && r.gap is None,
        r.num_solves == 0,
        r.outcome == (SolveOutcome::Fallback { reason: FallbackReason::NotSolved }),
        !r.depth_budget_violated,
        r.solver_log is None && r.trajectory@.len() == 0 && r.time_to_first_incumbent_secs is None,
{
}

/// A start that was refused is off, and the note says why; one that was accepted is what
/// was applied. Nothing else of the report changes.
pub proof fn starts_are_reported(why: WarmNote, applied: WarmStart, note: Option<WarmNote>)
    ensures
        forall|s: &mut SolveReport| #[trigger]
            call_ensures(SolveReport::refuse_warm_start, (s, why), ())
                ==> final(s).warm_start_applied == WarmStart::Off && final(s).warm_start_note
                == Some(why) && final(s).warm_start_objective == s.warm_start_objective
                && final(s).status == s.status && final(s).outcome == s.outcome
                && final(s).objective == s.objective && final(s).num_solves == s.num_solves
                && final(s).warm_start_requested == s.warm_start_requested,
        forall|s: &mut SolveReport| #[trigger]
            call_ensures(SolveReport::accept_warm_start, (s, applied, note), ())
                ==> final(s).warm_start_applied == applied && final(s).warm_start_note == note
                && final(s).warm_start_objective == s.warm_start_objective && final(s).status
                == s.status && final(s).outcome == s.outcome && final(s).objective == s.objective
                && final(s).num_solves == s.num_solves && final(s).warm_start_requested
                == s.warm_start_requested,
{
}

/// A solution is recorded as it is: its objective if there is one, its bound, and a status
/// that says what it is; the rest of the report stays.
pub proof fn solutions_are_recorded(sol: &MilpSolution)
    ensures
        forall|s: &mut SolveReport| #[trigger]
            call_ensures(SolveReport::record_solution, (s, sol), ()) ==> {
                &&& final(s).objective == (if sol.feasible {
                    Some(sol.objective)
                } else {
                    None
                })
                &&& final(s).best_bound == sol.bound
                &&& final(s).status_detail is Some && final(s).status_detail->0@ == sol.detail@
                &&& final(s).status == Some(
                    if sol.infeasible {
                        MilpStatus::Infeasible
                    } else if sol.completed {
                        MilpStatus::Optimal
                    } else if sol.feasible {
                        MilpStatus::TimeoutWithSolution
                    } else {
                        MilpStatus::TimeoutNoSolution
                    },
                )
                &&& final(s).outcome == s.outcome && final(s).num_solves == s.num_solves
                    && final(s).warm_start_applied == s.warm_start_applied
                    && final(s).warm_start_note == s.warm_start_note
                    && final(s).fallback_objective == s.fallback_objective
            },
{
}

/// Without a log asked for nothing is loaded; without one to be read there are no points;
/// else the time to the first incumbent is that of the first point, if there is one.
pub proof fn trajectories_are_loaded(text: &Option<String>)
    ensures
        forall|s: &mut SolveReport| #[trigger]
            call_ensures(SolveReport::load_trajectory, (s, text), ()) ==> {
                let points = final(s).trajectory@;
                &&& s.solver_log is None ==> *final(s) == *s
                &&& s.solver_log is Some && text is None ==> points.len() == 0
                &&& s.solver_log is Some && points.len() == 0
                    ==> final(s).time_to_first_incumbent_secs is None
                &&& s.solver_log is Some && points.len() > 0
                    ==> final(s).time_to_first_incumbent_secs == Some(points[0].secs)
                &&& final(s).objective == s.objective && final(s).status == s.status
                    && final(s).outcome == s.outcome && final(s).backend == s.backend
            },
{
}

// ---------------------------------------------------------------------------
// Choices
// ---------------------------------------------------------------------------

/// What is selected is what is then got, in place of what was selected before; other
/// classes keep theirs.
pub proof fn selected_nodes_are_got(
    class: ClassId,
    node: NodeId,
    other: ClassId,
    after: ExtractionResult,
    before: ExtractionResult,
    got: Option<NodeId>,
    kept: Option<NodeId>,
    had: Option<NodeId>,
)
    requires
        call_ensures(ExtractionResult::get, (&after, class), got),
        call_ensures(ExtractionResult::get, (&after, other), kept),
        call_ensures(ExtractionResult::get, (&before, other), had),
    ensures
        forall|s: &mut ExtractionResult| #[trigger]
            call_ensures(ExtractionResult::select, (s, class, node), ()) && *s == before
                && *final(s) == after ==> got == Some(node) && (other != class ==> kept == had),
{
}

/// The candidates are the initial extraction, where there is one, and then the greedy one,
/// where it is asked for. Each is valid, and its value and depth are its own. There is an
/// error exactly if a greedy one is asked for and the roots have no extraction.
pub proof fn candidates_are_found(
    g: EGraph,
    roots: &[ClassId],
    objective: IlpObjective,
    initial: Option<CompleteExtraction>,
    with_greedy: bool,
    r: Result<Vec<Candidate>, ExtractionError>,
)
    requires
        call_ensures(candidates, (&g, roots, objective, initial, with_greedy), r),
    ensures
        r is Err <==> with_greedy && !has_extraction(g, roots@),
        (r matches Ok(found) ==> {
            &&& initial is None && !with_greedy ==> found@.len() == 0
            &&& initial is Some && !with_greedy ==> found@.len() == 1
            &&& initial is None && with_greedy ==> found@.len() == 1
            &&& initial is Some && with_greedy ==> found@.len() == 2
            &&& initial is Some ==> found@[0].name == CandidateName::Initial
                && found@[0].extraction@ == initial->0@
            &&& with_greedy ==> found@.last().name == objective.greedy()
        }),
{
}

/// An initial expression is found if nodes are flagged and have one of the roots; it is
/// made of flagged nodes. Without one there is an error exactly if it is required.
pub proof fn initial_expressions_are_found(
    g: EGraph,
    roots: &[ClassId],
    required: bool,
    r: Result<Option<CompleteExtraction>, MissingInitial>,
    s: Result<Option<CompleteExtraction>, MissingInitial>,
)
    requires
        call_ensures(initial_extraction, (&g, roots, required), r),
        call_ensures(initial_extraction, (&g, roots, false), s),
    ensures
        s is Ok,
        s matches Ok(None) ==> (r is Err <==> required),
        s matches Ok(None) ==> (r is Ok ==> r->Ok_0 is None),
        s->Ok_0 is Some ==> r is Ok && r->Ok_0 is Some,
        (r matches Ok(Some(e)) ==> forall|c: ClassId| #[trigger]
            e@.contains_key(c) ==> g.nodes@[e@[c] as int].initial),
        (forall|n: int| 0 <= n < g.nodes@.len() ==> !(#[trigger] g.nodes@[n]).initial) ==> s->Ok_0
            is None && (required ==> r == Err::<Option<CompleteExtraction>, MissingInitial>(
            MissingInitial::NotFlagged,
        )),
{
}

// ---------------------------------------------------------------------------
// Starts
// ---------------------------------------------------------------------------

/// A start sets every column: the class and its node to one, where the seed has one below
/// the roots, and all others to zero; a switch to the opposite of its node; and an arrival
/// to its time, kept within zero and the cap.
pub proof fn seeds_set_every_column(
    g: EGraph,
    roots: &[ClassId],
    vars: IlpVars,
    seed: ExtractionResult,
    arrival: Option<IndexMap<ClassId, Cost>>,
    col: Col,
    c: ClassId,
    k: usize,
)
    requires
        col < vars.roles@.len(),
    ensures
        forall|s: &mut Staged| #[trigger]
            call_ensures(push_seed, (s, &g, roots, &vars, &seed, &arrival), ()) ==> {
                let role = vars.roles@[col as int];
                let value = final(s).start()[col];
                let chosen = reaches(g, seed@, roots@, c) && seed@.contains_key(c);
                let picked = chosen && seed@[c] == member(g, c as int, k as int);
                let times = times_in(arrival);
                &&& final(s).lp() == s.lp()
                &&& final(s).start().contains_key(col)
                &&& role == Role::Active(c) && chosen ==> value == ONE
                &&& role == Role::Active(c) && !chosen ==> value == 0
                &&& role == Role::Pick(c, k) && picked ==> value == ONE
                &&& role == Role::Pick(c, k) && !picked ==> value == 0
                &&& role == Role::Opposite(c, k) && picked ==> value == 0
                &&& role == Role::Opposite(c, k) && !picked ==> value == ONE
                &&& role == Role::Arrival(c) && times.contains_key(c) && vars.depth is Some && 0
                    <= times[c] <= vars.depth->0.cap ==> value == times[c]
                &&& role == Role::Level(c) && !reaches(g, seed@, roots@, c) ==> value == 0
            },
{
}

/// `w` is the latest that anything of `sel` below the roots arrives, and at least zero.
pub open spec fn arrives_last(
    g: EGraph,
    roots: Seq<ClassId>,
    sel: Map<ClassId, NodeId>,
    w: Cost,
) -> bool {
    &&& 0 <= w
    &&& forall|c: ClassId| #[trigger] reaches(g, sel, roots, c) ==> timing(g, sel, roots)[c] <= w
    &&& w > 0 ==> exists|c: ClassId| #[trigger]
        reaches(g, sel, roots, c) && timing(g, sel, roots)[c] == w
}

/// Something of `sel` below the roots arrives after `b`.
pub open spec fn arrives_after(
    g: EGraph,
    roots: Seq<ClassId>,
    sel: Map<ClassId, NodeId>,
    b: Cost,
) -> bool {
    exists|c: ClassId| #[trigger] reaches(g, sel, roots, c) && timing(g, sel, roots)[c] > b
}

/// The budget of a model, if it has one.
pub open spec fn budget_in(vars: IlpVars) -> Option<Cost> {
    match vars.depth {
        Some(depth) => depth.budget,
        None => None,
    }
}

/// The seed exceeds the budget of the model.
pub open spec fn is_late(
    g: EGraph,
    roots: Seq<ClassId>,
    vars: IlpVars,
    sel: Map<ClassId, NodeId>,
) -> bool {
    budget_in(vars) is Some && arrives_after(g, roots, sel, budget_in(vars)->0)
}

/// What is reported of a start that is made.
pub open spec fn is_made(
    g: EGraph,
    roots: Seq<ClassId>,
    vars: IlpVars,
    seed: Candidate,
    mode: WarmStart,
    start: Map<Col, Cost>,
    report: SolveReport,
) -> bool {
    &&& report.warm_start_applied == mode
    &&& report.warm_start_objective == Some(seed.objective)
    &&& says_seeded(g, roots, seed, budget_in(vars), report.warm_start_note)
    &&& forall|col: Col| #[trigger] start.contains_key(col) <==> col < vars.roles@.len()
}

/// A model starts from nothing if there is no seed, if the solver takes none, or if the
/// seed exceeds the budget; which of it is reported. Else it starts from the seed, and the
/// report has the seed's value, and how far it is below the budget.
pub proof fn models_start_from_their_seed(
    g: EGraph,
    roots: &[ClassId],
    objective: IlpObjective,
    seed: Option<&Candidate>,
    supported: bool,
    mode: WarmStart,
    r: (Staged, IlpVars),
)
    ensures
        forall|s: &mut SolveReport| #[trigger]
            call_ensures(stage_model, (&g, roots, objective, seed, supported, mode, s), r) ==> {
                let start = r.0.start();
                let none = Map::<Col, Cost>::empty();
                &&& seed is None ==> start == none && *final(s) == *s
                &&& (seed matches Some(c) ==> (!supported ==> start == none
                    && final(s).warm_start_applied == WarmStart::Off && final(s).warm_start_note
                    == Some(WarmNote::Unsupported) && final(s).warm_start_objective
                    == s.warm_start_objective))
                &&& (seed matches Some(c) ==> (supported && is_late(
                    g,
                    roots@,
                    r.1,
                    c.extraction@,
                ) ==> start == none && final(s).warm_start_applied == WarmStart::Off && says_late(
                    g,
                    roots@,
                    *c,
                    budget_in(r.1)->0,
                    final(s).warm_start_note,
                ) && final(s).warm_start_objective == s.warm_start_objective))
                &&& (seed matches Some(c) ==> (supported && !is_late(
                    g,
                    roots@,
                    r.1,
                    c.extraction@,
                ) ==> is_made(g, roots@, r.1, *c, mode, start, *final(s))))
                &&& final(s).status == s.status && final(s).outcome == s.outcome
                    && final(s).objective == s.objective && final(s).num_solves == s.num_solves
            },
{
    assert forall|s: &mut SolveReport| #[trigger]
        call_ensures(stage_model, (&g, roots, objective, seed, supported, mode, s), r) && seed
            is Some && supported && !is_late(
            g,
            roots@,
            r.1,
            seed->0.extraction@,
        ) implies is_made(g, roots@, r.1, *seed->0, mode, r.0.start(), *final(s)) by {
        let c = *seed->0;
        assert(!over_budget(g, roots@, r.1, c.extraction@));
        lemma_made(g, roots@, r.1, c, mode, r.0.start(), *final(s));
    }
    assert forall|s: &mut SolveReport| #[trigger]
        call_ensures(stage_model, (&g, roots, objective, seed, supported, mode, s), r) && seed
            is Some && supported && is_late(
            g,
            roots@,
            r.1,
            seed->0.extraction@,
        ) implies says_late(
        g,
        roots@,
        *seed->0,
        budget_in(r.1)->0,
        final(s).warm_start_note,
    ) by {
        assert(over_budget(g, roots@, r.1, seed->0.extraction@));
    }
}

proof fn lemma_made(
    g: EGraph,
    roots: Seq<ClassId>,
    vars: IlpVars,
    c: Candidate,
    mode: WarmStart,
    start: Map<Col, Cost>,
    report: SolveReport,
)
    requires
        is_start_of(g, roots, vars, c.extraction@, start),
        report.warm_start_applied == mode,
        report.warm_start_objective == Some(c.objective),
        (report.warm_start_note matches Some(WarmNote::Seeded { candidate, slack }) && candidate
            == c.name && is_slack(g, roots, vars, c.extraction@, slack)),
    ensures
        is_made(g, roots, vars, c, mode, start, report),
{
    if budget_in(vars) is Some {
        let slack = report.warm_start_note->0->slack;
        let w = choose|w: Cost| #[trigger]
            latest_arrival(g, roots, c.extraction@, w) && slack == Some(
                minus(vars.depth->0.budget->0, w),
            );
        assert(arrives_last(g, roots, c.extraction@, w));
    }
    assert(says_seeded(g, roots, c, budget_in(vars), report.warm_start_note));
}

/// The note says that the seed arrives after the budget, and when.
pub open spec fn says_late(
    g: EGraph,
    roots: Seq<ClassId>,
    seed: Candidate,
    limit: Cost,
    note: Option<WarmNote>,
) -> bool {
    note matches Some(WarmNote::OverBudget { candidate, depth, budget }) && candidate == seed.name
        && budget == limit && depth > limit && arrives_last(g, roots, seed.extraction@, depth)
}

/// The note says which seed it is and, with a budget, how far it is below that.
pub open spec fn says_seeded(
    g: EGraph,
    roots: Seq<ClassId>,
    seed: Candidate,
    limit: Option<Cost>,
    note: Option<WarmNote>,
) -> bool {
    note matches Some(WarmNote::Seeded { candidate, slack }) && candidate == seed.name && (
    limit is None ==> slack is None) && (limit is Some ==> exists|w: Cost| #[trigger]
        arrives_last(g, roots, seed.extraction@, w) && slack == Some(minus(limit->0, w)))
}

/// The start that HiGHS is given is the staged one without columns it does not know, in
/// the order in which they were set.
pub proof fn highs_starts_from_known_columns(staged: Staged, r: Vec<(Col, Cost)>) -> (pairs: Seq<
    (Col, Cost),
>)
    requires
        call_ensures(start_pairs, (&staged,), r),
    ensures
        pairs.len() == staged.start_order().len(),
        forall|k: int|
            0 <= k < pairs.len() ==> (#[trigger] pairs[k]).0 == staged.start_order()[k]
                && pairs[k].1 == staged.start()[pairs[k].0],
        picks_out(pairs, r@, |k: int| pairs[k].0 < staged.lp().cols.len()),
{
    let n = staged.lp().cols.len();
    let pairs = choose|pairs: Seq<(Col, Cost)>| #[trigger]
        lists_start(staged, pairs) && r@ == known_part(pairs, n, pairs.len());
    lemma_known_picks(pairs, n, pairs.len(), |k: int| pairs[k].0 < staged.lp().cols.len());
    assert(pairs.take(pairs.len() as int) =~= pairs);
    pairs
}

proof fn lemma_known_picks(
    pairs: Seq<(Col, Cost)>,
    n: nat,
    k: nat,
    stays: spec_fn(int) -> bool,
)
    requires
        k <= pairs.len(),
        forall|m: int| 0 <= m < k ==> (#[trigger] stays(m) <==> pairs[m].0 < n),
    ensures
        picks_out(pairs.take(k as int), known_part(pairs, n, k), stays),
    decreases k,
{
    let list = pairs.take(k as int);
    let out = known_part(pairs, n, k);
    if k == 0 {
        assert(picked_at(list, out, Seq::empty(), stays));
    } else {
        lemma_known_picks(pairs, n, (k - 1) as nat, stays);
        let before = pairs.take(k - 1);
        let less = known_part(pairs, n, (k - 1) as nat);
        let at = choose|at: Seq<int>| #[trigger] picked_at(before, less, at, stays);
        assert(stays(k - 1) <==> pairs[k - 1].0 < n);
        let all = if pairs[k - 1].0 < n {
            at.push(k - 1)
        } else {
            at
        };
        assert forall|j: int| 0 <= j < all.len() implies 0 <= (#[trigger] all[j]) < list.len()
            && stays(all[j]) && out[j] == list[all[j]] by {
            if j < at.len() {
                assert(all[j] == at[j]);
                assert(out[j] == less[j]);
                assert(before[at[j]] == list[at[j]]);
            }
        }
        assert forall|m: int| 0 <= m < list.len() && #[trigger] stays(m) implies all.contains(m) by {
            if m < k - 1 {
                assert(at.contains(m));
                let j = choose|j: int| 0 <= j < at.len() && at[j] == m;
                assert(all[j] == m);
            } else {
                assert(all[at.len() as int] == m);
            }
        }
        assert forall|a: int, b: int| 0 <= a < b < all.len() implies all[a] < all[b] by {
            assert(all[a] == at[a]);
            if b < at.len() {
                assert(all[b] == at[b]);
            }
        }
        assert(picked_at(list, out, all, stays));
    }
}

/// The statuses of HiGHS are called by their names.
pub proof fn statuses_have_their_names(status: HighsStatus, r: &'static str)
    requires
        call_ensures(HighsStatus::model_status_name, (status,), r),
    ensures
        status is Optimal ==> r@ == "Optimal"@,
        status is Infeasible ==> r@ == "Infeasible"@,
        status is Unbounded ==> r@ == "Unbounded"@,
        status is UnboundedOrInfeasible ==> r@ == "UnboundedOrInfeasible"@,
        status is TimeLimit ==> r@ == "TimeLimit"@,
        status is IterationLimit ==> r@ == "IterationLimit"@,
        status is SolutionLimit ==> r@ == "SolutionLimit"@,
        status is MemoryLimit ==> r@ == "MemoryLimit"@,
        status is Interrupt ==> r@ == "Interrupt"@,
        status is Unknown ==> r@ == "Unknown"@,
        status is NotSet ==> r@ == "NotSet"@,
        status is ModelEmpty ==> r@ == "ModelEmpty"@,
        status is ModelError ==> r@ == "ModelError"@,
        status is LoadError ==> r@ == "LoadError"@,
        status is SolveError ==> r@ == "SolveError"@,
        status is PresolveError ==> r@ == "PresolveError"@,
        status is PostsolveError ==> r@ == "PostsolveError"@,
        status is ObjectiveBound ==> r@ == "ObjectiveBound"@,
        status is ObjectiveTarget ==> r@ == "ObjectiveTarget"@,
{
}

// ---------------------------------------------------------------------------
// Starts of simplified problems
// ---------------------------------------------------------------------------

/// A column is on if its value is above zero.
pub proof fn columns_are_on_above_zero(solution: MilpSolution, col: Col)
    requires
        col < solution.values@.len(),
    ensures
        on_in(solution)(col) <==> solution.values@[col as int] > 0,
{
}

/// Node `n` is among the nodes.
pub open spec fn is_offered(list: Seq<Choice>, n: NodeId) -> bool {
    exists|i: int| 0 <= i < list.len() && (#[trigger] list[i]).node == n
}

/// A class is seeded with the preferred node if that is still there, else with that of the
/// fallback if it is, else with the first of the cheapest. A class without a node is not
/// seeded.
pub proof fn simplified_classes_are_seeded(
    p: Problem,
    n: nat,
    preferred: Map<ClassId, NodeId>,
    fallback: Map<ClassId, NodeId>,
    c: ClassId,
    i: int,
)
    requires
        sound(p, n),
    ensures
        ({
            let list = p.classes[c];
            let seeds = seed_choices(p, preferred, fallback);
            let first = preferred.contains_key(c) && is_offered(list, preferred[c]);
            let second = fallback.contains_key(c) && is_offered(list, fallback[c]);
            let cheapest = forall|k: int|
                0 <= k < list.len() ==> list[i].cost <= (#[trigger] list[k]).cost && (k < i
                    ==> list[i].cost < list[k].cost);
            &&& seeds.contains_key(c) <==> p.classes.contains_key(c) && list.len() > 0
            &&& seeds.contains_key(c) && first ==> seeds[c] == preferred[c]
            &&& seeds.contains_key(c) && !first && second ==> seeds[c] == fallback[c]
            &&& seeds.contains_key(c) && !first && !second && 0 <= i < list.len() && cheapest
                ==> seeds[c] == list[i].node
        }),
{
    let list = p.classes[c];
    if p.classes.contains_key(c) && list.len() > 0 {
        assert(is_offered(list, preferred[c]) == offers(list, preferred[c]));
        assert(is_offered(list, fallback[c]) == offers(list, fallback[c]));
        if preferred.contains_key(c) && offers(list, preferred[c]) {
            lemma_offered(list, preferred[c]);
            let j = place(list, preferred[c]);
            assert(is_seed_pick(p, preferred, fallback, c, j));
            lemma_seed_pick_unique(p, n, preferred, fallback, c, j);
        } else if fallback.contains_key(c) && offers(list, fallback[c]) {
            lemma_offered(list, fallback[c]);
            let j = place(list, fallback[c]);
            assert(is_seed_pick(p, preferred, fallback, c, j));
            lemma_seed_pick_unique(p, n, preferred, fallback, c, j);
        } else if first_cheapest(list, i) {
            assert(is_seed_pick(p, preferred, fallback, c, i));
            lemma_seed_pick_unique(p, n, preferred, fallback, c, i);
        }
    }
}

/// What a simplified problem starts from: nothing if no start is asked for, or the solver
/// takes none. Else, where there is a start, it is a solution made of the seeds of the
/// classes it uses, all columns of the problem have a value, and the report has the size
/// of the extraction; where there is none, the report says why.
pub proof fn simplified_problems_are_started(
    g: EGraph,
    roots: Seq<ClassId>,
    vars: Vars,
    warm: WarmConfig,
    greedy: Map<ClassId, NodeId>,
    supported: bool,
    start: Map<Col, Cost>,
    report: SolveReport,
) -> (sel: Map<ClassId, NodeId>)
    requires
        is_warmed(g, roots, vars, warm, greedy, supported, start, report),
    ensures
        ({
            let asked = !(warm.mode is Off);
            let own = warm.mode is Initial && warm.seed is Some;
            let preferred = if own {
                warm.seed->0@
            } else {
                greedy
            };
            let seeds = seed_choices(vars@, preferred, greedy);
            let applied = report.warm_start_applied;
            &&& !asked ==> report.warm_start_note is None
            &&& asked && !supported ==> report.warm_start_note == Some(WarmNote::Unsupported)
            &&& !asked || !supported ==> applied == WarmStart::Off
            &&& applied == WarmStart::Off ==> start == Map::<Col, Cost>::empty()
                && report.warm_start_objective is None
            &&& applied != WarmStart::Off ==> applied == (if own {
                WarmStart::Initial
            } else {
                WarmStart::Greedy
            })
            &&& applied != WarmStart::Off ==> solves(vars@, sel) && is_part(sel, seeds)
                && report.warm_start_objective == Some(dag_size(g, completed(vars@, sel), roots))
            &&& applied != WarmStart::Off ==> forall|c: ClassId| #[trigger]
                vars@.classes.contains_key(c) ==> start[vars.actives()[c as int]] == (
                if sel.contains_key(c) {
                    1_000_000i64
                } else {
                    0
                })
            &&& applied != WarmStart::Off ==> says_repaired(
                reseeded(vars@, preferred, greedy).len(),
                warm.mode is Initial && warm.seed is None,
                report.warm_start_note,
            )
            &&& asked && supported && applied == WarmStart::Off ==> (
            report.warm_start_note matches Some(WarmNote::Unseeded { why }))
        }),
{
    let preferred = preferred_by(warm, greedy);
    let seeds = seed_choices(vars@, preferred, greedy);
    choose|sel: Map<ClassId, NodeId>|
        {
            &&& #[trigger] solves(vars@, sel)
            &&& is_part(sel, seeds)
            &&& forall|c: ClassId| #[trigger] sel.contains_key(c) <==> is_used(vars@, seeds, c)
            &&& is_start(vars@, vars.actives(), sel, start)
            &&& report.warm_start_objective == Some(dag_size(g, completed(vars@, sel), roots))
        }
}

/// The note says how many classes are not seeded as preferred, and whether the greedy
/// extraction stands in; there is none if there is nothing to say.
pub open spec fn says_repaired(repaired: nat, stands_in: bool, note: Option<WarmNote>) -> bool {
    if repaired == 0 && !stands_in {
        note is None
    } else {
        note == Some(WarmNote::Simplified { repaired: repaired as usize, degraded: stands_in })
    }
}

/// A class counts as not seeded as preferred if it is used and the preferred choice has
/// none, or one that is no longer there.
pub proof fn repairs_are_counted(
    p: Problem,
    preferred: Map<ClassId, NodeId>,
    fallback: Map<ClassId, NodeId>,
    c: ClassId,
)
    ensures
        reseeded(p, preferred, fallback).contains(c) <==> is_used(
            p,
            seed_choices(p, preferred, fallback),
            c,
        ) && !(preferred.contains_key(c) && is_offered(p.classes[c], preferred[c])),
{
    assert(is_offered(p.classes[c], preferred[c]) == offers(p.classes[c], preferred[c]));
}

} // verus!
