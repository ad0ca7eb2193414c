use extraction_gym::cost::{Cost, EPSILON_ALLOWANCE, INFINITY, NEG_INFINITY, ONE};
use extraction_gym::extract::faster_ilp_cbc::{
    extract, judge, remaining_seconds, stage, Config, FasterIlpExtractor,
    FasterIlpExtractorWithTimeout, Verdict, WarmConfig,
};
use extraction_gym::extract::greedy::{GreedyDepthExtractor, GreedySizeExtractor, InitialExtractor};
use extraction_gym::extract::ilp::objective::{CandidateName, DepthBudget, IlpObjective};
use extraction_gym::extract::ilp::options::{IlpOptions, TimeLimit, WarmStart};
use extraction_gym::extract::ilp::report::{FallbackReason, Rejection, SolveOutcome, WarmNote};
use extraction_gym::extract::ilp::solve::{
    solve, Clock, IlpError, InvalidAmount, MissingInitial,
};
use extraction_gym::extract::ilp::{
    DepthExtractor, SizeConstrainedDepthExtractor, SizeExtractor, WeightedSizeDepthExtractor,
};
use extraction_gym::extract::ilp_cbc::{
    DelayBudgetIlpExtractor, DualIlpExtractor, IlpExtractor, IlpExtractorWithTimeout,
};
use extraction_gym::milp::stage::Staged;
use extraction_gym::milp::{MilpModel, MilpSense, MilpSolution, MilpStatus};
use extraction_gym::{
    extractors, EGraph, ExtractionError, ExtractionResult, Extractor, Node, Optimal,
};

const EGRAPHS: usize = 20;

// ---------------------------------------------------------------------------
// Solvers
// ---------------------------------------------------------------------------

struct Still;

impl Clock for Still {
    fn now(&self) -> Cost {
        0
    }
}

fn no_solution(infeasible: bool, detail: String) -> MilpSolution {
    MilpSolution {
        values: Vec::new(),
        objective: INFINITY,
        infeasible,
        completed: infeasible,
        feasible: false,
        bound: None,
        detail,
    }
}

/// An exact branch-and-bound solver for small models: binary columns are
/// branched on, bounds are propagated through the rows, and where every binary
/// column is fixed the others are at their least.
///
/// Columns without an upper bound, the levels of the small models here, need
/// no more than [`RANGE`].
struct Exact {
    seconds: u32,
    threads: u32,
    params: Vec<String>,
    log: Option<String>,
}

const RANGE: i128 = 100 * ONE as i128;

#[derive(Clone)]
struct Bounds {
    lower: Vec<Option<i128>>,
    upper: Vec<Option<i128>>,
}

struct Search {
    cost: Vec<i128>,
    integral: Vec<bool>,
    binary: Vec<bool>,
    rows: Vec<(Vec<(usize, i128)>, Option<i128>, Option<i128>)>,
    best: Option<(i128, Vec<i128>)>,
}

fn amount(v: Cost) -> Option<i128> {
    if v == INFINITY || v == NEG_INFINITY {
        None
    } else {
        Some(v as i128)
    }
}

fn floor_div(a: i128, b: i128) -> i128 {
    a.div_euclid(b) - if b < 0 && a.rem_euclid(b) != 0 { 1 } else { 0 }
}

fn ceil_div(a: i128, b: i128) -> i128 {
    -floor_div(-a, b)
}

impl Search {
    /// Narrows the bounds; `false` on a contradiction.
    fn propagate(&self, b: &mut Bounds) -> bool {
        let one = ONE as i128;
        let mut changed = true;
        while changed {
            changed = false;
            for (terms, lo, hi) in &self.rows {
                for flip in [1i128, -1] {
                    // sum of flip * weight * column <= limit
                    let Some(limit) = (if flip == 1 { *hi } else { *lo }) else { continue };
                    let limit = limit * flip * one;
                    let least = |j: usize, w: i128| {
                        if w >= 0 { b.lower[j] } else { b.upper[j] }.map(|v| w * v)
                    };
                    let mut known = 0i128;
                    let mut open = Vec::new();
                    for (j, w) in terms {
                        match least(*j, flip * w) {
                            Some(v) => known += v,
                            None => open.push(*j),
                        }
                    }
                    if open.is_empty() && known > limit {
                        return false;
                    }
                    let mut narrowed = Vec::new();
                    for (j, w) in terms {
                        let w = flip * w;
                        if w == 0 || open.iter().any(|o| o != j) {
                            continue;
                        }
                        let rest = known - least(*j, w).unwrap_or(0);
                        narrowed.push((*j, w, limit - rest));
                    }
                    for (j, w, room) in narrowed {
                        if w > 0 {
                            let mut v = floor_div(room, w);
                            if self.integral[j] {
                                v = v.div_euclid(one) * one;
                            }
                            if b.upper[j].map_or(true, |u| v < u) {
                                b.upper[j] = Some(v);
                                changed = true;
                            }
                        } else {
                            let mut v = ceil_div(room, w);
                            if self.integral[j] {
                                v = -(-v).div_euclid(one) * one;
                            }
                            if b.lower[j].map_or(true, |l| v > l) {
                                b.lower[j] = Some(v);
                                changed = true;
                            }
                        }
                        if let (Some(l), Some(u)) = (b.lower[j], b.upper[j]) {
                            if l > u {
                                return false;
                            }
                        }
                    }
                }
            }
        }
        true
    }

    fn run(&mut self, mut b: Bounds) {
        if !self.propagate(&mut b) {
            return;
        }
        let one = ONE as i128;
        let point: Vec<i128> = (0..self.cost.len())
            .map(|j| if self.cost[j] >= 0 { b.lower[j] } else { b.upper[j] }.unwrap_or(0))
            .collect();
        let value: i128 = point.iter().zip(&self.cost).map(|(v, c)| v * c).sum();
        if self.best.as_ref().map_or(false, |(best, _)| value >= *best) {
            return;
        }
        let free = (0..point.len()).find(|j| self.binary[*j] && b.lower[*j] != b.upper[*j]);
        if let Some(j) = free {
            let first = b.lower[j].unwrap();
            let mut low = b.clone();
            low.upper[j] = Some(first);
            self.run(low);
            b.lower[j] = Some(first + one);
            self.run(b);
            return;
        }
        for (terms, lo, hi) in &self.rows {
            let sum: i128 = terms.iter().map(|(j, w)| w * point[*j]).sum();
            if lo.map_or(false, |l| sum < l * one) || hi.map_or(false, |h| sum > h * one) {
                return;
            }
        }
        self.best = Some((value, point));
    }
}

impl MilpModel for Exact {
    fn new() -> Self {
        Exact { seconds: u32::MAX, threads: 1, params: Vec::new(), log: None }
    }

    fn backend_name(&self) -> String {
        "HiGHS".to_string()
    }

    fn set_time_limit_seconds(&mut self, seconds: u32) {
        self.seconds = seconds;
    }

    fn set_log_level(&mut self, _level: u32) {}

    fn set_log_file(&mut self, path: &str) {
        self.log = Some(path.to_string());
    }

    fn read_log(&self, path: &str) -> Option<String> {
        if self.log.as_deref() != Some(path) {
            return None;
        }
        Some(
            "\
     Proc. InQueue |  Leaves   Expl. | BestBound       BestSol              Gap |   Cuts   InLp Confl. | LpIters     Time
 R       0       0         0   0.00%   1.0             3.0                66.66%       0      0      0        12     0.4s
"
            .to_string(),
        )
    }

    fn set_threads(&mut self, threads: u32) {
        self.threads = threads;
    }

    fn set_raw_parameter(&mut self, key: &str, value: &str) {
        self.params.push(format!("{key}={value}"));
    }

    fn supports_warm_start(&self) -> bool {
        true
    }

    fn solve(&mut self, staged: &Staged) -> MilpSolution {
        let detail = format!(
            "{} s, {} threads, {:?}, {} started",
            self.seconds,
            self.threads,
            self.params,
            staged.warm().len()
        );
        if self.seconds == 0 {
            return no_solution(false, detail);
        }
        assert_eq!(staged.sense(), MilpSense::Minimize);
        let n = staged.num_cols();
        let cols: Vec<_> = (0..n).map(|j| staged.col(j)).collect();
        let mut search = Search {
            cost: cols.iter().map(|c| c.cost).collect(),
            integral: cols.iter().map(|c| c.integral).collect(),
            binary: cols
                .iter()
                .map(|c| c.integral && c.lower == 0 && c.upper == ONE)
                .collect(),
            rows: (0..staged.num_rows())
                .map(|r| {
                    let terms = staged.row_coeffs(r).iter().map(|(j, w)| (*j, *w as i128)).collect();
                    (terms, amount(staged.row(r).lower), amount(staged.row(r).upper))
                })
                .collect(),
            best: None,
        };
        search.run(Bounds {
            lower: cols.iter().map(|c| amount(c.lower)).collect(),
            upper: cols.iter().map(|c| amount(c.upper).or(Some(RANGE))).collect(),
        });
        match search.best {
            None => no_solution(true, detail),
            Some((value, point)) => {
                let objective = (value / (ONE as i128 * ONE as i128)) as Cost;
                MilpSolution {
                    values: point.iter().map(|v| *v as Cost).collect(),
                    objective,
                    infeasible: false,
                    completed: true,
                    feasible: true,
                    bound: Some(objective),
                    detail,
                }
            },
        }
    }
}

/// A solver that claims that nothing at all is optimal.
struct Idle;

impl MilpModel for Idle {
    fn new() -> Self {
        Idle
    }

    fn backend_name(&self) -> String {
        "idle".to_string()
    }

    fn set_time_limit_seconds(&mut self, _seconds: u32) {}

    fn set_log_level(&mut self, _level: u32) {}

    fn set_log_file(&mut self, _path: &str) {}

    fn read_log(&self, _path: &str) -> Option<String> {
        None
    }

    fn set_threads(&mut self, _threads: u32) {}

    fn set_raw_parameter(&mut self, _key: &str, _value: &str) {}

    fn supports_warm_start(&self) -> bool {
        false
    }

    fn solve(&mut self, staged: &Staged) -> MilpSolution {
        MilpSolution {
            values: vec![0; staged.num_cols()],
            objective: 0,
            infeasible: false,
            completed: true,
            feasible: true,
            bound: Some(0),
            detail: "idle".to_string(),
        }
    }
}

/// A solver that is cut off with the start it was given, or with nothing.
struct Hurried;

impl MilpModel for Hurried {
    fn new() -> Self {
        Hurried
    }

    fn backend_name(&self) -> String {
        "hurried".to_string()
    }

    fn set_time_limit_seconds(&mut self, _seconds: u32) {}

    fn set_log_level(&mut self, _level: u32) {}

    fn set_log_file(&mut self, _path: &str) {}

    fn read_log(&self, _path: &str) -> Option<String> {
        None
    }

    fn set_threads(&mut self, _threads: u32) {}

    fn set_raw_parameter(&mut self, _key: &str, _value: &str) {}

    fn supports_warm_start(&self) -> bool {
        true
    }

    fn solve(&mut self, staged: &Staged) -> MilpSolution {
        let warm = staged.warm();
        if warm.is_empty() {
            return no_solution(false, "hurried".to_string());
        }
        let mut values = vec![0; staged.num_cols()];
        for (j, v) in warm {
            values[j] = v;
        }
        // A start is a point of the model.
        let one = ONE as i128;
        let mut objective = 0i128;
        for (j, v) in values.iter().enumerate() {
            let c = staged.col(j);
            assert!(c.lower <= *v && *v <= c.upper, "column {j}");
            objective += c.cost * *v as i128;
        }
        for r in 0..staged.num_rows() {
            let sum: i128 =
                staged.row_coeffs(r).iter().map(|(j, w)| *w as i128 * values[*j] as i128).sum();
            let row = staged.row(r);
            assert!(row.lower == NEG_INFINITY || row.lower as i128 * one <= sum, "row {r}");
            assert!(row.upper == INFINITY || row.upper as i128 * one >= sum, "row {r}");
        }
        MilpSolution {
            values,
            objective: (objective / (one * one)) as Cost,
            infeasible: false,
            completed: false,
            feasible: true,
            bound: None,
            detail: "hurried".to_string(),
        }
    }
}

// ---------------------------------------------------------------------------
// E-graphs
// ---------------------------------------------------------------------------

fn node(eclass: usize, children: &[usize], cost: Cost, delay: Cost, initial: bool) -> Node {
    Node { op: "op".to_string(), children: children.to_vec(), eclass, cost, delay, initial }
}

fn graph(nodes: Vec<Node>, roots: &[usize]) -> EGraph {
    EGraph::new(nodes, roots.to_vec()).unwrap()
}

fn choices(pairs: &[(usize, usize)]) -> ExtractionResult {
    let mut r = ExtractionResult::default();
    for (class, node) in pairs {
        r.select(*class, *node);
    }
    r
}

struct Lcg(u64);

impl Lcg {
    fn next(&mut self, below: u64) -> u64 {
        self.0 = self.0.wrapping_mul(6_364_136_223_846_793_005).wrapping_add(1_442_695_040_888_963_407);
        (self.0 >> 33) % below
    }
}

/// A random e-graph in which every class can be extracted, with cycles.
fn random_egraph(rng: &mut Lcg) -> EGraph {
    let n_classes = 2 + rng.next(5) as usize;
    let mut kids: Vec<(usize, Vec<usize>)> = Vec::new();
    for c in 0..n_classes {
        let mut below = Vec::new();
        for d in (c + 1)..n_classes {
            if rng.next(2) == 0 {
                below.push(d);
            }
        }
        kids.push((c, below));
    }
    for _ in 0..n_classes {
        let c = rng.next(n_classes as u64) as usize;
        let mut any = Vec::new();
        for _ in 0..(1 + rng.next(2)) {
            any.push(rng.next(n_classes as u64) as usize);
        }
        kids.push((c, any));
    }
    let nodes = kids
        .into_iter()
        .map(|(c, below)| {
            let cost = rng.next(8) as Cost * ONE / 2;
            let delay = rng.next(8) as Cost * ONE / 2;
            node(c, &below, cost, delay, false)
        })
        .collect();
    let mut roots = vec![0];
    if rng.next(3) == 0 {
        roots.push(n_classes - 1);
    }
    graph(nodes, &roots)
}

/// The smallest size of a valid extraction, by trying them all.
fn least_size(egraph: &EGraph, roots: &[usize]) -> Cost {
    fn go(egraph: &EGraph, roots: &[usize], class: usize, sel: &mut Vec<(usize, usize)>, best: &mut Cost) {
        if class == egraph.classes.len() {
            let e = choices(sel);
            if e.is_complete(egraph, roots) {
                *best = (*best).min(e.dag_cost(egraph, roots));
            }
            return;
        }
        for n in &egraph.classes[class].nodes {
            sel.push((class, *n));
            go(egraph, roots, class + 1, sel, best);
            sel.pop();
        }
    }
    let mut best = INFINITY;
    go(egraph, roots, 0, &mut Vec::new(), &mut best);
    best
}

fn options(time_limit: Option<TimeLimit>, warm_start: WarmStart) -> IlpOptions {
    IlpOptions { time_limit, warm_start, ..Default::default() }
}

fn min_depth(egraph: &EGraph, roots: &[usize]) -> Cost {
    let e = GreedyDepthExtractor.extract(egraph, roots);
    e.dag_depth(egraph, roots)
}

/// Equal to within a millionth.
fn close(a: Cost, b: Cost) -> bool {
    (a - b).abs() <= 1
}

/// Flags the nodes of `extraction` reachable from the roots as initial.
fn flag_initial(egraph: &mut EGraph, extraction: &ExtractionResult) {
    let mut todo = egraph.root_eclasses.clone();
    let mut seen = std::collections::HashSet::new();
    while let Some(cid) = todo.pop() {
        if !seen.insert(cid) {
            continue;
        }
        let nid = extraction.choices[&cid];
        let below: Vec<usize> =
            egraph.nodes[nid].children.iter().map(|c| egraph.nid_to_cid(*c)).collect();
        todo.extend(below);
        egraph.nodes[nid].initial = true;
    }
}

// ---------------------------------------------------------------------------
// Extraction with the size and depth model
// ---------------------------------------------------------------------------

#[test]
fn zero_time_limit_still_returns_a_complete_extraction() {
    let mut rng = Lcg(10);
    for _ in 0..EGRAPHS {
        let egraph = random_egraph(&mut rng);
        let roots = egraph.root_eclasses.clone();
        let objectives = [
            IlpObjective::Size,
            IlpObjective::Depth,
            IlpObjective::SizeConstrainedDepth {
                depth_budget: DepthBudget::Fixed(min_depth(&egraph, &roots)),
            },
            IlpObjective::WeightedSizeDepth { size_weight: ONE, depth_weight: ONE },
        ];
        for objective in objectives {
            for warm_start in [WarmStart::Off, WarmStart::Greedy] {
                let opts = options(Some(TimeLimit { secs: 0, nanos: 0 }), warm_start);
                let outcome =
                    solve::<Exact, Still>(&egraph, &roots, objective, &opts, &Still).ok().unwrap();
                assert!(outcome.extraction.as_result().is_complete(&egraph, &roots));
                assert!(!outcome.report.depth_budget_violated);
            }
        }
    }
}

#[test]
fn infeasible_budget_returns_the_shallowest_candidate_flagged() {
    let mut rng = Lcg(11);
    let mut tested = 0;
    while tested < EGRAPHS {
        let egraph = random_egraph(&mut rng);
        let roots = egraph.root_eclasses.clone();
        let best_depth = min_depth(&egraph, &roots);
        if best_depth <= 0 {
            continue;
        }
        tested += 1;
        let objective = IlpObjective::SizeConstrainedDepth {
            depth_budget: DepthBudget::Fixed(best_depth / 2),
        };
        let opts = options(None, WarmStart::Off);
        let outcome = solve::<Exact, Still>(&egraph, &roots, objective, &opts, &Still).ok().unwrap();
        assert!(matches!(outcome.report.outcome, SolveOutcome::Fallback { .. }));
        assert!(outcome.report.depth_budget_violated);
        let depth = outcome.extraction.as_result().dag_depth(&egraph, &roots);
        assert!(close(depth, best_depth));
    }
}

#[test]
fn attainable_budget_is_met_and_no_larger_than_the_depth_extraction() {
    let mut rng = Lcg(12);
    for _ in 0..EGRAPHS {
        let egraph = random_egraph(&mut rng);
        let roots = egraph.root_eclasses.clone();
        let depth_extraction = GreedyDepthExtractor.extract(&egraph, &roots);
        let budget = depth_extraction.dag_depth(&egraph, &roots);
        let objective =
            IlpObjective::SizeConstrainedDepth { depth_budget: DepthBudget::Fixed(budget) };
        let opts = options(None, WarmStart::Greedy);
        let outcome = solve::<Exact, Still>(&egraph, &roots, objective, &opts, &Still).ok().unwrap();
        let e = outcome.extraction.as_result();
        assert!(!outcome.report.depth_budget_violated);
        assert!(e.dag_depth(&egraph, &roots) <= budget);
        assert!(e.dag_cost(&egraph, &roots) <= depth_extraction.dag_cost(&egraph, &roots));
    }
}

#[test]
fn optimal_solutions_agree_with_the_objective_and_greedy_bounds() {
    let mut rng = Lcg(13);
    for _ in 0..EGRAPHS {
        let egraph = random_egraph(&mut rng);
        let roots = egraph.root_eclasses.clone();
        let opts = options(None, WarmStart::Off);

        // Size: no larger than greedy, and the least there is.
        let size =
            solve::<Exact, Still>(&egraph, &roots, IlpObjective::Size, &opts, &Still).ok().unwrap();
        assert!(matches!(size.report.outcome, SolveOutcome::Optimal));
        let greedy_size = GreedySizeExtractor.extract(&egraph, &roots);
        let got = size.extraction.as_result().dag_cost(&egraph, &roots);
        assert!(got <= greedy_size.dag_cost(&egraph, &roots) + EPSILON_ALLOWANCE);
        assert_eq!(got, least_size(&egraph, &roots));

        // Depth: the ILP encoding reproduces the exact greedy optimum.
        let depth =
            solve::<Exact, Still>(&egraph, &roots, IlpObjective::Depth, &opts, &Still).ok().unwrap();
        assert!(matches!(depth.report.outcome, SolveOutcome::Optimal));
        let got = depth.extraction.as_result().dag_depth(&egraph, &roots);
        assert!(close(got, min_depth(&egraph, &roots)));

        // Weighted: the solver's objective is the objective of the extraction.
        let weighted =
            IlpObjective::WeightedSizeDepth { size_weight: 300_000, depth_weight: ONE };
        let outcome = solve::<Exact, Still>(&egraph, &roots, weighted, &opts, &Still).ok().unwrap();
        assert!(matches!(outcome.report.outcome, SolveOutcome::Optimal));
        let evaluated = weighted.evaluate(&egraph, &roots, &outcome.extraction);
        assert!(close(outcome.report.objective.unwrap(), evaluated));
    }
}

#[test]
fn initial_warm_start_requires_flagged_nodes() {
    let egraph = random_egraph(&mut Lcg(14));
    let roots = egraph.root_eclasses.clone();
    let opts = options(None, WarmStart::Initial);
    let result = solve::<Exact, Still>(&egraph, &roots, IlpObjective::Size, &opts, &Still);
    assert!(matches!(result, Err(IlpError::MissingInitial(_))));
}

#[test]
fn invalid_requests_are_errors() {
    let egraph = random_egraph(&mut Lcg(15));
    let roots = egraph.root_eclasses.clone();
    let opts = options(None, WarmStart::Off);
    let negative =
        IlpObjective::WeightedSizeDepth { size_weight: -ONE, depth_weight: ONE };
    assert!(matches!(
        solve::<Exact, Still>(&egraph, &roots, negative, &opts, &Still),
        Err(IlpError::InvalidInput(_))
    ));
    assert!(matches!(
        solve::<Exact, Still>(&egraph, &[], IlpObjective::Size, &opts, &Still),
        Err(IlpError::NoRoots)
    ));
}

/// A supplied feasible start must be accepted and returned rather than
/// nothing.
#[test]
fn initial_warm_start_is_accepted_and_used() {
    let mut rng = Lcg(16);
    for _ in 0..EGRAPHS {
        let mut egraph = random_egraph(&mut rng);
        let roots = egraph.root_eclasses.clone();
        let greedy = GreedySizeExtractor.extract(&egraph, &roots);
        flag_initial(&mut egraph, &greedy);

        let opts = options(Some(TimeLimit { secs: 1, nanos: 0 }), WarmStart::Initial);
        let outcome =
            solve::<Exact, Still>(&egraph, &roots, IlpObjective::Size, &opts, &Still).ok().unwrap();
        let report = &outcome.report;
        assert_eq!(report.warm_start_applied, WarmStart::Initial, "{:?}", report.warm_start_note);
        assert!(
            !matches!(report.outcome, SolveOutcome::Fallback { .. }),
            "{:?}",
            report.outcome
        );
        assert!(
            report.objective.unwrap() <= report.warm_start_objective.unwrap() + EPSILON_ALLOWANCE
        );

        // Cut off at once, the solver gives the start back.
        let outcome =
            solve::<Hurried, Still>(&egraph, &roots, IlpObjective::Size, &opts, &Still).ok().unwrap();
        assert!(matches!(outcome.report.outcome, SolveOutcome::Incumbent));
        assert_eq!(outcome.report.status, Some(MilpStatus::TimeoutWithSolution));
        assert_eq!(
            outcome.extraction.as_result().dag_cost(&egraph, &roots),
            greedy.dag_cost(&egraph, &roots)
        );
    }
}

/// Starts of every objective are points of its model.
#[test]
fn greedy_starts_are_points_of_the_model() {
    let mut rng = Lcg(17);
    for _ in 0..EGRAPHS {
        let egraph = random_egraph(&mut rng);
        let roots = egraph.root_eclasses.clone();
        let objectives = [
            IlpObjective::Size,
            IlpObjective::Depth,
            IlpObjective::SizeConstrainedDepth {
                depth_budget: DepthBudget::Fixed(min_depth(&egraph, &roots)),
            },
            IlpObjective::WeightedSizeDepth { size_weight: 2 * ONE, depth_weight: ONE },
        ];
        for objective in objectives {
            let opts = options(None, WarmStart::Greedy);
            let outcome =
                solve::<Hurried, Still>(&egraph, &roots, objective, &opts, &Still).ok().unwrap();
            assert!(matches!(outcome.report.outcome, SolveOutcome::Incumbent));
            assert_eq!(outcome.report.warm_start_applied, WarmStart::Greedy);
            assert!(matches!(
                outcome.report.warm_start_note,
                Some(WarmNote::Seeded { .. }) | None
            ));
        }
    }
}

/// `f(g(x), y)` with a cheaper and a shallower alternative for `g(x)`.
fn small() -> EGraph {
    graph(
        vec![
            node(0, &[], ONE, ONE, false),
            node(1, &[0], ONE, 5 * ONE, false),
            node(1, &[], 3 * ONE, ONE, true),
            node(2, &[1], ONE, ONE, true),
        ],
        &[2],
    )
}

/// Weighted sizes are not rounded node by node: many small nodes are worth what
/// their sum is.
#[test]
fn small_weighted_sizes_add_up() {
    // Class 0 is a chain of forty small nodes, or one node of less in all.
    let mut nodes = vec![node(0, &[], 30, 0, false)];
    nodes.push(node(0, &[2], 3, 0, true));
    for k in 1..40 {
        let below = if k < 39 { vec![k + 2] } else { vec![] };
        nodes.push(node(k, &below, 3, 0, true));
    }
    let egraph = graph(nodes, &[0]);
    let roots = vec![0];
    let objective = IlpObjective::WeightedSizeDepth { size_weight: 300_000, depth_weight: ONE };
    let opts = options(None, WarmStart::Off);
    let r = solve::<Exact, Still>(&egraph, &roots, objective, &opts, &Still).ok().unwrap();
    assert!(matches!(r.report.outcome, SolveOutcome::Optimal));
    assert_eq!(objective.evaluate(&egraph, &roots, &r.extraction), 9);
    assert_eq!(r.extraction.as_result().dag_cost(&egraph, &roots), 30);
    assert_eq!(r.report.objective, Some(9));
}

#[test]
fn every_objective_has_its_extractor() {
    let egraph = small();
    let roots = vec![2];
    let opts = || options(None, WarmStart::Off);
    let size = SizeExtractor { options: opts() };
    let r = size.solve_with::<Exact, Still>(&egraph, &roots, &Still).ok().unwrap();
    assert_eq!(r.extraction.as_result().dag_cost(&egraph, &roots), 3 * ONE);
    assert_eq!(r.report.model, IlpObjective::Size.name());
    let depth = DepthExtractor { options: opts() };
    let r = depth.solve_with::<Exact, Still>(&egraph, &roots, &Still).ok().unwrap();
    assert_eq!(r.extraction.as_result().dag_depth(&egraph, &roots), 2 * ONE);
    let budget = SizeConstrainedDepthExtractor {
        depth_budget: DepthBudget::Fixed(7 * ONE),
        options: opts(),
    };
    let r = budget.solve_with::<Exact, Still>(&egraph, &roots, &Still).ok().unwrap();
    assert_eq!(r.extraction.as_result().dag_cost(&egraph, &roots), 3 * ONE);
    let budget =
        SizeConstrainedDepthExtractor { depth_budget: DepthBudget::Initial, options: opts() };
    let r = budget.solve_with::<Exact, Still>(&egraph, &roots, &Still).ok().unwrap();
    assert_eq!(r.report.depth_budget, Some(2 * ONE));
    assert_eq!(r.extraction.as_result().get(1), Some(2));
    let both = WeightedSizeDepthExtractor {
        size_weight: ONE,
        depth_weight: ONE / 2,
        options: opts(),
    };
    let r = both.solve_with::<Exact, Still>(&egraph, &roots, &Still).ok().unwrap();
    assert_eq!(r.report.objective, Some(5 * ONE));
}

#[test]
fn options_reach_the_solver() {
    let egraph = small();
    let mut opts = options(Some(TimeLimit { secs: 4, nanos: 1 }), WarmStart::Greedy);
    opts.threads = 3;
    opts.raw_params = vec![("seed".to_string(), "7".to_string())];
    opts.solver_log = Some("run.log".to_string());
    let r = solve::<Exact, Still>(&egraph, &[2], IlpObjective::Size, &opts, &Still).ok().unwrap();
    let detail = r.report.status_detail.unwrap();
    assert!(detail.starts_with("5 s, 3 threads, [\"seed=7\"]"), "{detail}");
    assert!(!detail.ends_with(" 0 started"), "{detail}");
    assert_eq!(r.report.solver_log.as_deref(), Some("run.log"));
    assert_eq!(r.report.trajectory.len(), 1);
    assert_eq!(r.report.trajectory[0].objective, 3 * ONE);
    assert_eq!(r.report.time_to_first_incumbent_secs, Some(400_000));
    assert_eq!(r.report.num_solves, 1);
}

#[test]
fn invalid_amounts_are_named() {
    let opts = options(None, WarmStart::Off);
    let ask = |egraph: &EGraph, objective| {
        match solve::<Exact, Still>(egraph, &egraph.root_eclasses, objective, &opts, &Still) {
            Err(IlpError::InvalidInput(amount)) => amount,
            _ => panic!("accepted"),
        }
    };
    let good = small();
    let mut sized = small();
    sized.nodes[1].cost = -1;
    assert_eq!(ask(&sized, IlpObjective::Size), InvalidAmount::Size { node: 1, value: -1 });
    let mut deep = small();
    deep.nodes[3].delay = INFINITY;
    assert_eq!(
        ask(&deep, IlpObjective::Size),
        InvalidAmount::Depth { node: 3, value: INFINITY }
    );
    assert_eq!(
        ask(&good, IlpObjective::WeightedSizeDepth { size_weight: ONE, depth_weight: -2 }),
        InvalidAmount::DepthWeight { value: -2 }
    );
    assert_eq!(
        ask(&good, IlpObjective::WeightedSizeDepth { size_weight: -3, depth_weight: -2 }),
        InvalidAmount::SizeWeight { value: -3 }
    );
    assert_eq!(
        ask(
            &good,
            IlpObjective::SizeConstrainedDepth { depth_budget: DepthBudget::Fixed(-1) }
        ),
        InvalidAmount::DepthBudget { value: -1 }
    );
}

#[test]
fn missing_initial_expressions_and_extractions_are_errors() {
    let opts = options(None, WarmStart::Initial);
    let mut egraph = small();
    egraph.nodes[2].initial = false;
    let r = solve::<Exact, Still>(&egraph, &[2], IlpObjective::Size, &opts, &Still);
    assert!(matches!(
        r,
        Err(IlpError::MissingInitial(MissingInitial::Incomplete {
            why: ExtractionError::NoChoice { class: 2 }
        }))
    ));
    egraph.nodes[3].initial = false;
    let r = solve::<Exact, Still>(&egraph, &[2], IlpObjective::Size, &opts, &Still);
    assert!(matches!(r, Err(IlpError::MissingInitial(MissingInitial::NotFlagged))));
    let round = graph(vec![node(0, &[1], 0, 0, false), node(1, &[0], 0, 0, false)], &[0]);
    let opts = options(None, WarmStart::Off);
    let r = solve::<Exact, Still>(&round, &[0], IlpObjective::Size, &opts, &Still);
    assert!(matches!(
        r,
        Err(IlpError::NoValidExtraction(ExtractionError::NoChoice { class: 0 }))
    ));
    let e = InitialExtractor.extract(&egraph, &[2]);
    assert_eq!(e.choices.len(), 0);
}

#[test]
fn a_useless_answer_is_replaced_by_the_fallback() {
    let egraph = small();
    let opts = options(None, WarmStart::Greedy);
    let r = solve::<Idle, Still>(&egraph, &[2], IlpObjective::Size, &opts, &Still).ok().unwrap();
    assert!(matches!(
        r.report.outcome,
        SolveOutcome::Fallback { reason: FallbackReason::Invalid { .. } }
    ));
    assert_eq!(r.report.warm_start_applied, WarmStart::Off);
    assert_eq!(r.report.warm_start_note, Some(WarmNote::Unsupported));
    assert_eq!(r.extraction.as_result().dag_cost(&egraph, &[2]), 3 * ONE);
    let opts = options(None, WarmStart::Off);
    let r = solve::<Hurried, Still>(&egraph, &[2], IlpObjective::Size, &opts, &Still).ok().unwrap();
    match r.report.outcome {
        SolveOutcome::Fallback { reason: FallbackReason::NoSolution { detail } } => {
            assert_eq!(detail, "hurried")
        },
        other => panic!("{other:?}"),
    }
    // A start from the initial expression that is worse than the greedy one.
    let opts = options(None, WarmStart::Initial);
    let r = solve::<Hurried, Still>(&egraph, &[2], IlpObjective::Size, &opts, &Still).ok().unwrap();
    match r.report.outcome {
        SolveOutcome::Fallback { reason: FallbackReason::Worse { value, candidate, objective } } => {
            assert_eq!(value, 4 * ONE);
            assert_eq!(candidate, CandidateName::GreedySize);
            assert_eq!(objective, 3 * ONE);
        },
        other => panic!("{other:?}"),
    }
}

// ---------------------------------------------------------------------------
// Older extractors
// ---------------------------------------------------------------------------

#[test]
fn older_extractors_use_the_same_models() {
    let egraph = small();
    let roots = vec![2];
    let (e, report) =
        IlpExtractor::default().extract_with_report::<Exact, Still>(&egraph, &roots, &Still);
    assert_eq!(e.dag_cost(&egraph, &roots), 3 * ONE);
    assert!(matches!(report.outcome, SolveOutcome::Optimal));
    let e = IlpExtractorWithTimeout::<7>::new().extract_with::<Exact, Still>(&egraph, &roots, &Still);
    assert_eq!(e.dag_cost(&egraph, &roots), 3 * ONE);
    let dual = DualIlpExtractor { alpha: ONE, beta: ONE / 2, ..Default::default() };
    let (_, report) = dual.extract_with_report::<Exact, Still>(&egraph, &roots, &Still);
    assert_eq!(report.objective, Some(4 * ONE));
    let tight = DelayBudgetIlpExtractor { max_delay: 2 * ONE, ..Default::default() };
    let (e, report) = tight.extract_with_report::<Exact, Still>(&egraph, &roots, &Still);
    assert_eq!(e.get(1), Some(2));
    assert_eq!(report.depth_budget, Some(2 * ONE));
    let (e, report) =
        IlpExtractor::default().extract_with_report::<Exact, Still>(&egraph, &[], &Still);
    assert_eq!(e.choices.len(), 0);
    assert!(matches!(
        report.outcome,
        SolveOutcome::Fallback { reason: FallbackReason::Rejected { why: Rejection::NoRoots } }
    ));
}

#[test]
fn supplied_extractions_are_repaired_and_started_from() {
    let egraph = small();
    let roots = vec![2];
    let start = |pairs: &[(usize, usize)]| IlpExtractor {
        timeout_seconds: 9,
        threads: 1,
        warm: WarmConfig {
            mode: WarmStart::Initial,
            seed: Some(choices(pairs)),
            milp_log: None,
        },
    };
    // The dearer node of class 1 is started from, and the fallback is better.
    let (e, report) =
        start(&[(2, 3), (1, 2)]).extract_with_report::<Hurried, Still>(&egraph, &roots, &Still);
    assert_eq!(report.warm_start_applied, WarmStart::Initial);
    assert_eq!(report.warm_start_objective, Some(4 * ONE));
    assert_eq!(report.num_solves, 1);
    assert_eq!(e.dag_cost(&egraph, &roots), 3 * ONE);
    // What is missing is filled with the cheapest member.
    let (_, report) =
        start(&[(2, 3)]).extract_with_report::<Hurried, Still>(&egraph, &roots, &Still);
    assert_eq!(report.warm_start_objective, Some(3 * ONE));
    // Without a seed there is no start.
    let plain = IlpExtractor {
        timeout_seconds: 9,
        threads: 1,
        warm: WarmConfig { mode: WarmStart::Initial, seed: None, milp_log: None },
    };
    let (_, report) = plain.extract_with_report::<Hurried, Still>(&egraph, &roots, &Still);
    assert_eq!(report.warm_start_requested, WarmStart::Off);
    assert_eq!(report.warm_start_applied, WarmStart::Off);
}

#[test]
fn registered_extractors_extract() {
    let mut rng = Lcg(18);
    for _ in 0..5 {
        let egraph = random_egraph(&mut rng);
        let roots = egraph.root_eclasses.clone();
        let least = least_size(&egraph, &roots);
        for (name, detail) in extractors() {
            let e = detail.extractor.extract_with::<Exact, Still>(&egraph, &roots, &Still);
            assert!(e.is_complete(&egraph, &roots), "{name}");
            if detail.optimal == Optimal::Dag {
                assert_eq!(e.dag_cost(&egraph, &roots), least, "{name}");
            }
        }
    }
}

// ---------------------------------------------------------------------------
// The simplifying extractor
// ---------------------------------------------------------------------------

/// Every simplification, on its own and with all others, keeps the optimum.
#[test]
fn simplifications_keep_the_optimum() {
    let mut rng = Lcg(19);
    let every = |on: bool| Config {
        pull_up_costs: on,
        remove_self_loops: on,
        remove_high_cost_nodes: on,
        remove_more_expensive_subsumed_nodes: on,
        remove_unreachable_classes: on,
        pull_up_single_parent: on,
        take_intersection_of_children_in_class: on,
        move_min_cost_of_members_to_class: on,
        find_extra_roots: on,
        remove_empty_classes: on,
        return_improved_on_timeout: on,
        remove_single_zero_cost: on,
    };
    let flip = |c: &mut Config, k: usize, on: bool| match k {
        0 => c.pull_up_costs = on,
        1 => c.remove_self_loops = on,
        2 => c.remove_high_cost_nodes = on,
        3 => c.remove_more_expensive_subsumed_nodes = on,
        4 => c.remove_unreachable_classes = on,
        5 => c.pull_up_single_parent = on,
        6 => c.take_intersection_of_children_in_class = on,
        7 => c.move_min_cost_of_members_to_class = on,
        8 => c.find_extra_roots = on,
        9 => c.remove_empty_classes = on,
        10 => c.return_improved_on_timeout = on,
        _ => c.remove_single_zero_cost = on,
    };
    let mut configs = vec![Config::default(), every(false), every(true)];
    for k in 0..12 {
        let mut only = every(false);
        flip(&mut only, k, true);
        configs.push(only);
        let mut all_but = every(true);
        flip(&mut all_but, k, false);
        configs.push(all_but);
    }
    for _ in 0..EGRAPHS {
        let egraph = random_egraph(&mut rng);
        let roots = egraph.root_eclasses.clone();
        let least = least_size(&egraph, &roots);
        for config in &configs {
            let (e, report) = extract::<Exact, Still>(
                &egraph,
                &roots,
                config,
                u32::MAX,
                1,
                &WarmConfig::default(),
                &Still,
            );
            assert!(e.is_complete(&egraph, &roots), "{config:?}");
            assert_eq!(e.dag_cost(&egraph, &roots), least, "{config:?} {:?}", report.outcome);
            assert!(matches!(report.outcome, SolveOutcome::Optimal), "{config:?}");
        }
    }
}

#[test]
fn cycles_are_blocked_until_none_is_left() {
    // The cheap choices of 0, 1 and 2 make a cycle.
    let egraph = graph(
        vec![
            node(0, &[1], 0, 0, false),
            node(1, &[2], 0, 0, false),
            node(2, &[0], 0, 0, false),
            node(0, &[], 4 * ONE, 0, false),
            node(1, &[], 3 * ONE, 0, false),
            node(2, &[], 5 * ONE, 0, false),
            node(3, &[0, 2], ONE, 0, false),
        ],
        &[3],
    );
    let (e, report) = FasterIlpExtractor::default().extract_with_report::<Exact, Still>(
        &egraph,
        &[3],
        &Still,
    );
    assert_eq!(e.dag_cost(&egraph, &[3]), 4 * ONE);
    assert_eq!(report.model, "area-ilp");
    assert!(matches!(report.outcome, SolveOutcome::Optimal));
    assert!(e.find_cycles(&egraph, &[3]).is_empty());
}

#[test]
fn simplified_extraction_can_be_started() {
    let mut rng = Lcg(20);
    let mut started: usize = 0;
    for _ in 0..EGRAPHS {
        let egraph = random_egraph(&mut rng);
        let roots = egraph.root_eclasses.clone();
        let greedy = GreedySizeExtractor.extract(&egraph, &roots);
        let bound = greedy.dag_cost(&egraph, &roots);
        for mode in [WarmStart::Greedy, WarmStart::Initial] {
            let warm = WarmConfig { mode, seed: None, milp_log: None };
            let e = FasterIlpExtractor { timeout_seconds: 9, threads: 2, warm };
            let (e, report) = e.extract_with_report::<Hurried, Still>(&egraph, &roots, &Still);
            assert!(e.is_complete(&egraph, &roots));
            assert!(e.dag_cost(&egraph, &roots) <= bound);
            assert_eq!(report.threads, 2);
            assert_eq!(report.time_limit, Some(TimeLimit { secs: 9, nanos: 0 }));
            assert_eq!(report.warm_start_requested, mode);
            if report.warm_start_applied == WarmStart::Greedy {
                started += 1;
                assert_eq!(
                    matches!(
                        report.warm_start_note,
                        Some(WarmNote::Simplified { degraded: true, .. })
                    ),
                    mode == WarmStart::Initial
                );
            }
        }
    }
    assert!(started > 0);
}

/// A clock that goes on by a second whenever it is read.
struct Ticking(std::cell::Cell<Cost>);

impl Clock for Ticking {
    fn now(&self) -> Cost {
        let now = self.0.get();
        self.0.set(now + ONE);
        now
    }
}

/// The cheapest choices are a cycle, which is blocked before the next solve.
#[test]
fn cycles_are_blocked_and_solved_again() {
    let egraph = graph(
        vec![
            node(0, &[2], ONE, 0, false),
            node(0, &[], 10 * ONE, 0, false),
            node(1, &[0], ONE, 0, false),
            node(1, &[], 10 * ONE, 0, false),
        ],
        &[0],
    );
    let roots = vec![0];
    let plain = Config {
        pull_up_costs: false,
        remove_self_loops: false,
        remove_high_cost_nodes: false,
        remove_more_expensive_subsumed_nodes: false,
        remove_unreachable_classes: false,
        pull_up_single_parent: false,
        take_intersection_of_children_in_class: false,
        move_min_cost_of_members_to_class: false,
        find_extra_roots: false,
        remove_empty_classes: false,
        return_improved_on_timeout: true,
        remove_single_zero_cost: false,
    };
    let warm = WarmConfig { mode: WarmStart::Off, seed: None, milp_log: Some("run.log".to_string()) };
    let clock = Ticking(std::cell::Cell::new(0));
    let (e, report) = extract::<Exact, Ticking>(&egraph, &roots, &plain, 30, 3, &warm, &clock);
    assert_eq!(report.num_solves, 2);
    assert!(matches!(report.outcome, SolveOutcome::Optimal));
    assert_eq!(e.dag_cost(&egraph, &roots), 10 * ONE);
    assert_eq!(report.objective, Some(10 * ONE));
    // The clock was read at the start and after the first solve too.
    assert!(report.status_detail.unwrap().starts_with("27 s, 3 threads"));
    assert_eq!(report.solver_log.as_deref(), Some("run.log"));
    assert_eq!(report.trajectory.len(), 1);
}

#[test]
fn simplified_extraction_falls_back() {
    let egraph = small();
    let none = WarmConfig::default();
    let (e, report) = extract::<Idle, Still>(&egraph, &[2], &Config::default(), 5, 1, &none, &Still);
    assert_eq!(e.dag_cost(&egraph, &[2]), 3 * ONE);
    assert!(matches!(
        report.outcome,
        SolveOutcome::Fallback { reason: FallbackReason::Inconsistent }
    ));
    let (e, report) =
        extract::<Hurried, Still>(&egraph, &[2], &Config::default(), 5, 1, &none, &Still);
    assert_eq!(e.dag_cost(&egraph, &[2]), 3 * ONE);
    assert!(matches!(
        report.outcome,
        SolveOutcome::Fallback { reason: FallbackReason::Unfinished { objective: INFINITY } }
    ));
    let round = graph(vec![node(0, &[1], 0, 0, false), node(1, &[0], 0, 0, false)], &[0]);
    let (e, report) = extract::<Exact, Still>(&round, &[0], &Config::default(), 5, 1, &none, &Still);
    assert_eq!(e.choices.len(), 0);
    assert!(matches!(
        report.outcome,
        SolveOutcome::Fallback {
            reason: FallbackReason::Rejected { why: Rejection::NoValidExtraction }
        }
    ));
    let e = FasterIlpExtractorWithTimeout::<3>::new().extract_with::<Exact, Still>(&egraph, &[2], &Still);
    assert_eq!(e.dag_cost(&egraph, &[2]), 3 * ONE);
}

#[test]
fn nodes_of_infinite_cost_are_no_choices() {
    let egraph = graph(
        vec![
            node(0, &[], INFINITY, 0, false),
            node(0, &[2], ONE, 0, false),
            node(1, &[], 2 * ONE, 0, false),
        ],
        &[0],
    );
    let (e, report) = FasterIlpExtractor::default().extract_with_report::<Exact, Still>(
        &egraph,
        &[0],
        &Still,
    );
    assert_eq!(e.get(0), Some(1));
    assert!(matches!(report.outcome, SolveOutcome::Optimal));
    // With nothing else to choose, the greedy extraction stands.
    let dear = graph(vec![node(0, &[], INFINITY, 0, false)], &[0]);
    let (e, report) =
        FasterIlpExtractor::default().extract_with_report::<Exact, Still>(&dear, &[0], &Still);
    assert_eq!(e.get(0), Some(0));
    assert_eq!(report.num_solves, 0);
    assert!(matches!(
        report.outcome,
        SolveOutcome::Fallback { reason: FallbackReason::NotSolved }
    ));
}

#[test]
fn solutions_are_judged() {
    let egraph = small();
    let config = Config::default();
    let bound = 3 * ONE + 1;
    let (vars, staged, some) = stage(&egraph, &[2], &config, bound);
    assert!(some);
    let mut exact = Exact::new();
    let solution = exact.solve(&staged);
    assert_eq!(solution.objective, 3 * ONE);
    match judge(&egraph, &[2], &vars, &config, bound, &solution) {
        Verdict::Found { extraction, optimal } => {
            assert!(optimal);
            assert_eq!(extraction.dag_cost(&egraph, &[2]), 3 * ONE);
        },
        _ => panic!("not found"),
    }
    let gone = no_solution(true, String::new());
    assert!(matches!(
        judge(&egraph, &[2], &vars, &config, bound, &gone),
        Verdict::Infeasible
    ));
    let late = no_solution(false, String::new());
    assert!(matches!(
        judge(&egraph, &[2], &vars, &config, bound, &late),
        Verdict::Fallback(FallbackReason::Unfinished { .. })
    ));
    // Nothing can be chosen for a root whose only node is below itself.
    let own = graph(vec![node(0, &[0], 0, 0, false)], &[0]);
    let (_, _, some) = stage(&own, &[0], &config, 0);
    assert!(!some);
}

#[test]
fn time_left_is_in_whole_seconds() {
    assert_eq!(remaining_seconds(10, 0), 10);
    assert_eq!(remaining_seconds(10, 3 * ONE + 999_999), 7);
    assert_eq!(remaining_seconds(10, 10 * ONE), 0);
    assert_eq!(remaining_seconds(10, 99 * ONE), 0);
    assert_eq!(remaining_seconds(10, -1), 0);
}
