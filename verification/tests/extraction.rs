use extraction_gym::cost::{Cost, EPSILON_ALLOWANCE, INFINITY, ONE};
use extraction_gym::extract::greedy::initial::has_initial_nodes;
use extraction_gym::extract::greedy::{GreedyDepthExtractor, GreedySizeExtractor, InitialExtractor};
use extraction_gym::extract::ilp::warm::{arrival_times, topological_levels, TimingError};
use extraction_gym::extract::ilp_cbc::{build_seed, SeedError};
use extraction_gym::extract::MapGet;
use extraction_gym::{
    extractors, CompleteExtraction, EGraph, EGraphError, ExtractionError, ExtractionResult,
    Extractor, Node, Optimal,
};
use indexmap::IndexMap;
use rustc_hash::FxHashMap;
use std::collections::HashMap;

fn node(eclass: usize, children: &[usize], cost: Cost, delay: Cost, initial: bool) -> Node {
    Node { op: "op".to_string(), children: children.to_vec(), eclass, cost, delay, initial }
}

fn unit(eclass: usize, children: &[usize], initial: bool) -> Node {
    node(eclass, children, ONE, ONE, initial)
}

fn graph(nodes: Vec<Node>, roots: &[usize]) -> EGraph {
    EGraph::new(nodes, roots.to_vec()).unwrap()
}

fn choices(pairs: &[(usize, usize)]) -> ExtractionResult {
    let mut r = ExtractionResult::default();
    for (class, node) in pairs {
        r.select(*class, *node);
    }
    r
}

struct Lcg(u64);

impl Lcg {
    fn next(&mut self, below: u64) -> u64 {
        self.0 = self.0.wrapping_mul(6_364_136_223_846_793_005).wrapping_add(1_442_695_040_888_963_407);
        (self.0 >> 33) % below
    }
}

/// A random e-graph in which every class can be extracted, with cycles.
fn random_egraph(rng: &mut Lcg) -> EGraph {
    let n_classes = 2 + rng.next(10) as usize;
    let mut kids: Vec<(usize, Vec<usize>)> = Vec::new();
    for c in 0..n_classes {
        let mut below = Vec::new();
        for d in (c + 1)..n_classes {
            if rng.next(3) == 0 {
                below.push(d);
            }
        }
        kids.push((c, below));
    }
    for _ in 0..(2 * n_classes) {
        let c = rng.next(n_classes as u64) as usize;
        let mut any = Vec::new();
        for _ in 0..rng.next(3) {
            any.push(rng.next(n_classes as u64) as usize);
        }
        kids.push((c, any));
    }
    // The first node of class `c` is node `c`, so classes can be named by it.
    let nodes = kids
        .into_iter()
        .map(|(c, below)| {
            let cost = rng.next(6) as Cost * ONE / 2;
            let delay = rng.next(6) as Cost * ONE / 2;
            node(c, &below, cost, delay, false)
        })
        .collect();
    graph(nodes, &[0])
}

/// `a(b)` with `b` a leaf, in two classes: `b` is node and class 0, `a` node
/// and class 1.
fn two_class_egraph() -> EGraph {
    graph(vec![unit(0, &[], false), unit(1, &[0], false)], &[1])
}

#[test]
fn try_new_rejects_empty_result() {
    let egraph = two_class_egraph();
    let roots = egraph.root_eclasses.clone();
    assert!(CompleteExtraction::try_new(ExtractionResult::default(), &egraph, &roots).is_err());
}

#[test]
fn try_new_rejects_missing_child() {
    let egraph = two_class_egraph();
    let roots = egraph.root_eclasses.clone();
    let partial = choices(&[(1, 1)]);
    assert!(!partial.is_complete(&egraph, &roots));
    assert!(CompleteExtraction::try_new(partial, &egraph, &roots).is_err());
}

#[test]
fn try_new_accepts_complete_result() {
    let egraph = two_class_egraph();
    let roots = egraph.root_eclasses.clone();
    let full = choices(&[(1, 1), (0, 0)]);
    assert!(CompleteExtraction::try_new(full, &egraph, &roots).is_ok());
}

#[test]
fn validation_says_what_is_wrong() {
    let egraph = two_class_egraph();
    let full = choices(&[(1, 1), (0, 0)]);
    assert_eq!(full.validate(&egraph, &[1]), Ok(()));
    assert_eq!(full.check(&egraph), Ok(()));
    assert!(matches!(
        CompleteExtraction::try_new(full, &egraph, &[]),
        Err(ExtractionError::NoRoots)
    ));
    assert_eq!(
        choices(&[(1, 1)]).validate(&egraph, &[1]),
        Err(ExtractionError::NoChoice { class: 0 })
    );
    assert_eq!(
        choices(&[(1, 0), (0, 0)]).validate(&egraph, &[1]),
        Err(ExtractionError::WrongClass { node: 0, class: 1, belongs_to: 0 })
    );
    // 0 -> 1 -> 0
    let round = graph(
        vec![unit(0, &[1], false), unit(1, &[0], false), unit(1, &[], false)],
        &[0],
    );
    let looping = choices(&[(0, 0), (1, 1)]);
    assert!(matches!(looping.validate(&round, &[0]), Err(ExtractionError::Cycle { .. })));
    assert_eq!(looping.find_cycles(&round, &[0]), vec![0]);
    assert!(choices(&[(0, 0), (1, 2)]).find_cycles(&round, &[0]).is_empty());
}

#[test]
fn a_result_keeps_the_last_choice_of_a_class() {
    let mut r = choices(&[(3, 7), (4, 8)]);
    assert_eq!(r.get(3), Some(7));
    r.select(3, 9);
    assert_eq!(r.get(3), Some(9));
    assert_eq!(r.get(5), None);
    assert_eq!(r.choices.len(), 2);
    let copy = r.clone();
    r.select(3, 1);
    assert_eq!(copy.get(3), Some(9));
}

#[test]
fn egraphs_are_checked() {
    assert!(matches!(
        EGraph::new(vec![unit(0, &[5], false)], vec![0]),
        Err(EGraphError::UnknownChild { node: 0, child: 5 })
    ));
    assert!(matches!(
        EGraph::new(vec![unit(1, &[], false)], vec![1]),
        Err(EGraphError::EmptyClass { class: 0 })
    ));
    let g = graph(vec![unit(1, &[], false), unit(0, &[], false), unit(1, &[1], false)], &[1]);
    assert_eq!(g.classes.len(), 2);
    assert_eq!(g.classes[1].nodes, vec![0, 2]);
    assert_eq!(g.nid_to_cid(2), 1);
}

#[test]
fn shared_classes_are_counted_once_in_a_dag_and_every_time_in_a_tree() {
    // f(g, g) with g of size 2 and depth 3, f of size 1 and depth 1.
    let g = graph(
        vec![
            node(0, &[], 2 * ONE, 3 * ONE, false),
            node(1, &[0, 0], ONE, ONE, false),
        ],
        &[1],
    );
    let e = choices(&[(1, 1), (0, 0)]);
    assert_eq!(e.dag_cost(&g, &[1]), 3 * ONE);
    assert_eq!(e.tree_cost(&g, &[1]), 5 * ONE);
    assert_eq!(e.dag_depth(&g, &[1]), 4 * ONE);
    assert_eq!(e.dag_cost(&g, &[1, 0]), 3 * ONE);
}

#[test]
fn node_sum_cost_reads_any_map() {
    let g = graph(
        vec![
            unit(0, &[], false),
            unit(1, &[], false),
            node(2, &[0, 1], 4 * ONE, 0, false),
        ],
        &[2],
    );
    let e = ExtractionResult::default();
    let mut plain: HashMap<usize, Cost> = HashMap::new();
    plain.insert(0, ONE);
    plain.insert(1, 2 * ONE);
    assert_eq!(e.node_sum_cost(&g, &g.nodes[2], &plain), 7 * ONE);
    assert_eq!(MapGet::get(&plain, &1), Some(&(2 * ONE)));
    let mut fx: FxHashMap<usize, Cost> = FxHashMap::default();
    fx.insert(0, ONE);
    assert_eq!(e.node_sum_cost(&g, &g.nodes[2], &fx), INFINITY);
    let mut index: IndexMap<usize, Cost> = IndexMap::new();
    index.insert(0, 3 * ONE);
    index.insert(1, 3 * ONE);
    assert_eq!(e.node_sum_cost(&g, &g.nodes[2], &index), 10 * ONE);
}

#[test]
fn follows_initial_nodes_only() {
    // f(g(x)), plus a non-initial cheaper `y` in g's class.
    let (x, g, y, f) = (0, 1, 2, 3);
    let egraph = graph(
        vec![
            unit(0, &[], true),
            unit(1, &[x], true),
            unit(1, &[], false),
            unit(2, &[g], true),
        ],
        &[2],
    );
    let roots = egraph.root_eclasses.clone();
    let result = InitialExtractor.extract(&egraph, &roots);
    assert!(CompleteExtraction::try_new(result.clone(), &egraph, &roots).is_ok());
    assert_eq!(result.get(1), Some(g));
    assert_ne!(result.get(1), Some(y));
    assert_eq!(result.get(2), Some(f));
}

#[test]
fn unioned_ancestor_and_descendant_stay_acyclic() {
    // Initial expression f(g(x)); rewriting proved f(g(x)) == x, so f and x
    // share class 0, and f's grandchild is its own class.
    let (x, g) = (0, 1);
    let egraph = graph(
        vec![unit(0, &[], true), unit(1, &[x], true), unit(0, &[g], true)],
        &[0],
    );
    let roots = egraph.root_eclasses.clone();
    let result = InitialExtractor.extract(&egraph, &roots);
    assert!(CompleteExtraction::try_new(result.clone(), &egraph, &roots).is_ok());
    assert_eq!(result.get(0), Some(x));
}

#[test]
fn no_initial_nodes_is_incomplete() {
    let egraph = graph(vec![unit(0, &[], false)], &[0]);
    let roots = egraph.root_eclasses.clone();
    assert!(!has_initial_nodes(&egraph));
    assert!(!InitialExtractor.extract(&egraph, &roots).is_complete(&egraph, &roots));
}

/// Minimum depth per class by plain relaxation: slow, but obviously correct.
fn reference_min_depths(egraph: &EGraph) -> FxHashMap<usize, Cost> {
    let mut depth: FxHashMap<usize, Cost> = FxHashMap::default();
    loop {
        let mut changed = false;
        for class in &egraph.classes {
            for nid in &class.nodes {
                let node = &egraph.nodes[*nid];
                let children: Option<Vec<Cost>> =
                    node.children.iter().map(|c| depth.get(&egraph.nid_to_cid(*c)).copied()).collect();
                let Some(children) = children else { continue };
                let d = node.delay + children.into_iter().max().unwrap_or_default();
                if depth.get(&class.id).map_or(true, |old| d < *old) {
                    depth.insert(class.id, d);
                    changed = true;
                }
            }
        }
        if !changed {
            return depth;
        }
    }
}

#[test]
fn matches_reference_on_random_egraphs() {
    let mut rng = Lcg(1);
    for _ in 0..200 {
        let egraph = random_egraph(&mut rng);
        let roots = egraph.root_eclasses.clone();
        let result = GreedyDepthExtractor.extract(&egraph, &roots);
        assert!(CompleteExtraction::try_new(result.clone(), &egraph, &roots).is_ok());

        let reference = reference_min_depths(&egraph);
        let expected = roots.iter().map(|r| reference[r]).max().unwrap();
        let got = result.dag_depth(&egraph, &roots);
        assert!((got - expected).abs() < EPSILON_ALLOWANCE, "{got} != {expected}");
    }
}

/// Minimum tree cost per class by plain relaxation.
fn reference_min_sizes(egraph: &EGraph) -> HashMap<usize, Cost> {
    let mut size: HashMap<usize, Cost> = HashMap::new();
    loop {
        let mut changed = false;
        for node in &egraph.nodes {
            let below: Option<Vec<Cost>> =
                node.children.iter().map(|c| size.get(&egraph.nid_to_cid(*c)).copied()).collect();
            let Some(below) = below else { continue };
            let s = node.cost + below.into_iter().sum::<Cost>();
            if size.get(&node.eclass).map_or(true, |old| s < *old) {
                size.insert(node.eclass, s);
                changed = true;
            }
        }
        if !changed {
            return size;
        }
    }
}

#[test]
fn greedy_sizes_are_the_least_tree_costs() {
    let mut rng = Lcg(2);
    for _ in 0..100 {
        let egraph = random_egraph(&mut rng);
        let roots = egraph.root_eclasses.clone();
        let result = GreedySizeExtractor.extract(&egraph, &roots);
        assert!(result.is_complete(&egraph, &roots));
        let reference = reference_min_sizes(&egraph);
        assert_eq!(result.tree_cost(&egraph, &roots), reference[&roots[0]]);
        assert!(result.dag_cost(&egraph, &roots) <= result.tree_cost(&egraph, &roots));
    }
}

/// Of candidates that cost the same, the one that was queued first is taken.
#[test]
fn ties_go_to_the_first_in_the_queue() {
    let g = graph(
        vec![
            // Ready once class 1 has a choice, and as cheap as the leaf after it.
            unit(0, &[2], false),
            node(0, &[], 2 * ONE, 2 * ONE, false),
            unit(1, &[], false),
            unit(1, &[], false),
        ],
        &[0],
    );
    let e = GreedyDepthExtractor.extract(&g, &[0]);
    assert_eq!(e.get(1), Some(2));
    assert_eq!(e.get(0), Some(1));
    let e = GreedySizeExtractor.extract(&g, &[0]);
    assert_eq!(e.get(0), Some(1));
    // In the order in which the classes got their choice.
    let order: Vec<usize> = e.choices.keys().copied().collect();
    assert_eq!(order, vec![1, 0]);
}

#[test]
fn arrival_times_follow_the_longest_path() {
    // 0 <- 1 <- 2, 0 <- 2
    let g = graph(
        vec![
            node(0, &[], 0, 2 * ONE, false),
            node(1, &[0], 0, 3 * ONE, false),
            node(2, &[1, 0], 0, ONE, false),
        ],
        &[2],
    );
    let e = choices(&[(0, 0), (1, 1), (2, 2)]);
    let times = arrival_times(&g, &[2], &e).unwrap();
    assert_eq!(times[&0], 2 * ONE);
    assert_eq!(times[&1], 5 * ONE);
    assert_eq!(times[&2], 6 * ONE);
    let levels = topological_levels(&g, &[2], &e);
    assert_eq!(levels[&2], 0);
    assert_eq!(levels[&1], 1);
    assert_eq!(levels[&0], 2);
    assert!(matches!(
        arrival_times(&g, &[2], &choices(&[(2, 2), (0, 0)])),
        Err(TimingError::NoChoice { class: 1 })
    ));
    let round = graph(vec![unit(0, &[1], false), unit(1, &[0], false)], &[0]);
    assert!(matches!(
        arrival_times(&round, &[0], &choices(&[(0, 0), (1, 1)])),
        Err(TimingError::Cycle { class: 0 })
    ));
    let levels = topological_levels(&round, &[0], &choices(&[(0, 0), (1, 1)]));
    assert_eq!(levels[&0], 2);
    assert_eq!(levels[&1], 1);
}

#[test]
fn seeds_are_repaired() {
    // Class 1 can be node 1 or node 2; class 0 is a leaf.
    let g = graph(
        vec![
            node(0, &[], ONE, 0, false),
            node(1, &[0], 5 * ONE, 0, false),
            node(1, &[], 2 * ONE, 0, false),
            node(2, &[1], ONE, 0, false),
        ],
        &[2],
    );
    let none = ExtractionResult::default();
    // Everything as preferred.
    let seed = build_seed(&g, &[2], Some(&choices(&[(2, 3), (1, 1), (0, 0)])), &none).unwrap();
    assert_eq!(seed.repaired, 0);
    assert_eq!(seed.selection.get(1), Some(1));
    assert_eq!(seed.selection.get(0), Some(0));
    // Class 1 is given a node of another class: the fallback serves, and class
    // 0 is not reached.
    let seed =
        build_seed(&g, &[2], Some(&choices(&[(2, 3), (1, 0)])), &choices(&[(1, 2)])).unwrap();
    assert_eq!(seed.repaired, 1);
    assert_eq!(seed.selection.get(1), Some(2));
    assert_eq!(seed.selection.get(0), None);
    // Nothing preferred is nothing repaired.
    let seed = build_seed(&g, &[2], None, &choices(&[(2, 3), (1, 2)])).unwrap();
    assert_eq!(seed.repaired, 0);
    assert_eq!(seed.selection.get(1), Some(2));
    // A class that neither fills is refused, and so is a root that is no class.
    assert_eq!(
        build_seed(&g, &[2], Some(&choices(&[(2, 3), (1, 1)])), &none).err(),
        Some(SeedError::Unfilled { class: 0 })
    );
    assert_eq!(
        build_seed(&g, &[2], Some(&choices(&[(2, 3), (1, 0)])), &choices(&[(1, 3)])).err(),
        Some(SeedError::Unfilled { class: 1 })
    );
    assert_eq!(build_seed(&g, &[9], None, &none).err(), Some(SeedError::Unfilled { class: 9 }));
    // A cycle is refused.
    let round = graph(
        vec![unit(0, &[1], false), unit(1, &[0], false), unit(1, &[], false)],
        &[0],
    );
    assert_eq!(
        build_seed(&round, &[0], Some(&choices(&[(0, 0), (1, 1)])), &none).err(),
        Some(SeedError::Cycle)
    );
}

#[test]
fn choices_for_unreachable_classes_are_ignored() {
    // Class 2 is not below class 1.
    let g = graph(
        vec![unit(0, &[], false), unit(1, &[0], false), unit(2, &[2], false)],
        &[1],
    );
    for stray in 0..3 {
        let full = choices(&[(2, stray), (1, 1), (0, 0)]);
        assert_eq!(full.validate(&g, &[1]), Ok(()));
        assert!(CompleteExtraction::try_new(full, &g, &[1]).is_ok());
        let partial = choices(&[(2, stray), (1, 1)]);
        assert_eq!(partial.validate(&g, &[1]), Err(ExtractionError::NoChoice { class: 0 }));
    }
    assert_eq!(
        choices(&[(2, 0), (1, 1), (0, 2)]).validate(&g, &[1, 2]),
        Err(ExtractionError::WrongClass { node: 0, class: 2, belongs_to: 0 })
    );
}

#[test]
fn times_and_levels_take_any_roots() {
    let g = two_class_egraph();
    let none = ExtractionResult::default();
    assert!(matches!(
        arrival_times(&g, &[7], &none),
        Err(TimingError::NoChoice { class: 7 })
    ));
    assert!(matches!(
        arrival_times(&g, &[1, 7, 0], &none),
        Err(TimingError::NoChoice { class: 1 })
    ));
    assert_eq!(topological_levels(&g, &[7], &none)[&7], 0);
}

#[test]
fn extractors_are_registered_by_name() {
    let all = extractors();
    let names: Vec<&str> = all.iter().map(|e| e.0).collect();
    assert_eq!(
        names,
        vec![
            "bottom-up",
            "faster-bottom-up",
            "prio-queue",
            "faster-greedy-dag",
            "ilp-cbc-timeout",
            "ilp-cbc",
            "faster-ilp-cbc-timeout",
            "faster-ilp-cbc",
            "dual-ilp-cbc-timeout",
            "delay-budget-ilp-cbc-timeout",
        ]
    );
    assert_eq!(all[2].1.optimal, Optimal::Tree);
    assert_eq!(all[3].1.optimal, Optimal::Neither);
    assert_eq!(all[5].1.optimal, Optimal::Dag);
    assert!(!all[5].1.use_for_bench);
    assert!(all[7].1.use_for_bench);
}

#[test]
fn walks_are_made_in_a_fixed_order() {
    // 0 -> (1, 2), 1 -> 0, 2 -> (1, 2)
    let g = graph(
        vec![
            node(0, &[1, 2], 0, 2 * ONE, false),
            node(1, &[0], 0, 3 * ONE, false),
            node(2, &[1, 2], 0, ONE, false),
        ],
        &[0],
    );
    let all = choices(&[(0, 0), (1, 1), (2, 2)]);
    assert_eq!(all.find_cycles(&g, &[0]), vec![0, 2]);
    assert_eq!(all.find_cycles(&g, &[1]), vec![1, 1, 2]);
    assert_eq!(all.validate(&g, &[1]), Err(ExtractionError::Cycle { class: 1 }));
    // Where a class is below itself it counts for nothing.
    assert_eq!(all.dag_depth(&g, &[0]), 6 * ONE);
    assert_eq!(all.dag_depth(&g, &[]), 0);
    // The last child is looked at first.
    assert_eq!(
        choices(&[(0, 0)]).validate(&g, &[0]),
        Err(ExtractionError::NoChoice { class: 2 })
    );
    // The first choice that is out of place is named.
    assert_eq!(
        choices(&[(1, 1), (2, 0), (0, 2)]).validate(&g, &[0]),
        Err(ExtractionError::WrongClass { node: 0, class: 2, belongs_to: 0 })
    );
}
