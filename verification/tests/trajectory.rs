use extraction_gym::cost::ONE;
use extraction_gym::milp::trajectory::{
    parse_log, parse_log_for_backend, time_to_first_incumbent, LogDialect,
};

#[test]
fn gurobi_rows() {
    let log = "\
Gurobi Optimizer version 10.0.3 build v10.0.3rc0
    Nodes    |    Current Node    |     Objective Bounds      |     Work
 Expl Unexpl |  Obj  Depth IntInf | Incumbent    BestBd   Gap | It/Node Time

     0     0    1.00000    0   10          -    1.00000      -     -    0s
H    0     0                       2.0000000    1.00000  50.0%     -    1s
*  100    50              10       1.5000000    1.40000  6.67%   5.0    7s
";
    let t = parse_log(log, LogDialect::Gurobi);
    assert_eq!(t.len(), 2, "{t:?}");
    assert_eq!(t[0].objective, 2 * ONE);
    assert_eq!(t[0].secs, ONE);
    assert_eq!(t[0].bound, Some(ONE));
    assert_eq!(t[1].objective, 1_500_000);
    assert_eq!(t[1].secs, 7 * ONE);
}

#[test]
fn highs_rows() {
    let log = "\
        Nodes      |    B&B Tree     |            Objective Bounds              |  Dynamic Constraints |       Work
     Proc. InQueue |  Leaves   Expl. | BestBound       BestSol              Gap |   Cuts   InLp Confl. | LpIters     Time

         0       0         0   0.00%   -inf            inf                  inf        0      0      0         0     0.0s
 R       0       0         0   0.00%   1.0             3.0                66.66%       0      0      0        12     0.4s
         9       2         1   4.00%   1.2             2.0                40.00%       3      5      0       120     9.5s
";
    let t = parse_log(log, LogDialect::Highs);
    assert_eq!(t.len(), 2, "{t:?}");
    assert_eq!(t[0].objective, 3 * ONE);
    assert_eq!(t[0].bound, Some(ONE));
    assert_eq!(t[0].secs, 400_000);
    assert_eq!(t[1].objective, 2 * ONE);
    assert_eq!(t[1].secs, 9_500_000);
    assert_eq!(time_to_first_incumbent(&t), Some(400_000));
}

/// A MIP-start completion sub-MIP with its own progress table and its own
/// objective, followed by the real solve. Its rows are not of this model.
#[test]
fn highs_warm_start_submip_is_skipped() {
    let log = "\
MIP has 3545 rows; 4306 cols
Attempting to find feasible solution by solving MIP for user-supplied values of 1935 / 4306 discrete variables
Presolving model
Src  Proc. InQueue |  Leaves   Expl. | BestBound       BestSol              Gap |   Cuts   InLp Confl. | LpIters     Time
 J       0       0         0   0.00%   -inf            0.082462           Large        0      0      0         0     0.1s
 T       0       0         0   0.00%   1.8e-05         4.5e-05           60.00%        0      0      0        50     0.1s

Solving report
  Status            Optimal
  Primal bound      1.040918
MIP start solution is feasible, objective value is 1.040918

Src  Proc. InQueue |  Leaves   Expl. | BestBound       BestSol              Gap |   Cuts   InLp Confl. | LpIters     Time
 X       0       0         0   0.00%   0.5             1.040918           50.00%       0      0      0         0     0.2s
         9       2         1   4.00%   1.040918        1.040918            0.00%       3      5      0       120     1.7s

Solving report
";
    let t = parse_log(log, LogDialect::Highs);
    assert_eq!(t.len(), 1, "sub-MIP rows leaked into the trajectory: {t:?}");
    assert_eq!(t[0].objective, 1_040_918);
    assert_eq!(t[0].secs, 200_000);
}

/// Where a segment's own primal bound disagrees with the last row of its
/// table, the whole segment is shifted to agree with it.
#[test]
fn highs_segment_is_normalised_to_its_primal_bound() {
    let log = "\
Src  Proc. InQueue |  Leaves   Expl. | BestBound       BestSol              Gap |   Cuts   InLp Confl. | LpIters     Time
 J       0       0         0   0.00%   -inf            0.082462           Large        0      0      0         0     0.1s
 T       0       0         0   0.00%   1.8e-05         4.5e-05           60.00%        0      0      0        50     0.3s

Solving report
  Status            Optimal
  Primal bound      1.040918
  Dual bound        1.040918
";
    let t = parse_log(log, LogDialect::Highs);
    assert_eq!(t.len(), 2, "{t:?}");
    assert_eq!(t[1].objective, 1_040_918, "{t:?}");
    assert!((t[0].objective - 1_123_335).abs() < 1, "{t:?}");
}

#[test]
fn garbage_is_ignored() {
    assert!(parse_log("nothing here\nat all\n", LogDialect::Gurobi).is_empty());
    assert!(parse_log("", LogDialect::Highs).is_empty());
}

#[test]
fn logs_are_read_in_the_dialect_of_their_backend() {
    let log = "\
 Expl Unexpl |  Obj  Depth IntInf | Incumbent    BestBd   Gap | It/Node Time
H    0     0                       2.0000000    1.00000  50.0%     -    1s
";
    assert_eq!(parse_log_for_backend(log, "Gurobi").len(), 1);
    assert!(parse_log_for_backend(log, "HiGHS").is_empty());
    assert!(parse_log_for_backend(log, "CBC").is_empty());
    assert_eq!(time_to_first_incumbent(&[]), None);
}
