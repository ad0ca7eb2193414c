use extraction_gym::cost::{wide_product, Cost, INFINITY, NEG_INFINITY, ONE};
use extraction_gym::milp::cbc::{self, CbcReport};
use extraction_gym::milp::gurobi::{
    self, categorize, param_kind, param_value, CategoryChange, GurobiReport, GurobiStatus,
    ParamError, ParamKind, ParamValue, Retune, RowCat, RowKind, RowSense,
};
use extraction_gym::milp::highs::{
    self, option_value, parse_truth, start_pairs, HighsReport, HighsStatus, OptionError,
    OptionKind, OptionValue, PrimalStatus,
};
use extraction_gym::milp::stage::{snap_integral, ColDef, Staged};
use extraction_gym::milp::{MilpSense, MilpSolution, MilpStatus};

/// Two binaries and a column between 0 and 5, with `x + y <= 1` and
/// `1 <= x + 2 z <= 8`.
fn staged() -> Staged {
    let mut s = Staged::new();
    let x = s.add_binary();
    let y = s.add_binary();
    let z = s.add_col();
    s.set_col_lower(z, 0);
    s.set_col_upper(z, 5 * ONE);
    s.set_obj_coeff(x, wide_product(2 * ONE, ONE));
    s.set_obj_coeff(z, wide_product(-ONE, ONE));
    let r = s.add_row();
    s.set_row_upper(r, ONE);
    s.set_weight(r, x, ONE);
    s.set_weight(r, y, ONE);
    let q = s.add_row();
    s.set_row_lower(q, ONE);
    s.set_row_upper(q, 8 * ONE);
    s.set_weight(q, x, ONE);
    s.set_weight(q, z, 2 * ONE);
    s
}

#[test]
fn models_are_staged() {
    let s = staged();
    assert_eq!(s.num_cols(), 3);
    assert_eq!(s.num_rows(), 2);
    let two = wide_product(2 * ONE, ONE);
    let minus_one = wide_product(-ONE, ONE);
    assert_eq!(s.col(0), ColDef { lower: 0, upper: ONE, cost: two, integral: true });
    assert_eq!(s.col(2), ColDef { lower: 0, upper: 5 * ONE, cost: minus_one, integral: false });
    assert_eq!((s.row(0).lower, s.row(0).upper), (NEG_INFINITY, ONE));
    assert_eq!(s.row_coeffs(1), vec![(0, ONE), (2, 2 * ONE)]);
    assert_eq!(s.sense(), MilpSense::Minimize);
    assert_eq!(s.num_new_cols(), 3);
    assert_eq!(s.num_new_rows(), 2);
}

#[test]
fn only_the_delta_is_left_after_a_flush() {
    let mut s = staged();
    s.mark_flushed();
    assert_eq!(s.num_new_cols(), 0);
    assert_eq!(s.num_new_rows(), 0);
    assert!(s.dirty_cols().is_empty());
    assert!(s.dirty_rows().is_empty());
    assert!(s.dirty_coeffs().is_empty());
    let w = s.add_binary();
    s.set_weight(0, w, 3 * ONE);
    s.set_col_upper(2, 4 * ONE);
    s.set_row_equal(0, ONE);
    s.set_obj_sense(MilpSense::Maximize);
    assert_eq!(s.num_new_cols(), 1);
    assert_eq!(s.new_cols(), vec![(3, ColDef { lower: 0, upper: ONE, cost: 0, integral: true })]);
    assert!(s.new_rows().is_empty());
    assert_eq!(s.dirty_cols(), vec![2]);
    assert_eq!(s.dirty_rows(), vec![0]);
    assert_eq!(s.dirty_coeffs(), vec![(0, 3, 3 * ONE)]);
    assert!(s.sense_dirty());
    s.mark_flushed();
    assert!(!s.sense_dirty());
    assert!(s.dirty_coeffs().is_empty());
}

#[test]
fn coefficients_are_removed_by_zero() {
    let mut s = staged();
    s.mark_flushed();
    s.set_weight(1, 0, 0);
    assert_eq!(s.dirty_coeffs(), vec![(1, 0, 0)]);
    assert_eq!(s.row_coeffs(1), vec![(2, 2 * ONE)]);
    s.set_weight(1, 0, ONE);
    assert_eq!(s.dirty_coeffs(), vec![(1, 0, ONE)]);
}

#[test]
fn starts_are_staged_and_dropped_by_a_flush() {
    let mut s = staged();
    s.set_warm(1, ONE);
    s.set_warm(0, 0);
    s.set_warm(1, 0);
    assert_eq!(s.warm(), vec![(1, 0), (0, 0)]);
    s.set_warm_all(&vec![ONE, 0, 2 * ONE]);
    assert_eq!(start_pairs(&s), vec![(0, ONE), (1, 0), (2, 2 * ONE)]);
    s.mark_flushed();
    assert!(s.warm().is_empty());
}

#[test]
fn integral_columns_are_snapped() {
    let s = staged();
    let mut values: Vec<Cost> = vec![999_999, 499_999, 1_234_567, 7];
    snap_integral(&s, &mut values);
    assert_eq!(values, vec![ONE, 0, 1_234_567, 7]);
    let mut values: Vec<Cost> = vec![500_000, -3];
    snap_integral(&s, &mut values);
    assert_eq!(values, vec![ONE, 0]);
}

#[test]
fn highs_is_handed_compressed_rows() {
    let mut s = staged();
    let d = highs::flush_plan(&s);
    assert_eq!(d.sense, None);
    assert_eq!(d.costs, vec![wide_product(2 * ONE, ONE), 0, wide_product(-ONE, ONE)]);
    assert_eq!(d.lower, vec![0, 0, 0]);
    assert_eq!(d.upper, vec![ONE, ONE, 5 * ONE]);
    assert_eq!(d.integral, vec![0, 1]);
    assert_eq!(d.row_lower, vec![NEG_INFINITY, ONE]);
    assert_eq!(d.row_upper, vec![ONE, 8 * ONE]);
    assert_eq!(d.starts, vec![0, 2]);
    assert_eq!(d.index, vec![0, 1, 0, 2]);
    assert_eq!(d.value, vec![ONE, ONE, ONE, 2 * ONE]);
    assert!(d.cols.is_empty());
    s.mark_flushed();
    s.set_obj_coeff(1, wide_product(7 * ONE, ONE));
    s.set_row_upper(1, 9 * ONE);
    s.set_weight(0, 2, -ONE);
    let d = highs::flush_plan(&s);
    assert!(d.costs.is_empty() && d.starts.is_empty() && d.index.is_empty());
    assert_eq!(
        d.cols,
        vec![(
            1,
            ColDef { lower: 0, upper: ONE, cost: wide_product(7 * ONE, ONE), integral: true }
        )]
    );
    assert_eq!(d.rows, vec![(1, ONE, 9 * ONE)]);
    assert_eq!(d.coeffs, vec![(0, 2, -ONE)]);
}

#[test]
fn only_new_columns_are_made_integral() {
    let mut s = staged();
    s.mark_flushed();
    let b = s.add_binary();
    let c = s.add_col();
    let row = s.add_row();
    s.set_weight(row, c, ONE);
    s.set_weight(row, 0, 2 * ONE);
    s.set_weight(row, b, 3 * ONE);
    s.set_weight(row, c, 4 * ONE);
    let d = highs::flush_plan(&s);
    assert_eq!(d.integral, vec![b]);
    assert_eq!(d.starts, vec![0]);
    assert_eq!(d.index, vec![c, 0, b]);
    assert_eq!(d.value, vec![4 * ONE, 2 * ONE, 3 * ONE]);
    let mut kinds = vec![RowKind::Simple, RowKind::Ranged];
    let d = gurobi::flush_plan(&s, &mut kinds).ok().unwrap();
    assert_eq!(d.new_rows[0].coeffs, vec![(c, 4 * ONE), (0, 2 * ONE), (b, 3 * ONE)]);
}

#[test]
fn gurobi_rows_keep_their_kind() {
    let mut s = staged();
    let mut kinds = Vec::new();
    let d = gurobi::flush_plan(&s, &mut kinds).ok().unwrap();
    assert_eq!(kinds, vec![RowKind::Simple, RowKind::Ranged]);
    assert_eq!(d.new_cols.len(), 3);
    assert_eq!(d.new_rows[0].cat, RowCat::Le(ONE));
    assert_eq!(d.new_rows[1].cat, RowCat::Range(ONE, 8 * ONE));
    assert_eq!(d.new_rows[1].coeffs, vec![(0, ONE), (2, 2 * ONE)]);
    s.mark_flushed();
    s.set_row_equal(0, 0);
    s.set_row_upper(1, 9 * ONE);
    let d = gurobi::flush_plan(&s, &mut kinds).ok().unwrap();
    assert_eq!(
        d.retunes,
        vec![
            Retune::Simple { row: 0, cat: RowCat::Eq(0) },
            Retune::Ranged { row: 1, lower: ONE, upper: 9 * ONE },
        ]
    );
    s.mark_flushed();
    s.set_row_upper(1, INFINITY);
    assert_eq!(
        gurobi::flush_plan(&s, &mut kinds).err().unwrap(),
        CategoryChange { row: 1, kind: RowKind::Ranged, cat: RowCat::Ge(ONE) }
    );
    assert_eq!(kinds.len(), 2);
}

#[test]
fn bounds_have_patterns() {
    assert_eq!(categorize(1, 1), RowCat::Eq(1));
    assert_eq!(categorize(1, 2), RowCat::Range(1, 2));
    assert_eq!(categorize(NEG_INFINITY, 2), RowCat::Le(2));
    assert_eq!(categorize(1, INFINITY), RowCat::Ge(1));
    assert_eq!(categorize(NEG_INFINITY, INFINITY), RowCat::Free);
    assert_eq!(RowCat::Ge(3).as_relation(), (RowSense::Greater, Some(3)));
    assert_eq!(RowCat::Eq(3).as_relation(), (RowSense::Equal, Some(3)));
    assert_eq!(RowCat::Free.as_relation(), (RowSense::Less, None));
    assert_eq!(RowCat::Range(1, 2).kind(), RowKind::Ranged);
    assert_eq!(RowCat::Free.kind(), RowKind::Simple);
}

#[test]
fn highs_reports_become_solutions() {
    let s = staged();
    let report = |status, primal| HighsReport {
        status,
        primal,
        values: vec![999_999, 1, 1_500_000],
        objective: 7,
        bound: Some(6),
        detail: "d".to_string(),
    };
    let r = highs::solution_of(&s, report(HighsStatus::Optimal, PrimalStatus::Feasible));
    assert_eq!(r.values, vec![ONE, 0, 1_500_000]);
    assert_eq!(r.obj_value(), 7);
    assert_eq!(r.status(), MilpStatus::Optimal);
    assert_eq!(r.col(2), 1_500_000);
    assert_eq!(r.col(9), 0);
    let r = highs::solution_of(&s, report(HighsStatus::TimeLimit, PrimalStatus::Absent));
    assert_eq!(r.values, vec![0, 0, 0]);
    assert_eq!(r.obj_value(), INFINITY);
    assert_eq!(r.status(), MilpStatus::TimeoutNoSolution);
    assert!(HighsStatus::Infeasible.is_infeasible());
    assert!(HighsStatus::Unbounded.ran_to_completion());
    assert!(!HighsStatus::Unknown.ran_to_completion());
    assert_eq!(HighsStatus::TimeLimit.model_status_name(), "TimeLimit");
    assert_eq!(highs::thread_count(0), 1);
}

#[test]
fn gurobi_reports_become_solutions() {
    let s = staged();
    let report = |status, solutions| GurobiReport {
        status,
        solutions,
        values: Some(vec![999_999, 1]),
        objective: Some(7),
        bound: None,
        detail: "d".to_string(),
    };
    let r = gurobi::solution_of(&s, report(GurobiStatus::Other, 1));
    assert_eq!(r.values, vec![ONE, 0, 0]);
    assert_eq!(r.status(), MilpStatus::TimeoutWithSolution);
    let r = gurobi::solution_of(&s, report(GurobiStatus::InfOrUnbd, 0));
    assert_eq!(r.values, vec![0, 0, 0]);
    assert_eq!(r.obj_value(), INFINITY);
    assert_eq!(r.status(), MilpStatus::Infeasible);
    assert!(GurobiStatus::CutOff.ran_to_completion());
    assert_eq!(gurobi::thread_count(0), 1);
    assert_eq!(gurobi::thread_count(u32::MAX), i32::MAX);
    assert_eq!(gurobi::thread_count(4), 4);
}

#[test]
fn gaps_are_relative() {
    let s = |objective, bound, feasible| MilpSolution {
        values: vec![],
        objective,
        infeasible: false,
        completed: false,
        feasible,
        bound,
        detail: String::new(),
    };
    assert_eq!(s(4 * ONE, Some(3 * ONE), true).gap(), Some(250_000));
    assert_eq!(s(-4 * ONE, Some(-5 * ONE), true).gap(), Some(250_000));
    assert_eq!(s(0, Some(0), true).gap(), Some(0));
    assert_eq!(s(0, Some(-1), true).gap(), Some(10_000_000_000));
    assert_eq!(s(ONE, None, true).gap(), None);
    assert_eq!(s(ONE, Some(NEG_INFINITY), true).gap(), None);
    assert_eq!(s(INFINITY, Some(ONE), false).gap(), None);
}

#[test]
fn solver_options_are_read_by_type() {
    assert_eq!(parse_truth(" TRUE "), Some(true));
    assert_eq!(parse_truth("off"), Some(false));
    assert_eq!(parse_truth("maybe"), None);
    assert_eq!(option_value(OptionKind::Bool, "yes"), Ok(OptionValue::Bool(true)));
    assert_eq!(option_value(OptionKind::Bool, "2"), Err(OptionError::NotABool));
    assert_eq!(option_value(OptionKind::Int, " 12 "), Ok(OptionValue::Int(12)));
    assert_eq!(option_value(OptionKind::Int, "1.5"), Err(OptionError::NotAnInt));
    assert_eq!(option_value(OptionKind::Double, " 1.5 "), Ok(OptionValue::Double));
    assert_eq!(option_value(OptionKind::Double, "1e400"), Ok(OptionValue::Double));
    assert_eq!(option_value(OptionKind::Double, "many"), Err(OptionError::NotADouble));
    assert_eq!(option_value(OptionKind::Text, "ipm"), Ok(OptionValue::Text));
    assert_eq!(option_value(OptionKind::Text, "i\0pm"), Err(OptionError::Nul));
    assert_eq!(option_value(OptionKind::Unhandled, "x"), Err(OptionError::Unhandled));
}

#[test]
fn solver_parameters_are_read_by_type() {
    assert_eq!(param_kind(true, true, true), ParamKind::Int);
    assert_eq!(param_kind(false, true, true), ParamKind::Double);
    assert_eq!(param_kind(false, false, true), ParamKind::Text);
    assert_eq!(param_kind(false, false, false), ParamKind::Unknown);
    assert_eq!(param_value(ParamKind::Int, "-3"), Ok(ParamValue::Int(-3)));
    assert_eq!(param_value(ParamKind::Int, " 3"), Err(ParamError::NotAnInt));
    assert_eq!(param_value(ParamKind::Double, "1e-4"), Ok(ParamValue::Double));
    assert_eq!(param_value(ParamKind::Double, "low"), Err(ParamError::NotADouble));
    assert_eq!(param_value(ParamKind::Text, "x"), Ok(ParamValue::Text));
    assert_eq!(param_value(ParamKind::Unknown, "x"), Err(ParamError::Unknown));
}

#[test]
fn cbc_reports_become_solutions() {
    let s = staged();
    let report = |objective| CbcReport {
        finished: true,
        infeasible: false,
        values: vec![ONE, 3],
        objective,
        bound: Some(5),
        detail: "d".to_string(),
    };
    let r = cbc::solution_of(&s, report(Some(6)));
    assert_eq!(r.values, vec![ONE, 3, 0]);
    assert_eq!((r.obj_value(), r.best_bound()), (6, Some(5)));
    assert!(r.has_solution());
    let r = cbc::solution_of(&s, report(None));
    assert_eq!(r.obj_value(), INFINITY);
    assert!(!r.has_solution());
    assert!(r.ran_to_completion());
}

#[test]
fn only_the_latest_coefficient_of_a_pushed_row_is_pending() {
    let mut s = Staged::new();
    let c = s.add_col();
    let r = s.add_row();
    s.set_weight(r, c, 2 * ONE);
    assert!(s.dirty_coeffs().is_empty());
    s.mark_flushed();
    s.set_weight(r, c, 5 * ONE);
    s.set_weight(r, c, 0);
    assert_eq!(s.dirty_coeffs(), vec![(0, 0, 0)]);
    assert!(s.row_coeffs(r).is_empty());
}
