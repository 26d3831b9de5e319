use ferrox::cp::problem::{ConstraintKind, CpSatRequest, CpTerm, CpVariable, IntervalVarDef, OptionalIntervalVarDef};
use ferrox::cp::suggestor::{build_cp_model, cp_plan_from_solution, request_id, terms_to_vecs, CpSatSuggestor};
use ferrox::cpmodel::{CpSolution, CpStatus, ModelOp};
use ferrox::cp::suggestor::can_build_cp_model;

fn var(name: &str, lb: i64, ub: i64, is_bool: bool) -> CpVariable {
    CpVariable { name: name.to_string(), lb, ub, is_bool }
}

fn term(v: &str, c: i64) -> CpTerm {
    CpTerm { var: v.to_string(), coeff: c }
}

fn sample() -> CpSatRequest {
    CpSatRequest {
        id: "c1".to_string(),
        variables: vec![var("x", 0, 10, false), var("y", 0, 1, true), var("s", 0, 9, false)],
        interval_vars: vec![
            IntervalVarDef { name: "i1".to_string(), start_var: "s".to_string(), duration: 2, end_var: "x".to_string() },
            IntervalVarDef { name: "i2".to_string(), start_var: "nope".to_string(), duration: 2, end_var: "x".to_string() },
        ],
        optional_interval_vars: vec![OptionalIntervalVarDef {
            name: "o1".to_string(),
            start_var: "x".to_string(),
            duration: 1,
            end_var: "s".to_string(),
            lit_var: "y".to_string(),
        }],
        constraints: vec![
            ConstraintKind::LinearLe { terms: vec![term("x", 1), term("z", 2), term("y", 3)], rhs: 5 },
            ConstraintKind::AllDifferent { vars: vec!["x".to_string(), "q".to_string(), "s".to_string()] },
            ConstraintKind::NoOverlap { intervals: vec!["o1".to_string(), "i2".to_string(), "i1".to_string()] },
            ConstraintKind::LinearEq { terms: vec![], rhs: 0 },
        ],
        objective_terms: Some(vec![term("x", 1)]),
        minimize: false,
    }
}

#[test]
fn terms_skip_unknown_names() {
    let names = vec!["x".to_string(), "y".to_string(), "x".to_string()];
    let (v, c) = terms_to_vecs(&vec![term("x", 4), term("w", 1), term("y", -2)], &names);
    assert_eq!(v, vec![2, 1]);
    assert_eq!(c, vec![4, -2]);
}

#[test]
fn generic_model() {
    let m = build_cp_model(&sample());
    assert_eq!(m.steps.len(), 10);
    assert_eq!(m.steps[0].op, ModelOp::IntVar { lb: 0, ub: 10 });
    assert_eq!(m.steps[1].op, ModelOp::IntVar { lb: 0, ub: 1 });
    assert_eq!(m.steps[3].op, ModelOp::FixedInterval { start: 2, duration: 2, end: 0 });
    assert_eq!(m.steps[4].op, ModelOp::OptionalInterval { start: 0, duration: 1, end: 2, presence: 1 });
    assert_eq!(m.steps[4].name, "o1");
    assert_eq!(m.steps[5].op, ModelOp::LinearLe { rhs: 5 });
    assert_eq!(m.steps[5].vars, vec![0, 1]);
    assert_eq!(m.steps[5].coeffs, vec![1, 3]);
    assert_eq!(m.steps[6].op, ModelOp::AllDifferent);
    assert_eq!(m.steps[6].vars, vec![0, 2]);
    assert_eq!(m.steps[7].op, ModelOp::NoOverlap);
    assert_eq!(m.steps[7].vars, vec![4, 3]);
    assert_eq!(m.steps[8].op, ModelOp::LinearEq { rhs: 0 });
    assert_eq!(m.steps[9].op, ModelOp::Maximize);
    assert_eq!(m.steps[9].vars, vec![0]);
}

#[test]
fn generic_plan() {
    let sol = CpSolution { status: CpStatus::Feasible, values: vec![4, 1, 2, 0, 0], objective_value: 4 };
    let plan = cp_plan_from_solution(&sample(), &sol);
    assert_eq!(plan.status, "feasible");
    assert_eq!(plan.objective_value, Some(4));
    let got: Vec<(String, i64)> = plan.assignments.clone();
    assert_eq!(got, vec![("x".to_string(), 4), ("y".to_string(), 1), ("s".to_string(), 2)]);
    assert_eq!(plan.request_id, "c1");
    let mut no_obj = sample();
    no_obj.objective_terms = None;
    assert_eq!(cp_plan_from_solution(&no_obj, &sol).objective_value, None);
    let bad = CpSolution { status: CpStatus::Infeasible, values: vec![], objective_value: 0 };
    let p = cp_plan_from_solution(&sample(), &bad);
    assert_eq!(p.status, "infeasible");
    assert_eq!(p.assignments.len(), 0);
    assert_eq!(p.objective_value, None);
}

#[test]
fn duplicate_names_take_last() {
    let req = CpSatRequest {
        id: "d".to_string(),
        variables: vec![var("x", 0, 1, false), var("x", 5, 6, false)],
        interval_vars: vec![],
        optional_interval_vars: vec![],
        constraints: vec![],
        objective_terms: None,
        minimize: true,
    };
    let sol = CpSolution { status: CpStatus::Optimal, values: vec![0, 6], objective_value: 0 };
    let plan = cp_plan_from_solution(&req, &sol);
    assert_eq!(plan.assignments, vec![("x".to_string(), 6), ("x".to_string(), 6)]);
    assert_eq!(build_cp_model(&req).steps.len(), 2);
}

#[test]
fn routing() {
    assert_eq!(request_id("cpsat-request:abc"), "abc");
    let s = CpSatSuggestor;
    let seeds = vec!["cpsat-request:a".to_string()];
    assert!(s.accepts(&seeds, &vec![]));
    assert!(!s.accepts(&seeds, &vec!["cpsat-plan:a".to_string()]));
}

#[test]
fn model_size_check() {
    assert!(can_build_cp_model(&sample()));
}

#[test]
fn boolean_variables_keep_their_bounds() {
    let mut req = sample();
    req.variables[1] = var("y", 1, 1, true);
    req.variables.push(var("w", -4, 9, true));
    let m = build_cp_model(&req);
    assert_eq!(m.steps[1].op, ModelOp::IntVar { lb: 1, ub: 1 });
    assert_eq!(m.steps[3].op, ModelOp::IntVar { lb: 0, ub: 1 });
}
