use ferrox::cp::problem::{ConstraintKind, CpSatRequest, CpTerm, CpVariable, IntervalVarDef, OptionalIntervalVarDef};
use ferrox::cp::suggestor::build_cp_model;
use ferrox::cpmodel::{CpModel, CpSolution, CpStatus, ModelOp};
use ferrox::jobshop::cpsat::{build_jsp_model, jsp_plan_from_solution};
use ferrox::jobshop::problem::{Job, JobShopRequest, Operation};
use ferrox::scheduling::cpsat::{build_sched_model, sched_plan_from_solution};
use ferrox::scheduling::problem::{SchedulingAgent, SchedulingRequest, SchedulingTask};
use ferrox::vrptw::cpsat::build_vr_model;
use ferrox::vrptw::problem::{Customer, Depot, VrptwRequest};

fn is_var(m: &CpModel, h: usize, k: usize) -> bool {
    h < k && matches!(m.steps[h].op, ModelOp::IntVar { .. } | ModelOp::BoolVar)
}

fn is_interval(m: &CpModel, h: usize, k: usize) -> bool {
    h < k && matches!(m.steps[h].op, ModelOp::FixedInterval { .. } | ModelOp::OptionalInterval { .. })
}

/// Every step refers only to earlier declarations of the right kind.
fn refs_ok(m: &CpModel) -> bool {
    m.steps.iter().enumerate().all(|(k, s)| match s.op {
        ModelOp::IntVar { .. } | ModelOp::BoolVar => true,
        ModelOp::FixedInterval { start, end, .. } => is_var(m, start, k) && is_var(m, end, k),
        ModelOp::OptionalInterval { start, end, presence, .. } => {
            is_var(m, start, k) && is_var(m, end, k) && is_var(m, presence, k)
        }
        ModelOp::NoOverlap => s.vars.iter().all(|&h| is_interval(m, h, k)),
        ModelOp::AllDifferent => s.vars.iter().all(|&h| is_var(m, h, k)),
        ModelOp::Circuit => {
            s.tails.len() == s.vars.len() && s.heads.len() == s.vars.len() && s.vars.iter().all(|&h| is_var(m, h, k))
        }
        _ => s.coeffs.len() == s.vars.len() && s.vars.iter().all(|&h| is_var(m, h, k)),
    })
}

#[test]
fn sched_model_refers_to_declarations() {
    let agent = |id: usize, caps: &[&str]| SchedulingAgent {
        id,
        name: format!("a{id}"),
        capabilities: caps.iter().map(|c| c.to_string()).collect(),
    };
    let task = |id: usize, cap: &str| SchedulingTask {
        id,
        name: format!("t{id}"),
        required_capability: cap.to_string(),
        duration_min: 5,
        release_min: 0,
        deadline_min: 40,
    };
    let req = SchedulingRequest {
        id: "s".to_string(),
        agents: vec![agent(0, &["a", "b"]), agent(1, &["a"]), agent(1, &["b"])],
        tasks: vec![task(7, "a"), task(8, "b"), task(7, "b"), task(9, "c")],
        horizon_min: 100,
    };
    let m = build_sched_model(&req);
    assert!(refs_ok(&m));
    assert!(m.steps.iter().any(|s| s.op == ModelOp::NoOverlap));
}

#[test]
fn jsp_model_refers_to_declarations() {
    let job = |id: usize, ops: &[(usize, i64)]| Job {
        id,
        name: format!("j{id}"),
        operations: ops.iter().map(|&(m, d)| Operation { machine_id: m, duration: d }).collect(),
    };
    let req = JobShopRequest {
        id: "j".to_string(),
        jobs: vec![job(1, &[(0, 3), (1, 2), (2, 2)]), job(2, &[(2, 1), (0, 4)]), job(3, &[(1, 5)])],
        num_machines: 3,
    };
    let m = build_jsp_model(&req);
    assert!(refs_ok(&m));
}

#[test]
fn vr_model_refers_to_declarations() {
    let cust = |id: usize| Customer { id, name: format!("c{id}"), window_open: 0, window_close: 90, service_time: 2 };
    let req = VrptwRequest { id: "v".to_string(), depot: Depot { ready_time: 0, due_time: 100 }, customers: vec![cust(1), cust(2)] };
    let scaled = vec![vec![0, 500, 700], vec![500, 0, 300], vec![700, 300, 0]];
    let m = build_vr_model(&req, &scaled);
    assert!(refs_ok(&m));
    assert!(m.steps.iter().any(|s| s.op == ModelOp::Circuit));
}

#[test]
fn cp_model_refers_to_declarations() {
    let var = |name: &str, is_bool: bool| CpVariable { name: name.to_string(), lb: 0, ub: 9, is_bool };
    let term = |v: &str| CpTerm { var: v.to_string(), coeff: 2 };
    let req = CpSatRequest {
        id: "c".to_string(),
        variables: vec![var("a", false), var("b", true), var("a", false)],
        interval_vars: vec![IntervalVarDef {
            name: "i".to_string(),
            start_var: "a".to_string(),
            duration: 3,
            end_var: "missing".to_string(),
        }],
        optional_interval_vars: vec![OptionalIntervalVarDef {
            name: "o".to_string(),
            start_var: "a".to_string(),
            duration: 3,
            end_var: "a".to_string(),
            lit_var: "b".to_string(),
        }],
        constraints: vec![
            ConstraintKind::LinearGe { terms: vec![term("a"), term("zz"), term("b")], rhs: 1 },
            ConstraintKind::NoOverlap { intervals: vec!["o".to_string(), "i".to_string()] },
            ConstraintKind::AllDifferent { vars: vec!["b".to_string(), "a".to_string()] },
        ],
        objective_terms: Some(vec![term("b")]),
        minimize: true,
    };
    let m = build_cp_model(&req);
    assert!(refs_ok(&m));
}

fn iv(m: &CpModel, v: &[i64], h: usize) -> (i64, i64, bool) {
    match m.steps[h].op {
        ModelOp::FixedInterval { start, end, .. } => (v[start], v[end], true),
        ModelOp::OptionalInterval { start, end, presence, .. } => (v[start], v[end], v[presence] == 1),
        _ => (0, 0, false),
    }
}

/// The values (one per step) satisfy every step but the circuit and objective.
fn satisfied(m: &CpModel, v: &[i64]) -> bool {
    v.len() >= m.steps.len()
        && m.steps.iter().enumerate().all(|(k, s)| {
            let sum: i64 = s.vars.iter().zip(&s.coeffs).map(|(&h, &c)| c * v[h]).sum();
            match s.op {
                ModelOp::IntVar { lb, ub } => lb <= v[k] && v[k] <= ub,
                ModelOp::BoolVar => v[k] == 0 || v[k] == 1,
                ModelOp::FixedInterval { start, duration, end } => v[end] == v[start] + duration,
                ModelOp::OptionalInterval { start, duration, end, presence } => {
                    v[presence] != 1 || v[end] == v[start] + duration
                }
                ModelOp::LinearLe { rhs } => sum <= rhs,
                ModelOp::LinearGe { rhs } => sum >= rhs,
                ModelOp::LinearEq { rhs } => sum == rhs,
                ModelOp::NoOverlap => s.vars.iter().all(|&a| {
                    s.vars.iter().all(|&b| {
                        let (sa, ea, pa) = iv(m, v, a);
                        let (sb, eb, pb) = iv(m, v, b);
                        a == b || !pa || !pb || ea <= sb || eb <= sa
                    })
                }),
                _ => true,
            }
        })
}

#[test]
fn jsp_solution_meaning() {
    let job = |id: usize, ops: &[(usize, i64)]| Job {
        id,
        name: format!("j{id}"),
        operations: ops.iter().map(|&(m, d)| Operation { machine_id: m, duration: d }).collect(),
    };
    let req = JobShopRequest {
        id: "j".to_string(),
        jobs: vec![job(100, &[(0, 3), (1, 2)]), job(200, &[(0, 2), (1, 4)])],
        num_machines: 2,
    };
    let m = build_jsp_model(&req);
    let mut values = vec![2, 5, 0, 6, 8, 0, 0, 2, 0, 2, 6, 0, 8];
    values.resize(m.steps.len(), 0);
    assert!(satisfied(&m, &values));
    let plan = jsp_plan_from_solution(&req, &CpSolution { status: CpStatus::Optimal, values: values.clone(), objective_value: 8 });
    for a in &plan.schedule {
        assert!(a.start >= 0 && a.end <= req.horizon() && a.end <= plan.makespan);
        for b in &plan.schedule {
            if a.job_id == b.job_id && b.op_index == a.op_index + 1 {
                assert!(a.end <= b.start);
            }
            if a.machine_id == b.machine_id && (a.job_id, a.op_index) != (b.job_id, b.op_index) {
                assert!(a.end <= b.start || b.end <= a.start);
            }
        }
    }
    // overlapping starts break the model
    values[0] = 1;
    values[1] = 4;
    assert!(!satisfied(&m, &values));
}

#[test]
fn sched_solution_meaning() {
    let task = |id: usize| SchedulingTask {
        id,
        name: format!("t{id}"),
        required_capability: "a".to_string(),
        duration_min: 5,
        release_min: 0,
        deadline_min: 20,
    };
    let req = SchedulingRequest {
        id: "s".to_string(),
        agents: vec![SchedulingAgent { id: 0, name: "a0".to_string(), capabilities: vec!["a".to_string()] }],
        tasks: vec![task(1), task(2)],
        horizon_min: 20,
    };
    let m = build_sched_model(&req);
    let mut values = vec![0, 5, 5, 10, 1, 0, 1, 0];
    values.resize(m.steps.len(), 0);
    assert!(satisfied(&m, &values));
    let plan = sched_plan_from_solution(&req, &CpSolution { status: CpStatus::Optimal, values: values.clone(), objective_value: 2 });
    assert_eq!(plan.tasks_scheduled, 2);
    let a = &plan.assignments;
    assert!(a[0].end_min <= a[1].start_min);
    assert!(a.iter().all(|x| x.start_min >= 0 && x.end_min <= 20 && x.end_min == x.start_min + 5));
    // both at once on the one agent breaks the model
    values[2] = 0;
    values[3] = 5;
    assert!(!satisfied(&m, &values));
}
