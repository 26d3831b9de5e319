use ferrox::cpmodel::{CpSolution, CpStatus, ModelOp};
use ferrox::jobshop::cpsat::{build_jsp_model, jsp_plan_from_solution, status_name};
use ferrox::jobshop::greedy::{makespan_of, solve_greedy, GreedyJobShopSuggestor};
use ferrox::jobshop::problem::{Job, JobShopRequest, Operation};
use ferrox::jobshop::cpsat::{can_build_jsp_model, can_read_jsp_solution};
use ferrox::jobshop::greedy::can_solve_greedy;

fn job(id: usize, name: &str, ops: &[(usize, i64)]) -> Job {
    Job {
        id,
        name: name.to_string(),
        operations: ops.iter().map(|&(m, d)| Operation { machine_id: m, duration: d }).collect(),
    }
}

fn sample() -> JobShopRequest {
    JobShopRequest {
        id: "j1".to_string(),
        jobs: vec![job(100, "a", &[(0, 3), (1, 2)]), job(200, "b", &[(0, 2), (1, 4)])],
        num_machines: 2,
    }
}

#[test]
fn horizon_sums_durations() {
    assert_eq!(sample().horizon(), 11);
    let empty = JobShopRequest { id: "e".to_string(), jobs: vec![], num_machines: 0 };
    assert_eq!(empty.horizon(), 0);
}

#[test]
fn greedy_spt_schedule() {
    let plan = solve_greedy(&sample());
    let got: Vec<(usize, usize, usize, i64, i64)> =
        plan.schedule.iter().map(|s| (s.job_id, s.machine_id, s.op_index, s.start, s.end)).collect();
    assert_eq!(got, vec![(1, 0, 0, 0, 2), (0, 0, 0, 2, 5), (1, 1, 1, 2, 6), (0, 1, 1, 6, 8)]);
    assert_eq!(plan.makespan, 8);
    assert_eq!(plan.lower_bound, None);
    assert_eq!(plan.solver, "greedy-spt");
    assert_eq!(plan.status, "feasible");
    assert_eq!(plan.schedule[0].job_name, "b");
}

#[test]
fn greedy_spt_ties_take_lower_job() {
    let req = JobShopRequest {
        id: "t".to_string(),
        jobs: vec![job(1, "x", &[(0, 4)]), job(2, "y", &[(0, 4)])],
        num_machines: 1,
    };
    let plan = solve_greedy(&req);
    let got: Vec<(usize, i64, i64)> = plan.schedule.iter().map(|s| (s.job_id, s.start, s.end)).collect();
    assert_eq!(got, vec![(0, 0, 4), (1, 4, 8)]);
}

#[test]
fn greedy_schedule_is_feasible() {
    // law: every operation once, precedence kept, no machine overlap
    let req = JobShopRequest {
        id: "f".to_string(),
        jobs: vec![
            job(1, "p", &[(0, 3), (1, 2), (2, 2)]),
            job(2, "q", &[(0, 2), (2, 1), (1, 4)]),
            job(3, "r", &[(1, 4), (2, 3)]),
        ],
        num_machines: 3,
    };
    let plan = solve_greedy(&req);
    assert_eq!(plan.schedule.len(), 8);
    for (j, jb) in req.jobs.iter().enumerate() {
        for k in 0..jb.operations.len() {
            let n = plan.schedule.iter().filter(|s| s.job_id == j && s.op_index == k).count();
            assert_eq!(n, 1);
        }
    }
    for a in &plan.schedule {
        for b in &plan.schedule {
            if a.job_id == b.job_id && b.op_index == a.op_index + 1 {
                assert!(a.end <= b.start);
            }
            if (a.job_id, a.op_index) != (b.job_id, b.op_index) && a.machine_id == b.machine_id {
                assert!(a.end <= b.start || b.end <= a.start);
            }
        }
    }
    assert_eq!(plan.makespan, makespan_of(&plan.schedule));
}

#[test]
fn greedy_empty() {
    let req = JobShopRequest { id: "e".to_string(), jobs: vec![], num_machines: 3 };
    let plan = solve_greedy(&req);
    assert_eq!(plan.schedule.len(), 0);
    assert_eq!(plan.makespan, 0);
}

#[test]
fn suggestor_names() {
    let s = GreedyJobShopSuggestor;
    assert_eq!(s.name(), "GreedyJobShopSuggestor");
    assert!(s.complexity_hint().is_some());
    assert_eq!(ferrox::jobshop::greedy::request_id("jspbench-request:x"), "x");
}

#[test]
fn jsp_cpsat_model_shape() {
    let req = JobShopRequest { id: "m".to_string(), jobs: vec![job(5, "a", &[(0, 3), (1, 2)])], num_machines: 2 };
    let m = build_jsp_model(&req);
    assert_eq!(m.steps.len(), 10);
    assert_eq!(m.steps[0].op, ModelOp::IntVar { lb: 0, ub: 5 });
    assert_eq!(m.steps[0].name, "s_5_0");
    assert_eq!(m.steps[1].op, ModelOp::IntVar { lb: 3, ub: 5 });
    assert_eq!(m.steps[2].op, ModelOp::FixedInterval { start: 0, duration: 3, end: 1 });
    assert_eq!(m.steps[5].name, "iv_5_1");
    assert_eq!(m.steps[6].name, "cmax");
    assert_eq!(m.steps[7].op, ModelOp::LinearGe { rhs: 0 });
    assert_eq!(m.steps[7].vars, vec![3, 1]);
    assert_eq!(m.steps[7].coeffs, vec![1, -1]);
    assert_eq!(m.steps[8].vars, vec![6, 4]);
    assert_eq!(m.steps[9].op, ModelOp::Minimize);
    assert_eq!(m.steps[9].vars, vec![6]);
}

#[test]
fn jsp_cpsat_model_no_overlap() {
    let m = build_jsp_model(&sample());
    // 12 declarations, cmax, 2 precedences, one no-overlap per machine, 2 makespan bounds, objective
    assert_eq!(m.steps.len(), 20);
    assert_eq!(m.steps[15].op, ModelOp::NoOverlap);
    assert_eq!(m.steps[15].vars, vec![2, 8]);
    assert_eq!(m.steps[16].vars, vec![5, 11]);
}

#[test]
fn jsp_cpsat_plan_from_solution() {
    let req = JobShopRequest { id: "m".to_string(), jobs: vec![job(5, "a", &[(1, 3), (0, 2)])], num_machines: 2 };
    let sol = CpSolution { status: CpStatus::Optimal, values: vec![0, 3, 0, 3, 5, 0, 5], objective_value: 5 };
    let plan = jsp_plan_from_solution(&req, &sol);
    let got: Vec<(usize, usize, usize, i64, i64)> =
        plan.schedule.iter().map(|s| (s.job_id, s.machine_id, s.op_index, s.start, s.end)).collect();
    assert_eq!(got, vec![(5, 0, 1, 3, 5), (5, 1, 0, 0, 3)]);
    assert_eq!(plan.makespan, 5);
    assert_eq!(plan.lower_bound, Some(5));
    assert_eq!(plan.status, "optimal");
    let feas = CpSolution { status: CpStatus::Feasible, values: vec![0, 3, 0, 3, 5, 0, 6], objective_value: 6 };
    let p2 = jsp_plan_from_solution(&req, &feas);
    assert_eq!(p2.lower_bound, None);
    assert_eq!(p2.makespan, 6);
    let bad = CpSolution { status: CpStatus::Unbounded, values: vec![], objective_value: 0 };
    let p3 = jsp_plan_from_solution(&req, &bad);
    assert_eq!(p3.status, "error");
    assert_eq!(p3.schedule.len(), 0);
    let inf = CpSolution { status: CpStatus::Infeasible, values: vec![], objective_value: 0 };
    let p4 = jsp_plan_from_solution(&req, &inf);
    assert_eq!(p4.status, "error");
    assert_eq!(p4.lower_bound, None);
    assert_eq!(p4.makespan, 0);
    assert_eq!(status_name(CpStatus::Infeasible), "error");
}

#[test]
fn jsp_input_checks() {
    let req = sample();
    assert!(can_solve_greedy(&req));
    assert!(can_build_jsp_model(&req));
    let mut bad_machine = sample();
    bad_machine.jobs[1].operations[1].machine_id = 2;
    assert!(!can_solve_greedy(&bad_machine));
    assert!(!can_build_jsp_model(&bad_machine));
    let mut empty_job = sample();
    empty_job.jobs.push(job(300, "c", &[]));
    assert!(can_solve_greedy(&empty_job));
    assert!(!can_build_jsp_model(&empty_job));
    // every end the run forms must fit in i64: here job 100's first
    // operation starts at 2 and its second ends 2 later
    let mut long = sample();
    long.jobs[0].operations[0].duration = i64::MAX - 3;
    assert!(!can_solve_greedy(&long));
    long.jobs[0].operations[0].duration = i64::MAX - 4;
    assert!(can_solve_greedy(&long));
    assert_eq!(solve_greedy(&long).makespan, i64::MAX);
    // two parallel operations of i64::MAX
    let wide = JobShopRequest {
        id: "w".to_string(),
        jobs: vec![job(1, "a", &[(0, i64::MAX)]), job(2, "b", &[(1, i64::MAX)])],
        num_machines: 2,
    };
    assert!(can_solve_greedy(&wide));
    assert_eq!(solve_greedy(&wide).makespan, i64::MAX);
    let big = JobShopRequest {
        id: "b".to_string(),
        jobs: vec![job(1, "a", &[(0, 1 << 62), (1, 1)]), job(2, "b", &[(0, 1), (1, 1)])],
        num_machines: 2,
    };
    assert!(can_solve_greedy(&big));
    assert!(can_build_jsp_model(&big));
    assert_eq!(solve_greedy(&big).makespan, (1 << 62) + 2);
    assert_eq!(big.horizon(), (1 << 62) + 3);
    // 4 operations: 3 handles each, then the makespan
    let short = CpSolution { status: CpStatus::Optimal, values: vec![0; 12], objective_value: 0 };
    assert!(!can_read_jsp_solution(&req, &short));
    let full = CpSolution { status: CpStatus::Optimal, values: vec![0; 13], objective_value: 0 };
    assert!(can_read_jsp_solution(&req, &full));
    let mut big = vec![0; 13];
    big[3] = i64::MAX;
    let overflow = CpSolution { status: CpStatus::Optimal, values: big, objective_value: 0 };
    assert!(!can_read_jsp_solution(&req, &overflow));
    let none = CpSolution { status: CpStatus::Other, values: vec![], objective_value: 0 };
    assert!(can_read_jsp_solution(&req, &none));
}

#[test]
fn greedy_ends_within_horizon() {
    let req = sample();
    let plan = solve_greedy(&req);
    assert_eq!(req.horizon(), 11);
    assert!(plan.makespan <= req.horizon());
    assert!(plan.schedule.iter().all(|s| s.end <= req.horizon()));
    let single = JobShopRequest { id: "s".to_string(), jobs: vec![job(1, "a", &[(0, 4), (1, 6)])], num_machines: 2 };
    let p = solve_greedy(&single);
    assert_eq!(p.makespan, single.horizon());
}
