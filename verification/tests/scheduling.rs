use ferrox::cpmodel::{CpSolution, CpStatus, ModelOp};
use ferrox::scheduling::cpsat::{
    build_sched_model, end_name, ov_var_name, sched_plan_from_solution, start_name, x_var_name,
};
use ferrox::scheduling::greedy::solve_greedy;
use ferrox::scheduling::problem::{SchedulingAgent, SchedulingRequest, SchedulingTask};
use ferrox::scheduling::cpsat::{can_build_sched_model, can_read_sched_solution};
use ferrox::scheduling::greedy::can_solve_greedy;

fn agent(id: usize, name: &str, caps: &[&str]) -> SchedulingAgent {
    SchedulingAgent { id, name: name.to_string(), capabilities: caps.iter().map(|c| c.to_string()).collect() }
}

fn task(id: usize, name: &str, cap: &str, dur: i64, rel: i64, dl: i64) -> SchedulingTask {
    SchedulingTask {
        id,
        name: name.to_string(),
        required_capability: cap.to_string(),
        duration_min: dur,
        release_min: rel,
        deadline_min: dl,
    }
}

fn sample() -> SchedulingRequest {
    SchedulingRequest {
        id: "r1".to_string(),
        agents: vec![agent(0, "ana", &["rust"]), agent(1, "bo", &["python", "rust"])],
        tasks: vec![
            task(10, "t0", "rust", 30, 0, 100),
            task(11, "t1", "python", 20, 10, 40),
            task(12, "t2", "rust", 50, 0, 60),
            task(13, "t3", "ml", 5, 0, 50),
        ],
        horizon_min: 200,
    }
}

#[test]
fn greedy_edf_schedule() {
    let plan = solve_greedy(&sample());
    assert_eq!(plan.request_id, "r1");
    assert_eq!(plan.tasks_total, 4);
    assert_eq!(plan.tasks_scheduled, 3);
    assert_eq!(plan.makespan_min, 60);
    assert_eq!(plan.solver, "greedy-edf");
    assert_eq!(plan.status, "feasible");
    let got: Vec<(usize, usize, i64, i64)> =
        plan.assignments.iter().map(|a| (a.task_id, a.agent_id, a.start_min, a.end_min)).collect();
    assert_eq!(got, vec![(12, 0, 0, 50), (11, 1, 10, 30), (10, 1, 30, 60)]);
    assert_eq!(plan.assignments[0].agent_name, "ana");
    assert_eq!(plan.assignments[1].task_name, "t1");
}

#[test]
fn greedy_drops_tasks_past_deadline() {
    let req = SchedulingRequest {
        id: "r2".to_string(),
        agents: vec![agent(0, "solo", &["a"])],
        tasks: vec![task(1, "long", "a", 50, 0, 60), task(2, "late", "a", 20, 0, 65)],
        horizon_min: 100,
    };
    // deadline order: long (60) then late (65): late would end at 70 > 65
    let plan = solve_greedy(&req);
    assert_eq!(plan.tasks_scheduled, 1);
    assert_eq!(plan.assignments[0].task_id, 1);
    assert_eq!(plan.makespan_min, 50);
}

#[test]
fn greedy_empty_request() {
    let req = SchedulingRequest { id: "e".to_string(), agents: vec![], tasks: vec![], horizon_min: 0 };
    let plan = solve_greedy(&req);
    assert_eq!(plan.tasks_total, 0);
    assert_eq!(plan.tasks_scheduled, 0);
    assert_eq!(plan.makespan_min, 0);
}

#[test]
fn greedy_no_agent_overlap() {
    // law: a plan never overlaps two tasks on one agent (nonnegative durations)
    let plan = solve_greedy(&sample());
    for (i, a) in plan.assignments.iter().enumerate() {
        for (j, b) in plan.assignments.iter().enumerate() {
            if i != j && a.agent_id == b.agent_id {
                assert!(a.end_min <= b.start_min || b.end_min <= a.start_min);
            }
        }
    }
}

#[test]
fn greedy_ties_keep_first_agent_and_negative_makespan() {
    let req = SchedulingRequest {
        id: "t".to_string(),
        agents: vec![agent(0, "a0", &["x"]), agent(1, "a1", &["x"])],
        tasks: vec![task(5, "neg", "x", 1, -10, -5)],
        horizon_min: 0,
    };
    let plan = solve_greedy(&req);
    // both agents ready at 0 (later than the release): the first one wins; 0 + 1 > -5, so it is dropped
    assert_eq!(plan.tasks_scheduled, 0);
    let req2 = SchedulingRequest {
        id: "t".to_string(),
        agents: vec![agent(0, "a0", &["x"]), agent(1, "a1", &["x"])],
        tasks: vec![task(5, "ok", "x", 3, 2, 10)],
        horizon_min: 0,
    };
    let plan2 = solve_greedy(&req2);
    assert_eq!(plan2.assignments[0].agent_id, 0);
    assert_eq!(plan2.assignments[0].start_min, 2);
}

#[test]
fn variable_names() {
    let t = task(42, "n", "c", 1, 0, 1);
    assert_eq!(start_name(&t), "s_42");
    assert_eq!(end_name(&t), "e_42");
    assert_eq!(x_var_name(3, 17), "x_3_17");
    assert_eq!(ov_var_name(3, 17), "ov_3_17");
}

#[test]
fn sched_cpsat_model_shape() {
    let req = SchedulingRequest {
        id: "c".to_string(),
        agents: vec![agent(0, "a0", &["x"]), agent(1, "a1", &["x", "y"])],
        tasks: vec![task(7, "t", "x", 5, 3, 20)],
        horizon_min: 20,
    };
    let m = build_sched_model(&req);
    assert_eq!(m.steps.len(), 8);
    assert_eq!(m.steps[0].op, ModelOp::IntVar { lb: 3, ub: 15 });
    assert_eq!(m.steps[0].name, "s_7");
    assert_eq!(m.steps[1].op, ModelOp::IntVar { lb: 8, ub: 20 });
    assert_eq!(m.steps[2].op, ModelOp::BoolVar);
    assert_eq!(m.steps[2].name, "x_7_0");
    assert_eq!(m.steps[3].op, ModelOp::OptionalInterval { start: 0, duration: 5, end: 1, presence: 2 });
    assert_eq!(m.steps[3].name, "ov_7_0");
    assert_eq!(m.steps[5].name, "ov_7_1");
    assert_eq!(m.steps[6].op, ModelOp::LinearLe { rhs: 1 });
    assert_eq!(m.steps[6].vars, vec![2, 4]);
    assert_eq!(m.steps[6].coeffs, vec![1, 1]);
    assert_eq!(m.steps[7].op, ModelOp::Maximize);
    assert_eq!(m.steps[7].vars, vec![2, 4]);
}

#[test]
fn sched_cpsat_plan_from_solution() {
    let req = SchedulingRequest {
        id: "c".to_string(),
        agents: vec![agent(0, "a0", &["x"]), agent(1, "a1", &["x", "y"])],
        tasks: vec![task(7, "t", "x", 5, 3, 20)],
        horizon_min: 20,
    };
    let sol = CpSolution { status: CpStatus::Optimal, values: vec![4, 9, 0, 0, 1, 0], objective_value: 1 };
    let plan = sched_plan_from_solution(&req, &sol);
    assert_eq!(plan.status, "optimal");
    assert_eq!(plan.tasks_scheduled, 1);
    assert_eq!(plan.assignments[0].agent_id, 1);
    assert_eq!(plan.assignments[0].agent_name, "a1");
    assert_eq!(plan.assignments[0].start_min, 4);
    assert_eq!(plan.assignments[0].end_min, 9);
    assert_eq!(plan.makespan_min, 9);
    assert_eq!(plan.solver, "cp-sat-v9.15");
    let none = CpSolution { status: CpStatus::Infeasible, values: vec![], objective_value: 0 };
    let p2 = sched_plan_from_solution(&req, &none);
    assert_eq!(p2.status, "infeasible");
    assert_eq!(p2.tasks_scheduled, 0);
    let unb = CpSolution { status: CpStatus::Unbounded, values: vec![], objective_value: 0 };
    assert_eq!(sched_plan_from_solution(&req, &unb).status, "error");
    let other = CpSolution { status: CpStatus::Other, values: vec![], objective_value: 0 };
    assert_eq!(sched_plan_from_solution(&req, &other).status, "error");
}

#[test]
fn sched_input_checks() {
    let req = sample();
    assert!(can_solve_greedy(&req));
    assert!(can_build_sched_model(&req));
    // a capable agent whose id does not index the agents
    let mut bad_id = sample();
    bad_id.agents[1].id = 7;
    assert!(!can_solve_greedy(&bad_id));
    assert!(!can_build_sched_model(&bad_id));
    // an agent with an id out of range that no task needs is fine
    let mut idle = sample();
    idle.agents.push(agent(9, "cy", &["cobol"]));
    assert!(can_solve_greedy(&idle));
    // release plus duration above i64: the greedy run never keeps that end,
    // the model cannot state the end's lower bound
    let mut late = sample();
    late.tasks[0].release_min = i64::MAX;
    assert!(can_solve_greedy(&late));
    assert!(!can_build_sched_model(&late));
    let plan = solve_greedy(&late);
    assert!(plan.assignments.iter().all(|a| a.task_id != 10));
    assert_eq!(plan.tasks_scheduled, 2);
    // an end the run forms below i64: the agent is free at i64::MIN after the
    // first task, and the second starts then with a negative duration
    let early = SchedulingRequest {
        id: "e".to_string(),
        agents: vec![agent(0, "ana", &["rust"])],
        tasks: vec![task(1, "a", "rust", i64::MIN, i64::MIN, 0), task(2, "b", "rust", -1, i64::MIN, 10)],
        horizon_min: 10,
    };
    assert!(!can_solve_greedy(&early));
    // release plus duration below i64 is fine where the agent is free later
    let mut later = sample();
    later.tasks[1].release_min = i64::MIN;
    later.tasks[1].duration_min = -1;
    assert!(can_solve_greedy(&later));
    assert_eq!(solve_greedy(&later).tasks_scheduled, 3);
    // deadlines at the top of the range
    let mut far = sample();
    far.tasks[3].deadline_min = i64::MAX - 10;
    far.tasks[0].deadline_min = i64::MAX;
    assert!(can_solve_greedy(&far));
    assert!(can_build_sched_model(&far));
    assert_eq!(solve_greedy(&far).tasks_scheduled, 3);
    // solutions: 4 tasks and 5 capable (task, agent) pairs need 18 values
    let short = CpSolution { status: CpStatus::Optimal, values: vec![0; 17], objective_value: 0 };
    assert!(!can_read_sched_solution(&req, &short));
    let full = CpSolution { status: CpStatus::Optimal, values: vec![0; 18], objective_value: 0 };
    assert!(can_read_sched_solution(&req, &full));
    let none = CpSolution { status: CpStatus::Infeasible, values: vec![], objective_value: 0 };
    assert!(can_read_sched_solution(&req, &none));
    let mut big = vec![0; 18];
    big[0] = i64::MAX;
    let overflow = CpSolution { status: CpStatus::Feasible, values: big, objective_value: 0 };
    assert!(!can_read_sched_solution(&req, &overflow));
}

#[test]
fn variable_names_do_not_collide() {
    assert_ne!(x_var_name(1, 23), x_var_name(12, 3));
    assert_ne!(x_var_name(1, 23), x_var_name(1, 2));
    assert_ne!(ov_var_name(4, 5), x_var_name(4, 5));
    let t = task(7, "t", "rust", 1, 0, 9);
    assert_ne!(start_name(&t), end_name(&t));
    assert_eq!(x_var_name(12, 3), "x_12_3");
}
