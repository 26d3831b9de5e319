use ferrox::cpmodel::{CpSolution, CpStatus, ModelOp};
use ferrox::vrptw::cpsat::{build_vr_model, cp_route_nodes, vr_plan_from_solution};
use ferrox::vrptw::greedy::{solve_nn, NearestNeighborSuggestor};
use ferrox::vrptw::problem::{Customer, Depot, Legs, VrptwRequest};
use ferrox::vrptw::cpsat::{can_build_vr_model, can_read_vr_solution};
use ferrox::vrptw::greedy::can_solve_nn;

fn cust(id: usize, name: &str, open: i64, close: i64, svc: i64) -> Customer {
    Customer { id, name: name.to_string(), window_open: open, window_close: close, service_time: svc }
}

fn sample() -> (VrptwRequest, Legs) {
    let req = VrptwRequest {
        id: "v1".to_string(),
        depot: Depot { ready_time: 0, due_time: 100 },
        customers: vec![cust(1, "a", 0, 50, 5), cust(2, "b", 20, 30, 5), cust(3, "c", 0, 10, 1)],
    };
    let time = vec![vec![0, 10, 15, 20], vec![10, 0, 5, 25], vec![15, 5, 0, 30], vec![20, 25, 30, 0]];
    let rank: Vec<Vec<u64>> = time.iter().map(|r| r.iter().map(|&t| t as u64).collect()).collect();
    (req, Legs { time, rank })
}

#[test]
fn nearest_neighbour_route() {
    let (req, legs) = sample();
    let plan = solve_nn(&req, &legs);
    let got: Vec<(usize, i64, i64)> = plan.route.iter().map(|s| (s.customer_id, s.arrival, s.departure)).collect();
    assert_eq!(got, vec![(1, 10, 15), (2, 20, 25)]);
    assert_eq!(plan.customers_visited, 2);
    assert_eq!(plan.customers_total, 3);
    assert_eq!(plan.return_time, 40);
    assert_eq!(plan.solver, "nearest-neighbour");
    assert_eq!(plan.status, "feasible");
    assert_eq!(plan.route[1].customer_name, "b");
}

#[test]
fn nearest_neighbour_waits_for_window() {
    let req = VrptwRequest {
        id: "w".to_string(),
        depot: Depot { ready_time: 0, due_time: 100 },
        customers: vec![cust(9, "late", 40, 60, 10)],
    };
    let legs = Legs { time: vec![vec![0, 5], vec![5, 0]], rank: vec![vec![0, 5], vec![5, 0]] };
    let plan = solve_nn(&req, &legs);
    assert_eq!(plan.route[0].arrival, 40);
    assert_eq!(plan.route[0].departure, 50);
    assert_eq!(plan.return_time, 55);
}

#[test]
fn nearest_neighbour_nothing_reachable() {
    let req = VrptwRequest {
        id: "n".to_string(),
        depot: Depot { ready_time: 7, due_time: 10 },
        customers: vec![cust(1, "far", 0, 100, 1)],
    };
    let legs = Legs { time: vec![vec![0, 50], vec![50, 0]], rank: vec![vec![0, 50], vec![50, 0]] };
    let plan = solve_nn(&req, &legs);
    assert_eq!(plan.route.len(), 0);
    assert_eq!(plan.return_time, 7);
}

#[test]
fn nearest_neighbour_ties_take_lower_index() {
    let req = VrptwRequest {
        id: "t".to_string(),
        depot: Depot { ready_time: 0, due_time: 100 },
        customers: vec![cust(1, "x", 0, 100, 0), cust(2, "y", 0, 100, 0)],
    };
    let legs = Legs {
        time: vec![vec![0, 4, 4], vec![4, 0, 8], vec![4, 8, 0]],
        rank: vec![vec![0, 1, 1], vec![1, 0, 2], vec![1, 2, 0]],
    };
    let plan = solve_nn(&req, &legs);
    assert_eq!(plan.route[0].customer_id, 1);
    assert_eq!(plan.route[1].customer_id, 2);
    assert_eq!(plan.return_time, 16);
}

#[test]
fn suggestor_name() {
    assert_eq!(NearestNeighborSuggestor.name(), "NearestNeighborSuggestor");
}

#[test]
fn vr_cpsat_model_shape() {
    let req = VrptwRequest {
        id: "m".to_string(),
        depot: Depot { ready_time: 1, due_time: 50 },
        customers: vec![cust(4, "a", 2, 30, 3)],
    };
    let scaled = vec![vec![0, 1250], vec![1250, 0]];
    let m = build_vr_model(&req, &scaled);
    assert_eq!(m.steps.len(), 12);
    assert_eq!(m.steps[0].name, "x_0_1");
    assert_eq!(m.steps[1].name, "x_1_0");
    assert_eq!(m.steps[2].name, "x_1_1");
    assert_eq!(m.steps[3].op, ModelOp::IntVar { lb: 100, ub: 100 });
    assert_eq!(m.steps[3].name, "t_depot_start");
    assert_eq!(m.steps[4].op, ModelOp::IntVar { lb: 0, ub: 5000 });
    assert_eq!(m.steps[5].op, ModelOp::IntVar { lb: 200, ub: 3000 });
    assert_eq!(m.steps[5].name, "t_4");
    // the depot's self-loop: a route that visits no one
    assert_eq!(m.steps[6].op, ModelOp::BoolVar);
    assert_eq!(m.steps[6].name, "x_0_0");
    assert_eq!(m.steps[7].op, ModelOp::Circuit);
    assert_eq!(m.steps[7].tails, vec![0, 1, 1, 0]);
    assert_eq!(m.steps[7].heads, vec![1, 0, 1, 0]);
    assert_eq!(m.steps[7].vars, vec![0, 1, 2, 6]);
    assert_eq!(m.steps[8].op, ModelOp::LinearGe { rhs: 1250 - 5001 });
    assert_eq!(m.steps[8].vars, vec![5, 3, 0]);
    assert_eq!(m.steps[8].coeffs, vec![1, -1, -5001]);
    assert_eq!(m.steps[9].op, ModelOp::LinearGe { rhs: 300 + 1250 - 5001 });
    assert_eq!(m.steps[9].vars, vec![4, 5, 1]);
    // staying home skips the customer
    assert_eq!(m.steps[10].op, ModelOp::LinearGe { rhs: 0 });
    assert_eq!(m.steps[10].vars, vec![2, 6]);
    assert_eq!(m.steps[10].coeffs, vec![1, -1]);
    assert_eq!(m.steps[11].op, ModelOp::Minimize);
    assert_eq!(m.steps[11].vars, vec![2]);
}

#[test]
fn cpsat_route_from_solution() {
    let req = VrptwRequest {
        id: "m".to_string(),
        depot: Depot { ready_time: 1, due_time: 50 },
        customers: vec![cust(4, "a", 2, 30, 3)],
    };
    let sol = CpSolution { status: CpStatus::Optimal, values: vec![1, 1, 0, 100, 4550, 1299], objective_value: 0 };
    assert_eq!(cp_route_nodes(&req, &sol), vec![1]);
    let plan = vr_plan_from_solution(&req, &sol);
    assert_eq!(plan.route.len(), 1);
    assert_eq!(plan.route[0].arrival, 12);
    assert_eq!(plan.route[0].departure, 15);
    assert_eq!(plan.return_time, 45);
    assert_eq!(plan.customers_visited, 1);
    let skip = CpSolution { status: CpStatus::Feasible, values: vec![0, 0, 1, 100, -150, 0], objective_value: 1 };
    let p2 = vr_plan_from_solution(&req, &skip);
    assert_eq!(p2.route.len(), 0);
    assert_eq!(p2.return_time, -1);
    assert_eq!(p2.status, "feasible");
    let none = CpSolution { status: CpStatus::Infeasible, values: vec![], objective_value: 0 };
    let p3 = vr_plan_from_solution(&req, &none);
    assert_eq!(p3.status, "infeasible");
    assert_eq!(p3.return_time, 0);
}

#[test]
fn vr_input_checks() {
    let (req, legs) = sample();
    assert!(can_solve_nn(&req, &legs));
    let mut ragged = Legs { time: legs.time.clone(), rank: legs.rank.clone() };
    ragged.time[2].pop();
    assert!(!can_solve_nn(&req, &ragged));
    let mut negative = Legs { time: legs.time.clone(), rank: legs.rank.clone() };
    negative.time[1][2] = -1;
    assert!(!can_solve_nn(&req, &negative));
    // large times are fine while what the router stores fits in i64
    let mut huge = sample().0;
    huge.customers[0].window_close = i64::MAX;
    assert!(can_solve_nn(&huge, &legs));
    let far = VrptwRequest { id: "f".to_string(), depot: Depot { ready_time: 0, due_time: 1 << 61 }, customers: vec![] };
    let home = Legs { time: vec![vec![0]], rank: vec![vec![0]] };
    assert!(can_solve_nn(&far, &home));
    let p = solve_nn(&far, &home);
    assert_eq!(p.route.len(), 0);
    assert_eq!(p.return_time, 0);
    // a departure that would fall below i64
    let mut low = sample().0;
    low.customers[1].window_open = i64::MIN;
    low.customers[1].service_time = -1;
    assert!(!can_solve_nn(&low, &legs));
    // an empty route's return time above i64
    let mut late = sample().0;
    late.depot.ready_time = i64::MAX;
    let mut lag = Legs { time: legs.time.clone(), rank: legs.rank.clone() };
    lag.time[0][0] = 1;
    assert!(!can_solve_nn(&late, &lag));

    let scaled: Vec<Vec<i64>> = legs.time.iter().map(|r| r.iter().map(|t| t * 100).collect()).collect();
    assert!(can_build_vr_model(&req, &scaled));
    assert!(!can_build_vr_model(&req, &scaled[..3].to_vec()));
    assert!(!can_build_vr_model(&huge, &scaled));
    // times up to about i64::MAX / 100 can be scaled
    let mut big = sample().0;
    big.depot.due_time = i64::MAX / 100 - 1;
    assert!(can_build_vr_model(&big, &scaled));
    big.depot.due_time = i64::MAX / 100 + 1;
    assert!(!can_build_vr_model(&big, &scaled));
    // three customers: 15 arcs, two depot times, three customer times
    let short = CpSolution { status: CpStatus::Optimal, values: vec![0; 19], objective_value: 0 };
    assert!(!can_read_vr_solution(&req, &short));
    let full = CpSolution { status: CpStatus::Optimal, values: vec![0; 20], objective_value: 0 };
    assert!(can_read_vr_solution(&req, &full));
    let none = CpSolution { status: CpStatus::Infeasible, values: vec![], objective_value: 0 };
    assert!(can_read_vr_solution(&req, &none));
}
