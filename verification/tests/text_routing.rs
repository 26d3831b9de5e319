use ferrox::lp::suggestor::term_positions;
use ferrox::order::stable_order_of;
use ferrox::routing::{any_pending, pending_seeds, plan_exists, request_id};
use ferrox::scheduling::greedy::{self as sg, GreedySchedulerSuggestor};
use ferrox::text::{decimal_string, name2, starts_with, str_eq, trim_start_all};

fn strings(xs: &[&str]) -> Vec<String> {
    xs.iter().map(|s| s.to_string()).collect()
}

#[test]
fn trim_repeats_prefix() {
    assert_eq!(trim_start_all("ab-ab-x", "ab-"), "x");
    assert_eq!(trim_start_all("ab-x-ab-", "ab-"), "x-ab-");
    assert_eq!(trim_start_all("xyz", "ab-"), "xyz");
    assert_eq!(trim_start_all("ab-", "ab-"), "");
    assert_eq!(trim_start_all("abc", ""), "abc");
    assert_eq!(trim_start_all("ééa", "é"), "a");
}

#[test]
fn starts_with_and_eq() {
    assert!(starts_with("scheduling-request:1", "scheduling-request:"));
    assert!(!starts_with("scheduling-plan:1", "scheduling-request:"));
    assert!(!starts_with("ab", "abc"));
    assert!(starts_with("", ""));
    assert!(str_eq("abc", "abc"));
    assert!(!str_eq("abc", "abd"));
    assert!(!str_eq("abc", "ab"));
}

#[test]
fn decimal_notation() {
    assert_eq!(decimal_string(0), "0");
    assert_eq!(decimal_string(7), "7");
    assert_eq!(decimal_string(10), "10");
    assert_eq!(decimal_string(1234567), "1234567");
    assert_eq!(decimal_string(usize::MAX), usize::MAX.to_string());
    assert_eq!(name2("x_", 12, 3), "x_12_3");
}

#[test]
fn request_ids() {
    assert_eq!(request_id("scheduling-request:r1", "scheduling-request:"), "r1");
    assert_eq!(request_id("scheduling-request:scheduling-request:r1", "scheduling-request:"), "r1");
    assert_eq!(sg::request_id("scheduling-request:abc"), "abc");
}

#[test]
fn plan_lookup() {
    let strategies = strings(&["scheduling-plan-greedy:r1", "other"]);
    assert!(plan_exists(&strategies, "scheduling-plan-greedy:", "r1"));
    assert!(!plan_exists(&strategies, "scheduling-plan-greedy:", "r2"));
    assert!(sg::own_plan_exists(&strategies, "r1"));
    assert!(!sg::own_plan_exists(&strategies, "r"));
}

#[test]
fn pending_requests() {
    let seeds = strings(&[
        "scheduling-request:r1",
        "jspbench-request:j1",
        "scheduling-request:r2",
        "scheduling-request:r3",
    ]);
    let strategies = strings(&["scheduling-plan-greedy:r2"]);
    let p = pending_seeds(&seeds, &strategies, sg::REQUEST_PREFIX, sg::PLAN_PREFIX);
    assert_eq!(p, vec![0, 3]);
    assert!(any_pending(&seeds, &strategies, sg::REQUEST_PREFIX, sg::PLAN_PREFIX));
    let s = GreedySchedulerSuggestor;
    assert_eq!(s.pending(&seeds, &strategies), vec![0, 3]);
    assert!(s.accepts(&seeds, &strategies));
    let all = strings(&["scheduling-plan-greedy:r1", "scheduling-plan-greedy:r2", "scheduling-plan-greedy:r3"]);
    assert!(!s.accepts(&seeds, &all));
    assert_eq!(s.pending(&seeds, &all), Vec::<usize>::new());
    assert_eq!(s.name(), "GreedySchedulerSuggestor");
}

#[test]
fn stable_ordering() {
    let keys = vec![(0usize, 5i64), (0, 1), (0, 5), (0, 3), (0, 1)];
    assert_eq!(stable_order_of(&keys), vec![1, 4, 3, 0, 2]);
    let keys2 = vec![(1usize, 0i64), (0, 9), (1, -1), (0, 9)];
    assert_eq!(stable_order_of(&keys2), vec![1, 3, 2, 0]);
    assert_eq!(stable_order_of(&vec![]), Vec::<usize>::new());
}

#[test]
fn term_lookup_takes_last_name() {
    let vars = strings(&["x", "y", "x"]);
    let terms = strings(&["x", "z", "y"]);
    assert_eq!(term_positions(&vars, &terms), vec![Some(2), None, Some(1)]);
}

#[test]
fn answered_request_is_not_pending_again() {
    let s = GreedySchedulerSuggestor;
    let seeds = strings(&["scheduling-request:scheduling-request:r9"]);
    let mut strategies = strings(&["other-plan:r9"]);
    assert!(s.accepts(&seeds, &strategies));
    assert_eq!(s.pending(&seeds, &strategies), vec![0]);
    // the plan id a suggestor proposes for this seed
    let plan_id = format!("{}{}", sg::PLAN_PREFIX, sg::request_id(&seeds[0]));
    assert_eq!(plan_id, "scheduling-plan-greedy:r9");
    strategies.push(plan_id);
    assert!(!s.accepts(&seeds, &strategies));
    assert!(s.pending(&seeds, &strategies).is_empty());
}
