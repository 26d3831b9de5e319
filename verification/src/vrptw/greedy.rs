//! Nearest-neighbour routing with a time-window feasibility check.
use vstd::prelude::*;
use vstd::string::StringExecFns;

use crate::routing::{any_pending, holds_id, is_pending, pending_prefix, pending_seeds, plan_exists, spec_request_id};
use super::problem::{
    leg_rank, leg_time, legs_fit, times_fit, Customer, Legs, RouteStop, VrptwPlan,
    VrptwRequest,
};

verus! {

pub const REQUEST_PREFIX: &'static str = "vrptw-request:";
pub const PLAN_PREFIX: &'static str = "vrptw-plan-greedy:";

/// Routes a vehicle via the nearest-neighbour heuristic: at each stop, visit
/// the nearest unvisited customer whose time window is still reachable and
/// from which the depot is reached in time; return to the depot when none is.
pub struct NearestNeighborSuggestor;

impl NearestNeighborSuggestor {
    pub fn name(&self) -> (r: &'static str)
        ensures
            r@ == "NearestNeighborSuggestor"@,
    {
        "NearestNeighborSuggestor"
    }

    pub fn complexity_hint(&self) -> (r: Option<&'static str>)
        ensures
            r is Some,
            r->0@ == "O(n²) — nearest-neighbour with TW feasibility; deterministic, sub-ms for n ≤ 10 000"@,
    {
        Some("O(n²) — nearest-neighbour with TW feasibility; deterministic, sub-ms for n ≤ 10 000")
    }

    /// Some seed is a routing request without a nearest-neighbour plan yet.
    pub fn accepts(&self, seed_ids: &Vec<String>, strategy_ids: &Vec<String>) -> (r: bool)
        ensures
            r == exists|i: int|
                0 <= i < seed_ids@.len() && #[trigger] is_pending(
                    seed_ids@[i]@,
                    strategy_ids@,
                    REQUEST_PREFIX@,
                    PLAN_PREFIX@,
                ),
    {
        any_pending(seed_ids, strategy_ids, REQUEST_PREFIX, PLAN_PREFIX)
    }

    /// Indices of the seeds that this suggestor answers in one pass.
    pub fn pending(&self, seed_ids: &Vec<String>, strategy_ids: &Vec<String>) -> (r: Vec<usize>)
        ensures
            r@ == pending_prefix(seed_ids@, strategy_ids@, REQUEST_PREFIX@, PLAN_PREFIX@, seed_ids@.len()),
    {
        pending_seeds(seed_ids, strategy_ids, REQUEST_PREFIX, PLAN_PREFIX)
    }
}

/// The request id carried by a routing request seed id.
pub fn request_id(fact_id: &str) -> (r: &str)
    ensures
        r@ == spec_request_id(fact_id@, REQUEST_PREFIX@),
{
    crate::routing::request_id(fact_id, REQUEST_PREFIX)
}

/// Whether the nearest-neighbour plan for `request_id` is already among the strategies.
pub fn own_plan_exists(strategy_ids: &Vec<String>, request_id: &str) -> (r: bool)
    ensures
        r == holds_id(strategy_ids@, PLAN_PREFIX@ + request_id@),
{
    plan_exists(strategy_ids, PLAN_PREFIX, request_id)
}

// ── Specification of the route ──────────────────────────────────────────────

/// Current node, current time, which customers are visited, the customers in
/// visiting order, and the stops.
pub type NnState = (int, int, Seq<bool>, Seq<int>, Seq<RouteStop>);

pub open spec fn nn_init(req: VrptwRequest) -> NnState {
    (0, req.depot.ready_time as int, Seq::new(req.customers@.len(), |i: int| false), Seq::empty(), Seq::empty())
}

/// Arrival at customer `i` when leaving now.
pub open spec fn arrival_at(legs: Legs, st: NnState, i: int) -> int {
    st.1 + leg_time(legs, st.0, i + 1)
}

/// Departure from customer `i`: service starts at arrival or at the window's
/// opening, whichever is later.
pub open spec fn departure_from(req: VrptwRequest, legs: Legs, st: NnState, i: int) -> int {
    let c = req.customers@[i];
    let a = arrival_at(legs, st, i);
    (if a >= c.window_open { a } else { c.window_open as int }) + c.service_time
}

/// Customer `i` is unvisited, is reached by its window's close, and the
/// depot is reached in time after serving it.
pub open spec fn reachable(req: VrptwRequest, legs: Legs, st: NnState, i: int) -> bool {
    &&& !st.2[i]
    &&& arrival_at(legs, st, i) <= req.customers@[i].window_close
    &&& departure_from(req, legs, st, i) + leg_time(legs, i + 1, 0) <= req.depot.due_time
}

/// Among the first `n` customers, the reachable one with the shortest leg
/// from the current node (lowest index on ties).
pub open spec fn nn_pick(req: VrptwRequest, legs: Legs, st: NnState, n: nat) -> Option<int>
    decreases n,
{
    if n == 0 {
        None
    } else {
        let prev = nn_pick(req, legs, st, (n - 1) as nat);
        let i = n - 1;
        if reachable(req, legs, st, i) {
            match prev {
                None => Some(i),
                Some(p) => if leg_rank(legs, st.0, i + 1) < leg_rank(legs, st.0, p + 1) {
                    Some(i)
                } else {
                    prev
                },
            }
        } else {
            prev
        }
    }
}

/// Drive to customer `i` and serve it.
pub open spec fn visit(req: VrptwRequest, legs: Legs, st: NnState, i: int) -> NnState {
    let c = req.customers@[i];
    let d = departure_from(req, legs, st, i);
    (
        i + 1,
        d,
        st.2.update(i, true),
        st.3.push(i),
        st.4.push(
            RouteStop {
                customer_id: c.id,
                customer_name: c.name,
                arrival: (d - c.service_time) as i64,
                departure: d as i64,
            },
        ),
    )
}

/// The state after `r` steps (a step with no reachable customer changes nothing).
pub open spec fn nn_steps(req: VrptwRequest, legs: Legs, r: nat) -> NnState
    decreases r,
{
    if r == 0 {
        nn_init(req)
    } else {
        let s = nn_steps(req, legs, (r - 1) as nat);
        match nn_pick(req, legs, s, req.customers@.len()) {
            Some(i) => visit(req, legs, s, i),
            None => s,
        }
    }
}

/// The finished run (each step visits a new customer, so as many steps as
/// customers are enough).
pub open spec fn nn_final(req: VrptwRequest, legs: Legs) -> NnState {
    nn_steps(req, legs, req.customers@.len())
}

// ── Invariant ────────────────────────────────────────────────────────────────

pub open spec fn count_unvisited(v: Seq<bool>, n: nat) -> int
    decreases n,
{
    if n == 0 { 0 } else { count_unvisited(v, (n - 1) as nat) + if v[n - 1] { 0int } else { 1int } }
}

/// The stop is customer `i` served inside its window, with the depot still
/// reachable in time afterwards.
pub open spec fn stop_valid(req: VrptwRequest, legs: Legs, s: RouteStop, i: int) -> bool {
    let c = req.customers@[i];
    &&& 0 <= i < req.customers@.len()
    &&& s.customer_id == c.id
    &&& s.customer_name == c.name
    &&& s.arrival >= c.window_open
    &&& (s.arrival <= c.window_close || s.arrival == c.window_open)
    &&& s.departure == s.arrival + c.service_time
    &&& s.departure + leg_time(legs, i + 1, 0) <= req.depot.due_time
}

/// Node the `p`-th stop is driven from: the depot for the first, else the
/// stop before it.
pub open spec fn prev_node(order: Seq<int>, p: int) -> int {
    if p == 0 { 0 } else { order[p - 1] + 1 }
}

/// Time the vehicle leaves for the `p`-th stop.
pub open spec fn prev_time(req: VrptwRequest, route: Seq<RouteStop>, p: int) -> int {
    if p == 0 { req.depot.ready_time as int } else { route[p - 1].departure as int }
}

/// Leaving `node` at time `t`, the vehicle reaches customer `i` by its
/// window's close, and after serving it (from arrival or the window's
/// opening, whichever is later) reaches the depot by its due time.
pub open spec fn serves_in_time(req: VrptwRequest, legs: Legs, i: int, node: int, t: int) -> bool {
    let c = req.customers@[i];
    let arr = t + leg_time(legs, node, i + 1);
    let begin = if arr >= c.window_open { arr } else { c.window_open as int };
    &&& arr <= c.window_close
    &&& begin + c.service_time + leg_time(legs, i + 1, 0) <= req.depot.due_time
}

/// Customer `c` is the nearest choice from `node` at time `t` among the
/// customers not in `before` that can be served in time: every other such
/// customer is farther, or as far and later in the request.
#[verifier::opaque]
pub open spec fn nearest_choice(req: VrptwRequest, legs: Legs, before: Seq<int>, node: int, t: int, c: int) -> bool {
    &&& serves_in_time(req, legs, c, node, t)
    &&& forall|j: int|
        0 <= j < req.customers@.len() && j != c && !before.contains(j) && serves_in_time(req, legs, j, node, t)
            ==> leg_rank(legs, node, c + 1) < leg_rank(legs, node, #[trigger] (j + 1)) || (leg_rank(legs, node, c + 1)
            == leg_rank(legs, node, j + 1) && c < j)
}

pub open spec fn nn_inv(req: VrptwRequest, legs: Legs, st: NnState) -> bool {
    let n = req.customers@.len();
    let r = st.3.len();
    &&& st.2.len() == n
    &&& st.4.len() == r
    &&& r + count_unvisited(st.2, n) == n
    &&& 0 <= st.0 <= n
    &&& (r == 0 ==> st.0 == 0 && st.1 == req.depot.ready_time)
    &&& (r > 0 ==> st.0 == st.3[r - 1] + 1 && st.1 == st.4[r - 1].departure)
    &&& i64::MIN <= st.1 <= i64::MAX
    &&& forall|p: int| 0 <= p < r ==> 0 <= #[trigger] st.3[p] < n && st.2[st.3[p]]
    &&& forall|p: int, q: int| 0 <= p < q < r ==> #[trigger] st.3[p] != #[trigger] st.3[q]
    &&& forall|p: int| 0 <= p < r ==> stop_valid(req, legs, #[trigger] st.4[p], st.3[p])
    &&& forall|p: int| 0 <= p < r - 1 ==> (#[trigger] st.4[p]).departure <= st.4[p + 1].arrival
    &&& forall|i: int| 0 <= i < n && #[trigger] st.2[i] ==> exists|p: int| 0 <= p < r && st.3[p] == i
}

/// Service at the `p`-th stop starts on arrival from the stop before it, or
/// when the window opens if that is later.
pub open spec fn arrives_on_time(req: VrptwRequest, legs: Legs, order: Seq<int>, route: Seq<RouteStop>, p: int) -> bool {
    let c = req.customers@[order[p]];
    let arr = prev_time(req, route, p) + leg_time(legs, prev_node(order, p), order[p] + 1);
    route[p].arrival == (if arr >= c.window_open { arr } else { c.window_open as int })
}

/// Every stop so far was the nearest choice from the stop before it, and
/// its service started on arrival (or at the window's opening).
pub open spec fn nearest_history(req: VrptwRequest, legs: Legs, st: NnState) -> bool {
    &&& forall|p: int|
        0 <= p < st.3.len() ==> nearest_choice(
            req,
            legs,
            st.3.subrange(0, p),
            prev_node(st.3, p),
            prev_time(req, st.4, p),
            #[trigger] st.3[p],
        )
    &&& forall|p: int| 0 <= p < st.3.len() ==> #[trigger] arrives_on_time(req, legs, st.3, st.4, p)
}

/// The customer the run picks is the nearest choice from where it stands.
proof fn lemma_pick_nearest(req: VrptwRequest, legs: Legs, st: NnState, i: int)
    requires
        nn_inv(req, legs, st),
        nn_pick(req, legs, st, req.customers@.len()) == Some(i),
    ensures
        nearest_choice(req, legs, st.3, st.0, st.1, i),
{
    reveal(nearest_choice);
    let n = req.customers@.len();
    let r = st.3.len() as int;
    lemma_pick_sound(req, legs, st, n);
    assert(reachable(req, legs, st, i));
    assert forall|j: int|
        0 <= j < n && j != i && !st.3.contains(j) && serves_in_time(req, legs, j, st.0, st.1) implies leg_rank(
        legs,
        st.0,
        i + 1,
    ) < leg_rank(legs, st.0, #[trigger] (j + 1)) || (leg_rank(legs, st.0, i + 1) == leg_rank(legs, st.0, j + 1) && i
        < j) by {
        if st.2[j] {
            let q = choose|q: int| 0 <= q < r && st.3[q] == j;
            assert(st.3.contains(j));
        }
        assert(reachable(req, legs, st, j));
    }
}

#[verifier::rlimit(40)]
proof fn lemma_visit_history(req: VrptwRequest, legs: Legs, st: NnState, i: int)
    requires
        st.4.len() == st.3.len(),
        st.3.len() == 0 ==> st.0 == 0 && st.1 == req.depot.ready_time,
        st.3.len() > 0 ==> st.0 == st.3[st.3.len() - 1] + 1 && st.1 == st.4[st.3.len() - 1].departure,
        nearest_history(req, legs, st),
        nearest_choice(req, legs, st.3, st.0, st.1, i),
        visit(req, legs, st, i).4[st.3.len() as int].arrival == departure_from(req, legs, st, i)
            - req.customers@[i].service_time,
    ensures
        nearest_history(req, legs, visit(req, legs, st, i)),
{
    let r = st.3.len() as int;
    let s2 = visit(req, legs, st, i);
    assert(s2.3 == st.3.push(i));
    assert forall|p: int| 0 <= p < s2.3.len() implies nearest_choice(
        req,
        legs,
        s2.3.subrange(0, p),
        prev_node(s2.3, p),
        prev_time(req, s2.4, p),
        #[trigger] s2.3[p],
    ) by {
        if p < r {
            assert(s2.3.subrange(0, p) =~= st.3.subrange(0, p));
            assert(s2.3[p] == st.3[p]);
            if p > 0 {
                assert(s2.3[p - 1] == st.3[p - 1] && s2.4[p - 1] == st.4[p - 1]);
            }
            assert(prev_node(s2.3, p) == prev_node(st.3, p));
            assert(prev_time(req, s2.4, p) == prev_time(req, st.4, p));
            assert(nearest_choice(req, legs, st.3.subrange(0, p), prev_node(st.3, p), prev_time(req, st.4, p), st.3[p]));
        } else {
            assert(s2.3.subrange(0, p) =~= st.3);
            assert(s2.3[p] == i);
            assert(prev_node(s2.3, p) == st.0);
            if r > 0 {
                assert(s2.4[r - 1] == st.4[r - 1]);
            }
            assert(prev_time(req, s2.4, p) == st.1);
        }
    }
    assert forall|p: int| 0 <= p < s2.3.len() implies #[trigger] arrives_on_time(req, legs, s2.3, s2.4, p) by {
        if p < r {
            assert(s2.3[p] == st.3[p] && s2.4[p] == st.4[p]);
            if p > 0 {
                assert(s2.3[p - 1] == st.3[p - 1] && s2.4[p - 1] == st.4[p - 1]);
            }
            assert(arrives_on_time(req, legs, st.3, st.4, p));
        } else {
            assert(s2.3[p] == i);
            if r > 0 {
                assert(s2.4[r - 1] == st.4[r - 1]);
            }
        }
    }
}
proof fn lemma_steps_history(req: VrptwRequest, legs: Legs, r: nat)
    requires
        legs_fit(req, legs),
        times_fit(req, legs),
    ensures
        nearest_history(req, legs, nn_steps(req, legs, r)),
    decreases r,
{
    if r > 0 {
        lemma_steps_history(req, legs, (r - 1) as nat);
        lemma_steps(req, legs, (r - 1) as nat);
        let s = nn_steps(req, legs, (r - 1) as nat);
        lemma_pick_sound(req, legs, s, req.customers@.len());
        match nn_pick(req, legs, s, req.customers@.len()) {
            Some(i) => {
                lemma_pick_nearest(req, legs, s, i);
                lemma_visit_history(req, legs, s, i);
            },
            None => {},
        }
    }
}

proof fn lemma_count_update(v: Seq<bool>, n: nat, i: int)
    requires
        0 <= i < n <= v.len(),
        !v[i],
    ensures
        count_unvisited(v.update(i, true), n) == count_unvisited(v, n) - 1,
    decreases n,
{
    if n - 1 > i {
        lemma_count_update(v, (n - 1) as nat, i);
    } else {
        lemma_count_agree(v, v.update(i, true), (n - 1) as nat);
    }
}

proof fn lemma_count_agree(v: Seq<bool>, w: Seq<bool>, x: nat)
    requires
        x <= v.len(),
        x <= w.len(),
        forall|i: int| 0 <= i < x ==> v[i] == w[i],
    ensures
        count_unvisited(v, x) == count_unvisited(w, x),
    decreases x,
{
    if x > 0 {
        lemma_count_agree(v, w, (x - 1) as nat);
    }
}

proof fn lemma_count_all_false(v: Seq<bool>, x: nat)
    requires
        x <= v.len(),
        forall|i: int| 0 <= i < v.len() ==> !v[i],
    ensures
        count_unvisited(v, x) == x,
    decreases x,
{
    if x > 0 {
        lemma_count_all_false(v, (x - 1) as nat);
    }
}

proof fn lemma_pick_sound(req: VrptwRequest, legs: Legs, st: NnState, n: nat)
    requires
        n <= req.customers@.len(),
    ensures
        match nn_pick(req, legs, st, n) {
            Some(i) => {
                &&& 0 <= i < n
                &&& reachable(req, legs, st, i)
                &&& forall|j: int|
                    0 <= j < n && reachable(req, legs, st, j) ==> leg_rank(legs, st.0, i + 1)
                        <= leg_rank(legs, st.0, j + 1)
                &&& forall|j: int|
                    0 <= j < i && reachable(req, legs, st, j) ==> leg_rank(legs, st.0, i + 1)
                        < leg_rank(legs, st.0, j + 1)
            },
            None => forall|j: int| 0 <= j < n ==> !reachable(req, legs, st, j),
        },
    decreases n,
{
    if n > 0 {
        lemma_pick_sound(req, legs, st, (n - 1) as nat);
    }
}

proof fn lemma_visit_inv(req: VrptwRequest, legs: Legs, st: NnState, i: int)
    requires
        legs_fit(req, legs),
        times_fit(req, legs),
        nn_inv(req, legs, st),
        0 <= i < req.customers@.len(),
        reachable(req, legs, st, i),
    ensures
        nn_inv(req, legs, visit(req, legs, st, i)),
        visit(req, legs, st, i).3.len() == st.3.len() + 1,
        visit(req, legs, st, i).4[st.3.len() as int].arrival == departure_from(req, legs, st, i)
            - req.customers@[i].service_time,
{
    let n = req.customers@.len();
    let r = st.3.len();
    let c = req.customers@[i];
    let s2 = visit(req, legs, st, i);
    let d = departure_from(req, legs, st, i);
    assert(0 <= leg_time(legs, st.0, i + 1));
    assert(0 <= leg_time(legs, i + 1, 0));
    assert(i64::MIN <= c.window_open + c.service_time);
    assert(d <= req.depot.due_time);
    assert(i64::MIN <= d);
    lemma_count_update(st.2, n, i);
    let stop = s2.4[r as int];
    assert(stop.arrival == d - c.service_time);
    assert(stop_valid(req, legs, stop, i));
    assert forall|p: int| 0 <= p < r + 1 implies 0 <= #[trigger] s2.3[p] < n && s2.2[s2.3[p]] by {
        if p < r {
            assert(s2.3[p] == st.3[p]);
        }
    }
    assert forall|p: int, q: int| 0 <= p < q < r + 1 implies #[trigger] s2.3[p] != #[trigger] s2.3[q] by {
        if q < r {
            assert(s2.3[p] == st.3[p] && s2.3[q] == st.3[q]);
        } else {
            assert(s2.3[p] == st.3[p]);
            assert(st.2[st.3[p]]);
        }
    }
    assert forall|p: int| 0 <= p < r + 1 implies stop_valid(req, legs, #[trigger] s2.4[p], s2.3[p]) by {
        if p < r {
            assert(s2.4[p] == st.4[p] && s2.3[p] == st.3[p]);
        }
    }
    assert forall|x: int| 0 <= x < n && #[trigger] s2.2[x] implies exists|p: int| 0 <= p < r + 1 && s2.3[p] == x by {
        if x == i {
            assert(s2.3[r as int] == i);
        } else {
            assert(st.2[x]);
            let p = choose|p: int| 0 <= p < r && st.3[p] == x;
            assert(s2.3[p] == x);
        }
    }
    assert(s2.4[r as int].departure == d);
    assert(s2.0 == i + 1 && s2.1 == d && s2.3[r as int] == i);
    assert(r > 0 ==> st.4[r - 1].departure == st.1);
    assert forall|p: int| 0 <= p < r + 1 - 1 implies (#[trigger] s2.4[p]).departure <= s2.4[p + 1].arrival by {
        if p + 1 < r {
            assert(s2.4[p] == st.4[p] && s2.4[p + 1] == st.4[p + 1]);
        } else {
            assert(s2.4[p] == st.4[p]);
        }
    }
}

proof fn lemma_steps(req: VrptwRequest, legs: Legs, r: nat)
    requires
        legs_fit(req, legs),
        times_fit(req, legs),
    ensures
        nn_inv(req, legs, nn_steps(req, legs, r)),
    decreases r,
{
    if r == 0 {
        lemma_count_all_false(nn_init(req).2, req.customers@.len());
    } else {
        lemma_steps(req, legs, (r - 1) as nat);
        let s = nn_steps(req, legs, (r - 1) as nat);
        lemma_pick_sound(req, legs, s, req.customers@.len());
        match nn_pick(req, legs, s, req.customers@.len()) {
            Some(i) => lemma_visit_inv(req, legs, s, i),
            None => {},
        }
    }
}

proof fn lemma_steps_stay(req: VrptwRequest, legs: Legs, r: nat, r2: nat)
    requires
        r <= r2,
        nn_pick(req, legs, nn_steps(req, legs, r), req.customers@.len()) is None,
    ensures
        nn_steps(req, legs, r2) == nn_steps(req, legs, r),
    decreases r2,
{
    if r < r2 {
        lemma_steps_stay(req, legs, r, (r2 - 1) as nat);
    }
}

proof fn lemma_count_nonneg(v: Seq<bool>, n: nat)
    requires
        n <= v.len(),
    ensures
        count_unvisited(v, n) >= 0,
    decreases n,
{
    if n > 0 {
        lemma_count_nonneg(v, (n - 1) as nat);
    }
}

// ── Implementation ───────────────────────────────────────────────────────────

/// The nearest reachable customer from the current node (see `nn_pick`).
fn pick_next(
    req: &VrptwRequest,
    legs: &Legs,
    visited: &Vec<bool>,
    cur: usize,
    cur_t: i64,
    Ghost(st): Ghost<NnState>,
) -> (r: Option<(usize, i64)>)
    requires
        legs_fit(*req, *legs),
        times_fit(*req, *legs),
        nn_inv(*req, *legs, st),
        st.0 == cur as int,
        st.1 == cur_t as int,
        st.2 == visited@,
    ensures
        match r {
            Some((i, d)) => nn_pick(*req, *legs, st, req.customers@.len()) == Some(i as int) && d
                == departure_from(*req, *legs, st, i as int),
            None => nn_pick(*req, *legs, st, req.customers@.len()) is None,
        },
{
    let n = req.customers.len();
    let mut best: Option<(usize, i64)> = None;
    let mut best_rank: u64 = 0;
    let mut i: usize = 0;
    while i < n
        invariant
            n == req.customers@.len(),
            legs_fit(*req, *legs),
            times_fit(*req, *legs),
            nn_inv(*req, *legs, st),
            st.0 == cur as int,
            st.1 == cur_t as int,
            st.2 == visited@,
            i <= n,
            match best {
                Some((b, d)) => nn_pick(*req, *legs, st, i as nat) == Some(b as int) && best_rank == leg_rank(
                    *legs,
                    cur as int,
                    b + 1,
                ) && d == departure_from(*req, *legs, st, b as int),
                None => nn_pick(*req, *legs, st, i as nat) is None,
            },
        decreases n - i,
    {
        if !visited[i] {
            let c = &req.customers[i];
            proof {
                assert(0 <= leg_time(*legs, cur as int, i + 1));
                assert(0 <= leg_time(*legs, i + 1, 0));
                assert(i64::MIN <= c.window_open + c.service_time);
            }
            // formed in i128: only a departure that is kept must fit in i64
            let travel = legs.time[cur][i + 1];
            let arrival: i128 = (cur_t as i128) + (travel as i128);
            let begin: i128 = if arrival >= c.window_open as i128 { arrival } else { c.window_open as i128 };
            let depart: i128 = begin + (c.service_time as i128);
            let back = legs.time[i + 1][0];
            if arrival <= c.window_close as i128 && depart + (back as i128) <= req.depot.due_time as i128 {
                let rk = legs.rank[cur][i + 1];
                let d = depart as i64;
                match best {
                    None => {
                        best = Some((i, d));
                        best_rank = rk;
                    },
                    Some(_) => {
                        if rk < best_rank {
                            best = Some((i, d));
                            best_rank = rk;
                        }
                    },
                }
            }
        }
        i = i + 1;
    }
    best
}

/// Whether `solve_nn` can run on these inputs: the leg tables are square
/// over the depot and the customers, and the times fit (see `times_fit`).
pub fn can_solve_nn(req: &VrptwRequest, legs: &Legs) -> (r: bool)
    ensures
        r == (legs_fit(*req, *legs) && times_fit(*req, *legs)),
{
    let n = req.customers.len();
    let nn = legs.time.len();
    if nn == 0 || nn - 1 != n || legs.rank.len() != nn {
        return false;
    }
    let mut a: usize = 0;
    while a < nn
        invariant
            nn == n + 1,
            n == req.customers@.len(),
            nn == legs.time@.len(),
            nn == legs.rank@.len(),
            a <= nn,
            forall|x: int| 0 <= x < a ==> (#[trigger] legs.time@[x])@.len() == nn,
            forall|x: int| 0 <= x < a ==> (#[trigger] legs.rank@[x])@.len() == nn,
            forall|x: int, y: int| 0 <= x < a && 0 <= y < nn ==> 0 <= #[trigger] leg_time(*legs, x, y),
        decreases nn - a,
    {
        if legs.time[a].len() != nn {
            return false;
        }
        if legs.rank[a].len() != nn {
            return false;
        }
        let mut b: usize = 0;
        while b < nn
            invariant
                nn == legs.time@.len(),
                a < nn,
                legs.time@[a as int]@.len() == nn,
                b <= nn,
                forall|y: int| 0 <= y < b ==> 0 <= #[trigger] leg_time(*legs, a as int, y),
            decreases nn - b,
        {
            if legs.time[a][b] < 0 {
                assert(!(0 <= leg_time(*legs, a as int, b as int)));
                return false;
            }
            b = b + 1;
        }
        a = a + 1;
    }
    let mut i: usize = 0;
    while i < n
        invariant
            n == req.customers@.len(),
            i <= n,
            forall|x: int|
                0 <= x < i ==> i64::MIN <= (#[trigger] req.customers@[x]).window_open + req.customers@[x].service_time,
        decreases n - i,
    {
        let c = &req.customers[i];
        if (c.window_open as i128) + (c.service_time as i128) < i64::MIN as i128 {
            assert(req.customers@[i as int] == *c);
            return false;
        }
        i = i + 1;
    }
    (req.depot.ready_time as i128) + (legs.time[0][0] as i128) <= i64::MAX as i128
}

/// Nearest-neighbour tour with time-window feasibility.
///
/// From the depot at its ready time, repeatedly drive to the nearest
/// unvisited customer (lowest index on ties) that is reached by its window's
/// close and from which the depot is reached by its due time after service;
/// service starts at arrival or when the window opens. When no such customer
/// remains, return to the depot.
#[verifier::rlimit(50)]
pub fn solve_nn(req: &VrptwRequest, legs: &Legs) -> (plan: VrptwPlan)
    requires
        legs_fit(*req, *legs),
        times_fit(*req, *legs),
    ensures
        ({
            let fin = nn_final(*req, *legs);
            &&& plan.request_id@ == req.id@
            &&& plan.route@ == fin.4
            &&& plan.customers_total == req.customers@.len()
            &&& plan.customers_visited == plan.route@.len()
            &&& plan.return_time == fin.1 + leg_time(*legs, fin.0, 0)
            &&& plan.solver@ == "nearest-neighbour"@
            &&& plan.status@ == "feasible"@
            // what every such route satisfies
            &&& fin.3.len() == plan.route@.len()
            &&& forall|p: int, q: int| 0 <= p < q < fin.3.len() ==> #[trigger] fin.3[p] != #[trigger] fin.3[q]
            &&& forall|p: int| 0 <= p < plan.route@.len() ==> stop_valid(*req, *legs, #[trigger] plan.route@[p], fin.3[p])
            &&& forall|p: int| 0 <= p < plan.route@.len() - 1 ==> (#[trigger] plan.route@[p]).departure
                <= plan.route@[p + 1].arrival
            &&& plan.route@.len() > 0 ==> plan.return_time <= req.depot.due_time
            // the vehicle heads back only when no customer is reachable any more
            &&& forall|i: int| 0 <= i < req.customers@.len() ==> !#[trigger] reachable(*req, *legs, fin, i)
            // a customer left out is one the vehicle could not serve in time from its last stop: it
            // would arrive after the window closes, or could not get back to the depot by its due
            // time after serving it
            // each stop is the nearest customer that can be served in time from the stop
            // before it (ties to the earlier in the request), and service starts on arrival
            // or when its window opens
            &&& forall|p: int|
                0 <= p < plan.route@.len() ==> nearest_choice(
                    *req,
                    *legs,
                    fin.3.subrange(0, p),
                    prev_node(fin.3, p),
                    prev_time(*req, plan.route@, p),
                    #[trigger] fin.3[p],
                )
            &&& forall|p: int| 0 <= p < plan.route@.len() ==> #[trigger] arrives_on_time(*req, *legs, fin.3, plan.route@, p)
            &&& forall|i: int|
                0 <= i < req.customers@.len() && (forall|p: int| 0 <= p < fin.3.len() ==> fin.3[p] != i) ==> {
                    let c = #[trigger] req.customers@[i];
                    let arr = fin.1 + leg_time(*legs, fin.0, i + 1);
                    let begin = if arr >= c.window_open { arr } else { c.window_open as int };
                    arr > c.window_close || begin + c.service_time + leg_time(*legs, i + 1, 0) > req.depot.due_time
                }
        }),
{
    let n = req.customers.len();
    let mut visited: Vec<bool> = Vec::new();
    let mut i: usize = 0;
    while i < n
        invariant
            n == req.customers@.len(),
            i <= n,
            visited@ =~= Seq::new(i as nat, |j: int| false),
        decreases n - i,
    {
        visited.push(false);
        i = i + 1;
    }
    let mut route: Vec<RouteStop> = Vec::new();
    let mut cur: usize = 0;
    let mut cur_t: i64 = req.depot.ready_time;
    let ghost mut order: Seq<int> = Seq::empty();
    let ghost mut r: nat = 0;
    proof {
        lemma_steps(*req, *legs, 0);
    }
    loop
        invariant
            n == req.customers@.len(),
            legs_fit(*req, *legs),
            times_fit(*req, *legs),
            (cur as int, cur_t as int, visited@, order, route@) == nn_steps(*req, *legs, r),
            r == order.len(),
            nn_inv(*req, *legs, nn_steps(*req, *legs, r)),
        ensures
            (cur as int, cur_t as int, visited@, order, route@) == nn_steps(*req, *legs, r),
            nn_inv(*req, *legs, nn_steps(*req, *legs, r)),
            nn_pick(*req, *legs, nn_steps(*req, *legs, r), req.customers@.len()) is None,
        decreases n - r,
    {
        let ghost st = nn_steps(*req, *legs, r);
        match pick_next(req, legs, &visited, cur, cur_t, Ghost(st)) {
            Some((j, depart)) => {
                proof {
                    lemma_pick_sound(*req, *legs, st, n as nat);
                    lemma_visit_inv(*req, *legs, st, j as int);
                    lemma_steps(*req, *legs, (r + 1) as nat);
                    lemma_count_nonneg(visit(*req, *legs, st, j as int).2, n as nat);
                }
                let c = &req.customers[j];
                visited.set(j, true);
                proof {
                    assert(i64::MIN <= c.window_open + c.service_time);
                }
                route.push(RouteStop {
                    customer_id: c.id,
                    customer_name: c.name.clone(),
                    arrival: depart - c.service_time,
                    departure: depart,
                });
                cur = j + 1;
                cur_t = depart;
                proof {
                    order = order.push(j as int);
                    r = r + 1;
                    assert(visited@ =~= nn_steps(*req, *legs, r).2);
                    assert(route@ =~= nn_steps(*req, *legs, r).4);
                }
            },
            None => {
                break;
            },
        }
    }
    proof {
        let st = nn_steps(*req, *legs, r);
        lemma_count_nonneg(st.2, n as nat);
        lemma_steps_stay(*req, *legs, r, n as nat);
        lemma_pick_sound(*req, *legs, st, n as nat);
        lemma_steps_history(*req, *legs, n as nat);
        assert forall|i: int|
            0 <= i < req.customers@.len() && (forall|p: int| 0 <= p < st.3.len() ==> st.3[p] != i) implies {
                let c = #[trigger] req.customers@[i];
                let arr = st.1 + leg_time(*legs, st.0, i + 1);
                let begin = if arr >= c.window_open { arr } else { c.window_open as int };
                arr > c.window_close || begin + c.service_time + leg_time(*legs, i + 1, 0) > req.depot.due_time
            } by {
            if st.2[i] {
                let p = choose|p: int| 0 <= p < st.3.len() && st.3[p] == i;
            }
            assert(!reachable(*req, *legs, st, i));
        }
    }
    let back = legs.time[cur][0];
    proof {
        assert(0 <= leg_time(*legs, cur as int, 0));
        if order.len() > 0 {
            assert(stop_valid(*req, *legs, route@[order.len() - 1], order[order.len() - 1]));
        }
    }
    let return_time = cur_t + back;
    let visited_count = route.len();
    VrptwPlan {
        request_id: req.id.clone(),
        route,
        customers_total: n,
        customers_visited: visited_count,
        return_time,
        solver: String::from_str("nearest-neighbour"),
        status: String::from_str("feasible"),
    }
}

} // verus!
