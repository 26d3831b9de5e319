//! The CP-SAT model of a routing request with time windows, and the route
//! read from a solution.
//!
//! ```text
//! Nodes 0 = depot, 1..=N = customers.
//! x_ij in {0,1}: arc i -> j is used;  x_ii: node i is skipped
//! AddCircuit over all arcs including self-loops; the depot's self-loop
//! x_00 (declared after the time variables) is the route that visits no one,
//! so every customer is optional; staying home skips every customer
//! (x_ii - x_00 >= 0)
//! Objective: minimise the customers' self-loops (visit as many as possible)
//! t_i in [window_open_i, window_close_i] (scaled)
//! For each arc (i,j), i != j:  t_j - t_i - M*x_ij >= service_i + travel_ij - M
//! ```
use vstd::prelude::*;
use vstd::string::StringExecFns;

use crate::cpmodel::{
    circuit, declares_var, decl, lemma_step_holds, lemma_weighted_three, linear, ones, ones_vec, satisfies,
    step_refs_ok, weighted_sum, well_formed, CpModel, CpSolution, CpStatus, ModelOp, StepView,
};
use crate::routing::{any_pending, holds_id, is_pending, pending_prefix, pending_seeds, plan_exists, spec_request_id};
use crate::text::{label1, label2, name1, name2};
use super::greedy::REQUEST_PREFIX;
use super::problem::{Customer, RouteStop, VrptwPlan, VrptwRequest};

verus! {

pub const PLAN_PREFIX: &'static str = "vrptw-plan-cpsat:";

/// Distance scale factor: 1 unit = 0.01 distance units.
pub const SCALE: i64 = 100;

/// Solves the routing problem with time windows to optimality using CP-SAT
/// `AddCircuit` and time-window variables.
pub struct CpSatVrptwSuggestor;

impl CpSatVrptwSuggestor {
    pub fn name(&self) -> (r: &'static str)
        ensures
            r@ == "CpSatVrptwSuggestor"@,
    {
        "CpSatVrptwSuggestor"
    }

    pub fn complexity_hint(&self) -> (r: Option<&'static str>)
        ensures
            r is Some,
            r->0@ == "NP-hard; CP-SAT AddCircuit + time-window propagation; proves optimality for n ≤ 30 customers within 30 s"@,
    {
        Some("NP-hard; CP-SAT AddCircuit + time-window propagation; proves optimality for n ≤ 30 customers within 30 s")
    }

    /// Some seed is a routing request without a CP-SAT plan yet.
    pub fn accepts(&self, seed_ids: &Vec<String>, strategy_ids: &Vec<String>) -> (r: bool)
        ensures
            r == exists|i: int|
                0 <= i < seed_ids@.len() && #[trigger] is_pending(
                    seed_ids@[i]@,
                    strategy_ids@,
                    REQUEST_PREFIX@,
                    PLAN_PREFIX@,
                ),
    {
        any_pending(seed_ids, strategy_ids, REQUEST_PREFIX, PLAN_PREFIX)
    }

    /// Indices of the seeds that this suggestor answers in one pass.
    pub fn pending(&self, seed_ids: &Vec<String>, strategy_ids: &Vec<String>) -> (r: Vec<usize>)
        ensures
            r@ == pending_prefix(seed_ids@, strategy_ids@, REQUEST_PREFIX@, PLAN_PREFIX@, seed_ids@.len()),
    {
        pending_seeds(seed_ids, strategy_ids, REQUEST_PREFIX, PLAN_PREFIX)
    }
}

/// The request id carried by a routing request seed id.
pub fn request_id(fact_id: &str) -> (r: &str)
    ensures
        r@ == spec_request_id(fact_id@, REQUEST_PREFIX@),
{
    crate::routing::request_id(fact_id, REQUEST_PREFIX)
}

/// Whether the CP-SAT plan for `request_id` is already among the strategies.
pub fn own_plan_exists(strategy_ids: &Vec<String>, request_id: &str) -> (r: bool)
    ensures
        r == holds_id(strategy_ids@, PLAN_PREFIX@ + request_id@),
{
    plan_exists(strategy_ids, PLAN_PREFIX, request_id)
}

// ── The model ────────────────────────────────────────────────────────────────

/// Scaled travel times: `scaled[a][b]` is the distance from node `a` to node
/// `b` times `SCALE`, rounded up (node 0 the depot, node `i + 1` customer `i`).
pub open spec fn scaled_fit(req: VrptwRequest, scaled: Seq<Vec<i64>>) -> bool {
    let nn = req.customers@.len() + 1;
    &&& scaled.len() == nn
    &&& forall|a: int| 0 <= a < nn ==> (#[trigger] scaled[a])@.len() == nn
}

pub open spec fn sc(scaled: Seq<Vec<i64>>, a: int, b: int) -> int {
    scaled[a]@[b] as int
}

/// The value lies within `i64`.
pub open spec fn in_i64(x: int) -> bool {
    i64::MIN <= x <= i64::MAX
}

/// Scaled service time at node `i` (none at the depot).
pub open spec fn arc_svc(req: VrptwRequest, i: int) -> int {
    if i == 0 { 0 } else { req.customers@[i - 1].service_time * 100 }
}

/// Scaled travel time along the arc `i -> j` (a leg to or from the depot is
/// measured from the depot).
pub open spec fn arc_trav(scaled: Seq<Vec<i64>>, i: int, j: int) -> int {
    if i == 0 { sc(scaled, 0, j) } else if j == 0 { sc(scaled, 0, i) } else { sc(scaled, i, j) }
}

/// Every value that building the model computes fits in `i64`: each time
/// times `SCALE`, the due time's big-M, and for each arc its service plus
/// travel, and that minus big-M.
pub open spec fn vr_values_fit(req: VrptwRequest, scaled: Seq<Vec<i64>>) -> bool {
    let nn = req.customers@.len() + 1;
    &&& in_i64(req.depot.ready_time * 100)
    &&& in_i64(req.depot.due_time * 100 + 1)
    &&& forall|i: int|
        0 <= i < req.customers@.len() ==> {
            let c = #[trigger] req.customers@[i];
            &&& in_i64(c.window_open * 100)
            &&& in_i64(c.window_close * 100)
            &&& in_i64(c.service_time * 100)
        }
    &&& forall|i: int, j: int|
        0 <= i < nn && 0 <= j < nn && i != j ==> {
            &&& in_i64(arc_svc(req, i) + #[trigger] arc_trav(scaled, i, j))
            &&& in_i64(arc_svc(req, i) + arc_trav(scaled, i, j) - big_m(req))
        }
}

/// The model's handles fit in `usize`.
pub open spec fn vr_model_fits(req: VrptwRequest) -> bool {
    let nn = req.customers@.len() + 1;
    3 * (nn * nn) + 3 * nn + 8 < usize::MAX
}

/// First arc handle of row `i` (arcs go row by row, without the depot
/// self-loop).
pub open spec fn row_base(n: nat, i: nat) -> int
    decreases i,
{
    if i == 0 {
        0
    } else if i == 1 {
        n as int
    } else {
        row_base(n, (i - 1) as nat) + n + 1
    }
}

/// Handle of the arc `i -> j`.
pub open spec fn arc(n: nat, i: int, j: int) -> int {
    if i == 0 { j - 1 } else { row_base(n, i as nat) + j }
}

/// Number of arc variables.
pub open spec fn arc_count(n: nat) -> int {
    row_base(n, n + 1)
}

/// The arcs leaving node `i`, in order of head.
pub open spec fn row_heads(n: nat, i: int) -> Seq<int> {
    if i == 0 { Seq::new(n, |j: int| j + 1) } else { Seq::new(n + 1, |j: int| j) }
}

/// Arc declarations of the first `i` rows.
pub open spec fn arc_decls(n: nat, i: nat) -> Seq<StepView>
    decreases i,
{
    if i == 0 {
        Seq::empty()
    } else {
        let r = (i - 1) as int;
        arc_decls(n, (i - 1) as nat) + row_heads(n, r).map_values(
            |j: int| decl(ModelOp::BoolVar, label2("x_"@, r as nat, j as nat)),
        )
    }
}

/// Tails, heads and literals of the first `i` rows.
pub open spec fn arc_tails(n: nat, i: nat) -> Seq<usize>
    decreases i,
{
    if i == 0 {
        Seq::empty()
    } else {
        let r = (i - 1) as int;
        arc_tails(n, (i - 1) as nat) + row_heads(n, r).map_values(|j: int| r as usize)
    }
}

pub open spec fn arc_heads(n: nat, i: nat) -> Seq<usize>
    decreases i,
{
    if i == 0 {
        Seq::empty()
    } else {
        let r = (i - 1) as int;
        arc_heads(n, (i - 1) as nat) + row_heads(n, r).map_values(|j: int| j as usize)
    }
}

pub open spec fn arc_lits(n: nat, i: nat) -> Seq<usize>
    decreases i,
{
    if i == 0 {
        Seq::empty()
    } else {
        let r = (i - 1) as int;
        arc_lits(n, (i - 1) as nat) + row_heads(n, r).map_values(|j: int| arc(n, r, j) as usize)
    }
}

/// Handle of the time variable of node `i` when leaving it (the depot's is
/// its start time), and of the depot's return time.
pub open spec fn t_node(n: nat, i: int) -> int {
    if i == 0 { arc_count(n) } else { arc_count(n) + 1 + i }
}

pub open spec fn t_return(n: nat) -> int {
    arc_count(n) + 1
}

pub open spec fn big_m(req: VrptwRequest) -> int {
    req.depot.due_time * 100 + 1
}

/// Handle of the depot's self-loop, declared after the time variables.
pub open spec fn home_loop(n: nat) -> int {
    arc_count(n) + 2 + n
}

/// A vehicle that stays home skips every customer: for each customer `i`,
/// `x_ii - x_00 >= 0`.
pub open spec fn home_steps(n: nat) -> Seq<StepView> {
    Seq::new(
        n,
        |i: int|
            linear(
                ModelOp::LinearGe { rhs: 0 },
                seq![arc(n, i + 1, i + 1) as usize, home_loop(n) as usize],
                seq![1i64, -1i64],
            ),
    )
}

/// The time-consistency constraint of the arc `i -> j`, `i != j`.
pub open spec fn time_step(req: VrptwRequest, scaled: Seq<Vec<i64>>, i: int, j: int) -> StepView {
    let n = req.customers@.len();
    let svc: int = arc_svc(req, i);
    let trav: int = arc_trav(scaled, i, j);
    let m = big_m(req);
    let tj = if j == 0 { t_return(n) } else { t_node(n, j) };
    linear(
        ModelOp::LinearGe { rhs: (svc + trav - m) as i64 },
        seq![tj as usize, t_node(n, i) as usize, arc(n, i, j) as usize],
        seq![1i64, -1i64, (-m) as i64],
    )
}

/// The head of the `r`-th arc leaving `i` that is not a self-loop.
pub open spec fn other_head(i: int, r: int) -> int {
    if r < i { r } else { r + 1 }
}

/// Time constraints of the first `i` rows.
pub open spec fn time_steps(req: VrptwRequest, scaled: Seq<Vec<i64>>, i: nat) -> Seq<StepView>
    decreases i,
{
    if i == 0 {
        Seq::empty()
    } else {
        let r = (i - 1) as int;
        time_steps(req, scaled, (i - 1) as nat) + Seq::new(
            req.customers@.len(),
            |k: int| time_step(req, scaled, r, other_head(r, k)),
        )
    }
}

/// The whole model.
pub open spec fn vr_model(req: VrptwRequest, scaled: Seq<Vec<i64>>) -> Seq<StepView> {
    let n = req.customers@.len();
    let nn = n + 1;
    let cust = Seq::new(
        n,
        |i: int|
            decl(
                ModelOp::IntVar {
                    lb: (req.customers@[i].window_open * 100) as i64,
                    ub: (req.customers@[i].window_close * 100) as i64,
                },
                label1("t_"@, req.customers@[i].id as nat),
            ),
    );
    let loops = Seq::new(n, |i: int| arc(n, i + 1, i + 1) as usize);
    arc_decls(n, nn) + seq![
        decl(
            ModelOp::IntVar { lb: (req.depot.ready_time * 100) as i64, ub: (req.depot.ready_time * 100) as i64 },
            "t_depot_start"@,
        ),
        decl(ModelOp::IntVar { lb: 0, ub: (req.depot.due_time * 100) as i64 }, "t_depot_end"@),
    ] + cust + seq![
        decl(ModelOp::BoolVar, label2("x_"@, 0, 0)),
        circuit(
            arc_tails(n, nn).push(0usize),
            arc_heads(n, nn).push(0usize),
            arc_lits(n, nn).push(home_loop(n) as usize),
        ),
    ] + time_steps(req, scaled, nn) + home_steps(n) + (
    if n > 0 {
        seq![linear(ModelOp::Minimize, loops, ones(n))]
    } else {
        Seq::empty()
    })
}

proof fn lemma_row_base(n: nat, i: nat)
    ensures
        i > 0 ==> row_base(n, i) == n + (i - 1) * (n + 1),
        row_base(n, i) + row_heads(n, i as int).len() == row_base(n, i + 1),
    decreases i,
{
    if i > 1 {
        lemma_row_base(n, (i - 1) as nat);
        assert((i - 2) * (n + 1) + (n + 1) == (i - 1) * (n + 1)) by (nonlinear_arith);
    } else if i == 1 {
        assert((i - 1) * (n + 1) == 0) by (nonlinear_arith) requires i == 1;
    }
}

proof fn lemma_arc_count(n: nat)
    ensures
        arc_count(n) == (n + 1) * (n + 1) - 1,
{
    lemma_row_base(n, n + 1);
    assert(n + n * (n + 1) == (n + 1) * (n + 1) - 1) by (nonlinear_arith);
}

proof fn lemma_row_base_mono(n: nat, i: nat, k: nat)
    requires
        i <= k,
    ensures
        row_base(n, i) <= row_base(n, k),
    decreases k,
{
    if i < k {
        lemma_row_base_mono(n, i, (k - 1) as nat);
        lemma_row_base(n, (k - 1) as nat);
    }
}

// ── The model refers only to what it declares ───────────────────────────────

/// Handle `v` is a variable of the model, declared before the circuit.
pub open spec fn vr_var(req: VrptwRequest, scaled: Seq<Vec<i64>>, v: int) -> bool {
    let n = req.customers@.len();
    let m = vr_model(req, scaled);
    &&& 0 <= v < arc_count(n) + 2 + n
    &&& (m[v].0 is IntVar || m[v].0 is BoolVar)
}

proof fn lemma_arc_decls(n: nat, i: nat)
    requires
        i <= n + 1,
    ensures
        arc_decls(n, i).len() == row_base(n, i),
        forall|x: int| 0 <= x < arc_decls(n, i).len() ==> (#[trigger] arc_decls(n, i)[x]).0 is BoolVar,
    decreases i,
{
    if i > 0 {
        let r = (i - 1) as int;
        lemma_arc_decls(n, (i - 1) as nat);
        lemma_row_base(n, (i - 1) as nat);
        let prev = arc_decls(n, (i - 1) as nat);
        let new = row_heads(n, r).map_values(|j: int| decl(ModelOp::BoolVar, label2("x_"@, r as nat, j as nat)));
        let cur = arc_decls(n, i);
        assert forall|x: int| 0 <= x < cur.len() implies (#[trigger] cur[x]).0 is BoolVar by {
            if x < prev.len() {
                assert(cur[x] == prev[x]);
            } else {
                assert(cur[x] == new[x - prev.len()]);
            }
        }
    }
}

/// An arc of row `r` has a handle below the next row's first.
proof fn lemma_arc_in_row(n: nat, r: int, j: int)
    requires
        0 <= r <= n,
        0 <= j <= n,
        r == 0 ==> j >= 1,
    ensures
        0 <= arc(n, r, j) < row_base(n, (r + 1) as nat),
        row_base(n, r as nat) <= arc(n, r, j),
{
    lemma_row_base(n, r as nat);
    if r > 0 {
        assert(row_base(n, r as nat) == n + (r - 1) * (n + 1));
        assert((r - 1) * (n + 1) >= 0) by (nonlinear_arith) requires r >= 1;
    }
}

proof fn lemma_arc_lists(n: nat, i: nat)
    requires
        i <= n + 1,
        3 * ((n + 1) * (n + 1)) + 3 * (n + 1) + 8 < usize::MAX,
    ensures
        arc_tails(n, i).len() == row_base(n, i),
        arc_heads(n, i).len() == row_base(n, i),
        arc_lits(n, i).len() == row_base(n, i),
        forall|x: int| 0 <= x < arc_lits(n, i).len() ==> #[trigger] arc_lits(n, i)[x] < row_base(n, i),
    decreases i,
{
    if i > 0 {
        let r = (i - 1) as int;
        lemma_arc_lists(n, (i - 1) as nat);
        lemma_row_base(n, (i - 1) as nat);
        lemma_row_base_mono(n, i, n + 1);
        lemma_arc_count(n);
        let prev = arc_lits(n, (i - 1) as nat);
        let new = row_heads(n, r).map_values(|j: int| arc(n, r, j) as usize);
        let cur = arc_lits(n, i);
        assert forall|x: int| 0 <= x < cur.len() implies #[trigger] cur[x] < row_base(n, i) by {
            if x < prev.len() {
                assert(cur[x] == prev[x]);
                lemma_row_base_mono(n, (i - 1) as nat, i);
            } else {
                let y = x - prev.len();
                assert(cur[x] == new[y]);
                let j = row_heads(n, r)[y];
                lemma_arc_in_row(n, r, j);
                assert(row_base(n, i) <= (n + 1) * (n + 1)) by {
                    lemma_row_base_mono(n, i, n + 1);
                }
            }
        }
    }
}

/// The time variables and the arc literals of the model.
proof fn lemma_vr_handles(req: VrptwRequest, scaled: Seq<Vec<i64>>)
    requires
        vr_model_fits(req),
    ensures
        ({
            let n = req.customers@.len();
            &&& forall|i: int| 0 <= i <= n ==> vr_var(req, scaled, #[trigger] t_node(n, i))
            &&& vr_var(req, scaled, t_return(n))
            &&& forall|r: int, j: int|
                0 <= r <= n && 0 <= j <= n && (r == 0 ==> j >= 1) ==> vr_var(req, scaled, #[trigger] arc(n, r, j))
        }),
{
    let n = req.customers@.len();
    let ac = arc_count(n);
    let m = vr_model(req, scaled);
    lemma_arc_decls(n, n + 1);
    let ad = arc_decls(n, n + 1);
    assert forall|v: int| 0 <= v < ac implies m[v] == #[trigger] ad[v] by {}
    assert(m[ac].0 is IntVar);
    assert(m[ac + 1].0 is IntVar);
    assert forall|i: int| 0 <= i <= n implies vr_var(req, scaled, #[trigger] t_node(n, i)) by {
        if i > 0 {
            assert(m[ac + 1 + i].0 is IntVar);
        }
    }
    assert forall|r: int, j: int| 0 <= r <= n && 0 <= j <= n && (r == 0 ==> j >= 1) implies vr_var(
        req,
        scaled,
        #[trigger] arc(n, r, j),
    ) by {
        lemma_arc_in_row(n, r, j);
        lemma_row_base_mono(n, (r + 1) as nat, n + 1);
        assert(m[arc(n, r, j)] == ad[arc(n, r, j)]);
    }
}

proof fn lemma_time_step_elems(req: VrptwRequest, scaled: Seq<Vec<i64>>, i: nat)
    requires
        i <= req.customers@.len() + 1,
        vr_model_fits(req),
    ensures
        forall|x: int|
            0 <= x < time_steps(req, scaled, i).len() ==> {
                let st = #[trigger] time_steps(req, scaled, i)[x];
                &&& st.0 is LinearGe
                &&& st.3.len() == st.2.len()
                &&& forall|y: int| 0 <= y < st.2.len() ==> vr_var(req, scaled, #[trigger] st.2[y] as int)
            },
    decreases i,
{
    if i > 0 {
        let n = req.customers@.len();
        let r = (i - 1) as int;
        lemma_time_step_elems(req, scaled, (i - 1) as nat);
        lemma_vr_handles(req, scaled);
        lemma_arc_count(n);
        let prev = time_steps(req, scaled, (i - 1) as nat);
        let cur = time_steps(req, scaled, i);
        assert forall|x: int| 0 <= x < cur.len() implies {
            let st = #[trigger] cur[x];
            &&& st.0 is LinearGe
            &&& st.3.len() == st.2.len()
            &&& forall|y: int| 0 <= y < st.2.len() ==> vr_var(req, scaled, #[trigger] st.2[y] as int)
        } by {
            if x < prev.len() {
                assert(cur[x] == prev[x]);
            } else {
                let k = x - prev.len();
                let j = other_head(r, k);
                assert(cur[x] == time_step(req, scaled, r, j));
                let tj = if j == 0 { t_return(n) } else { t_node(n, j) };
                assert(vr_var(req, scaled, tj));
                assert(vr_var(req, scaled, t_node(n, r)));
                assert(vr_var(req, scaled, arc(n, r, j)));
                lemma_arc_in_row(n, r, j);
                lemma_row_base_mono(n, (r + 1) as nat, n + 1);
                assert((n + 1) * (n + 1) >= 1) by (nonlinear_arith);
                assert(cur[x].2[0] as int == tj);
                assert(cur[x].2[1] as int == t_node(n, r));
                assert(cur[x].2[2] as int == arc(n, r, j));
            }
        }
    }
}

/// The routing model refers only to what it declares: the circuit and the
/// objective use earlier arc literals, each time constraint weighs earlier
/// variables with one coefficient each.
pub proof fn lemma_vr_model_well_formed(req: VrptwRequest, scaled: Seq<Vec<i64>>)
    requires
        vr_model_fits(req),
    ensures
        well_formed(vr_model(req, scaled)),
{
    let n = req.customers@.len();
    let nn = n + 1;
    let ac = arc_count(n);
    let m = vr_model(req, scaled);
    lemma_arc_decls(n, nn);
    lemma_arc_lists(n, nn);
    lemma_arc_count(n);
    lemma_vr_handles(req, scaled);
    lemma_time_step_elems(req, scaled, nn);
    let ad = arc_decls(n, nn);
    let ts = time_steps(req, scaled, nn);
    let cb = ac + 3 + n;
    let tb = cb + 1;
    let hb = tb + ts.len();
    let zb = hb + n;
    let hs = home_steps(n);
    assert forall|q: int| 0 <= q < m.len() implies #[trigger] step_refs_ok(m, q) by {
        if q < ac {
            assert(m[q] == ad[q]);
        } else if q < cb {
        } else if q == cb {
            let st = m[q];
            let lits = arc_lits(n, nn).push(home_loop(n) as usize);
            assert(st == circuit(arc_tails(n, nn).push(0usize), arc_heads(n, nn).push(0usize), lits));
            assert(m[home_loop(n)].0 is BoolVar);
            assert forall|y: int| 0 <= y < st.2.len() implies declares_var(m, #[trigger] st.2[y] as int, q) by {
                if y < arc_lits(n, nn).len() {
                    let v = arc_lits(n, nn)[y];
                    assert(lits[y] == v);
                    assert(v < ac);
                    assert(m[v as int] == ad[v as int]);
                } else {
                    assert(lits[y] as int == home_loop(n));
                }
            }
        } else if q < hb {
            assert(m[q] == ts[q - tb]);
            let st = ts[q - tb];
            assert forall|y: int| 0 <= y < st.2.len() implies declares_var(m, #[trigger] st.2[y] as int, q) by {
                assert(vr_var(req, scaled, st.2[y] as int));
            }
        } else if q < zb {
            let y0 = q - hb;
            assert(m[q] == hs[y0]);
            let st = hs[y0];
            lemma_arc_in_row(n, y0 + 1, y0 + 1);
            lemma_row_base_mono(n, (y0 + 2) as nat, n + 1);
            assert(vr_var(req, scaled, arc(n, y0 + 1, y0 + 1)));
            assert(m[home_loop(n)].0 is BoolVar);
            assert forall|y: int| 0 <= y < st.2.len() implies declares_var(m, #[trigger] st.2[y] as int, q) by {
                if y == 0 {
                    assert(st.2[y] as int == arc(n, y0 + 1, y0 + 1));
                } else {
                    assert(st.2[y] as int == home_loop(n));
                }
            }
        } else {
            let st = m[q];
            let loops = Seq::new(n, |i: int| arc(n, i + 1, i + 1) as usize);
            assert(st == linear(ModelOp::Minimize, loops, ones(n)));
            assert forall|y: int| 0 <= y < st.2.len() implies declares_var(m, #[trigger] st.2[y] as int, q) by {
                lemma_arc_in_row(n, y + 1, y + 1);
                lemma_row_base_mono(n, (y + 2) as nat, n + 1);
                assert(vr_var(req, scaled, arc(n, y + 1, y + 1)));
                assert(st.2[y] as int == arc(n, y + 1, y + 1));
            }
        }
    }
}

/// Builds the CP-SAT model of the request with the given scaled travel times.
#[verifier::rlimit(80)]
pub fn build_vr_model(req: &VrptwRequest, scaled: &Vec<Vec<i64>>) -> (m: CpModel)
    requires
        scaled_fit(*req, scaled@),
        vr_values_fit(*req, scaled@),
        vr_model_fits(*req),
    ensures
        m.spec_steps() == vr_model(*req, scaled@),
{
    let n = req.customers.len();
    let nn = n + 1;
    let mut model = CpModel::new();
    proof {
        lemma_arc_count(n as nat);
        assert(nn * nn >= 1) by (nonlinear_arith) requires nn >= 1;
        assert(nn * n <= nn * nn) by (nonlinear_arith) requires n <= nn;
    }
    let ghost ac = arc_count(n as nat);
    let ghost sq = nn * nn;

    // arc literals, row by row, with the circuit's lists
    let mut tails: Vec<usize> = Vec::new();
    let mut heads: Vec<usize> = Vec::new();
    let mut lits: Vec<usize> = Vec::new();
    let mut i: usize = 0;
    while i < nn
        invariant
            n == req.customers@.len(),
            nn == n + 1,
            i <= nn,
            ac == arc_count(n as nat),
            ac == sq - 1,
            sq == nn * nn,
            nn * n <= sq,
            3 * sq + 3 * nn + 8 < usize::MAX,
            model.spec_steps() == arc_decls(n as nat, i as nat),
            model.steps@.len() == row_base(n as nat, i as nat),
            row_base(n as nat, i as nat) <= ac,
            tails@ == arc_tails(n as nat, i as nat),
            heads@ == arc_heads(n as nat, i as nat),
            lits@ == arc_lits(n as nat, i as nat),
        decreases nn - i,
    {
        proof {
            lemma_row_base(n as nat, i as nat);
            lemma_row_base_mono(n as nat, (i + 1) as nat, nn as nat);
        }
        let mut j: usize = if i == 0 { 1 } else { 0 };
        let ghost first = j;
        while j < nn
            invariant
                n == req.customers@.len(),
                nn == n + 1,
                i < nn,
                first == (if i == 0 { 1usize } else { 0usize }),
                first <= j <= nn,
                ac == arc_count(n as nat),
                ac == sq - 1,
                sq == nn * nn,
                3 * sq + 3 * nn + 8 < usize::MAX,
                row_base(n as nat, (i + 1) as nat) <= ac,
                row_base(n as nat, i as nat) + row_heads(n as nat, i as int).len() == row_base(n as nat, (i + 1) as nat),
                model.spec_steps() == arc_decls(n as nat, i as nat) + row_heads(n as nat, i as int).subrange(
                    0,
                    j - first,
                ).map_values(|h: int| decl(ModelOp::BoolVar, label2("x_"@, i as nat, h as nat))),
                model.steps@.len() == row_base(n as nat, i as nat) + j - first,
                tails@ == arc_tails(n as nat, i as nat) + row_heads(n as nat, i as int).subrange(0, j - first).map_values(
                    |h: int| i as usize,
                ),
                heads@ == arc_heads(n as nat, i as nat) + row_heads(n as nat, i as int).subrange(0, j - first).map_values(
                    |h: int| h as usize,
                ),
                lits@ == arc_lits(n as nat, i as nat) + row_heads(n as nat, i as int).subrange(0, j - first).map_values(
                    |h: int| arc(n as nat, i as int, h) as usize,
                ),
            decreases nn - j,
        {
            let ghost rh = row_heads(n as nat, i as int);
            let ghost k = j - first;
            assert(rh[k as int] == j);
            let h = model.new_bool_var(name2("x_", i, j));
            tails.push(i);
            heads.push(j);
            lits.push(h);
            proof {
                assert(rh.subrange(0, k + 1) =~= rh.subrange(0, k as int).push(j as int));
                assert(h == arc(n as nat, i as int, j as int));
                assert(model.spec_steps() =~= arc_decls(n as nat, i as nat) + rh.subrange(0, k + 1).map_values(
                    |h: int| decl(ModelOp::BoolVar, label2("x_"@, i as nat, h as nat)),
                ));
                assert(tails@ =~= arc_tails(n as nat, i as nat) + rh.subrange(0, k + 1).map_values(|h: int| i as usize));
                assert(heads@ =~= arc_heads(n as nat, i as nat) + rh.subrange(0, k + 1).map_values(|h: int| h as usize));
                assert(lits@ =~= arc_lits(n as nat, i as nat) + rh.subrange(0, k + 1).map_values(
                    |h: int| arc(n as nat, i as int, h) as usize,
                ));
            }
            j = j + 1;
        }
        proof {
            let rh = row_heads(n as nat, i as int);
            assert(rh.subrange(0, rh.len() as int) =~= rh);
        }
        i = i + 1;
    }

    // time variables
    let ready = req.depot.ready_time * SCALE;
    let depot_start = model.new_int_var(ready, ready, String::from_str("t_depot_start"));
    let depot_end = model.new_int_var(0, req.depot.due_time * SCALE, String::from_str("t_depot_end"));
    let ghost p1 = model.spec_steps();
    assert(depot_start == ac && depot_end == ac + 1);
    let mut c: usize = 0;
    while c < n
        invariant
            n == req.customers@.len(),
            nn == n + 1,
            c <= n,
            ac == arc_count(n as nat),
            ac == sq - 1,
            sq == nn * nn,
            nn * n <= sq,
            3 * sq + 3 * nn + 8 < usize::MAX,
            vr_values_fit(*req, scaled@),
            p1.len() == ac + 2,
            depot_start == ac,
            depot_end == ac + 1,
            model.spec_steps() == p1 + Seq::new(
                c as nat,
                |x: int|
                    decl(
                        ModelOp::IntVar {
                            lb: (req.customers@[x].window_open * 100) as i64,
                            ub: (req.customers@[x].window_close * 100) as i64,
                        },
                        label1("t_"@, req.customers@[x].id as nat),
                    ),
            ),
            model.steps@.len() == ac + 2 + c,
        decreases n - c,
    {
        let cu = &req.customers[c];
        let ghost before = model.spec_steps();
        model.new_int_var(cu.window_open * SCALE, cu.window_close * SCALE, name1("t_", cu.id));
        proof {
            assert(model.spec_steps() =~= p1 + Seq::new(
                (c + 1) as nat,
                |x: int|
                    decl(
                        ModelOp::IntVar {
                            lb: (req.customers@[x].window_open * 100) as i64,
                            ub: (req.customers@[x].window_close * 100) as i64,
                        },
                        label1("t_"@, req.customers@[x].id as nat),
                    ),
            ));
        }
        c = c + 1;
    }

    // the depot's self-loop: the vehicle may stay home
    let home = model.new_bool_var(name2("x_", 0, 0));
    tails.push(0);
    heads.push(0);
    lits.push(home);
    model.add_circuit(tails, heads, lits);

    // time consistency along each used arc
    let big = req.depot.due_time * SCALE + 1;
    let ghost p2 = model.spec_steps();
    let mut i: usize = 0;
    while i < nn
        invariant
            n == req.customers@.len(),
            nn == n + 1,
            i <= nn,
            ac == arc_count(n as nat),
            ac == sq - 1,
            sq == nn * nn,
            nn * n <= sq,
            3 * sq + 3 * nn + 8 < usize::MAX,
            scaled_fit(*req, scaled@),
            vr_values_fit(*req, scaled@),
            big == big_m(*req),
            depot_start == ac,
            depot_end == ac + 1,
            p2.len() == ac + 4 + n,
            model.spec_steps() == p2 + time_steps(*req, scaled@, i as nat),
            model.steps@.len() == p2.len() + i * n,
            i * n <= nn * n,
        decreases nn - i,
    {
        proof {
            lemma_row_base(n as nat, i as nat);
            lemma_row_base_mono(n as nat, (i + 1) as nat, nn as nat);
            assert((i + 1) * n <= nn * n) by (nonlinear_arith) requires i + 1 <= nn;
            assert((i + 1) * n == i * n + n) by (nonlinear_arith);
        }
        let mut k: usize = 0;
        while k < n
            invariant
                n == req.customers@.len(),
                nn == n + 1,
                i < nn,
                k <= n,
                ac == arc_count(n as nat),
                ac == sq - 1,
                sq == nn * nn,
                nn * n <= sq,
                3 * sq + 3 * nn + 8 < usize::MAX,
                scaled_fit(*req, scaled@),
                vr_values_fit(*req, scaled@),
                big == big_m(*req),
                depot_start == ac,
                depot_end == ac + 1,
                p2.len() == ac + 4 + n,
                (i + 1) * n <= nn * n,
                (i + 1) * n == i * n + n,
                row_base(n as nat, i as nat) + row_heads(n as nat, i as int).len() <= ac,
                model.spec_steps() == p2 + time_steps(*req, scaled@, i as nat) + Seq::new(
                    k as nat,
                    |x: int| time_step(*req, scaled@, i as int, other_head(i as int, x)),
                ),
                model.steps@.len() == p2.len() + i * n + k,
            decreases n - k,
        {
            let j = if k < i { k } else { k + 1 };
            let svc: i64 = if i == 0 { 0 } else { req.customers[i - 1].service_time * SCALE };
            let trav: i64 = if i == 0 {
                scaled[0][j]
            } else if j == 0 {
                scaled[0][i]
            } else {
                scaled[i][j]
            };
            let tj = if j == 0 { depot_end } else { ac_plus(ac_exec(n), 1 + j) };
            let ti = if i == 0 { depot_start } else { ac_plus(ac_exec(n), 1 + i) };
            let lit = if i == 0 { j - 1 } else { row_base_exec(n, i) + j };
            proof {
                assert(j < nn && j != i);
                assert(in_i64(arc_svc(*req, i as int) + arc_trav(scaled@, i as int, j as int)));
                assert(in_i64(svc + trav - big_m(*req)));
                if i > 0 {
                    assert(row_heads(n as nat, i as int).len() == nn);
                }
            }
            let mut vars: Vec<usize> = Vec::new();
            vars.push(tj);
            vars.push(ti);
            vars.push(lit);
            let mut coeffs: Vec<i64> = Vec::new();
            coeffs.push(1);
            coeffs.push(-1);
            coeffs.push(-big);
            let ghost before = model.spec_steps();
            model.add_linear(ModelOp::LinearGe { rhs: svc + trav - big }, vars, coeffs);
            proof {
                assert(vars@ =~= seq![tj, ti, lit]);
                assert(coeffs@ =~= seq![1i64, -1i64, (-big) as i64]);
                let ts = time_step(*req, scaled@, i as int, j as int);
                assert(ts.2 == vars@);
                assert(ts.3 == coeffs@);
                assert(ts.0 == ModelOp::LinearGe { rhs: (svc + trav - big) as i64 });
                assert(before.push(ts) == model.spec_steps());
                assert(model.spec_steps() =~= p2 + time_steps(*req, scaled@, i as nat) + Seq::new(
                    (k + 1) as nat,
                    |x: int| time_step(*req, scaled@, i as int, other_head(i as int, x)),
                ));
            }
            k = k + 1;
        }
        i = i + 1;
    }

    // staying home skips every customer
    let ghost p3 = model.spec_steps();
    let mut c: usize = 0;
    while c < n
        invariant
            n == req.customers@.len(),
            nn == n + 1,
            c <= n,
            ac == arc_count(n as nat),
            ac == sq - 1,
            sq == nn * nn,
            nn * n <= sq,
            3 * sq + 3 * nn + 8 < usize::MAX,
            home == home_loop(n as nat),
            model.spec_steps() == p3 + home_steps(n as nat).subrange(0, c as int),
            model.steps@.len() == p3.len() + c,
            p3.len() == ac + 4 + n + nn * n,
        decreases n - c,
    {
        proof {
            lemma_row_base(n as nat, (c + 1) as nat);
            lemma_row_base_mono(n as nat, (c + 2) as nat, nn as nat);
            assert(nn * n + n + ac + 4 + n < usize::MAX) by (nonlinear_arith)
                requires
                    3 * sq + 3 * nn + 8 < usize::MAX,
                    nn * n <= sq,
                    ac == sq - 1,
                    nn == n + 1,
            ;
        }
        let mut vars: Vec<usize> = Vec::new();
        vars.push(row_base_exec(n, c + 1) + c + 1);
        vars.push(home);
        let mut coeffs: Vec<i64> = Vec::new();
        coeffs.push(1);
        coeffs.push(-1);
        let ghost before = model.spec_steps();
        model.add_linear(ModelOp::LinearGe { rhs: 0 }, vars, coeffs);
        proof {
            assert(vars@ =~= seq![arc(n as nat, c + 1, c + 1) as usize, home_loop(n as nat) as usize]);
            assert(coeffs@ =~= seq![1i64, -1i64]);
            assert(model.spec_steps() =~= p3 + home_steps(n as nat).subrange(0, c + 1));
        }
        c = c + 1;
    }
    proof {
        assert(home_steps(n as nat).subrange(0, n as int) =~= home_steps(n as nat));
    }

    // visit as many customers as possible: minimise the skipped ones
    if n > 0 {
        let mut loops: Vec<usize> = Vec::new();
        let mut c: usize = 0;
        while c < n
            invariant
                n == req.customers@.len(),
                nn == n + 1,
                c <= n,
                ac == arc_count(n as nat),
                ac == sq - 1,
                sq == nn * nn,
                nn * n <= sq,
                3 * sq + 3 * nn + 8 < usize::MAX,
                loops@ =~= Seq::new(c as nat, |x: int| arc(n as nat, x + 1, x + 1) as usize),
            decreases n - c,
        {
            proof {
                lemma_row_base(n as nat, (c + 1) as nat);
                lemma_row_base_mono(n as nat, (c + 2) as nat, nn as nat);
            }
            loops.push(row_base_exec(n, c + 1) + c + 1);
            c = c + 1;
        }
        let cs = ones_vec(n);
        model.add_linear(ModelOp::Minimize, loops, cs);
    }
    proof {
        assert(model.spec_steps() =~= vr_model(*req, scaled@));
    }
    model
}

/// `arc_count(n)`.
fn ac_exec(n: usize) -> (r: usize)
    requires
        3 * ((n + 1) * (n + 1)) + 3 * (n + 1) + 8 < usize::MAX,
    ensures
        r == arc_count(n as nat),
{
    proof {
        lemma_arc_count(n as nat);
        assert((n + 1) * (n + 1) >= 1) by (nonlinear_arith);
    }
    (n + 1) * (n + 1) - 1
}

fn ac_plus(a: usize, b: usize) -> (r: usize)
    requires
        a + b <= usize::MAX,
    ensures
        r == a + b,
{
    a + b
}

/// `row_base(n, i)`.
fn row_base_exec(n: usize, i: usize) -> (r: usize)
    requires
        i <= n + 1,
        3 * ((n + 1) * (n + 1)) + 3 * (n + 1) + 8 < usize::MAX,
    ensures
        r == row_base(n as nat, i as nat),
{
    proof {
        lemma_row_base(n as nat, i as nat);
        lemma_row_base_mono(n as nat, i as nat, (n + 1) as nat);
        lemma_arc_count(n as nat);
    }
    if i == 0 {
        0
    } else {
        proof {
            assert((i - 1) * (n + 1) <= (n + 1) * (n + 1)) by (nonlinear_arith) requires i <= n + 1;
        }
        n + (i - 1) * (n + 1)
    }
}


/// Whether the model's handles fit in `usize` for `n` customers.
fn vr_model_fits_exec(n: usize) -> (r: bool)
    ensures
        r == (3 * ((n + 1) * (n + 1)) + 3 * (n + 1) + 8 < usize::MAX),
{
    if n == usize::MAX {
        proof {
            assert(3 * ((n + 1) * (n + 1)) >= 0) by (nonlinear_arith);
        }
        return false;
    }
    let nn = n + 1;
    match nn.checked_mul(nn) {
        None => {
            proof {
                assert(3 * (nn * nn) >= nn * nn) by (nonlinear_arith) requires nn * nn >= 0;
            }
            false
        },
        Some(sq) => {
            proof {
                assert(sq >= 0);
            }
            3 * (sq as u128) + 3 * (nn as u128) + 8 < usize::MAX as u128
        },
    }
}

/// Whether `x * 100` fits in `i64`.
fn scales(x: i64) -> (r: bool)
    ensures
        r == in_i64(x * 100),
{
    let w: i128 = (x as i128) * 100;
    i64::MIN as i128 <= w && w <= i64::MAX as i128
}

/// Whether `build_vr_model` can run on these inputs: the scaled table is
/// square over the depot and the customers, every value the model computes
/// fits in `i64`, and the model's handles fit in `usize`.
pub fn can_build_vr_model(req: &VrptwRequest, scaled: &Vec<Vec<i64>>) -> (r: bool)
    ensures
        r == (scaled_fit(*req, scaled@) && vr_values_fit(*req, scaled@) && vr_model_fits(*req)),
{
    let n = req.customers.len();
    if !vr_model_fits_exec(n) {
        return false;
    }
    let nn = n + 1;
    if scaled.len() != nn {
        return false;
    }
    let mut a: usize = 0;
    while a < nn
        invariant
            nn == n + 1,
            n == req.customers@.len(),
            nn == scaled@.len(),
            a <= nn,
            forall|x: int| 0 <= x < a ==> (#[trigger] scaled@[x])@.len() == nn,
        decreases nn - a,
    {
        if scaled[a].len() != nn {
            return false;
        }
        a = a + 1;
    }
    if !scales(req.depot.ready_time) {
        return false;
    }
    let due_wide: i128 = (req.depot.due_time as i128) * 100 + 1;
    if due_wide < i64::MIN as i128 || due_wide > i64::MAX as i128 {
        return false;
    }
    let mut i: usize = 0;
    while i < n
        invariant
            n == req.customers@.len(),
            i <= n,
            forall|x: int|
                0 <= x < i ==> {
                    let c = #[trigger] req.customers@[x];
                    &&& in_i64(c.window_open * 100)
                    &&& in_i64(c.window_close * 100)
                    &&& in_i64(c.service_time * 100)
                },
        decreases n - i,
    {
        let c = &req.customers[i];
        if !scales(c.window_open) || !scales(c.window_close) || !scales(c.service_time) {
            assert(req.customers@[i as int] == *c);
            return false;
        }
        i = i + 1;
    }
    let mut x: usize = 0;
    while x < nn
        invariant
            nn == n + 1,
            n == req.customers@.len(),
            nn == scaled@.len(),
            forall|y: int| 0 <= y < nn ==> (#[trigger] scaled@[y])@.len() == nn,
            forall|y: int| 0 <= y < n ==> in_i64((#[trigger] req.customers@[y]).service_time * 100),
            due_wide == big_m(*req),
            x <= nn,
            forall|p: int, q: int|
                0 <= p < x && 0 <= q < nn && p != q ==> {
                    &&& in_i64(arc_svc(*req, p) + #[trigger] arc_trav(scaled@, p, q))
                    &&& in_i64(arc_svc(*req, p) + arc_trav(scaled@, p, q) - big_m(*req))
                },
        decreases nn - x,
    {
        let svc: i128 = if x == 0 { 0 } else { (req.customers[x - 1].service_time as i128) * 100 };
        let mut y: usize = 0;
        while y < nn
            invariant
                nn == n + 1,
                n == req.customers@.len(),
                nn == scaled@.len(),
                forall|z: int| 0 <= z < nn ==> (#[trigger] scaled@[z])@.len() == nn,
                due_wide == big_m(*req),
                x < nn,
                svc == arc_svc(*req, x as int),
                y <= nn,
                forall|q: int|
                    0 <= q < y && x != q ==> {
                        &&& in_i64(arc_svc(*req, x as int) + #[trigger] arc_trav(scaled@, x as int, q))
                        &&& in_i64(arc_svc(*req, x as int) + arc_trav(scaled@, x as int, q) - big_m(*req))
                    },
            decreases nn - y,
        {
            if x != y {
                let trav: i64 = if x == 0 {
                    scaled[0][y]
                } else if y == 0 {
                    scaled[0][x]
                } else {
                    scaled[x][y]
                };
                assert(trav == arc_trav(scaled@, x as int, y as int));
                let sum: i128 = svc + (trav as i128);
                if sum < i64::MIN as i128 || sum > i64::MAX as i128 || sum - due_wide < i64::MIN as i128 || sum
                    - due_wide > i64::MAX as i128 {
                    return false;
                }
            }
            y = y + 1;
        }
        x = x + 1;
    }
    true
}

/// Whether `vr_plan_from_solution` can read this solution: when the solver
/// found one, a value is present for every declared variable and each
/// stop's departure fits in `i64`.
pub fn can_read_vr_solution(req: &VrptwRequest, sol: &CpSolution) -> (r: bool)
    requires
        vr_model_fits(*req),
    ensures
        r == (sol.status.spec_is_success() ==> vr_solution_fits(*req, sol.values@) && stops_fit(*req, sol.values@)),
{
    let n = req.customers.len();
    if !sol.status.is_success() {
        return true;
    }
    proof {
        lemma_arc_count(n as nat);
        assert((n + 1) * (n + 1) >= 1) by (nonlinear_arith);
    }
    let ac = ac_exec(n);
    if sol.values.len() <= ac + 1 + n {
        return false;
    }
    let nodes = cp_route_nodes(req, sol);
    proof {
        lemma_walk(n as nat, sol.values@, (n + 1) as nat);
    }
    let mut p: usize = 0;
    while p < nodes.len()
        invariant
            n == req.customers@.len(),
            ac == arc_count(n as nat),
            ac == (n + 1) * (n + 1) - 1,
            vr_model_fits(*req),
            sol.status.spec_is_success(),
            vr_solution_fits(*req, sol.values@),
            nodes@.len() == route_nodes(*req, sol.values@).len(),
            forall|q: int| 0 <= q < nodes@.len() ==> nodes@[q] as int == #[trigger] route_nodes(*req, sol.values@)[q],
            forall|q: int| 0 <= q < nodes@.len() ==> 1 <= #[trigger] route_nodes(*req, sol.values@)[q] <= n,
            p <= nodes@.len(),
            forall|q: int|
                0 <= q < p ==> {
                    let j = #[trigger] route_nodes(*req, sol.values@)[q];
                    i64::MIN <= div100(sol.values@[t_node(n as nat, j)] as int) + req.customers@[j - 1].service_time
                        <= i64::MAX
                },
        decreases nodes.len() - p,
    {
        let j = nodes[p];
        proof {
            assert(1 <= route_nodes(*req, sol.values@)[p as int] <= n);
        }
        let arrival = div100_exec(sol.values[ac + 1 + j]);
        let dep: i128 = (arrival as i128) + (req.customers[j - 1].service_time as i128);
        if dep < i64::MIN as i128 || dep > i64::MAX as i128 {
            proof {
                assert(route_nodes(*req, sol.values@)[p as int] == j);
                assert(t_node(n as nat, j as int) == ac + 1 + j);
                assert(!(i64::MIN <= div100(sol.values@[t_node(n as nat, j as int)] as int) + req.customers@[j
                    - 1].service_time <= i64::MAX));
            }
            return false;
        }
        p = p + 1;
    }
    true
}

/// Name of a solver outcome in a routing plan: `"optimal"`, `"feasible"`,
/// `"infeasible"`, or `"error"` (any other outcome).
pub open spec fn vr_status_label(s: CpStatus) -> Seq<char> {
    match s {
        CpStatus::Optimal => "optimal"@,
        CpStatus::Feasible => "feasible"@,
        CpStatus::Infeasible => "infeasible"@,
        _ => "error"@,
    }
}

pub fn vr_status_name(s: CpStatus) -> (r: &'static str)
    ensures
        r@ == vr_status_label(s),
{
    match s {
        CpStatus::Optimal => "optimal",
        CpStatus::Feasible => "feasible",
        CpStatus::Infeasible => "infeasible",
        _ => "error",
    }
}

// ── What a solution of the model means ─────────────────────────────────────

proof fn lemma_time_steps_at(req: VrptwRequest, scaled: Seq<Vec<i64>>, r: nat)
    ensures
        time_steps(req, scaled, r).len() == r * req.customers@.len(),
        forall|i: int, k: int|
            0 <= i < r && 0 <= k < req.customers@.len() ==> time_steps(req, scaled, r)[i * req.customers@.len() + k]
                == #[trigger] time_step(req, scaled, i, other_head(i, k)),
    decreases r,
{
    let n = req.customers@.len();
    if r > 0 {
        lemma_time_steps_at(req, scaled, (r - 1) as nat);
        let prev = time_steps(req, scaled, (r - 1) as nat);
        let cur = time_steps(req, scaled, r);
        assert((r - 1) * n + n == r * n) by (nonlinear_arith);
        assert forall|i: int, k: int| 0 <= i < r && 0 <= k < n implies cur[i * n + k] == #[trigger] time_step(
            req,
            scaled,
            i,
            other_head(i, k),
        ) by {
            if i < r - 1 {
                assert(i * n + k < (r - 1) * n) by (nonlinear_arith)
                    requires
                        0 <= i < r - 1,
                        0 <= k < n,
                ;
                assert(0 <= i * n) by (nonlinear_arith) requires 0 <= i;
                assert(cur[i * n + k] == prev[i * n + k]);
            } else {
                assert(cur[i * n + k] == cur[prev.len() + k]);
            }
        }
    }
}

/// The time constraint of a used arc `i -> j`.
#[verifier::rlimit(60)]
proof fn lemma_vr_arc_holds(req: VrptwRequest, scaled: Seq<Vec<i64>>, values: Seq<i64>, i: int, j: int)
    requires
        scaled_fit(req, scaled),
        vr_values_fit(req, scaled),
        vr_model_fits(req),
        satisfies(vr_model(req, scaled), values),
        0 <= i <= req.customers@.len(),
        0 <= j <= req.customers@.len(),
        i != j,
        values[arc(req.customers@.len(), i, j)] == 1,
    ensures
        values[if j == 0 { t_return(req.customers@.len()) } else { t_node(req.customers@.len(), j) }] >= values[t_node(
            req.customers@.len(),
            i,
        )] + (if i == 0 {
            0
        } else {
            req.customers@[i - 1].service_time * 100
        }) + (if i == 0 {
            sc(scaled, 0, j)
        } else if j == 0 {
            sc(scaled, 0, i)
        } else {
            sc(scaled, i, j)
        }),
{
    let n = req.customers@.len();
    let nn = n + 1;
    let ac = arc_count(n);
    let m = vr_model(req, scaled);
    lemma_arc_decls(n, nn);
    lemma_arc_count(n);
    lemma_time_steps_at(req, scaled, nn);
    let ts = time_steps(req, scaled, nn);
    let tb = ac + n + 4;
    let k = if j < i { j } else { j - 1 };
    assert(other_head(i, k) == j);
    assert(i * n + k < nn * n) by (nonlinear_arith)
        requires
            0 <= i < nn,
            0 <= k < n,
    ;
    assert(0 <= i * n) by (nonlinear_arith) requires 0 <= i;
    assert(nn * n <= nn * nn) by (nonlinear_arith) requires n <= nn;
    assert(ts[i * n + k] == time_step(req, scaled, i, j));
    assert(m[tb + i * n + k] == ts[i * n + k]);
    lemma_step_holds(m, values, tb + i * n + k);
    let st = time_step(req, scaled, i, j);
    lemma_weighted_three(st.2, st.3, values);
    lemma_arc_in_row(n, i, j);
    lemma_row_base_mono(n, (i + 1) as nat, nn);
    assert(in_i64(arc_svc(req, i) + arc_trav(scaled, i, j) - big_m(req)));
    let tj = if j == 0 { t_return(n) } else { t_node(n, j) };
    let svc: int = arc_svc(req, i);
    let trav: int = arc_trav(scaled, i, j);
    let bm = big_m(req);
    assert(st.2[0] as int == tj);
    assert(st.2[1] as int == t_node(n, i));
    assert(st.2[2] as int == arc(n, i, j));
    assert(st.3[0] == 1 && st.3[1] == -1);
    assert(st.3[2] as int == -bm);
    assert(st.0 == ModelOp::LinearGe { rhs: (svc + trav - bm) as i64 });
    assert((svc + trav - bm) as i64 as int == svc + trav - bm);
    assert((-bm) * values[arc(n, i, j)] == -bm);
}

/// What values satisfying the routing model mean: the vehicle leaves the
/// depot at its ready time and returns by its due time, each customer's
/// (scaled) time lies in its window, and along every arc the solution uses,
/// the head's time is at least the tail's plus its service and the travel
/// time.
pub proof fn lemma_vr_solution_feasible(req: VrptwRequest, scaled: Seq<Vec<i64>>, values: Seq<i64>)
    requires
        scaled_fit(req, scaled),
        vr_values_fit(req, scaled),
        vr_model_fits(req),
        satisfies(vr_model(req, scaled), values),
    ensures
        values[t_node(req.customers@.len(), 0)] == req.depot.ready_time * 100,
        values[t_return(req.customers@.len())] <= req.depot.due_time * 100,
        forall|i: int|
            0 <= i < req.customers@.len() ==> (#[trigger] req.customers@[i]).window_open * 100 <= values[t_node(
                req.customers@.len(),
                i + 1,
            )] <= req.customers@[i].window_close * 100,
        forall|i: int, j: int|
            0 <= i <= req.customers@.len() && 0 <= j <= req.customers@.len() && i != j && values[#[trigger] arc(
                req.customers@.len(),
                i,
                j,
            )] == 1 ==> values[if j == 0 { t_return(req.customers@.len()) } else { t_node(req.customers@.len(), j) }]
                >= values[t_node(req.customers@.len(), i)] + (if i == 0 {
                0
            } else {
                req.customers@[i - 1].service_time * 100
            }) + (if i == 0 {
                sc(scaled, 0, j)
            } else if j == 0 {
                sc(scaled, 0, i)
            } else {
                sc(scaled, i, j)
            }),
{
    let n = req.customers@.len();
    let nn = n + 1;
    let ac = arc_count(n);
    let m = vr_model(req, scaled);
    lemma_arc_decls(n, nn);
    lemma_arc_count(n);
    lemma_step_holds(m, values, ac);
    lemma_step_holds(m, values, ac + 1);
    assert forall|i: int| 0 <= i < n implies (#[trigger] req.customers@[i]).window_open * 100 <= values[t_node(
        n,
        i + 1,
    )] <= req.customers@[i].window_close * 100 by {
        lemma_step_holds(m, values, ac + 2 + i);
    }
    assert forall|i: int, j: int|
        0 <= i <= n && 0 <= j <= n && i != j && values[#[trigger] arc(n, i, j)] == 1 implies values[if j == 0 {
            t_return(n)
        } else {
            t_node(n, j)
        }] >= values[t_node(n, i)] + (if i == 0 {
            0
        } else {
            req.customers@[i - 1].service_time * 100
        }) + (if i == 0 {
            sc(scaled, 0, j)
        } else if j == 0 {
            sc(scaled, 0, i)
        } else {
            sc(scaled, i, j)
        }) by {
        lemma_vr_arc_holds(req, scaled, values, i, j);
    }
}

// ── Reading the route off a solution ─────────────────────────────────────────

/// Integer division by 100 rounding toward zero (as `/` on `i64`).
pub open spec fn div100(x: int) -> int {
    if x >= 0 { x / 100 } else { -((-x) / 100) }
}

fn div100_exec(x: i64) -> (r: i64)
    ensures
        r == div100(x as int),
{
    if x >= 0 {
        x / 100
    } else {
        let y: i128 = -(x as i128);
        let q: i128 = y / 100;
        -(q as i64)
    }
}

/// The first of the nodes `0..m`, other than `cur`, whose arc from `cur` is
/// used in the solution.
pub open spec fn next_node(n: nat, values: Seq<i64>, cur: int, m: nat) -> Option<int>
    decreases m,
{
    if m == 0 {
        None
    } else {
        match next_node(n, values, cur, (m - 1) as nat) {
            Some(j) => Some(j),
            None => if m - 1 != cur && values[arc(n, cur, m - 1)] == 1 { Some(m - 1) } else { None },
        }
    }
}

/// Following used arcs from the depot for `k` steps: the customer nodes
/// reached, and whether the walk has stopped (back at the depot, or stuck).
pub open spec fn walk(n: nat, values: Seq<i64>, k: nat) -> (Seq<int>, bool)
    decreases k,
{
    if k == 0 {
        (Seq::empty(), false)
    } else {
        let (nodes, stopped) = walk(n, values, (k - 1) as nat);
        if stopped {
            (nodes, true)
        } else {
            let cur = if nodes.len() == 0 { 0 } else { nodes.last() };
            match next_node(n, values, cur, n + 1) {
                Some(j) => if j == 0 { (nodes, true) } else { (nodes.push(j), false) },
                None => (nodes, true),
            }
        }
    }
}

/// The customer nodes of the solved route, in order (at most `n + 1` steps).
pub open spec fn route_nodes(req: VrptwRequest, values: Seq<i64>) -> Seq<int> {
    walk(req.customers@.len(), values, req.customers@.len() + 1).0
}

/// Each stop of the route read from the values has its departure (arrival
/// plus service) within `i64`.
pub open spec fn stops_fit(req: VrptwRequest, values: Seq<i64>) -> bool {
    forall|p: int|
        0 <= p < route_nodes(req, values).len() ==> {
            let j = #[trigger] route_nodes(req, values)[p];
            i64::MIN <= div100(values[t_node(req.customers@.len(), j)] as int) + req.customers@[j - 1].service_time
                <= i64::MAX
        }
}

/// The stop at customer node `j`: arrival is its solved time unscaled.
pub open spec fn solved_stop(req: VrptwRequest, values: Seq<i64>, j: int) -> RouteStop {
    let n = req.customers@.len();
    let c = req.customers@[j - 1];
    let arrival = div100(values[t_node(n, j)] as int);
    RouteStop {
        customer_id: c.id,
        customer_name: c.name,
        arrival: arrival as i64,
        departure: (arrival + c.service_time) as i64,
    }
}

/// Values are present for every declared variable.
pub open spec fn vr_solution_fits(req: VrptwRequest, values: Seq<i64>) -> bool {
    values.len() > arc_count(req.customers@.len()) + 1 + req.customers@.len()
}

proof fn lemma_next_node(n: nat, values: Seq<i64>, cur: int, m: nat)
    ensures
        next_node(n, values, cur, m) matches Some(j) ==> 0 <= j < m && j != cur,
    decreases m,
{
    if m > 0 {
        lemma_next_node(n, values, cur, (m - 1) as nat);
    }
}

proof fn lemma_walk(n: nat, values: Seq<i64>, k: nat)
    ensures
        walk(n, values, k).0.len() <= k,
        forall|p: int| 0 <= p < walk(n, values, k).0.len() ==> 1 <= #[trigger] walk(n, values, k).0[p] <= n,
    decreases k,
{
    if k > 0 {
        lemma_walk(n, values, (k - 1) as nat);
        let (nodes, stopped) = walk(n, values, (k - 1) as nat);
        let cur = if nodes.len() == 0 { 0 } else { nodes.last() };
        lemma_next_node(n, values, cur, n + 1);
    }
}

proof fn lemma_walk_stays(n: nat, values: Seq<i64>, k: nat, k2: nat)
    requires
        k <= k2,
        walk(n, values, k).1,
    ensures
        walk(n, values, k2) == walk(n, values, k),
    decreases k2,
{
    if k < k2 {
        lemma_walk_stays(n, values, k, (k2 - 1) as nat);
    }
}

/// The customer nodes (customer index plus one) of the solved route, in order.
#[verifier::rlimit(40)]
pub fn cp_route_nodes(req: &VrptwRequest, sol: &CpSolution) -> (r: Vec<usize>)
    requires
        vr_model_fits(*req),
        vr_solution_fits(*req, sol.values@),
    ensures
        r@.len() == route_nodes(*req, sol.values@).len(),
        forall|p: int| 0 <= p < r@.len() ==> r@[p] as int == #[trigger] route_nodes(*req, sol.values@)[p],
{
    let n = req.customers.len();
    let nn = n + 1;
    proof {
        lemma_arc_count(n as nat);
    }
    let mut nodes: Vec<usize> = Vec::new();
    let mut cur: usize = 0;
    let mut step: usize = 0;
    let mut stopped = false;
    while step < nn && !stopped
        invariant
            n == req.customers@.len(),
            nn == n + 1,
            step <= nn,
            vr_model_fits(*req),
            vr_solution_fits(*req, sol.values@),
            arc_count(n as nat) == nn * nn - 1,
            walk(n as nat, sol.values@, step as nat).1 == stopped,
            nodes@.len() == walk(n as nat, sol.values@, step as nat).0.len(),
            forall|p: int| 0 <= p < nodes@.len() ==> nodes@[p] as int == #[trigger] walk(n as nat, sol.values@, step as nat).0[p],
            cur as int == (if nodes@.len() == 0 { 0 } else { walk(n as nat, sol.values@, step as nat).0.last() }),
            cur <= n,
        decreases nn - step,
    {
        let ghost w = walk(n as nat, sol.values@, step as nat);
        proof {
            lemma_walk(n as nat, sol.values@, step as nat);
            lemma_walk(n as nat, sol.values@, (step + 1) as nat);
            lemma_next_node(n as nat, sol.values@, cur as int, nn as nat);
        }
        // the first used arc leaving `cur`
        let mut j: usize = 0;
        let mut next: Option<usize> = None;
        while j < nn && next.is_none()
            invariant
                n == req.customers@.len(),
                nn == n + 1,
                j <= nn,
                cur <= n,
                vr_model_fits(*req),
                vr_solution_fits(*req, sol.values@),
                arc_count(n as nat) == nn * nn - 1,
                match next {
                    Some(x) => next_node(n as nat, sol.values@, cur as int, j as nat) == Some(x as int),
                    None => next_node(n as nat, sol.values@, cur as int, j as nat) is None,
                },
            decreases nn - j,
        {
            if j != cur {
                proof {
                    lemma_row_base(n as nat, cur as nat);
                    lemma_row_base_mono(n as nat, (cur + 1) as nat, nn as nat);
                }
                let lit = if cur == 0 { j - 1 } else { row_base_exec(n, cur) + j };
                if sol.values[lit] == 1 {
                    next = Some(j);
                }
            }
            j = j + 1;
        }
        proof {
            if next is Some {
                lemma_next_stays(n as nat, sol.values@, cur as int, j as nat, nn as nat);
            }
        }
        match next {
            Some(x) => {
                if x == 0 {
                    stopped = true;
                } else {
                    nodes.push(x);
                    cur = x;
                }
            },
            None => {
                stopped = true;
            },
        }
        step = step + 1;
    }
    proof {
        if stopped {
            lemma_walk_stays(n as nat, sol.values@, step as nat, nn as nat);
        }
    }
    nodes
}

proof fn lemma_next_stays(n: nat, values: Seq<i64>, cur: int, a: nat, b: nat)
    requires
        a <= b,
        next_node(n, values, cur, a) is Some,
    ensures
        next_node(n, values, cur, b) == next_node(n, values, cur, a),
    decreases b,
{
    if a < b {
        lemma_next_stays(n, values, cur, a, (b - 1) as nat);
    }
}

// ── The route of a solution visits each customer once ───────────────────────

/// Each node has at most one used incoming arc from another node.
pub open spec fn one_predecessor(n: nat, values: Seq<i64>) -> bool {
    forall|u1: int, u2: int, v: int|
        0 <= u1 <= n && 0 <= u2 <= n && 0 <= v <= n && u1 != v && u2 != v && values[#[trigger] arc(n, u1, v)] == 1
            && values[#[trigger] arc(n, u2, v)] == 1 ==> u1 == u2
}

proof fn lemma_arc_lists_at(n: nat, i: nat)
    requires
        i <= n + 1,
        3 * ((n + 1) * (n + 1)) + 3 * (n + 1) + 8 < usize::MAX,
    ensures
        forall|u: int, v: int|
            0 <= u < i && 0 <= v <= n && (u == 0 ==> v >= 1) ==> {
                &&& arc_tails(n, i)[#[trigger] arc(n, u, v)] == u
                &&& arc_heads(n, i)[arc(n, u, v)] == v
                &&& arc_lits(n, i)[arc(n, u, v)] == arc(n, u, v) as usize
            },
    decreases i,
{
    if i > 0 {
        let r = (i - 1) as int;
        lemma_arc_lists_at(n, (i - 1) as nat);
        lemma_arc_lists(n, (i - 1) as nat);
        lemma_arc_lists(n, i);
        lemma_row_base(n, (i - 1) as nat);
        assert forall|u: int, v: int| 0 <= u < i && 0 <= v <= n && (u == 0 ==> v >= 1) implies {
            &&& arc_tails(n, i)[#[trigger] arc(n, u, v)] == u
            &&& arc_heads(n, i)[arc(n, u, v)] == v
            &&& arc_lits(n, i)[arc(n, u, v)] == arc(n, u, v) as usize
        } by {
            lemma_arc_in_row(n, u, v);
            if u < r {
                lemma_row_base_mono(n, (u + 1) as nat, r as nat);
            } else {
                let y = arc(n, u, v) - row_base(n, r as nat);
                assert(row_heads(n, r)[y] == v);
            }
        }
    }
}

proof fn lemma_next_node_used(n: nat, values: Seq<i64>, cur: int, m: nat)
    ensures
        next_node(n, values, cur, m) matches Some(j) ==> 0 <= j < m && j != cur && values[arc(n, cur, j)] == 1,
    decreases m,
{
    if m > 0 {
        lemma_next_node_used(n, values, cur, (m - 1) as nat);
    }
}

/// With one predecessor per node, the walk from the depot never comes back
/// to a customer it has passed: its customers are distinct, each reached
/// along a used arc from the one before it (the depot for the first).
proof fn lemma_walk_distinct(n: nat, values: Seq<i64>, k: nat)
    requires
        one_predecessor(n, values),
    ensures
        ({
            let w = walk(n, values, k).0;
            &&& forall|p: int| 0 <= p < w.len() ==> 1 <= #[trigger] w[p] <= n
            &&& forall|p: int, q: int| 0 <= p < q < w.len() ==> #[trigger] w[p] != #[trigger] w[q]
            &&& forall|p: int|
                0 <= p < w.len() ==> values[arc(n, if p == 0 { 0 } else { w[p - 1] }, #[trigger] w[p])] == 1
        }),
    decreases k,
{
    lemma_walk(n, values, k);
    if k > 0 {
        lemma_walk_distinct(n, values, (k - 1) as nat);
        lemma_walk(n, values, (k - 1) as nat);
        let (w, stopped) = walk(n, values, (k - 1) as nat);
        if !stopped {
            let cur = if w.len() == 0 { 0 } else { w.last() };
            lemma_next_node_used(n, values, cur, n + 1);
            if let Some(j) = next_node(n, values, cur, n + 1) {
                if j != 0 {
                    let w2 = w.push(j);
                    assert forall|p: int, q: int| 0 <= p < q < w2.len() implies #[trigger] w2[p] != #[trigger] w2[q] by {
                        if q == w.len() {
                            if w2[p] == j {
                                // both `cur` and the node before `w[p]` lead into `j`
                                let pre = if p == 0 { 0 } else { w[p - 1] };
                                assert(values[arc(n, pre, w[p])] == 1);
                                assert(pre == cur);
                                if p == 0 {
                                    assert(w.len() > 0);
                                    assert(1 <= w[w.len() - 1]);
                                } else {
                                    assert(w[p - 1] == w[w.len() - 1]);
                                }
                            }
                        }
                    }
                    assert forall|p: int| 0 <= p < w2.len() implies values[arc(
                        n,
                        if p == 0 { 0 } else { w2[p - 1] },
                        #[trigger] w2[p],
                    )] == 1 by {
                        if p < w.len() {
                            assert(w2[p] == w[p]);
                            if p > 0 {
                                assert(w2[p - 1] == w[p - 1]);
                            }
                        } else if p > 0 {
                            assert(w2[p - 1] == w[w.len() - 1]);
                        }
                    }
                }
            }
        }
    }
}

/// The solver's circuit gives each node one used incoming arc at most.
proof fn lemma_vr_one_predecessor(req: VrptwRequest, scaled: Seq<Vec<i64>>, values: Seq<i64>)
    requires
        vr_model_fits(req),
        satisfies(vr_model(req, scaled), values),
    ensures
        one_predecessor(req.customers@.len(), values),
{
    let n = req.customers@.len();
    let nn = n + 1;
    let ac = arc_count(n);
    let m = vr_model(req, scaled);
    let cb = ac + 3 + n;
    lemma_arc_decls(n, nn);
    lemma_arc_lists(n, nn);
    lemma_arc_lists_at(n, nn);
    lemma_arc_count(n);
    let tails = arc_tails(n, nn).push(0usize);
    let heads = arc_heads(n, nn).push(0usize);
    let lits = arc_lits(n, nn).push(home_loop(n) as usize);
    assert(m[cb] == circuit(tails, heads, lits));
    lemma_step_holds(m, values, cb);
    assert forall|u1: int, u2: int, v: int|
        0 <= u1 <= n && 0 <= u2 <= n && 0 <= v <= n && u1 != v && u2 != v && values[#[trigger] arc(n, u1, v)] == 1
            && values[#[trigger] arc(n, u2, v)] == 1 implies u1 == u2 by {
        if u1 != u2 {
            let y1 = arc(n, u1, v);
            let y2 = arc(n, u2, v);
            lemma_arc_in_row(n, u1, v);
            lemma_arc_in_row(n, u2, v);
            lemma_row_base_mono(n, (u1 + 1) as nat, nn);
            lemma_row_base_mono(n, (u2 + 1) as nat, nn);
            if u1 < u2 {
                lemma_row_base_mono(n, (u1 + 1) as nat, u2 as nat);
            } else {
                lemma_row_base_mono(n, (u2 + 1) as nat, u1 as nat);
            }
            assert(y1 != y2);
            assert(lits[y1] as int == y1 && lits[y2] as int == y2);
            assert(heads[y1] == v && heads[y2] == v);
            assert(m[cb].2[y1] == lits[y1] && m[cb].2[y2] == lits[y2]);
        }
    }
}

/// The route read from a solution of the routing model visits distinct
/// customers, each reached along a used arc from the stop before it (the
/// depot for the first).
pub proof fn lemma_vr_route_distinct(req: VrptwRequest, scaled: Seq<Vec<i64>>, values: Seq<i64>)
    requires
        vr_model_fits(req),
        satisfies(vr_model(req, scaled), values),
    ensures
        ({
            let w = route_nodes(req, values);
            let n = req.customers@.len();
            &&& forall|p: int| 0 <= p < w.len() ==> 1 <= #[trigger] w[p] <= n
            &&& forall|p: int, q: int| 0 <= p < q < w.len() ==> #[trigger] w[p] != #[trigger] w[q]
            &&& forall|p: int|
                0 <= p < w.len() ==> values[arc(n, if p == 0 { 0 } else { w[p - 1] }, #[trigger] w[p])] == 1
        }),
{
    lemma_vr_one_predecessor(req, scaled, values);
    lemma_walk_distinct(req.customers@.len(), values, req.customers@.len() + 1);
}

proof fn lemma_div100_bounds(v: int, lo: int, hi: int)
    requires
        lo * 100 <= v <= hi * 100,
    ensures
        lo <= div100(v) <= hi,
{
    if v >= 0 {
        assert(lo <= v / 100 <= hi) by (nonlinear_arith)
            requires
                lo * 100 <= v <= hi * 100,
                v >= 0,
        ;
    } else {
        assert(lo <= -((-v) / 100) <= hi) by (nonlinear_arith)
            requires
                lo * 100 <= v <= hi * 100,
                v < 0,
        ;
    }
}

/// What a solution of the routing model means for the plan read from it:
/// the route visits distinct customers, each arriving (its solved time,
/// unscaled) inside its window and leaving after its service, and the
/// vehicle returns by the depot's due time.
pub proof fn lemma_vr_plan_meaning(req: VrptwRequest, scaled: Seq<Vec<i64>>, values: Seq<i64>)
    requires
        scaled_fit(req, scaled),
        vr_values_fit(req, scaled),
        vr_model_fits(req),
        satisfies(vr_model(req, scaled), values),
        stops_fit(req, values),
    ensures
        ({
            let w = route_nodes(req, values);
            let n = req.customers@.len();
            &&& forall|p: int, q: int| 0 <= p < q < w.len() ==> #[trigger] w[p] != #[trigger] w[q]
            &&& forall|p: int|
                0 <= p < w.len() ==> {
                    let c = req.customers@[w[p] - 1];
                    let st = #[trigger] solved_stop(req, values, w[p]);
                    &&& 1 <= w[p] <= n
                    &&& st.customer_id == c.id
                    &&& c.window_open <= st.arrival <= c.window_close
                    &&& st.arrival == div100(values[t_node(n, w[p])] as int)
                    &&& st.departure == st.arrival + c.service_time
                }
            &&& div100(values[t_return(n)] as int) <= req.depot.due_time
        }),
{
    let n = req.customers@.len();
    let w = route_nodes(req, values);
    lemma_vr_route_distinct(req, scaled, values);
    lemma_vr_solution_feasible(req, scaled, values);
    assert forall|p: int| 0 <= p < w.len() implies {
        let c = req.customers@[w[p] - 1];
        let st = #[trigger] solved_stop(req, values, w[p]);
        &&& 1 <= w[p] <= n
        &&& st.customer_id == c.id
        &&& c.window_open <= st.arrival <= c.window_close
        &&& st.arrival == div100(values[t_node(n, w[p])] as int)
        &&& st.departure == st.arrival + c.service_time
    } by {
        let j = w[p];
        let c = req.customers@[j - 1];
        assert(c.window_open * 100 <= values[t_node(n, (j - 1) + 1)] <= c.window_close * 100);
        lemma_div100_bounds(values[t_node(n, j)] as int, c.window_open as int, c.window_close as int);
    }
    lemma_div100_bounds(values[t_return(n)] as int, i64::MIN as int, req.depot.due_time as int);
}

/// The route read off a solution of `vr_model`: nothing when the solver has
/// no solution; otherwise, from the depot, each step follows the first used
/// arc (lowest head) until it returns to the depot, each stop arriving at
/// its solved time unscaled, and the vehicle returning at the depot's solved
/// return time unscaled.
pub fn vr_plan_from_solution(req: &VrptwRequest, sol: &CpSolution) -> (plan: VrptwPlan)
    requires
        vr_model_fits(*req),
        sol.status.spec_is_success() ==> vr_solution_fits(*req, sol.values@) && stops_fit(*req, sol.values@),
    ensures
        plan.request_id@ == req.id@,
        plan.customers_total == req.customers@.len(),
        plan.customers_visited == plan.route@.len(),
        plan.solver@ == "cp-sat-v9.15"@,
        plan.status@ == vr_status_label(sol.status),
        !sol.status.spec_is_success() ==> plan.route@.len() == 0 && plan.return_time == 0,
        sol.status.spec_is_success() ==> {
            let nodes = route_nodes(*req, sol.values@);
            &&& plan.route@.len() == nodes.len()
            &&& forall|p: int| 0 <= p < nodes.len() ==> #[trigger] plan.route@[p] == solved_stop(*req, sol.values@, nodes[p])
            &&& plan.return_time == div100(sol.values@[t_return(req.customers@.len())] as int)
        },
{
    let status = vr_status_name(sol.status);
    let n = req.customers.len();
    if !sol.status.is_success() {
        return VrptwPlan {
            request_id: req.id.clone(),
            route: Vec::new(),
            customers_total: n,
            customers_visited: 0,
            return_time: 0,
            solver: String::from_str("cp-sat-v9.15"),
            status: String::from_str(status),
        };
    }
    proof {
        lemma_arc_count(n as nat);
        assert((n + 1) * (n + 1) >= 1) by (nonlinear_arith);
    }
    let nodes = cp_route_nodes(req, sol);
    proof {
        lemma_walk(n as nat, sol.values@, (n + 1) as nat);
    }
    let ac = ac_exec(n);
    let mut route: Vec<RouteStop> = Vec::new();
    let mut p: usize = 0;
    while p < nodes.len()
        invariant
            n == req.customers@.len(),
            ac == arc_count(n as nat),
            ac == (n + 1) * (n + 1) - 1,
            vr_model_fits(*req),
            vr_solution_fits(*req, sol.values@),
            stops_fit(*req, sol.values@),
            nodes@.len() == route_nodes(*req, sol.values@).len(),
            forall|q: int| 0 <= q < nodes@.len() ==> nodes@[q] as int == #[trigger] route_nodes(*req, sol.values@)[q],
            forall|q: int| 0 <= q < nodes@.len() ==> 1 <= #[trigger] route_nodes(*req, sol.values@)[q] <= n,
            p <= nodes@.len(),
            route@.len() == p,
            forall|q: int| 0 <= q < p ==> #[trigger] route@[q] == solved_stop(*req, sol.values@, route_nodes(*req, sol.values@)[q]),
        decreases nodes.len() - p,
    {
        let j = nodes[p];
        proof {
            assert(1 <= route_nodes(*req, sol.values@)[p as int] <= n);
        }
        let c = &req.customers[j - 1];
        let arrival = div100_exec(sol.values[ac + 1 + j]);
        proof {
            assert(route_nodes(*req, sol.values@)[p as int] == j);
            assert(i64::MIN <= div100(sol.values@[t_node(n as nat, j as int)] as int) + req.customers@[j
                - 1].service_time <= i64::MAX);
        }
        route.push(RouteStop {
            customer_id: c.id,
            customer_name: c.name.clone(),
            arrival,
            departure: arrival + c.service_time,
        });
        proof {
            assert(route@[p as int] == solved_stop(*req, sol.values@, route_nodes(*req, sol.values@)[p as int]));
        }
        p = p + 1;
    }
    let return_time = div100_exec(sol.values[ac + 1]);
    let visited = route.len();
    VrptwPlan {
        request_id: req.id.clone(),
        route,
        customers_total: n,
        customers_visited: visited,
        return_time,
        solver: String::from_str("cp-sat-v9.15"),
        status: String::from_str(status),
    }
}

} // verus!
