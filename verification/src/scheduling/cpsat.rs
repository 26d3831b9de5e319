//! The CP-SAT model of a scheduling request (optional intervals per capable
//! agent, per-agent no-overlap, maximise the tasks scheduled), and the plan
//! read from a solution.
use vstd::prelude::*;
use vstd::string::StringExecFns;

use crate::cpmodel::{
    declares_interval, declares_var, decl, iv_end, iv_present, iv_start, lemma_step_holds, linear, listing, ones,
    ones_vec, satisfies, step_refs_ok, well_formed, CpModel, CpSolution, CpStatus, ModelOp, StepView,
};
use crate::order::{is_stable_order, precedes, reorder, stable_order, stable_order_of};
use crate::routing::{any_pending, holds_id, is_pending, pending_prefix, pending_seeds, plan_exists, spec_request_id};
use crate::text::{contains_string, label1, label2, lemma_label1_injective, lemma_label2_injective, name1, name2};
use super::greedy::{agent_ids_in_range, agent_ids_in_range_exec, start_keys, REQUEST_PREFIX};
use super::problem::{
    capable, makespan_of, max_end, sorted_by_start, SchedulingAgent, SchedulingPlan, SchedulingRequest, SchedulingTask,
    TaskAssignment,
};

verus! {

pub const PLAN_PREFIX: &'static str = "scheduling-plan-cpsat:";

/// Schedules tasks to optimality using CP-SAT optional-interval variables and
/// per-agent `NoOverlap` constraints.
pub struct CpSatSchedulerSuggestor;

impl CpSatSchedulerSuggestor {
    pub fn name(&self) -> (r: &'static str)
        ensures
            r@ == "CpSatSchedulerSuggestor"@,
    {
        "CpSatSchedulerSuggestor"
    }

    pub fn complexity_hint(&self) -> (r: Option<&'static str>)
        ensures
            r is Some,
            r->0@ == "NP-hard in general; CP-SAT DPLL+LNS with optional-interval NoOverlap; proves optimality for n ≤ 100 tasks within 30 s on 10-core hardware"@,
    {
        Some("NP-hard in general; CP-SAT DPLL+LNS with optional-interval NoOverlap; proves optimality for n ≤ 100 tasks within 30 s on 10-core hardware")
    }

    /// Some seed is a scheduling request without a CP-SAT plan yet.
    pub fn accepts(&self, seed_ids: &Vec<String>, strategy_ids: &Vec<String>) -> (r: bool)
        ensures
            r == exists|i: int|
                0 <= i < seed_ids@.len() && #[trigger] is_pending(
                    seed_ids@[i]@,
                    strategy_ids@,
                    REQUEST_PREFIX@,
                    PLAN_PREFIX@,
                ),
    {
        any_pending(seed_ids, strategy_ids, REQUEST_PREFIX, PLAN_PREFIX)
    }

    /// Indices of the seeds that this suggestor answers in one pass.
    pub fn pending(&self, seed_ids: &Vec<String>, strategy_ids: &Vec<String>) -> (r: Vec<usize>)
        ensures
            r@ == pending_prefix(seed_ids@, strategy_ids@, REQUEST_PREFIX@, PLAN_PREFIX@, seed_ids@.len()),
    {
        pending_seeds(seed_ids, strategy_ids, REQUEST_PREFIX, PLAN_PREFIX)
    }
}

/// The request id carried by a scheduling request seed id.
pub fn request_id(fact_id: &str) -> (r: &str)
    ensures
        r@ == spec_request_id(fact_id@, REQUEST_PREFIX@),
{
    crate::routing::request_id(fact_id, REQUEST_PREFIX)
}

/// Whether the CP-SAT plan for `request_id` is already among the strategies.
pub fn own_plan_exists(strategy_ids: &Vec<String>, request_id: &str) -> (r: bool)
    ensures
        r == holds_id(strategy_ids@, PLAN_PREFIX@ + request_id@),
{
    plan_exists(strategy_ids, PLAN_PREFIX, request_id)
}

// ── Variable names ───────────────────────────────────────────────────────────

pub fn start_name(task: &SchedulingTask) -> (r: String)
    ensures
        r@ == label1("s_"@, task.id as nat),
{
    name1("s_", task.id)
}

pub fn end_name(task: &SchedulingTask) -> (r: String)
    ensures
        r@ == label1("e_"@, task.id as nat),
{
    name1("e_", task.id)
}

pub fn x_var_name(task_id: usize, agent_id: usize) -> (r: String)
    ensures
        r@ == label2("x_"@, task_id as nat, agent_id as nat),
{
    name2("x_", task_id, agent_id)
}

pub fn ov_var_name(task_id: usize, agent_id: usize) -> (r: String)
    ensures
        r@ == label2("ov_"@, task_id as nat, agent_id as nat),
{
    name2("ov_", task_id, agent_id)
}

/// The model's variable names never collide: an assignment variable's or an
/// optional interval's name determines its (task id, agent id), a start or
/// end name its task id, and names of different kinds differ.
pub proof fn lemma_var_names_distinct(t1: usize, a1: usize, t2: usize, a2: usize)
    ensures
        label2("x_"@, t1 as nat, a1 as nat) == label2("x_"@, t2 as nat, a2 as nat) ==> t1 == t2 && a1 == a2,
        label2("ov_"@, t1 as nat, a1 as nat) == label2("ov_"@, t2 as nat, a2 as nat) ==> t1 == t2 && a1 == a2,
        label1("s_"@, t1 as nat) == label1("s_"@, t2 as nat) ==> t1 == t2,
        label1("e_"@, t1 as nat) == label1("e_"@, t2 as nat) ==> t1 == t2,
        label2("x_"@, t1 as nat, a1 as nat) != label1("s_"@, t2 as nat),
        label2("x_"@, t1 as nat, a1 as nat) != label1("e_"@, t2 as nat),
        label2("x_"@, t1 as nat, a1 as nat) != label2("ov_"@, t2 as nat, a2 as nat),
        label1("s_"@, t1 as nat) != label1("e_"@, t2 as nat),
{
    reveal_strlit("x_");
    reveal_strlit("ov_");
    reveal_strlit("s_");
    reveal_strlit("e_");
    if label2("x_"@, t1 as nat, a1 as nat) == label2("x_"@, t2 as nat, a2 as nat) {
        lemma_label2_injective("x_"@, t1 as nat, a1 as nat, t2 as nat, a2 as nat);
    }
    if label2("ov_"@, t1 as nat, a1 as nat) == label2("ov_"@, t2 as nat, a2 as nat) {
        lemma_label2_injective("ov_"@, t1 as nat, a1 as nat, t2 as nat, a2 as nat);
    }
    if label1("s_"@, t1 as nat) == label1("s_"@, t2 as nat) {
        lemma_label1_injective("s_"@, t1 as nat, t2 as nat);
    }
    if label1("e_"@, t1 as nat) == label1("e_"@, t2 as nat) {
        lemma_label1_injective("e_"@, t1 as nat, t2 as nat);
    }
    // names of different kinds differ in their first character
    assert(label2("x_"@, t1 as nat, a1 as nat)[0] == 'x');
    assert(label2("ov_"@, t2 as nat, a2 as nat)[0] == 'o');
    assert(label1("s_"@, t1 as nat)[0] == 's');
    assert(label1("s_"@, t2 as nat)[0] == 's');
    assert(label1("e_"@, t2 as nat)[0] == 'e');
}

// ── The model ────────────────────────────────────────────────────────────────
//
// Variables are known by name, and a later declaration of a name shadows an
// earlier one: a task's start and end are those of the last task with its
// id, and an assignment variable is the last one declared for its
// (task id, agent id).

/// Latest upper bound for a task's start: its deadline minus its duration,
/// but not before its release.
pub open spec fn start_ub(t: SchedulingTask) -> int {
    let u = t.deadline_min - t.duration_min;
    if u >= t.release_min { u } else { t.release_min as int }
}

/// The last of the first `n` tasks with this id (-1 if none).
pub open spec fn last_with_id(tasks: Seq<SchedulingTask>, id: usize, n: nat) -> int
    decreases n,
{
    if n == 0 {
        -1
    } else if tasks[n - 1].id == id {
        n - 1
    } else {
        last_with_id(tasks, id, (n - 1) as nat)
    }
}

/// Handle of the start variable that task `i`'s name denotes.
pub open spec fn start_handle(req: SchedulingRequest, i: int) -> int {
    2 * last_with_id(req.tasks@, req.tasks@[i].id, req.tasks@.len())
}

/// The two variable declarations of task `i`.
pub open spec fn task_decls(req: SchedulingRequest, i: int) -> Seq<StepView> {
    let t = req.tasks@[i];
    seq![
        decl(ModelOp::IntVar { lb: t.release_min, ub: start_ub(t) as i64 }, label1("s_"@, t.id as nat)),
        decl(ModelOp::IntVar { lb: (t.release_min + t.duration_min) as i64, ub: t.deadline_min }, label1("e_"@, t.id as nat)),
    ]
}

pub open spec fn all_task_decls(req: SchedulingRequest, n: nat) -> Seq<StepView>
    decreases n,
{
    if n == 0 { Seq::empty() } else { all_task_decls(req, (n - 1) as nat) + task_decls(req, n - 1) }
}

/// The capable (task, agent) pairs of task `t` among the first `a` agents.
pub open spec fn agent_pairs(req: SchedulingRequest, t: int, a: nat) -> Seq<(int, int)>
    decreases a,
{
    if a == 0 {
        Seq::empty()
    } else {
        let prev = agent_pairs(req, t, (a - 1) as nat);
        if capable(req.agents@[a - 1], req.tasks@[t]) { prev.push((t, a - 1)) } else { prev }
    }
}

/// The capable (task, agent) pairs of the first `n` tasks, task by task.
pub open spec fn pairs(req: SchedulingRequest, n: nat) -> Seq<(int, int)>
    decreases n,
{
    if n == 0 {
        Seq::empty()
    } else {
        pairs(req, (n - 1) as nat) + agent_pairs(req, n - 1, req.agents@.len())
    }
}

pub open spec fn all_pairs(req: SchedulingRequest) -> Seq<(int, int)> {
    pairs(req, req.tasks@.len())
}

/// The pair's (task id, agent id).
pub open spec fn pair_ids(req: SchedulingRequest, p: (int, int)) -> (usize, usize) {
    (req.tasks@[p.0].id, req.agents@[p.1].id)
}

/// The ids of every pair, in pair order.
pub open spec fn pair_id_seq(req: SchedulingRequest) -> Seq<(usize, usize)> {
    Seq::new(all_pairs(req).len(), |q: int| pair_ids(req, all_pairs(req)[q]))
}

/// The last of the first `m` entries of `s` equal to `ids` (-1 if none).
pub open spec fn last_in(s: Seq<(usize, usize)>, ids: (usize, usize), m: nat) -> int
    decreases m,
{
    if m == 0 {
        -1
    } else if s[m - 1] == ids {
        m - 1
    } else {
        last_in(s, ids, (m - 1) as nat)
    }
}

/// The last of the first `m` pairs with these ids (-1 if none).
pub open spec fn last_pair(req: SchedulingRequest, ids: (usize, usize), m: nat) -> int {
    last_in(pair_id_seq(req), ids, m)
}

/// Handle of the assignment variable that these ids name.
pub open spec fn x_handle(req: SchedulingRequest, ids: (usize, usize)) -> int {
    2 * req.tasks@.len() + 2 * last_pair(req, ids, all_pairs(req).len())
}

/// The two declarations of pair number `q`: its assignment variable, and its
/// interval, present when that variable is 1.
pub open spec fn pair_decls(req: SchedulingRequest, q: int) -> Seq<StepView> {
    let p = all_pairs(req)[q];
    let t = req.tasks@[p.0];
    let a = req.agents@[p.1];
    let x = 2 * req.tasks@.len() + 2 * q;
    let s = start_handle(req, p.0);
    seq![
        decl(ModelOp::BoolVar, label2("x_"@, t.id as nat, a.id as nat)),
        decl(
            ModelOp::OptionalInterval {
                start: s as usize,
                duration: t.duration_min,
                end: (s + 1) as usize,
                presence: x as usize,
            },
            label2("ov_"@, t.id as nat, a.id as nat),
        ),
    ]
}

pub open spec fn all_pair_decls(req: SchedulingRequest, q: nat) -> Seq<StepView>
    decreases q,
{
    if q == 0 { Seq::empty() } else { all_pair_decls(req, (q - 1) as nat) + pair_decls(req, q - 1) }
}

/// The assignment variables of task `t`'s capable agents among the first `a`.
pub open spec fn task_choices(req: SchedulingRequest, t: int, a: nat) -> Seq<usize>
    decreases a,
{
    if a == 0 {
        Seq::empty()
    } else {
        let prev = task_choices(req, t, (a - 1) as nat);
        if capable(req.agents@[a - 1], req.tasks@[t]) {
            prev.push(x_handle(req, (req.tasks@[t].id, req.agents@[a - 1].id)) as usize)
        } else {
            prev
        }
    }
}

/// At most one agent per task, for the first `n` tasks with two or more
/// capable agents.
pub open spec fn at_most_one(req: SchedulingRequest, n: nat) -> Seq<StepView>
    decreases n,
{
    if n == 0 {
        Seq::empty()
    } else {
        let xs = task_choices(req, n - 1, req.agents@.len());
        let prev = at_most_one(req, (n - 1) as nat);
        if xs.len() > 1 {
            prev.push(linear(ModelOp::LinearLe { rhs: 1 }, xs, ones(xs.len())))
        } else {
            prev
        }
    }
}

/// Interval handles, among the first `m` pairs, of those whose agent has id `g`.
pub open spec fn agent_ivs(req: SchedulingRequest, g: int, m: nat) -> Seq<usize>
    decreases m,
{
    if m == 0 {
        Seq::empty()
    } else {
        let prev = agent_ivs(req, g, (m - 1) as nat);
        if pair_id_seq(req)[m - 1].1 == g {
            prev.push((2 * req.tasks@.len() + 2 * (m - 1) + 1) as usize)
        } else {
            prev
        }
    }
}

/// No overlap per agent id `g < x`, where the agent has two or more intervals.
pub open spec fn agent_no_overlaps(req: SchedulingRequest, x: nat) -> Seq<StepView>
    decreases x,
{
    if x == 0 {
        Seq::empty()
    } else {
        let ivs = agent_ivs(req, x - 1, all_pairs(req).len());
        let prev = agent_no_overlaps(req, (x - 1) as nat);
        if ivs.len() > 1 { prev.push(listing(ModelOp::NoOverlap, ivs)) } else { prev }
    }
}

/// Among the first `m` pairs, the assignment variable of each distinct
/// (task id, agent id), in order of first occurrence.
pub open spec fn objective_vars(req: SchedulingRequest, m: nat) -> Seq<usize>
    decreases m,
{
    if m == 0 {
        Seq::empty()
    } else {
        let prev = objective_vars(req, (m - 1) as nat);
        let ids = pair_id_seq(req)[m - 1];
        if last_pair(req, ids, (m - 1) as nat) == -1 {
            prev.push(x_handle(req, ids) as usize)
        } else {
            prev
        }
    }
}

/// The whole model.
pub open spec fn sched_model(req: SchedulingRequest) -> Seq<StepView> {
    let obj = objective_vars(req, all_pairs(req).len());
    all_task_decls(req, req.tasks@.len()) + all_pair_decls(req, all_pairs(req).len()) + at_most_one(
        req,
        req.tasks@.len(),
    ) + agent_no_overlaps(req, req.agents@.len()) + seq![linear(ModelOp::Maximize, obj, ones(obj.len()))]
}

/// Each task's bounds are computable in `i64`.
pub open spec fn bounds_fit(tasks: Seq<SchedulingTask>) -> bool {
    forall|i: int|
        0 <= i < tasks.len() ==> {
            let t = #[trigger] tasks[i];
            &&& i64::MIN <= t.deadline_min - t.duration_min <= i64::MAX
            &&& i64::MIN <= t.release_min + t.duration_min <= i64::MAX
        }
}

/// The model's handles fit in `usize`.
pub open spec fn sched_model_fits(req: SchedulingRequest) -> bool {
    5 * req.tasks@.len() + 3 * req.tasks@.len() * req.agents@.len() + req.agents@.len() + 4 < usize::MAX
}

proof fn lemma_agent_pairs(req: SchedulingRequest, t: int, a: nat, b: nat)
    requires
        a <= b <= req.agents@.len(),
        0 <= t < req.tasks@.len(),
    ensures
        agent_pairs(req, t, b).subrange(0, agent_pairs(req, t, a).len() as int) == agent_pairs(req, t, a),
        agent_pairs(req, t, a).len() <= agent_pairs(req, t, b).len(),
        agent_pairs(req, t, b).len() <= b,
        forall|q: int|
            0 <= q < agent_pairs(req, t, b).len() ==> {
                let p = #[trigger] agent_pairs(req, t, b)[q];
                &&& p.0 == t
                &&& 0 <= p.1 < b
                &&& capable(req.agents@[p.1], req.tasks@[t])
            },
    decreases b,
{
    if b > 0 {
        if a < b {
            lemma_agent_pairs(req, t, a, (b - 1) as nat);
        }
        lemma_agent_pairs(req, t, (b - 1) as nat, (b - 1) as nat);
        let prev = agent_pairs(req, t, (b - 1) as nat);
        let cur = agent_pairs(req, t, b);
        assert forall|q: int| 0 <= q < cur.len() implies {
            let p = #[trigger] cur[q];
            &&& p.0 == t
            &&& 0 <= p.1 < b
            &&& capable(req.agents@[p.1], req.tasks@[t])
        } by {
            if q < prev.len() {
                assert(cur[q] == prev[q]);
            }
        }
        if a < b {
            assert(cur.subrange(0, agent_pairs(req, t, a).len() as int) =~= prev.subrange(
                0,
                agent_pairs(req, t, a).len() as int,
            ));
        } else {
            assert(cur.subrange(0, cur.len() as int) =~= cur);
        }
    }
}

proof fn lemma_pairs(req: SchedulingRequest, k: nat, n: nat)
    requires
        k <= n <= req.tasks@.len(),
    ensures
        pairs(req, n).subrange(0, pairs(req, k).len() as int) == pairs(req, k),
        pairs(req, k).len() <= pairs(req, n).len(),
        pairs(req, n).len() <= n * req.agents@.len(),
        forall|q: int|
            0 <= q < pairs(req, n).len() ==> {
                let p = #[trigger] pairs(req, n)[q];
                &&& 0 <= p.0 < n
                &&& 0 <= p.1 < req.agents@.len()
                &&& capable(req.agents@[p.1], req.tasks@[p.0])
            },
    decreases n,
{
    if n > 0 {
        let am = req.agents@.len();
        if k < n {
            lemma_pairs(req, k, (n - 1) as nat);
        }
        lemma_pairs(req, (n - 1) as nat, (n - 1) as nat);
        lemma_agent_pairs(req, n - 1, 0, am);
        let prev = pairs(req, (n - 1) as nat);
        let cur = pairs(req, n);
        let ap = agent_pairs(req, n - 1, am);
        assert(cur.len() == prev.len() + ap.len());
        assert((n - 1) * am + am == n * am) by (nonlinear_arith);
        assert forall|q: int| 0 <= q < cur.len() implies {
            let p = #[trigger] cur[q];
            &&& 0 <= p.0 < n
            &&& 0 <= p.1 < am
            &&& capable(req.agents@[p.1], req.tasks@[p.0])
        } by {
            if q < prev.len() {
                assert(cur[q] == prev[q]);
            } else {
                assert(cur[q] == ap[q - prev.len()]);
            }
        }
        if k < n {
            assert(cur.subrange(0, pairs(req, k).len() as int) =~= prev.subrange(0, pairs(req, k).len() as int));
        } else {
            assert(cur.subrange(0, cur.len() as int) =~= cur);
        }
    }
}

/// Index of the last task with `id`.
fn last_task_with_id(tasks: &Vec<SchedulingTask>, id: usize) -> (r: usize)
    requires
        exists|i: int| 0 <= i < tasks@.len() && tasks@[i].id == id,
    ensures
        r as int == last_with_id(tasks@, id, tasks@.len()),
        r < tasks@.len(),
{
    let mut i: usize = tasks.len();
    while i > 0
        invariant
            i <= tasks@.len(),
            exists|x: int| 0 <= x < tasks@.len() && tasks@[x].id == id,
            forall|x: int| i <= x < tasks@.len() ==> tasks@[x].id != id,
            last_with_id(tasks@, id, tasks@.len()) == last_with_id(tasks@, id, i as nat),
        decreases i,
    {
        if tasks[i - 1].id == id {
            return i - 1;
        }
        i = i - 1;
    }
    proof {
        let x = choose|x: int| 0 <= x < tasks@.len() && tasks@[x].id == id;
        assert(false);
    }
    0
}

/// Index of the last entry equal to `ids` among the first `m`, if any.
fn last_in_exec(s: &Vec<(usize, usize)>, ids: (usize, usize), m: usize) -> (r: Option<usize>)
    requires
        m <= s@.len(),
    ensures
        match r {
            Some(q) => q as int == last_in(s@, ids, m as nat) && q < m,
            None => last_in(s@, ids, m as nat) == -1,
        },
{
    let mut i: usize = m;
    while i > 0
        invariant
            i <= m <= s@.len(),
            last_in(s@, ids, m as nat) == last_in(s@, ids, i as nat),
        decreases i,
    {
        if s[i - 1].0 == ids.0 && s[i - 1].1 == ids.1 {
            return Some(i - 1);
        }
        i = i - 1;
    }
    None
}

proof fn lemma_last_in_range(s: Seq<(usize, usize)>, ids: (usize, usize), m: nat)
    requires
        m <= s.len(),
    ensures
        -1 <= last_in(s, ids, m) < m,
        last_in(s, ids, m) >= 0 ==> s[last_in(s, ids, m)] == ids,
    decreases m,
{
    if m > 0 {
        lemma_last_in_range(s, ids, (m - 1) as nat);
    }
}

proof fn lemma_last_with_id(tasks: Seq<SchedulingTask>, i: int, n: nat)
    requires
        0 <= i < n <= tasks.len(),
    ensures
        i <= last_with_id(tasks, tasks[i].id, n) < n,
        tasks[last_with_id(tasks, tasks[i].id, n)].id == tasks[i].id,
    decreases n,
{
    if n - 1 > i {
        lemma_last_with_id(tasks, i, (n - 1) as nat);
    }
}

// ── The model refers only to what it declares ───────────────────────────────

/// Every handle of the model fits in `usize`.
proof fn lemma_handles_fit(req: SchedulingRequest)
    requires
        sched_model_fits(req),
    ensures
        2 * req.tasks@.len() + 2 * all_pairs(req).len() < usize::MAX,
        all_pairs(req).len() <= req.tasks@.len() * req.agents@.len(),
{
    let n = req.tasks@.len();
    let na = req.agents@.len();
    lemma_pairs(req, n, n);
    assert(3 * n * na == 3 * (n * na)) by (nonlinear_arith);
    assert(n * na >= 0) by (nonlinear_arith);
}

/// Handle `v` is an assignment (0/1) variable of the model.
pub open spec fn sched_bool(req: SchedulingRequest, v: int) -> bool {
    let n = req.tasks@.len();
    &&& 2 * n <= v < 2 * n + 2 * all_pairs(req).len()
    &&& sched_model(req)[v].0 is BoolVar
}

/// Handle `v` is an optional interval of the model.
pub open spec fn sched_interval(req: SchedulingRequest, v: int) -> bool {
    let n = req.tasks@.len();
    &&& 2 * n <= v < 2 * n + 2 * all_pairs(req).len()
    &&& sched_model(req)[v].0 is OptionalInterval
}

proof fn lemma_task_decls_all(req: SchedulingRequest, k: nat)
    requires
        k <= req.tasks@.len(),
    ensures
        all_task_decls(req, k).len() == 2 * k,
        forall|i: int| 0 <= i < 2 * k ==> (#[trigger] all_task_decls(req, k)[i]).0 is IntVar,
    decreases k,
{
    if k > 0 {
        lemma_task_decls_all(req, (k - 1) as nat);
        let prev = all_task_decls(req, (k - 1) as nat);
        let cur = all_task_decls(req, k);
        assert forall|i: int| 0 <= i < 2 * k implies (#[trigger] cur[i]).0 is IntVar by {
            if i < prev.len() {
                assert(cur[i] == prev[i]);
            } else {
                assert(cur[i] == task_decls(req, k - 1)[i - prev.len()]);
            }
        }
    }
}

proof fn lemma_pair_decls_at(req: SchedulingRequest, q: nat)
    requires
        q <= all_pairs(req).len(),
    ensures
        all_pair_decls(req, q).len() == 2 * q,
        forall|q2: int, u: int|
            0 <= q2 < q && 0 <= u < 2 ==> all_pair_decls(req, q)[2 * q2 + u] == #[trigger] pair_decls(req, q2)[u],
    decreases q,
{
    if q > 0 {
        lemma_pair_decls_at(req, (q - 1) as nat);
        let prev = all_pair_decls(req, (q - 1) as nat);
        let cur = all_pair_decls(req, q);
        assert forall|q2: int, u: int| 0 <= q2 < q && 0 <= u < 2 implies cur[2 * q2 + u] == #[trigger] pair_decls(
            req,
            q2,
        )[u] by {
            if q2 < q - 1 {
                assert(cur[2 * q2 + u] == prev[2 * q2 + u]);
            }
        }
    }
}

/// A capable agent of a task makes a pair with it.
proof fn lemma_agent_pair_present(req: SchedulingRequest, t: int, a: int, b: nat)
    requires
        0 <= t < req.tasks@.len(),
        0 <= a < b <= req.agents@.len(),
        capable(req.agents@[a], req.tasks@[t]),
    ensures
        agent_pairs(req, t, b).contains((t, a)),
    decreases b,
{
    if a < b - 1 {
        lemma_agent_pair_present(req, t, a, (b - 1) as nat);
        let prev = agent_pairs(req, t, (b - 1) as nat);
        let w = choose|w: int| 0 <= w < prev.len() && prev[w] == (t, a);
        assert(agent_pairs(req, t, b)[w] == (t, a));
    } else {
        let cur = agent_pairs(req, t, b);
        assert(cur[cur.len() - 1] == (t, a));
    }
}

proof fn lemma_pair_present(req: SchedulingRequest, t: int, a: int)
    requires
        0 <= t < req.tasks@.len(),
        0 <= a < req.agents@.len(),
        capable(req.agents@[a], req.tasks@[t]),
    ensures
        exists|q: int| 0 <= q < all_pairs(req).len() && all_pairs(req)[q] == (t, a),
{
    let n = req.tasks@.len();
    let na = req.agents@.len();
    lemma_agent_pair_present(req, t, a, na);
    lemma_pairs(req, (t + 1) as nat, n);
    let ap = agent_pairs(req, t, na);
    let w = choose|w: int| 0 <= w < ap.len() && ap[w] == (t, a);
    let before = pairs(req, t as nat);
    let upto = pairs(req, (t + 1) as nat);
    assert(upto == before + ap);
    let q = before.len() + w;
    assert(upto[q] == (t, a));
    assert(all_pairs(req).subrange(0, upto.len() as int)[q] == all_pairs(req)[q]);
}

/// The handle of the assignment variable of a capable (task, agent) pair.
proof fn lemma_x_handle_bool(req: SchedulingRequest, t: int, a: int)
    requires
        0 <= t < req.tasks@.len(),
        0 <= a < req.agents@.len(),
        capable(req.agents@[a], req.tasks@[t]),
    ensures
        sched_bool(req, x_handle(req, (req.tasks@[t].id, req.agents@[a].id))),
{
    let n = req.tasks@.len();
    let ids = (req.tasks@[t].id, req.agents@[a].id);
    let np = all_pairs(req).len();
    lemma_pair_present(req, t, a);
    let q = choose|q: int| 0 <= q < np && all_pairs(req)[q] == (t, a);
    assert(pair_id_seq(req)[q] == ids);
    lemma_last_in_here(pair_id_seq(req), ids, q as nat, np);
    lemma_last_in_range(pair_id_seq(req), ids, np);
    let l = last_pair(req, ids, np);
    lemma_task_decls_all(req, n);
    lemma_pair_decls_at(req, np);
    let m = sched_model(req);
    let td = all_task_decls(req, n);
    let pd = all_pair_decls(req, np);
    assert(pd[2 * l + 0] == pair_decls(req, l)[0]);
    assert(m[2 * n + 2 * l] == pd[2 * l]);
}

/// The handle of the assignment variable named by the ids of pair `q`.
proof fn lemma_pair_x_handle_bool(req: SchedulingRequest, q: int)
    requires
        0 <= q < all_pairs(req).len(),
    ensures
        sched_bool(req, x_handle(req, pair_id_seq(req)[q])),
{
    lemma_pairs(req, req.tasks@.len(), req.tasks@.len());
    let p = all_pairs(req)[q];
    lemma_x_handle_bool(req, p.0, p.1);
}

proof fn lemma_choices_elems(req: SchedulingRequest, t: int, a: nat)
    requires
        0 <= t < req.tasks@.len(),
        a <= req.agents@.len(),
        sched_model_fits(req),
    ensures
        forall|x: int| 0 <= x < task_choices(req, t, a).len() ==> sched_bool(req, #[trigger] task_choices(req, t, a)[x] as int),
    decreases a,
{
    if a > 0 {
        lemma_choices_elems(req, t, (a - 1) as nat);
        let prev = task_choices(req, t, (a - 1) as nat);
        let cur = task_choices(req, t, a);
        assert forall|x: int| 0 <= x < cur.len() implies sched_bool(req, #[trigger] cur[x] as int) by {
            if x < prev.len() {
                assert(cur[x] == prev[x]);
            } else {
                let ids = (req.tasks@[t].id, req.agents@[a - 1].id);
                lemma_x_handle_bool(req, t, a - 1);
                lemma_handles_fit(req);
                assert(cur[x] == x_handle(req, ids) as usize);
            }
        }
    }
}

proof fn lemma_at_most_one_elems(req: SchedulingRequest, k: nat)
    requires
        k <= req.tasks@.len(),
        sched_model_fits(req),
    ensures
        forall|i: int|
            0 <= i < at_most_one(req, k).len() ==> {
                let st = #[trigger] at_most_one(req, k)[i];
                &&& st.0 is LinearLe
                &&& st.3.len() == st.2.len()
                &&& forall|x: int| 0 <= x < st.2.len() ==> sched_bool(req, #[trigger] st.2[x] as int)
            },
    decreases k,
{
    if k > 0 {
        lemma_at_most_one_elems(req, (k - 1) as nat);
        lemma_choices_elems(req, k - 1, req.agents@.len());
        let prev = at_most_one(req, (k - 1) as nat);
        let cur = at_most_one(req, k);
        assert forall|i: int| 0 <= i < cur.len() implies {
            let st = #[trigger] cur[i];
            &&& st.0 is LinearLe
            &&& st.3.len() == st.2.len()
            &&& forall|x: int| 0 <= x < st.2.len() ==> sched_bool(req, #[trigger] st.2[x] as int)
        } by {
            if i < prev.len() {
                assert(cur[i] == prev[i]);
            }
        }
    }
}

proof fn lemma_agent_ivs_elems(req: SchedulingRequest, g: int, q: nat)
    requires
        q <= all_pairs(req).len(),
        sched_model_fits(req),
    ensures
        forall|x: int| 0 <= x < agent_ivs(req, g, q).len() ==> sched_interval(req, #[trigger] agent_ivs(req, g, q)[x] as int),
    decreases q,
{
    if q > 0 {
        let n = req.tasks@.len();
        let np = all_pairs(req).len();
        lemma_agent_ivs_elems(req, g, (q - 1) as nat);
        lemma_pairs(req, n, n);
        lemma_task_decls_all(req, n);
        lemma_pair_decls_at(req, np);
        let prev = agent_ivs(req, g, (q - 1) as nat);
        let cur = agent_ivs(req, g, q);
        assert forall|x: int| 0 <= x < cur.len() implies sched_interval(req, #[trigger] cur[x] as int) by {
            if x < prev.len() {
                assert(cur[x] == prev[x]);
            } else {
                let pd = all_pair_decls(req, np);
                let v = 2 * n + 2 * (q - 1) + 1;
                lemma_handles_fit(req);
                assert(pd[2 * (q - 1) + 1] == pair_decls(req, q - 1)[1]);
                assert(sched_model(req)[v] == pd[2 * (q - 1) + 1]);
                assert(cur[x] as int == v);
            }
        }
    }
}

proof fn lemma_no_overlap_elems(req: SchedulingRequest, x: nat)
    requires
        sched_model_fits(req),
    ensures
        forall|i: int|
            0 <= i < agent_no_overlaps(req, x).len() ==> {
                let st = #[trigger] agent_no_overlaps(req, x)[i];
                &&& st.0 is NoOverlap
                &&& forall|y: int| 0 <= y < st.2.len() ==> sched_interval(req, #[trigger] st.2[y] as int)
            },
    decreases x,
{
    if x > 0 {
        lemma_no_overlap_elems(req, (x - 1) as nat);
        lemma_agent_ivs_elems(req, x - 1, all_pairs(req).len());
        let prev = agent_no_overlaps(req, (x - 1) as nat);
        let cur = agent_no_overlaps(req, x);
        assert forall|i: int| 0 <= i < cur.len() implies {
            let st = #[trigger] cur[i];
            &&& st.0 is NoOverlap
            &&& forall|y: int| 0 <= y < st.2.len() ==> sched_interval(req, #[trigger] st.2[y] as int)
        } by {
            if i < prev.len() {
                assert(cur[i] == prev[i]);
            }
        }
    }
}

proof fn lemma_objective_elems(req: SchedulingRequest, q: nat)
    requires
        q <= all_pairs(req).len(),
        sched_model_fits(req),
    ensures
        forall|x: int| 0 <= x < objective_vars(req, q).len() ==> sched_bool(req, #[trigger] objective_vars(req, q)[x] as int),
    decreases q,
{
    if q > 0 {
        lemma_objective_elems(req, (q - 1) as nat);
        let prev = objective_vars(req, (q - 1) as nat);
        let cur = objective_vars(req, q);
        assert forall|x: int| 0 <= x < cur.len() implies sched_bool(req, #[trigger] cur[x] as int) by {
            if x < prev.len() {
                assert(cur[x] == prev[x]);
            } else {
                lemma_pair_x_handle_bool(req, q - 1);
                lemma_handles_fit(req);
                assert(cur[x] == x_handle(req, pair_id_seq(req)[q - 1]) as usize);
            }
        }
    }
}

/// A step among the pair declarations refers to earlier declarations.
proof fn lemma_pair_region(req: SchedulingRequest, q: int)
    requires
        sched_model_fits(req),
        2 * req.tasks@.len() <= q < 2 * req.tasks@.len() + 2 * all_pairs(req).len(),
    ensures
        step_refs_ok(sched_model(req), q),
{
    let n = req.tasks@.len();
    let np = all_pairs(req).len();
    let m = sched_model(req);
    lemma_pairs(req, n, n);
    lemma_handles_fit(req);
    lemma_task_decls_all(req, n);
    lemma_pair_decls_at(req, np);
    let td = all_task_decls(req, n);
    let pd = all_pair_decls(req, np);
    let r = q - 2 * n;
    let q2 = r / 2;
    let u = r % 2;
    assert(r == 2 * q2 + u && 0 <= u < 2 && 0 <= q2 < np) by (nonlinear_arith)
        requires
            0 <= r < 2 * np,
            q2 == r / 2,
            u == r % 2,
    ;
    assert(m[q] == pd[r]);
    assert(pd[2 * q2 + u] == pair_decls(req, q2)[u]);
    if u == 1 {
        let p = all_pairs(req)[q2];
        lemma_last_with_id(req.tasks@, p.0, n);
        let s = start_handle(req, p.0);
        assert(m[s] == td[s] && m[s + 1] == td[s + 1]);
        assert(pd[2 * q2 + 0] == pair_decls(req, q2)[0]);
        assert(m[q - 1] == pd[r - 1]);
    }
}

/// The scheduling model refers only to what it declares: each optional
/// interval spans its task's earlier start and end variables and is present
/// by the assignment variable just before it; the at-most-one constraints
/// and the objective weigh earlier assignment variables; each no-overlap
/// lists earlier intervals.
pub proof fn lemma_sched_model_well_formed(req: SchedulingRequest)
    requires
        sched_model_fits(req),
    ensures
        well_formed(sched_model(req)),
{
    let n = req.tasks@.len();
    let na = req.agents@.len();
    let np = all_pairs(req).len();
    let m = sched_model(req);
    lemma_handles_fit(req);
    lemma_task_decls_all(req, n);
    lemma_pair_decls_at(req, np);
    lemma_at_most_one_elems(req, n);
    lemma_no_overlap_elems(req, na);
    lemma_objective_elems(req, np);
    let td = all_task_decls(req, n);
    let am = at_most_one(req, n);
    let no = agent_no_overlaps(req, na);
    let pb = 2 * n;
    let ab = pb + 2 * np;
    let ob = ab + am.len();
    let zb = ob + no.len();
    assert forall|q: int| 0 <= q < m.len() implies #[trigger] step_refs_ok(m, q) by {
        if q < pb {
            assert(m[q] == td[q]);
        } else if q < ab {
            lemma_pair_region(req, q);
        } else if q < ob {
            assert(m[q] == am[q - ab]);
            let st = am[q - ab];
            assert forall|y: int| 0 <= y < st.2.len() implies declares_var(m, #[trigger] st.2[y] as int, q) by {
                assert(sched_bool(req, st.2[y] as int));
            }
        } else if q < zb {
            assert(m[q] == no[q - ob]);
            let st = no[q - ob];
            assert forall|y: int| 0 <= y < st.2.len() implies declares_interval(m, #[trigger] st.2[y] as int, q) by {
                assert(sched_interval(req, st.2[y] as int));
            }
        } else {
            let st = m[q];
            let obj = objective_vars(req, np);
            assert(st == linear(ModelOp::Maximize, obj, ones(obj.len())));
            assert forall|y: int| 0 <= y < st.2.len() implies declares_var(m, #[trigger] st.2[y] as int, q) by {
                assert(sched_bool(req, obj[y] as int));
            }
        }
    }
}

/// Builds the CP-SAT model of the request.
#[verifier::rlimit(60)]
pub fn build_sched_model(req: &SchedulingRequest) -> (m: CpModel)
    requires
        agent_ids_in_range(*req),
        bounds_fit(req.tasks@),
        sched_model_fits(*req),
    ensures
        m.spec_steps() == sched_model(*req),
{
    let n = req.tasks.len();
    let na = req.agents.len();
    let mut model = CpModel::new();
    proof {
        lemma_pairs(*req, n as nat, n as nat);
        assert(all_pairs(*req).len() <= n * na);
        assert(3 * n * na == 3 * (n * na)) by (nonlinear_arith);
    }
    let ghost np = all_pairs(*req).len();
    assert(5 * n + 3 * np + na + 4 < usize::MAX);

    // start and end of each task
    let mut i: usize = 0;
    while i < n
        invariant
            n == req.tasks@.len(),
            i <= n,
            bounds_fit(req.tasks@),
            sched_model_fits(*req),
            model.spec_steps() == all_task_decls(*req, i as nat),
            model.steps@.len() == 2 * i,
        decreases n - i,
    {
        let t = &req.tasks[i];
        let d = t.deadline_min - t.duration_min;
        let s_ub = if d >= t.release_min { d } else { t.release_min };
        let ghost before = model.spec_steps();
        model.new_int_var(t.release_min, s_ub, start_name(t));
        model.new_int_var(t.release_min + t.duration_min, t.deadline_min, end_name(t));
        proof {
            assert(model.spec_steps() =~= before + task_decls(*req, i as int));
        }
        i = i + 1;
    }
    let ghost p1 = model.spec_steps();

    // an assignment variable and an optional interval per capable pair
    let mut ids: Vec<(usize, usize)> = Vec::new();
    let mut ti: usize = 0;
    while ti < n
        invariant
            n == req.tasks@.len(),
            na == req.agents@.len(),
            ti <= n,
            np == all_pairs(*req).len(),
            np <= n * na,
            5 * n + 3 * np + na + 4 < usize::MAX,
            sched_model_fits(*req),
            p1.len() == 2 * n,
            ids@.len() == pairs(*req, ti as nat).len(),
            ids@ == pair_id_seq(*req).subrange(0, ids@.len() as int),
            model.spec_steps() == p1 + all_pair_decls(*req, ids@.len() as nat),
            model.steps@.len() == 2 * n + 2 * ids@.len(),
        decreases n - ti,
    {
        let t = &req.tasks[ti];
        let sh = 2 * last_task_with_id(&req.tasks, t.id);
        proof {
            lemma_last_with_id(req.tasks@, ti as int, n as nat);
            lemma_pairs(*req, ti as nat, n as nat);
            lemma_pairs(*req, (ti + 1) as nat, n as nat);
            lemma_pairs(*req, ti as nat, (ti + 1) as nat);
        }
        let mut a: usize = 0;
        while a < na
            invariant
                n == req.tasks@.len(),
                na == req.agents@.len(),
                ti < n,
                t == req.tasks@[ti as int],
                a <= na,
                np == all_pairs(*req).len(),
                np <= n * na,
                5 * n + 3 * np + na + 4 < usize::MAX,
            5 * n + 3 * np + na + 4 < usize::MAX,
                sched_model_fits(*req),
                p1.len() == 2 * n,
                sh == start_handle(*req, ti as int),
                sh < 2 * n,
                pairs(*req, (ti + 1) as nat) == pairs(*req, ti as nat) + agent_pairs(*req, ti as int, na as nat),
                all_pairs(*req).subrange(0, pairs(*req, (ti + 1) as nat).len() as int) == pairs(*req, (ti + 1) as nat),
                pairs(*req, (ti + 1) as nat).len() <= np,
                ids@.len() == pairs(*req, ti as nat).len() + agent_pairs(*req, ti as int, a as nat).len(),
                ids@ == pair_id_seq(*req).subrange(0, ids@.len() as int),
                model.spec_steps() == p1 + all_pair_decls(*req, ids@.len() as nat),
                model.steps@.len() == 2 * n + 2 * ids@.len(),
            decreases na - a,
        {
            let ag = &req.agents[a];
            proof {
                lemma_agent_pairs(*req, ti as int, a as nat, na as nat);
                lemma_agent_pairs(*req, ti as int, (a + 1) as nat, na as nat);
            }
            assert(ids@.len() <= np);
            if contains_string(&ag.capabilities, t.required_capability.as_str()) {
                let q = ids.len();
                proof {
                    let pt = pairs(*req, ti as nat);
                    let ap = agent_pairs(*req, ti as int, na as nat);
                    let ap1 = agent_pairs(*req, ti as int, (a + 1) as nat);
                    assert(ap1 == agent_pairs(*req, ti as int, a as nat).push((ti as int, a as int)));
                    assert(ap[agent_pairs(*req, ti as int, a as nat).len() as int] == ap1[agent_pairs(*req, ti as int, a as nat).len() as int]);
                    assert(all_pairs(*req)[q as int] == pairs(*req, (ti + 1) as nat)[q as int]);
                    assert(all_pairs(*req)[q as int] == (ti as int, a as int));
                }
                let ghost before = model.spec_steps();
                let x = model.new_bool_var(x_var_name(t.id, ag.id));
                model.new_optional_interval_var(sh, t.duration_min, sh + 1, x, ov_var_name(t.id, ag.id));
                ids.push((t.id, ag.id));
                proof {
                    assert(model.spec_steps() =~= before + pair_decls(*req, q as int));
                    assert(all_pair_decls(*req, (q + 1) as nat) == all_pair_decls(*req, q as nat) + pair_decls(*req, q as int));
                    assert(ids@ =~= pair_id_seq(*req).subrange(0, ids@.len() as int));
                }
            }
            a = a + 1;
        }
        ti = ti + 1;
    }
    proof {
        assert(ids@.len() == np);
        assert(ids@ =~= pair_id_seq(*req));
    }
    let pn = ids.len();

    // at most one agent per task
    let ghost p2 = model.spec_steps();
    let mut ti: usize = 0;
    while ti < n
        invariant
            n == req.tasks@.len(),
            na == req.agents@.len(),
            ti <= n,
            np == all_pairs(*req).len(),
            pn == np,
            np <= n * na,
            5 * n + 3 * np + na + 4 < usize::MAX,
            ids@ == pair_id_seq(*req),
            sched_model_fits(*req),
            p2.len() == 2 * n + 2 * np,
            model.spec_steps() == p2 + at_most_one(*req, ti as nat),
            model.steps@.len() == p2.len() + at_most_one(*req, ti as nat).len(),
            at_most_one(*req, ti as nat).len() <= ti,
        decreases n - ti,
    {
        let xs = choices_of(req, &ids, ti);
        if xs.len() > 1 {
            let cs = ones_vec(xs.len());
            model.add_linear(ModelOp::LinearLe { rhs: 1 }, xs, cs);
        }
        ti = ti + 1;
    }

    // no overlap per agent id
    let ghost p3 = model.spec_steps();
    let mut g: usize = 0;
    while g < na
        invariant
            n == req.tasks@.len(),
            na == req.agents@.len(),
            g <= na,
            np == all_pairs(*req).len(),
            pn == np,
            np <= n * na,
            5 * n + 3 * np + na + 4 < usize::MAX,
            ids@ == pair_id_seq(*req),
            sched_model_fits(*req),
            p3.len() <= 3 * n + 2 * np,
            model.spec_steps() == p3 + agent_no_overlaps(*req, g as nat),
            model.steps@.len() == p3.len() + agent_no_overlaps(*req, g as nat).len(),
            agent_no_overlaps(*req, g as nat).len() <= g,
        decreases na - g,
    {
        let mut ivs: Vec<usize> = Vec::new();
        let mut q: usize = 0;
        while q < pn
            invariant
                n == req.tasks@.len(),
                pn == np,
                np == all_pairs(*req).len(),
                np <= n * na,
                5 * n + 3 * np + na + 4 < usize::MAX,
            5 * n + 3 * np + na + 4 < usize::MAX,
                ids@ == pair_id_seq(*req),
                sched_model_fits(*req),
                q <= pn,
                ivs@ == agent_ivs(*req, g as int, q as nat),
            decreases pn - q,
        {
            if ids[q].1 == g {
                ivs.push(2 * n + 2 * q + 1);
            }
            q = q + 1;
        }
        if ivs.len() > 1 {
            model.add_listing(ModelOp::NoOverlap, ivs);
        }
        g = g + 1;
    }

    // maximise the number of tasks scheduled
    let mut obj: Vec<usize> = Vec::new();
    let mut q: usize = 0;
    while q < pn
        invariant
            n == req.tasks@.len(),
            pn == np,
            np == all_pairs(*req).len(),
            np <= n * na,
            5 * n + 3 * np + na + 4 < usize::MAX,
            ids@ == pair_id_seq(*req),
            sched_model_fits(*req),
            q <= pn,
            obj@ == objective_vars(*req, q as nat),
        decreases pn - q,
    {
        let key = ids[q];
        if last_in_exec(&ids, key, q).is_none() {
            let last = last_in_exec(&ids, key, pn);
            proof {
                lemma_last_in_range(ids@, key, pn as nat);
                assert(ids@[q as int] == key);
            }
            match last {
                Some(l) => obj.push(2 * n + 2 * l),
                None => {
                    proof {
                        assert(false) by {
                            lemma_last_in_here(ids@, key, q as nat, pn as nat);
                        }
                    }
                },
            }
        }
        q = q + 1;
    }
    let cs = ones_vec(obj.len());
    model.add_linear(ModelOp::Maximize, obj, cs);
    proof {
        assert(model.spec_steps() =~= sched_model(*req));
    }
    model
}

proof fn lemma_last_in_here(s: Seq<(usize, usize)>, ids: (usize, usize), q: nat, m: nat)
    requires
        q < m <= s.len(),
        s[q as int] == ids,
    ensures
        last_in(s, ids, m) >= q,
    decreases m,
{
    if m - 1 > q {
        lemma_last_in_here(s, ids, q, (m - 1) as nat);
    }
}

/// The assignment variables of task `ti`'s capable agents, in agent order.
fn choices_of(req: &SchedulingRequest, ids: &Vec<(usize, usize)>, ti: usize) -> (r: Vec<usize>)
    requires
        ti < req.tasks@.len(),
        ids@ == pair_id_seq(*req),
        5 * req.tasks@.len() + 3 * all_pairs(*req).len() + req.agents@.len() + 4 < usize::MAX,
    ensures
        r@ == task_choices(*req, ti as int, req.agents@.len()),
{
    let n = req.tasks.len();
    let na = req.agents.len();
    let t = &req.tasks[ti];
    proof {
        lemma_pairs(*req, (ti + 1) as nat, n as nat);
        lemma_pairs(*req, ti as nat, (ti + 1) as nat);
    }
    let mut r: Vec<usize> = Vec::new();
    let mut a: usize = 0;
    while a < na
        invariant
            n == req.tasks@.len(),
            na == req.agents@.len(),
            ti < n,
            t == req.tasks@[ti as int],
            a <= na,
            ids@ == pair_id_seq(*req),
            5 * n + 3 * all_pairs(*req).len() + na + 4 < usize::MAX,
            pairs(*req, (ti + 1) as nat) == pairs(*req, ti as nat) + agent_pairs(*req, ti as int, na as nat),
            all_pairs(*req).subrange(0, pairs(*req, (ti + 1) as nat).len() as int) == pairs(*req, (ti + 1) as nat),
            r@ == task_choices(*req, ti as int, a as nat),
        decreases na - a,
    {
        let ag = &req.agents[a];
        proof {
            lemma_agent_pairs(*req, ti as int, a as nat, na as nat);
            lemma_agent_pairs(*req, ti as int, (a + 1) as nat, na as nat);
        }
        if contains_string(&ag.capabilities, t.required_capability.as_str()) {
            let key = (t.id, ag.id);
            let last = last_in_exec(ids, key, ids.len());
            proof {
                lemma_last_in_range(ids@, key, ids@.len());
                let q = pairs(*req, ti as nat).len() + agent_pairs(*req, ti as int, a as nat).len();
                let ap = agent_pairs(*req, ti as int, na as nat);
                let ap1 = agent_pairs(*req, ti as int, (a + 1) as nat);
                assert(ap1 == agent_pairs(*req, ti as int, a as nat).push((ti as int, a as int)));
                assert(ap[agent_pairs(*req, ti as int, a as nat).len() as int] == ap1[agent_pairs(*req, ti as int, a as nat).len() as int]);
                let l1 = pairs(*req, (ti + 1) as nat).len();
                assert(q < l1);
                lemma_pairs(*req, (ti + 1) as nat, n as nat);
                assert(all_pairs(*req).subrange(0, l1 as int)[q as int] == all_pairs(*req)[q as int]);
                assert(all_pairs(*req)[q as int] == pairs(*req, (ti + 1) as nat)[q as int]);
                assert(all_pairs(*req)[q as int] == (ti as int, a as int));
                assert(q < all_pairs(*req).len());
                assert(pair_id_seq(*req)[q as int] == pair_ids(*req, (ti as int, a as int)));
                assert(ids@[q as int] == key);
                lemma_last_in_here(ids@, key, q as nat, ids@.len());
            }
            match last {
                Some(l) => r.push(2 * n + 2 * l),
                None => {
                    proof {
                        assert(false);
                    }
                },
            }
        }
        a = a + 1;
    }
    r
}


// ── Reading the plan off a solution ──────────────────────────────────────────

/// Name of a solver outcome in a scheduling plan: `"optimal"`, `"feasible"`,
/// `"infeasible"` or `"error"` (any other outcome).
pub open spec fn sched_status_label(s: CpStatus) -> Seq<char> {
    match s {
        CpStatus::Optimal => "optimal"@,
        CpStatus::Feasible => "feasible"@,
        CpStatus::Infeasible => "infeasible"@,
        _ => "error"@,
    }
}

pub fn sched_status_name(s: CpStatus) -> (r: &'static str)
    ensures
        r@ == sched_status_label(s),
{
    match s {
        CpStatus::Optimal => "optimal",
        CpStatus::Feasible => "feasible",
        CpStatus::Infeasible => "infeasible",
        _ => "error",
    }
}

/// The first of the first `a` capable agents of task `ti` whose assignment
/// variable is 1 in the solution.
pub open spec fn chosen_agent(req: SchedulingRequest, values: Seq<i64>, ti: int, a: nat) -> Option<int>
    decreases a,
{
    if a == 0 {
        None
    } else {
        match chosen_agent(req, values, ti, (a - 1) as nat) {
            Some(x) => Some(x),
            None => if capable(req.agents@[a - 1], req.tasks@[ti]) && values[x_handle(
                req,
                (req.tasks@[ti].id, req.agents@[a - 1].id),
            )] == 1 {
                Some(a - 1)
            } else {
                None
            },
        }
    }
}

/// Task `ti` on agent `a` at the start the solution gives the task.
pub open spec fn solved_assignment(req: SchedulingRequest, values: Seq<i64>, ti: int, a: int) -> TaskAssignment {
    let t = req.tasks@[ti];
    let ag = req.agents@[a];
    let start = values[start_handle(req, ti)];
    TaskAssignment {
        task_id: t.id,
        task_name: t.name,
        agent_id: ag.id,
        agent_name: ag.name,
        start_min: start,
        end_min: (start + t.duration_min) as i64,
    }
}

/// The assignments of the first `n` tasks, in task order.
pub open spec fn solved_assignments(req: SchedulingRequest, values: Seq<i64>, n: nat) -> Seq<TaskAssignment>
    decreases n,
{
    if n == 0 {
        Seq::empty()
    } else {
        let prev = solved_assignments(req, values, (n - 1) as nat);
        match chosen_agent(req, values, n - 1, req.agents@.len()) {
            Some(a) => prev.push(solved_assignment(req, values, n - 1, a)),
            None => prev,
        }
    }
}

/// The assignment is a task of the request on one of the task's capable
/// agents, carrying their ids and names, and lasting the task's duration.
pub open spec fn assignment_of_request(req: SchedulingRequest, x: TaskAssignment) -> bool {
    exists|ti: int, a: int|
        #![trigger req.tasks@[ti], req.agents@[a]]
        0 <= ti < req.tasks@.len() && 0 <= a < req.agents@.len() && {
            let t = req.tasks@[ti];
            let g = req.agents@[a];
            &&& capable(g, t)
            &&& x.task_id == t.id
            &&& x.task_name == t.name
            &&& x.agent_id == g.id
            &&& x.agent_name == g.name
            &&& x.end_min == x.start_min + t.duration_min
        }
}

/// Values are present for every declared variable, and each task's solved
/// start plus its duration fits in `i64`.
pub open spec fn sched_solution_fits(req: SchedulingRequest, values: Seq<i64>) -> bool {
    &&& values.len() >= 2 * req.tasks@.len() + 2 * all_pairs(req).len()
    &&& forall|ti: int|
        0 <= ti < req.tasks@.len() ==> i64::MIN <= values[start_handle(req, ti)] + (#[trigger] req.tasks@[ti]).duration_min
            <= i64::MAX
}

/// Whether `build_sched_model` can run on the request: every agent that can
/// run some task has an id below the number of agents, each task's bounds
/// are computable in `i64`, and the model's handles fit in `usize`.
pub fn can_build_sched_model(req: &SchedulingRequest) -> (r: bool)
    ensures
        r == (agent_ids_in_range(*req) && bounds_fit(req.tasks@) && sched_model_fits(*req)),
{
    if !agent_ids_in_range_exec(req) {
        return false;
    }
    let n = req.tasks.len();
    let na = req.agents.len();
    let mut i: usize = 0;
    while i < n
        invariant
            n == req.tasks@.len(),
            i <= n,
            forall|x: int|
                0 <= x < i ==> {
                    let t = #[trigger] req.tasks@[x];
                    &&& i64::MIN <= t.deadline_min - t.duration_min <= i64::MAX
                    &&& i64::MIN <= t.release_min + t.duration_min <= i64::MAX
                },
        decreases n - i,
    {
        let t = &req.tasks[i];
        let u = (t.deadline_min as i128) - (t.duration_min as i128);
        let e = (t.release_min as i128) + (t.duration_min as i128);
        if u < i64::MIN as i128 || u > i64::MAX as i128 || e < i64::MIN as i128 || e > i64::MAX as i128 {
            assert(req.tasks@[i as int] == *t);
            return false;
        }
        i = i + 1;
    }
    proof {
        let nu = n as int;
        let nau = na as int;
        assert(nu * nau <= 0xffff_ffff_ffff_ffff * 0xffff_ffff_ffff_ffff) by (nonlinear_arith)
            requires 0 <= nu <= 0xffff_ffff_ffff_ffff, 0 <= nau <= 0xffff_ffff_ffff_ffff;
        assert(3 * n * na == 3 * (n * na)) by (nonlinear_arith);
    }
    let prod: u128 = (n as u128) * (na as u128);
    if prod > usize::MAX as u128 {
        return false;
    }
    5 * (n as u128) + 3 * prod + (na as u128) + 4 < usize::MAX as u128
}

/// Whether `sched_plan_from_solution` can read this solution: when the
/// solver found one, a value is present for every declared variable and each
/// task's solved start plus its duration fits in `i64`.
pub fn can_read_sched_solution(req: &SchedulingRequest, sol: &CpSolution) -> (r: bool)
    requires
        sched_model_fits(*req),
    ensures
        r == (sol.status.spec_is_success() ==> sched_solution_fits(*req, sol.values@)),
{
    if !sol.status.is_success() {
        return true;
    }
    let n = req.tasks.len();
    let na = req.agents.len();
    proof {
        lemma_pairs(*req, n as nat, n as nat);
        assert(3 * n * na == 3 * (n * na)) by (nonlinear_arith);
    }
    let ids = pair_ids_of(req);
    let vlen = sol.values.len();
    if vlen < 2 * n + 2 * ids.len() {
        return false;
    }
    let mut ti: usize = 0;
    while ti < n
        invariant
            n == req.tasks@.len(),
            vlen == sol.values@.len(),
            vlen >= 2 * n,
            sol.status.spec_is_success(),
            ids@ == pair_id_seq(*req),
            sol.values@.len() >= 2 * req.tasks@.len() + 2 * all_pairs(*req).len(),
            ti <= n,
            forall|x: int|
                0 <= x < ti ==> i64::MIN <= sol.values@[start_handle(*req, x)] + (#[trigger] req.tasks@[x]).duration_min
                    <= i64::MAX,
        decreases n - ti,
    {
        let t = &req.tasks[ti];
        proof {
            lemma_last_with_id(req.tasks@, ti as int, n as nat);
        }
        let last = last_task_with_id(&req.tasks, t.id);
        let v = sol.values[2 * last];
        let e = (v as i128) + (t.duration_min as i128);
        if e < i64::MIN as i128 || e > i64::MAX as i128 {
            assert(req.tasks@[ti as int] == *t);
            return false;
        }
        ti = ti + 1;
    }
    true
}

/// The plan read off a solution of `sched_model`: nothing when the solver
/// has no solution; otherwise each task on the first capable agent whose
/// assignment variable is 1, at the task's solved start, listed by start.
#[verifier::rlimit(40)]
pub fn sched_plan_from_solution(req: &SchedulingRequest, sol: &CpSolution) -> (plan: SchedulingPlan)
    requires
        sched_model_fits(*req),
        sol.status.spec_is_success() ==> sched_solution_fits(*req, sol.values@),
    ensures
        plan.request_id@ == req.id@,
        plan.tasks_total == req.tasks@.len(),
        plan.tasks_scheduled == plan.assignments@.len(),
        plan.solver@ == "cp-sat-v9.15"@,
        plan.status@ == sched_status_label(sol.status),
        plan.status@ == "optimal"@ || plan.status@ == "feasible"@ || plan.status@ == "infeasible"@
            || plan.status@ == "error"@,
        plan.makespan_min == max_end(plan.assignments@),
        forall|i: int| 0 <= i < plan.assignments@.len() ==> (#[trigger] plan.assignments@[i]).end_min <= plan.makespan_min,
        plan.assignments@.len() == 0 ==> plan.makespan_min == 0,
        plan.assignments@.len() > 0 ==> exists|i: int| 0 <= i < plan.assignments@.len() && plan.makespan_min == (#[trigger] plan.assignments@[i]).end_min,
        sorted_by_start(plan.assignments@),
        !sol.status.spec_is_success() ==> plan.assignments@.len() == 0,
        sol.status.spec_is_success() ==> {
            let raw = solved_assignments(*req, sol.values@, req.tasks@.len());
            plan.assignments@ == reorder(raw, stable_order(start_keys(raw)))
        },
        forall|i: int| 0 <= i < plan.assignments@.len() ==> assignment_of_request(*req, #[trigger] plan.assignments@[i]),
{
    let status = sched_status_name(sol.status);
    let n = req.tasks.len();
    let na = req.agents.len();
    if !sol.status.is_success() {
        let assignments: Vec<TaskAssignment> = Vec::new();
        proof {
            assert(max_end(assignments@) == 0);
        }
        return SchedulingPlan {
            request_id: req.id.clone(),
            assignments,
            tasks_total: n,
            tasks_scheduled: 0,
            makespan_min: 0,
            solver: String::from_str("cp-sat-v9.15"),
            status: String::from_str(status),
        };
    }
    proof {
        lemma_pairs(*req, n as nat, n as nat);
        assert(3 * n * na == 3 * (n * na)) by (nonlinear_arith);
    }
    // the ids of every pair, in pair order
    let ids = pair_ids_of(req);

    let mut raw: Vec<TaskAssignment> = Vec::new();
    let mut ti: usize = 0;
    while ti < n
        invariant
            n == req.tasks@.len(),
            na == req.agents@.len(),
            ti <= n,
            ids@ == pair_id_seq(*req),
            5 * n + 3 * all_pairs(*req).len() + na + 4 < usize::MAX,
            sched_solution_fits(*req, sol.values@),
            raw@ == solved_assignments(*req, sol.values@, ti as nat),
        decreases n - ti,
    {
        let t = &req.tasks[ti];
        let xs = choices_of(req, &ids, ti);
        // the first capable agent whose variable is 1
        let mut a: usize = 0;
        let mut k: usize = 0;
        let mut found: Option<usize> = None;
        while a < na && found.is_none()
            invariant
                n == req.tasks@.len(),
                na == req.agents@.len(),
                ti < n,
                t == req.tasks@[ti as int],
                a <= na,
                xs@ == task_choices(*req, ti as int, na as nat),
                k == task_choices(*req, ti as int, a as nat).len(),
                task_choices(*req, ti as int, na as nat).subrange(0, k as int) == task_choices(*req, ti as int, a as nat),
                sched_solution_fits(*req, sol.values@),
                5 * n + 3 * all_pairs(*req).len() + na + 4 < usize::MAX,
                match found {
                    Some(f) => chosen_agent(*req, sol.values@, ti as int, a as nat) == Some(f as int),
                    None => chosen_agent(*req, sol.values@, ti as int, a as nat) is None,
                },
            decreases na - a,
        {
            let ag = &req.agents[a];
            proof {
                lemma_choices_prefix(*req, ti as int, (a + 1) as nat, na as nat);
            }
            if contains_string(&ag.capabilities, t.required_capability.as_str()) {
                proof {
                    assert(capable(req.agents@[a as int], req.tasks@[ti as int]));
                    let tc1 = task_choices(*req, ti as int, (a + 1) as nat);
                    assert(tc1 == task_choices(*req, ti as int, a as nat).push(
                        x_handle(*req, (t.id, ag.id)) as usize,
                    ));
                    assert(tc1.len() == k + 1);
                    assert(k < xs@.len());
                    assert(xs@.len() == xs.len());
                    assert(xs@.subrange(0, k + 1)[k as int] == xs@[k as int]);
                    assert(tc1[k as int] == xs@[k as int]);
                    lemma_x_handle_range(*req, (t.id, ag.id));
                    lemma_last_in_range(pair_id_seq(*req), (t.id, ag.id), all_pairs(*req).len());
                }
                let x = xs[k];
                if sol.values[x] == 1 {
                    found = Some(a);
                }
                k = k + 1;
            }
            a = a + 1;
        }
        proof {
            if found is Some {
                lemma_chosen_stays(*req, sol.values@, ti as int, a as nat, na as nat);
                lemma_chosen_range(*req, sol.values@, ti as int, a as nat);
            } else {
                assert(a == na);
            }
        }
        match found {
            Some(f) => {
                let ag = &req.agents[f];
                let sh = 2 * last_task_with_id(&req.tasks, t.id);
                proof {
                    lemma_last_with_id(req.tasks@, ti as int, n as nat);
                }
                let start = sol.values[sh];
                raw.push(TaskAssignment {
                    task_id: t.id,
                    task_name: t.name.clone(),
                    agent_id: ag.id,
                    agent_name: ag.name.clone(),
                    start_min: start,
                    end_min: start + t.duration_min,
                });
            },
            None => {},
        }
        ti = ti + 1;
    }

    let cnt = raw.len();
    let mut keys: Vec<(usize, i64)> = Vec::new();
    let mut q: usize = 0;
    while q < cnt
        invariant
            cnt == raw@.len(),
            q <= cnt,
            keys@ =~= start_keys(raw@).subrange(0, q as int),
        decreases cnt - q,
    {
        keys.push((0, raw[q].start_min));
        q = q + 1;
    }
    assert(keys@ =~= start_keys(raw@));
    let order = stable_order_of(&keys);
    let mut assignments: Vec<TaskAssignment> = Vec::new();
    let mut w: usize = 0;
    while w < cnt
        invariant
            cnt == raw@.len(),
            order@.len() == cnt,
            is_stable_order(start_keys(raw@), order@),
            w <= cnt,
            assignments@ =~= reorder(raw@, order@).subrange(0, w as int),
        decreases cnt - w,
    {
        assignments.push(raw[order[w]].clone());
        w = w + 1;
    }
    assert(assignments@ =~= reorder(raw@, order@));
    proof {
        let a = assignments@;
        assert forall|i: int, j: int| 0 <= i < j < a.len() implies #[trigger] a[i].start_min <= #[trigger] a[j].start_min by {
            assert(precedes(start_keys(raw@), order@[i] as int, order@[j] as int));
        }
        lemma_solved_assignments_of_request(*req, sol.values@, n as nat);
        assert forall|i: int| 0 <= i < a.len() implies assignment_of_request(*req, #[trigger] a[i]) by {
            assert(a[i] == raw@[order@[i] as int]);
        }
    }
    let makespan = makespan_of(&assignments);
    let scheduled = assignments.len();
    SchedulingPlan {
        request_id: req.id.clone(),
        assignments,
        tasks_total: n,
        tasks_scheduled: scheduled,
        makespan_min: makespan,
        solver: String::from_str("cp-sat-v9.15"),
        status: String::from_str(status),
    }
}

/// The ids of every capable pair, in pair order.
fn pair_ids_of(req: &SchedulingRequest) -> (r: Vec<(usize, usize)>)
    requires
        sched_model_fits(*req),
    ensures
        r@ == pair_id_seq(*req),
{
    let n = req.tasks.len();
    let na = req.agents.len();
    let mut ids: Vec<(usize, usize)> = Vec::new();
    let mut ti: usize = 0;
    while ti < n
        invariant
            n == req.tasks@.len(),
            na == req.agents@.len(),
            ti <= n,
            ids@.len() == pairs(*req, ti as nat).len(),
            ids@ == pair_id_seq(*req).subrange(0, ids@.len() as int),
        decreases n - ti,
    {
        let t = &req.tasks[ti];
        proof {
            lemma_pairs(*req, ti as nat, n as nat);
            lemma_pairs(*req, (ti + 1) as nat, n as nat);
            lemma_pairs(*req, ti as nat, (ti + 1) as nat);
        }
        let mut a: usize = 0;
        while a < na
            invariant
                n == req.tasks@.len(),
                na == req.agents@.len(),
                ti < n,
                t == req.tasks@[ti as int],
                a <= na,
                pairs(*req, (ti + 1) as nat) == pairs(*req, ti as nat) + agent_pairs(*req, ti as int, na as nat),
                all_pairs(*req).subrange(0, pairs(*req, (ti + 1) as nat).len() as int) == pairs(*req, (ti + 1) as nat),
                pairs(*req, (ti + 1) as nat).len() <= all_pairs(*req).len(),
                ids@.len() == pairs(*req, ti as nat).len() + agent_pairs(*req, ti as int, a as nat).len(),
                ids@ == pair_id_seq(*req).subrange(0, ids@.len() as int),
            decreases na - a,
        {
            let ag = &req.agents[a];
            proof {
                lemma_agent_pairs(*req, ti as int, a as nat, na as nat);
                lemma_agent_pairs(*req, ti as int, (a + 1) as nat, na as nat);
            }
            if contains_string(&ag.capabilities, t.required_capability.as_str()) {
                proof {
                    let q = ids@.len();
                    let ap = agent_pairs(*req, ti as int, na as nat);
                    let ap1 = agent_pairs(*req, ti as int, (a + 1) as nat);
                    assert(ap1 == agent_pairs(*req, ti as int, a as nat).push((ti as int, a as int)));
                    assert(ap[agent_pairs(*req, ti as int, a as nat).len() as int] == ap1[agent_pairs(*req, ti as int, a as nat).len() as int]);
                    assert(all_pairs(*req)[q as int] == pairs(*req, (ti + 1) as nat)[q as int]);
                    assert(all_pairs(*req)[q as int] == (ti as int, a as int));
                }
                ids.push((t.id, ag.id));
                proof {
                    assert(ids@ =~= pair_id_seq(*req).subrange(0, ids@.len() as int));
                }
            }
            a = a + 1;
        }
        ti = ti + 1;
    }
    proof {
        lemma_pairs(*req, n as nat, n as nat);
        assert(ids@ =~= pair_id_seq(*req));
    }
    ids
}

proof fn lemma_choices_prefix(req: SchedulingRequest, ti: int, a: nat, b: nat)
    requires
        a <= b,
    ensures
        task_choices(req, ti, b).subrange(0, task_choices(req, ti, a).len() as int) == task_choices(req, ti, a),
        task_choices(req, ti, a).len() <= task_choices(req, ti, b).len(),
    decreases b,
{
    if a < b {
        lemma_choices_prefix(req, ti, a, (b - 1) as nat);
        let prev = task_choices(req, ti, (b - 1) as nat);
        let cur = task_choices(req, ti, b);
        assert(cur.subrange(0, task_choices(req, ti, a).len() as int) =~= prev.subrange(
            0,
            task_choices(req, ti, a).len() as int,
        ));
    } else {
        assert(task_choices(req, ti, b).subrange(0, task_choices(req, ti, b).len() as int) =~= task_choices(req, ti, b));
    }
}

proof fn lemma_chosen_stays(req: SchedulingRequest, values: Seq<i64>, ti: int, a: nat, b: nat)
    requires
        a <= b,
        chosen_agent(req, values, ti, a) is Some,
    ensures
        chosen_agent(req, values, ti, b) == chosen_agent(req, values, ti, a),
    decreases b,
{
    if a < b {
        lemma_chosen_stays(req, values, ti, a, (b - 1) as nat);
    }
}

proof fn lemma_chosen_range(req: SchedulingRequest, values: Seq<i64>, ti: int, a: nat)
    ensures
        chosen_agent(req, values, ti, a) matches Some(x) ==> 0 <= x < a,
    decreases a,
{
    if a > 0 {
        lemma_chosen_range(req, values, ti, (a - 1) as nat);
    }
}

proof fn lemma_x_handle_range(req: SchedulingRequest, ids: (usize, usize))
    ensures
        x_handle(req, ids) < 2 * req.tasks@.len() + 2 * all_pairs(req).len(),
{
    lemma_last_in_range(pair_id_seq(req), ids, all_pairs(req).len());
}

// ── What a solution of the model means ─────────────────────────────────────

/// No two tasks share an id (each task's variables are its own).
pub open spec fn task_ids_distinct(req: SchedulingRequest) -> bool {
    forall|i: int, j: int|
        0 <= i < req.tasks@.len() && 0 <= j < req.tasks@.len() && i != j ==> (#[trigger] req.tasks@[i]).id
            != (#[trigger] req.tasks@[j]).id
}

proof fn lemma_task_decls_at(req: SchedulingRequest, k: nat)
    requires
        k <= req.tasks@.len(),
    ensures
        all_task_decls(req, k).len() == 2 * k,
        forall|i: int, u: int|
            0 <= i < k && 0 <= u < 2 ==> all_task_decls(req, k)[2 * i + u] == #[trigger] task_decls(req, i)[u],
    decreases k,
{
    if k > 0 {
        lemma_task_decls_at(req, (k - 1) as nat);
        let prev = all_task_decls(req, (k - 1) as nat);
        let cur = all_task_decls(req, k);
        assert forall|i: int, u: int| 0 <= i < k && 0 <= u < 2 implies cur[2 * i + u] == #[trigger] task_decls(
            req,
            i,
        )[u] by {
            if i < k - 1 {
                assert(cur[2 * i + u] == prev[2 * i + u]);
            }
        }
    }
}

proof fn lemma_chosen_capable(req: SchedulingRequest, values: Seq<i64>, ti: int, a: nat)
    requires
        a <= req.agents@.len(),
    ensures
        chosen_agent(req, values, ti, a) matches Some(x) ==> {
            &&& 0 <= x < a
            &&& capable(req.agents@[x], req.tasks@[ti])
            &&& values[x_handle(req, (req.tasks@[ti].id, req.agents@[x].id))] == 1
        },
    decreases a,
{
    if a > 0 {
        lemma_chosen_capable(req, values, ti, (a - 1) as nat);
    }
}

/// The pair that the assignment variable of a chosen (task, agent) names:
/// with distinct task ids, it is a pair of that task with an agent of the
/// same id.
proof fn lemma_named_pair(req: SchedulingRequest, ti: int, a: int)
    requires
        task_ids_distinct(req),
        0 <= ti < req.tasks@.len(),
        0 <= a < req.agents@.len(),
        capable(req.agents@[a], req.tasks@[ti]),
    ensures
        ({
            let l = last_pair(req, (req.tasks@[ti].id, req.agents@[a].id), all_pairs(req).len());
            &&& 0 <= l < all_pairs(req).len()
            &&& all_pairs(req)[l].0 == ti
            &&& req.agents@[all_pairs(req)[l].1].id == req.agents@[a].id
            &&& pair_id_seq(req)[l] == (req.tasks@[ti].id, req.agents@[a].id)
            &&& x_handle(req, (req.tasks@[ti].id, req.agents@[a].id)) == 2 * req.tasks@.len() + 2 * l
        }),
{
    let n = req.tasks@.len();
    let ids = (req.tasks@[ti].id, req.agents@[a].id);
    let np = all_pairs(req).len();
    lemma_pairs(req, n, n);
    lemma_pair_present(req, ti, a);
    let q = choose|q: int| 0 <= q < np && all_pairs(req)[q] == (ti, a);
    assert(pair_id_seq(req)[q] == ids);
    lemma_last_in_here(pair_id_seq(req), ids, q as nat, np);
    lemma_last_in_range(pair_id_seq(req), ids, np);
    let l = last_pair(req, ids, np);
    let p = all_pairs(req)[l];
    assert(pair_id_seq(req)[l] == pair_ids(req, p));
    assert(req.tasks@[p.0].id == req.tasks@[ti].id);
}

/// With distinct task ids, a task's start and end variables are the two
/// declared for it.
proof fn lemma_task_vars(req: SchedulingRequest, values: Seq<i64>, ti: int)
    requires
        task_ids_distinct(req),
        satisfies(sched_model(req), values),
        0 <= ti < req.tasks@.len(),
    ensures
        start_handle(req, ti) == 2 * ti,
        req.tasks@[ti].release_min <= values[2 * ti],
        values[2 * ti + 1] <= req.tasks@[ti].deadline_min,
{
    let n = req.tasks@.len();
    let m = sched_model(req);
    lemma_last_with_id(req.tasks@, ti, n);
    lemma_task_decls_at(req, n);
    let td = all_task_decls(req, n);
    assert(td[2 * ti + 0] == task_decls(req, ti)[0]);
    assert(td[2 * ti + 1] == task_decls(req, ti)[1]);
    assert(m[2 * ti] == td[2 * ti] && m[2 * ti + 1] == td[2 * ti + 1]);
    lemma_step_holds(m, values, 2 * ti);
    lemma_step_holds(m, values, 2 * ti + 1);
}

/// The optional interval of pair `l`, present when its variable is 1.
proof fn lemma_pair_interval(req: SchedulingRequest, values: Seq<i64>, l: int)
    requires
        sched_model_fits(req),
        satisfies(sched_model(req), values),
        0 <= l < all_pairs(req).len(),
    ensures
        ({
            let n = req.tasks@.len();
            let p = all_pairs(req)[l];
            let v = 2 * n + 2 * l + 1;
            let s = start_handle(req, p.0);
            let m = sched_model(req);
            &&& m[v].0 == (ModelOp::OptionalInterval {
                start: s as usize,
                duration: req.tasks@[p.0].duration_min,
                end: (s + 1) as usize,
                presence: (2 * n + 2 * l) as usize,
            })
            &&& iv_present(m, values, v) == (values[2 * n + 2 * l] == 1)
            &&& iv_start(m, values, v) == values[s]
            &&& iv_end(m, values, v) == values[s + 1]
            &&& values[2 * n + 2 * l] == 1 ==> values[s + 1] == values[s] + req.tasks@[p.0].duration_min
        }),
{
    let n = req.tasks@.len();
    let np = all_pairs(req).len();
    let m = sched_model(req);
    lemma_handles_fit(req);
    lemma_pairs(req, n, n);
    lemma_task_decls_all(req, n);
    lemma_pair_decls_at(req, np);
    let p = all_pairs(req)[l];
    lemma_last_with_id(req.tasks@, p.0, n);
    let pd = all_pair_decls(req, np);
    assert(pd[2 * l + 1] == pair_decls(req, l)[1]);
    assert(m[2 * n + 2 * l + 1] == pd[2 * l + 1]);
    lemma_step_holds(m, values, 2 * n + 2 * l + 1);
}

proof fn lemma_agent_ivs_member(req: SchedulingRequest, g: int, q: nat, l: int)
    requires
        0 <= l < q <= all_pairs(req).len(),
        pair_id_seq(req)[l].1 == g,
    ensures
        agent_ivs(req, g, q).contains((2 * req.tasks@.len() + 2 * l + 1) as usize),
    decreases q,
{
    let prev = agent_ivs(req, g, (q - 1) as nat);
    let cur = agent_ivs(req, g, q);
    if l < q - 1 {
        lemma_agent_ivs_member(req, g, (q - 1) as nat, l);
        let w = choose|w: int| 0 <= w < prev.len() && prev[w] == (2 * req.tasks@.len() + 2 * l + 1) as usize;
        assert(cur[w] == prev[w]);
    } else {
        assert(cur[cur.len() - 1] == (2 * req.tasks@.len() + 2 * l + 1) as usize);
    }
}

proof fn lemma_agent_no_overlap_member(req: SchedulingRequest, x: nat, g: int)
    requires
        0 <= g < x,
        agent_ivs(req, g, all_pairs(req).len()).len() > 1,
    ensures
        exists|i: int|
            0 <= i < agent_no_overlaps(req, x).len() && agent_no_overlaps(req, x)[i] == listing(
                ModelOp::NoOverlap,
                agent_ivs(req, g, all_pairs(req).len()),
            ),
    decreases x,
{
    let prev = agent_no_overlaps(req, (x - 1) as nat);
    let cur = agent_no_overlaps(req, x);
    let st = listing(ModelOp::NoOverlap, agent_ivs(req, g, all_pairs(req).len()));
    if g < x - 1 {
        lemma_agent_no_overlap_member(req, (x - 1) as nat, g);
        let i = choose|i: int| 0 <= i < prev.len() && prev[i] == st;
        assert(cur[i] == prev[i]);
    } else {
        assert(cur[cur.len() - 1] == st);
    }
}

proof fn lemma_sched_window_holds(req: SchedulingRequest, values: Seq<i64>, ti: int)
    requires
        sched_model_fits(req),
        task_ids_distinct(req),
        satisfies(sched_model(req), values),
        0 <= ti < req.tasks@.len(),
    ensures
        chosen_agent(req, values, ti, req.agents@.len()) matches Some(a) ==> {
            let x = solved_assignment(req, values, ti, a);
            &&& capable(req.agents@[a], req.tasks@[ti])
            &&& req.tasks@[ti].release_min <= x.start_min
            &&& x.end_min == x.start_min + req.tasks@[ti].duration_min
            &&& x.end_min <= req.tasks@[ti].deadline_min
        },
{
    lemma_chosen_capable(req, values, ti, req.agents@.len());
    if let Some(a) = chosen_agent(req, values, ti, req.agents@.len()) {
        lemma_named_pair(req, ti, a);
        lemma_task_vars(req, values, ti);
        let l = last_pair(req, (req.tasks@[ti].id, req.agents@[a].id), all_pairs(req).len());
        lemma_pair_interval(req, values, l);
    }
}

#[verifier::rlimit(40)]
proof fn lemma_sched_no_overlap_holds(req: SchedulingRequest, values: Seq<i64>, t1: int, t2: int)
    requires
        sched_model_fits(req),
        agent_ids_in_range(req),
        task_ids_distinct(req),
        satisfies(sched_model(req), values),
        0 <= t1 < req.tasks@.len(),
        0 <= t2 < req.tasks@.len(),
        t1 != t2,
    ensures
        ({
            let na = req.agents@.len();
            (chosen_agent(req, values, t1, na), chosen_agent(req, values, t2, na)) matches (Some(a1), Some(a2)) ==> {
                let x1 = solved_assignment(req, values, t1, a1);
                let x2 = solved_assignment(req, values, t2, a2);
                x1.agent_id == x2.agent_id ==> x1.end_min <= x2.start_min || x2.end_min <= x1.start_min
            }
        }),
{
    let n = req.tasks@.len();
    let na = req.agents@.len();
    let np = all_pairs(req).len();
    let m = sched_model(req);
    lemma_chosen_capable(req, values, t1, na);
    lemma_chosen_capable(req, values, t2, na);
    lemma_sched_window_holds(req, values, t1);
    lemma_sched_window_holds(req, values, t2);
    if let (Some(a1), Some(a2)) = (chosen_agent(req, values, t1, na), chosen_agent(req, values, t2, na)) {
        let g = req.agents@[a1].id;
        if req.agents@[a2].id == g {
            assert(g < na);
            lemma_named_pair(req, t1, a1);
            lemma_named_pair(req, t2, a2);
            lemma_task_vars(req, values, t1);
            lemma_task_vars(req, values, t2);
            let l1 = last_pair(req, (req.tasks@[t1].id, g), np);
            let l2 = last_pair(req, (req.tasks@[t2].id, g), np);
            assert(l1 != l2);
            lemma_pair_interval(req, values, l1);
            lemma_pair_interval(req, values, l2);
            lemma_handles_fit(req);
            let v1 = (2 * n + 2 * l1 + 1) as usize;
            let v2 = (2 * n + 2 * l2 + 1) as usize;
            let ivs = agent_ivs(req, g as int, np);
            lemma_agent_ivs_member(req, g as int, np, l1);
            lemma_agent_ivs_member(req, g as int, np, l2);
            let w1 = choose|w: int| 0 <= w < ivs.len() && ivs[w] == v1;
            let w2 = choose|w: int| 0 <= w < ivs.len() && ivs[w] == v2;
            assert(w1 != w2);
            lemma_agent_no_overlap_member(req, na, g as int);
            let no = agent_no_overlaps(req, na);
            let i = choose|i: int| 0 <= i < no.len() && no[i] == listing(ModelOp::NoOverlap, ivs);
            lemma_task_decls_all(req, n);
            lemma_pair_decls_at(req, np);
            let ob = 2 * n + 2 * np + at_most_one(req, n).len();
            assert(m[ob + i] == no[i]);
            lemma_step_holds(m, values, ob + i);
            assert(m[ob + i].2[w1] == v1 && m[ob + i].2[w2] == v2);
        }
    }
}

/// What values satisfying the scheduling model mean for the plan read from
/// them, where task ids are distinct: each task runs on a capable agent,
/// starts no earlier than its release, lasts its duration and ends by its
/// deadline; and two tasks on agents of one id do not overlap.
pub proof fn lemma_sched_solution_feasible(req: SchedulingRequest, values: Seq<i64>)
    requires
        sched_model_fits(req),
        agent_ids_in_range(req),
        task_ids_distinct(req),
        satisfies(sched_model(req), values),
    ensures
        forall|ti: int|
            0 <= ti < req.tasks@.len() ==> ((#[trigger] chosen_agent(req, values, ti, req.agents@.len())) matches Some(
                a,
            ) ==> {
                let x = solved_assignment(req, values, ti, a);
                &&& capable(req.agents@[a], req.tasks@[ti])
                &&& req.tasks@[ti].release_min <= x.start_min
                &&& x.end_min == x.start_min + req.tasks@[ti].duration_min
                &&& x.end_min <= req.tasks@[ti].deadline_min
            }),
        forall|t1: int, t2: int|
            0 <= t1 < req.tasks@.len() && 0 <= t2 < req.tasks@.len() && t1 != t2 ==> ((#[trigger] chosen_agent(
                req,
                values,
                t1,
                req.agents@.len(),
            ), #[trigger] chosen_agent(req, values, t2, req.agents@.len())) matches (Some(a1), Some(a2)) ==> {
                let x1 = solved_assignment(req, values, t1, a1);
                let x2 = solved_assignment(req, values, t2, a2);
                x1.agent_id == x2.agent_id ==> x1.end_min <= x2.start_min || x2.end_min <= x1.start_min
            }),
{
    assert forall|ti: int| 0 <= ti < req.tasks@.len() implies ((#[trigger] chosen_agent(
        req,
        values,
        ti,
        req.agents@.len(),
    )) matches Some(a) ==> {
        let x = solved_assignment(req, values, ti, a);
        &&& capable(req.agents@[a], req.tasks@[ti])
        &&& req.tasks@[ti].release_min <= x.start_min
        &&& x.end_min == x.start_min + req.tasks@[ti].duration_min
        &&& x.end_min <= req.tasks@[ti].deadline_min
    }) by {
        lemma_sched_window_holds(req, values, ti);
    }
    assert forall|t1: int, t2: int| 0 <= t1 < req.tasks@.len() && 0 <= t2 < req.tasks@.len() && t1 != t2 implies (
    (#[trigger] chosen_agent(req, values, t1, req.agents@.len()), #[trigger] chosen_agent(
        req,
        values,
        t2,
        req.agents@.len(),
    )) matches (Some(a1), Some(a2)) ==> {
        let x1 = solved_assignment(req, values, t1, a1);
        let x2 = solved_assignment(req, values, t2, a2);
        x1.agent_id == x2.agent_id ==> x1.end_min <= x2.start_min || x2.end_min <= x1.start_min
    }) by {
        lemma_sched_no_overlap_holds(req, values, t1, t2);
    }
}

/// Every assignment read from a solution is a task of the request on one of
/// its capable agents, with their ids and names, lasting the task's duration.
pub proof fn lemma_solved_assignments_of_request(req: SchedulingRequest, values: Seq<i64>, k: nat)
    requires
        k <= req.tasks@.len(),
        sched_solution_fits(req, values),
    ensures
        forall|i: int|
            0 <= i < solved_assignments(req, values, k).len() ==> assignment_of_request(
                req,
                #[trigger] solved_assignments(req, values, k)[i],
            ),
    decreases k,
{
    if k > 0 {
        lemma_solved_assignments_of_request(req, values, (k - 1) as nat);
        lemma_chosen_capable(req, values, k - 1, req.agents@.len());
        let prev = solved_assignments(req, values, (k - 1) as nat);
        let cur = solved_assignments(req, values, k);
        assert forall|i: int| 0 <= i < cur.len() implies assignment_of_request(req, #[trigger] cur[i]) by {
            if i < prev.len() {
                assert(cur[i] == prev[i]);
            } else {
                let a = chosen_agent(req, values, k - 1, req.agents@.len())->0;
                let x = cur[i];
                assert(x == solved_assignment(req, values, k - 1, a));
                assert(i64::MIN <= values[start_handle(req, k - 1)] + req.tasks@[k - 1].duration_min <= i64::MAX);
                assert(req.tasks@[k - 1] == req.tasks@[k - 1] && req.agents@[a] == req.agents@[a]);
            }
        }
    }
}

} // verus!
