//! The CP-SAT model of a job shop instance, and the plan read from a solution.
//!
//! ```text
//! For each operation (j, k):
//!   s_jk in [0, H],  e_jk in [dur_jk, H],  interval iv_jk: e_jk = s_jk + dur_jk
//! Per machine m:   NoOverlap over { iv_jk | op(j,k).machine == m }
//! Per job j:       s_j(k+1) >= e_jk    (precedence)
//! Makespan:        C_max >= e_j(last)   for each j
//! Objective:       minimise C_max
//! ```
use vstd::prelude::*;
use vstd::string::StringExecFns;

use crate::cpmodel::{
    decl, declares_interval, declares_var, iv_end, iv_present, iv_start, lemma_step_holds, lemma_weighted_difference, linear, listing, satisfies,
    step_refs_ok, weighted_sum, well_formed, CpModel, CpSolution, CpStatus, ModelOp, StepView,
};
use crate::order::{is_stable_order, precedes, reorder, stable_order, stable_order_of};
use crate::routing::{any_pending, holds_id, is_pending, pending_prefix, pending_seeds, plan_exists, spec_request_id};
use crate::text::{label2, name2};
use super::greedy::{durations_nonnegative, machine_start_keys, makespan_of, max_end, machines_in_range, machines_in_range_exec, REQUEST_PREFIX};
use super::problem::{
    durations_bounded, durations_bounded_exec, total_ops_exec, jobs_duration, lemma_ops_count_monotone, ops_count, total_ops, Job, JobShopPlan,
    JobShopRequest, ScheduledOp,
};

verus! {

pub const PLAN_PREFIX: &'static str = "jspbench-plan-cpsat:";

/// Solves Job Shop Scheduling to optimality using CP-SAT interval variables.
pub struct CpSatJobShopSuggestor;

impl CpSatJobShopSuggestor {
    pub fn name(&self) -> (r: &'static str)
        ensures
            r@ == "CpSatJobShopSuggestor"@,
    {
        "CpSatJobShopSuggestor"
    }

    pub fn complexity_hint(&self) -> (r: Option<&'static str>)
        ensures
            r is Some,
            r->0@ == "NP-hard; CP-SAT interval-NoOverlap formulation; proves optimality for 15×10 instances in < 5 s on 10-core hardware"@,
    {
        Some("NP-hard; CP-SAT interval-NoOverlap formulation; proves optimality for 15×10 instances in < 5 s on 10-core hardware")
    }

    /// Some seed is a job shop request without a CP-SAT plan yet.
    pub fn accepts(&self, seed_ids: &Vec<String>, strategy_ids: &Vec<String>) -> (r: bool)
        ensures
            r == exists|i: int|
                0 <= i < seed_ids@.len() && #[trigger] is_pending(
                    seed_ids@[i]@,
                    strategy_ids@,
                    REQUEST_PREFIX@,
                    PLAN_PREFIX@,
                ),
    {
        any_pending(seed_ids, strategy_ids, REQUEST_PREFIX, PLAN_PREFIX)
    }

    /// Indices of the seeds that this suggestor answers in one pass.
    pub fn pending(&self, seed_ids: &Vec<String>, strategy_ids: &Vec<String>) -> (r: Vec<usize>)
        ensures
            r@ == pending_prefix(seed_ids@, strategy_ids@, REQUEST_PREFIX@, PLAN_PREFIX@, seed_ids@.len()),
    {
        pending_seeds(seed_ids, strategy_ids, REQUEST_PREFIX, PLAN_PREFIX)
    }
}

/// The request id carried by a job shop request seed id.
pub fn request_id(fact_id: &str) -> (r: &str)
    ensures
        r@ == spec_request_id(fact_id@, REQUEST_PREFIX@),
{
    crate::routing::request_id(fact_id, REQUEST_PREFIX)
}

/// Whether the CP-SAT plan for `request_id` is already among the strategies.
pub fn own_plan_exists(strategy_ids: &Vec<String>, request_id: &str) -> (r: bool)
    ensures
        r == holds_id(strategy_ids@, PLAN_PREFIX@ + request_id@),
{
    plan_exists(strategy_ids, PLAN_PREFIX, request_id)
}

// ── The model ────────────────────────────────────────────────────────────────


/// Position of operation `k` of job `j` among all operations.
pub open spec fn flat(jobs: Seq<Job>, j: int, k: int) -> int {
    ops_count(jobs, j as nat) + k
}

/// The three declaration steps of operation `k` of job `j`.
pub open spec fn op_decls(req: JobShopRequest, h: i64, j: int, k: int) -> Seq<StepView> {
    let q = flat(req.jobs@, j, k);
    let job = req.jobs@[j];
    let d = job.operations@[k].duration;
    seq![
        decl(ModelOp::IntVar { lb: 0, ub: h }, label2("s_"@, job.id as nat, k as nat)),
        decl(ModelOp::IntVar { lb: d, ub: h }, label2("e_"@, job.id as nat, k as nat)),
        decl(
            ModelOp::FixedInterval { start: (3 * q) as usize, duration: d, end: (3 * q + 1) as usize },
            label2("iv_"@, job.id as nat, k as nat),
        ),
    ]
}

/// Declarations of the first `k` operations of job `j`.
pub open spec fn job_decls(req: JobShopRequest, h: i64, j: int, k: nat) -> Seq<StepView>
    decreases k,
{
    if k == 0 { Seq::empty() } else { job_decls(req, h, j, (k - 1) as nat) + op_decls(req, h, j, k - 1) }
}

/// Declarations of all operations of the first `j` jobs.
pub open spec fn decls(req: JobShopRequest, h: i64, j: nat) -> Seq<StepView>
    decreases j,
{
    if j == 0 {
        Seq::empty()
    } else {
        decls(req, h, (j - 1) as nat) + job_decls(req, h, j - 1, req.jobs@[j - 1].operations@.len())
    }
}

/// `s[j][k+1] - e[j][k] >= 0`.
pub open spec fn precedence_step(req: JobShopRequest, j: int, k: int) -> StepView {
    linear(
        ModelOp::LinearGe { rhs: 0 },
        seq![(3 * flat(req.jobs@, j, k + 1)) as usize, (3 * flat(req.jobs@, j, k) + 1) as usize],
        seq![1i64, -1i64],
    )
}

/// Precedence steps of the first `j` jobs.
pub open spec fn precedences(req: JobShopRequest, j: nat) -> Seq<StepView>
    decreases j,
{
    if j == 0 {
        Seq::empty()
    } else {
        let len = req.jobs@[j - 1].operations@.len();
        let cnt: nat = if len > 0 { (len - 1) as nat } else { 0 };
        precedences(req, (j - 1) as nat) + Seq::new(cnt, |k: int| precedence_step(req, j - 1, k))
    }
}

/// Interval handles of the first `k` operations of job `j` that run on `mc`.
pub open spec fn job_ivs(req: JobShopRequest, mc: int, j: int, k: nat) -> Seq<usize>
    decreases k,
{
    if k == 0 {
        Seq::empty()
    } else {
        let prev = job_ivs(req, mc, j, (k - 1) as nat);
        if req.jobs@[j].operations@[k - 1].machine_id == mc {
            prev.push((3 * flat(req.jobs@, j, k - 1) + 2) as usize)
        } else {
            prev
        }
    }
}

/// Interval handles of the operations of the first `j` jobs that run on `mc`.
pub open spec fn machine_ivs(req: JobShopRequest, mc: int, j: nat) -> Seq<usize>
    decreases j,
{
    if j == 0 {
        Seq::empty()
    } else {
        machine_ivs(req, mc, (j - 1) as nat) + job_ivs(req, mc, j - 1, req.jobs@[j - 1].operations@.len())
    }
}

/// No-overlap steps of the first `mc` machines (only those with two or more
/// operations).
pub open spec fn no_overlaps(req: JobShopRequest, mc: nat) -> Seq<StepView>
    decreases mc,
{
    if mc == 0 {
        Seq::empty()
    } else {
        let ivs = machine_ivs(req, mc - 1, req.jobs@.len());
        let prev = no_overlaps(req, (mc - 1) as nat);
        if ivs.len() > 1 { prev.push(listing(ModelOp::NoOverlap, ivs)) } else { prev }
    }
}

/// `C_max - e[j][last] >= 0` for the first `j` jobs.
pub open spec fn makespan_steps(req: JobShopRequest, j: nat) -> Seq<StepView>
    decreases j,
{
    if j == 0 {
        Seq::empty()
    } else {
        let last = req.jobs@[j - 1].operations@.len() - 1;
        makespan_steps(req, (j - 1) as nat).push(
            linear(
                ModelOp::LinearGe { rhs: 0 },
                seq![(3 * total_ops(req.jobs@)) as usize, (3 * flat(req.jobs@, j - 1, last) + 1) as usize],
                seq![1i64, -1i64],
            ),
        )
    }
}

/// The whole model. The makespan variable's handle is `3 * total_ops`.
pub open spec fn jsp_model(req: JobShopRequest) -> Seq<StepView> {
    let h = jobs_duration(req.jobs@, req.jobs@.len()) as i64;
    let cmax = (3 * total_ops(req.jobs@)) as usize;
    decls(req, h, req.jobs@.len()) + seq![decl(ModelOp::IntVar { lb: 0, ub: h }, "cmax"@)] + precedences(
        req,
        req.jobs@.len(),
    ) + no_overlaps(req, req.num_machines as nat) + makespan_steps(req, req.jobs@.len()) + seq![
        linear(ModelOp::Minimize, seq![cmax], seq![1i64]),
    ]
}

/// Every job has at least one operation (its last one bounds the makespan).
pub open spec fn jobs_nonempty(req: JobShopRequest) -> bool {
    forall|j: int| 0 <= j < req.jobs@.len() ==> (#[trigger] req.jobs@[j]).operations@.len() > 0
}

/// The model's handles fit in `usize`.
pub open spec fn model_fits(req: JobShopRequest) -> bool {
    5 * total_ops(req.jobs@) + req.num_machines + req.jobs@.len() + 4 < usize::MAX
}


proof fn lemma_ops_count_step(jobs: Seq<Job>, j: int)
    requires
        0 <= j < jobs.len(),
    ensures
        ops_count(jobs, (j + 1) as nat) == ops_count(jobs, j as nat) + jobs[j].operations@.len(),
{
}

proof fn lemma_precedences_len(req: JobShopRequest, j: nat)
    requires
        j <= req.jobs@.len(),
    ensures
        precedences(req, j).len() <= ops_count(req.jobs@, j),
    decreases j,
{
    if j > 0 {
        lemma_precedences_len(req, (j - 1) as nat);
    }
}

proof fn lemma_no_overlaps_len(req: JobShopRequest, mc: nat)
    ensures
        no_overlaps(req, mc).len() <= mc,
    decreases mc,
{
    if mc > 0 {
        lemma_no_overlaps_len(req, (mc - 1) as nat);
    }
}

// ── The model refers only to what it declares ───────────────────────────────

/// Each step is a variable, or an interval over the two variables just
/// before it; `base` is the position of the first step.
pub open spec fn decls_ok(s: Seq<StepView>, base: int) -> bool {
    forall|i: int|
        0 <= i < s.len() ==> {
            ||| (#[trigger] s[i]).0 is IntVar
            ||| (s[i].0 matches ModelOp::FixedInterval { start, end, .. } && i >= 2 && start == base + i - 2 && end
                == base + i - 1 && s[i - 2].0 is IntVar && s[i - 1].0 is IntVar)
        }
}

/// Handle `v` is a variable of the model.
pub open spec fn jsp_var(req: JobShopRequest, v: int) -> bool {
    0 <= v <= 3 * total_ops(req.jobs@) && jsp_model(req)[v].0 is IntVar
}

/// Handle `v` is an interval of the model.
pub open spec fn jsp_interval(req: JobShopRequest, v: int) -> bool {
    0 <= v < 3 * total_ops(req.jobs@) && jsp_model(req)[v].0 is FixedInterval
}

proof fn lemma_job_decls(req: JobShopRequest, h: i64, j: int, k: nat)
    requires
        0 <= j < req.jobs@.len(),
        k <= req.jobs@[j].operations@.len(),
        model_fits(req),
    ensures
        job_decls(req, h, j, k).len() == 3 * k,
        forall|k2: int, u: int|
            0 <= k2 < k && 0 <= u < 3 ==> job_decls(req, h, j, k)[3 * k2 + u] == #[trigger] op_decls(req, h, j, k2)[u],
        decls_ok(job_decls(req, h, j, k), 3 * flat(req.jobs@, j, 0)),
    decreases k,
{
    if k > 0 {
        lemma_job_decls(req, h, j, (k - 1) as nat);
        lemma_ops_count_monotone(req.jobs@, (j + 1) as nat, req.jobs@.len());
        lemma_ops_count_step(req.jobs@, j);
        let prev = job_decls(req, h, j, (k - 1) as nat);
        let ops = op_decls(req, h, j, k - 1);
        let cur = job_decls(req, h, j, k);
        let base = 3 * flat(req.jobs@, j, 0);
        assert(cur == prev + ops);
        assert(flat(req.jobs@, j, k - 1) < total_ops(req.jobs@));
        assert forall|k2: int, u: int|
            0 <= k2 < k && 0 <= u < 3 implies cur[3 * k2 + u] == #[trigger] op_decls(req, h, j, k2)[u] by {
            if k2 < k - 1 {
                assert(cur[3 * k2 + u] == prev[3 * k2 + u]);
            } else {
                assert(cur[3 * k2 + u] == ops[u]);
            }
        }
        assert forall|i: int| 0 <= i < cur.len() implies {
            ||| (#[trigger] cur[i]).0 is IntVar
            ||| (cur[i].0 matches ModelOp::FixedInterval { start, end, .. } && i >= 2 && start == base + i - 2 && end
                == base + i - 1 && cur[i - 2].0 is IntVar && cur[i - 1].0 is IntVar)
        } by {
            if i < prev.len() {
                assert(cur[i] == prev[i]);
                if !(cur[i].0 is IntVar) {
                    assert(cur[i - 2] == prev[i - 2] && cur[i - 1] == prev[i - 1]);
                }
            } else {
                let u = i - prev.len();
                assert(cur[i] == ops[u]);
                if u == 2 {
                    assert(cur[i - 2] == ops[0] && cur[i - 1] == ops[1]);
                }
            }
        }
    }
}

proof fn lemma_decls(req: JobShopRequest, h: i64, j: nat)
    requires
        j <= req.jobs@.len(),
        model_fits(req),
    ensures
        decls(req, h, j).len() == 3 * ops_count(req.jobs@, j),
        forall|j2: int, k2: int, u: int|
            0 <= j2 < j && 0 <= k2 < req.jobs@[j2].operations@.len() && 0 <= u < 3 ==> decls(req, h, j)[3 * flat(
                req.jobs@,
                j2,
                k2,
            ) + u] == #[trigger] op_decls(req, h, j2, k2)[u],
        decls_ok(decls(req, h, j), 0),
    decreases j,
{
    if j > 0 {
        let jj = j - 1;
        lemma_decls(req, h, (j - 1) as nat);
        lemma_job_decls(req, h, jj, req.jobs@[jj].operations@.len());
        lemma_ops_count_step(req.jobs@, jj);
        let prev = decls(req, h, (j - 1) as nat);
        let jd = job_decls(req, h, jj, req.jobs@[jj].operations@.len());
        let cur = decls(req, h, j);
        assert(cur == prev + jd);
        assert forall|j2: int, k2: int, u: int|
            0 <= j2 < j && 0 <= k2 < req.jobs@[j2].operations@.len() && 0 <= u < 3 implies cur[3 * flat(
                req.jobs@,
                j2,
                k2,
            ) + u] == #[trigger] op_decls(req, h, j2, k2)[u] by {
            if j2 < jj {
                lemma_ops_count_monotone(req.jobs@, (j2 + 1) as nat, jj as nat);
                lemma_ops_count_step(req.jobs@, j2);
                assert(cur[3 * flat(req.jobs@, j2, k2) + u] == prev[3 * flat(req.jobs@, j2, k2) + u]);
            } else {
                assert(cur[3 * flat(req.jobs@, j2, k2) + u] == jd[3 * k2 + u]);
            }
        }
        assert forall|i: int| 0 <= i < cur.len() implies {
            ||| (#[trigger] cur[i]).0 is IntVar
            ||| (cur[i].0 matches ModelOp::FixedInterval { start, end, .. } && i >= 2 && start == 0 + i - 2 && end
                == 0 + i - 1 && cur[i - 2].0 is IntVar && cur[i - 1].0 is IntVar)
        } by {
            if i < prev.len() {
                assert(cur[i] == prev[i]);
                if !(cur[i].0 is IntVar) {
                    assert(cur[i - 2] == prev[i - 2] && cur[i - 1] == prev[i - 1]);
                }
            } else {
                let r = i - prev.len();
                assert(cur[i] == jd[r]);
                if !(cur[i].0 is IntVar) {
                    assert(cur[i - 2] == jd[r - 2] && cur[i - 1] == jd[r - 1]);
                }
            }
        }
    }
}

/// The declarations of every operation: its start and end variables and its
/// interval; and the makespan variable.
#[verifier::rlimit(40)]
proof fn lemma_jsp_handles(req: JobShopRequest)
    requires
        model_fits(req),
    ensures
        forall|j: int, k: int|
            0 <= j < req.jobs@.len() && 0 <= k < req.jobs@[j].operations@.len() ==> {
                &&& jsp_var(req, 3 * #[trigger] flat(req.jobs@, j, k))
                &&& jsp_var(req, 3 * flat(req.jobs@, j, k) + 1)
                &&& jsp_interval(req, 3 * flat(req.jobs@, j, k) + 2)
            },
        jsp_var(req, 3 * total_ops(req.jobs@) as int),
        decls_ok(jsp_model(req).subrange(0, 3 * total_ops(req.jobs@) as int), 0),
{
    let n = req.jobs@.len();
    let h = jobs_duration(req.jobs@, n) as i64;
    let t = total_ops(req.jobs@) as int;
    lemma_decls(req, h, n);
    let d = decls(req, h, n);
    let m = jsp_model(req);
    assert forall|v: int| 0 <= v < 3 * t implies m[v] == #[trigger] d[v] by {}
    assert(m[3 * t].0 is IntVar);
    assert forall|j: int, k: int| 0 <= j < n && 0 <= k < req.jobs@[j].operations@.len() implies {
        &&& jsp_var(req, 3 * #[trigger] flat(req.jobs@, j, k))
        &&& jsp_var(req, 3 * flat(req.jobs@, j, k) + 1)
        &&& jsp_interval(req, 3 * flat(req.jobs@, j, k) + 2)
    } by {
        lemma_ops_count_monotone(req.jobs@, (j + 1) as nat, n);
        lemma_ops_count_step(req.jobs@, j);
        let q = 3 * flat(req.jobs@, j, k);
        assert(d[q + 0] == op_decls(req, h, j, k)[0]);
        assert(d[q + 1] == op_decls(req, h, j, k)[1]);
        assert(d[q + 2] == op_decls(req, h, j, k)[2]);
        assert(m[q] == d[q] && m[q + 1] == d[q + 1] && m[q + 2] == d[q + 2]);
    }
    assert(m.subrange(0, 3 * t) =~= d);
}

proof fn lemma_precedence_elems(req: JobShopRequest, j: nat)
    requires
        j <= req.jobs@.len(),
        model_fits(req),
    ensures
        forall|i: int|
            0 <= i < precedences(req, j).len() ==> {
                let st = #[trigger] precedences(req, j)[i];
                &&& st.0 is LinearGe
                &&& st.3.len() == st.2.len()
                &&& forall|x: int| 0 <= x < st.2.len() ==> jsp_var(req, #[trigger] st.2[x] as int)
            },
    decreases j,
{
    if j > 0 {
        let jj = j - 1;
        lemma_precedence_elems(req, jj as nat);
        lemma_jsp_handles(req);
        lemma_ops_count_monotone(req.jobs@, j, req.jobs@.len());
        lemma_ops_count_step(req.jobs@, jj);
        let prev = precedences(req, jj as nat);
        let len = req.jobs@[jj].operations@.len();
        let cnt: nat = if len > 0 { (len - 1) as nat } else { 0 };
        let new = Seq::new(cnt, |k: int| precedence_step(req, jj, k));
        let cur = precedences(req, j);
        assert(cur == prev + new);
        assert forall|i: int| 0 <= i < cur.len() implies {
            let st = #[trigger] cur[i];
            &&& st.0 is LinearGe
            &&& st.3.len() == st.2.len()
            &&& forall|x: int| 0 <= x < st.2.len() ==> jsp_var(req, #[trigger] st.2[x] as int)
        } by {
            if i < prev.len() {
                assert(cur[i] == prev[i]);
            } else {
                let k = i - prev.len();
                assert(cur[i] == precedence_step(req, jj, k));
                let a = 3 * flat(req.jobs@, jj, k + 1);
                let b = 3 * flat(req.jobs@, jj, k);
                assert(jsp_var(req, a) && jsp_var(req, b + 1));
                assert(cur[i].2[0] as int == a);
                assert(cur[i].2[1] as int == b + 1);
            }
        }
    }
}

proof fn lemma_job_ivs_elems(req: JobShopRequest, mc: int, j: int, k: nat)
    requires
        0 <= j < req.jobs@.len(),
        k <= req.jobs@[j].operations@.len(),
        model_fits(req),
    ensures
        forall|x: int| 0 <= x < job_ivs(req, mc, j, k).len() ==> jsp_interval(req, #[trigger] job_ivs(req, mc, j, k)[x] as int),
    decreases k,
{
    if k > 0 {
        lemma_job_ivs_elems(req, mc, j, (k - 1) as nat);
        lemma_jsp_handles(req);
        lemma_ops_count_monotone(req.jobs@, (j + 1) as nat, req.jobs@.len());
        lemma_ops_count_step(req.jobs@, j);
        let prev = job_ivs(req, mc, j, (k - 1) as nat);
        let cur = job_ivs(req, mc, j, k);
        assert forall|x: int| 0 <= x < cur.len() implies jsp_interval(req, #[trigger] cur[x] as int) by {
            if x < prev.len() {
                assert(cur[x] == prev[x]);
            } else {
                assert(jsp_interval(req, 3 * flat(req.jobs@, j, k - 1) + 2));
            }
        }
    }
}

proof fn lemma_machine_ivs_elems(req: JobShopRequest, mc: int, j: nat)
    requires
        j <= req.jobs@.len(),
        model_fits(req),
    ensures
        forall|x: int| 0 <= x < machine_ivs(req, mc, j).len() ==> jsp_interval(req, #[trigger] machine_ivs(req, mc, j)[x] as int),
    decreases j,
{
    if j > 0 {
        lemma_machine_ivs_elems(req, mc, (j - 1) as nat);
        lemma_job_ivs_elems(req, mc, j - 1, req.jobs@[j - 1].operations@.len());
        let prev = machine_ivs(req, mc, (j - 1) as nat);
        let jv = job_ivs(req, mc, j - 1, req.jobs@[j - 1].operations@.len());
        let cur = machine_ivs(req, mc, j);
        assert forall|x: int| 0 <= x < cur.len() implies jsp_interval(req, #[trigger] cur[x] as int) by {
            if x < prev.len() {
                assert(cur[x] == prev[x]);
            } else {
                assert(cur[x] == jv[x - prev.len()]);
            }
        }
    }
}

proof fn lemma_no_overlap_elems(req: JobShopRequest, mc: nat)
    requires
        model_fits(req),
    ensures
        forall|i: int|
            0 <= i < no_overlaps(req, mc).len() ==> {
                let st = #[trigger] no_overlaps(req, mc)[i];
                &&& st.0 is NoOverlap
                &&& forall|x: int| 0 <= x < st.2.len() ==> jsp_interval(req, #[trigger] st.2[x] as int)
            },
    decreases mc,
{
    if mc > 0 {
        lemma_no_overlap_elems(req, (mc - 1) as nat);
        lemma_machine_ivs_elems(req, mc - 1, req.jobs@.len());
        let prev = no_overlaps(req, (mc - 1) as nat);
        let cur = no_overlaps(req, mc);
        assert forall|i: int| 0 <= i < cur.len() implies {
            let st = #[trigger] cur[i];
            &&& st.0 is NoOverlap
            &&& forall|x: int| 0 <= x < st.2.len() ==> jsp_interval(req, #[trigger] st.2[x] as int)
        } by {
            if i < prev.len() {
                assert(cur[i] == prev[i]);
            }
        }
    }
}

proof fn lemma_makespan_elems(req: JobShopRequest, j: nat)
    requires
        j <= req.jobs@.len(),
        jobs_nonempty(req),
        model_fits(req),
    ensures
        forall|i: int|
            0 <= i < makespan_steps(req, j).len() ==> {
                let st = #[trigger] makespan_steps(req, j)[i];
                &&& st.0 is LinearGe
                &&& st.3.len() == st.2.len()
                &&& forall|x: int| 0 <= x < st.2.len() ==> jsp_var(req, #[trigger] st.2[x] as int)
            },
    decreases j,
{
    if j > 0 {
        let jj = j - 1;
        lemma_makespan_elems(req, jj as nat);
        lemma_jsp_handles(req);
        lemma_ops_count_monotone(req.jobs@, j, req.jobs@.len());
        lemma_ops_count_step(req.jobs@, jj);
        let prev = makespan_steps(req, jj as nat);
        let cur = makespan_steps(req, j);
        let last = req.jobs@[jj].operations@.len() - 1;
        assert(req.jobs@[jj].operations@.len() > 0);
        assert forall|i: int| 0 <= i < cur.len() implies {
            let st = #[trigger] cur[i];
            &&& st.0 is LinearGe
            &&& st.3.len() == st.2.len()
            &&& forall|x: int| 0 <= x < st.2.len() ==> jsp_var(req, #[trigger] st.2[x] as int)
        } by {
            if i < prev.len() {
                assert(cur[i] == prev[i]);
            } else {
                assert(jsp_var(req, 3 * flat(req.jobs@, jj, last) + 1));
                assert(cur[i].2[0] as int == 3 * total_ops(req.jobs@));
                assert(cur[i].2[1] as int == 3 * flat(req.jobs@, jj, last) + 1);
            }
        }
    }
}

/// The job shop model refers only to what it declares: each interval spans
/// two earlier variables, each constraint and the objective weigh earlier
/// variables with one coefficient each, and each no-overlap lists earlier
/// intervals.
pub proof fn lemma_jsp_model_well_formed(req: JobShopRequest)
    requires
        jobs_nonempty(req),
        model_fits(req),
    ensures
        well_formed(jsp_model(req)),
{
    let n = req.jobs@.len();
    let t = total_ops(req.jobs@) as int;
    let h = jobs_duration(req.jobs@, n) as i64;
    let m = jsp_model(req);
    lemma_decls(req, h, n);
    lemma_jsp_handles(req);
    lemma_precedence_elems(req, n);
    lemma_no_overlap_elems(req, req.num_machines as nat);
    lemma_makespan_elems(req, n);
    let d = decls(req, h, n);
    let p = precedences(req, n);
    let o = no_overlaps(req, req.num_machines as nat);
    let k = makespan_steps(req, n);
    let pb = 3 * t + 1;
    let ob = pb + p.len();
    let kb = ob + o.len();
    let zb = kb + k.len();
    assert(m.len() == zb + 1);
    assert forall|q: int| 0 <= q < m.len() implies #[trigger] step_refs_ok(m, q) by {
        if q < 3 * t {
            let pre = m.subrange(0, 3 * t);
            assert(pre[q] == m[q]);
            if !(m[q].0 is IntVar) {
                assert(pre[q - 2] == m[q - 2] && pre[q - 1] == m[q - 1]);
            }
        } else if q == 3 * t {
        } else if q < ob {
            assert(m[q] == p[q - pb]);
            let st = p[q - pb];
            assert forall|x: int| 0 <= x < st.2.len() implies declares_var(m, #[trigger] st.2[x] as int, q) by {
                assert(jsp_var(req, st.2[x] as int));
            }
        } else if q < kb {
            assert(m[q] == o[q - ob]);
            let st = o[q - ob];
            assert forall|x: int| 0 <= x < st.2.len() implies declares_interval(m, #[trigger] st.2[x] as int, q) by {
                assert(jsp_interval(req, st.2[x] as int));
            }
        } else if q < zb {
            assert(m[q] == k[q - kb]);
            let st = k[q - kb];
            assert forall|x: int| 0 <= x < st.2.len() implies declares_var(m, #[trigger] st.2[x] as int, q) by {
                assert(jsp_var(req, st.2[x] as int));
            }
        } else {
            let st = m[q];
            assert(st.2 =~= seq![(3 * t) as usize]);
            assert forall|x: int| 0 <= x < st.2.len() implies declares_var(m, #[trigger] st.2[x] as int, q) by {
                assert(st.2[x] as int == 3 * t);
            }
        }
    }
}

// ── What a solution of the model means ─────────────────────────────────────

proof fn lemma_flat_bounds(req: JobShopRequest, j: int, k: int)
    requires
        0 <= j < req.jobs@.len(),
        0 <= k < req.jobs@[j].operations@.len(),
    ensures
        ops_count(req.jobs@, j as nat) <= flat(req.jobs@, j, k) < ops_count(req.jobs@, (j + 1) as nat),
        flat(req.jobs@, j, k) < total_ops(req.jobs@),
{
    lemma_ops_count_step(req.jobs@, j);
    lemma_ops_count_monotone(req.jobs@, (j + 1) as nat, req.jobs@.len());
}

/// Distinct operations have distinct positions.
proof fn lemma_flat_injective(req: JobShopRequest, j: int, k: int, j2: int, k2: int)
    requires
        0 <= j < req.jobs@.len(),
        0 <= k < req.jobs@[j].operations@.len(),
        0 <= j2 < req.jobs@.len(),
        0 <= k2 < req.jobs@[j2].operations@.len(),
        j != j2 || k != k2,
    ensures
        flat(req.jobs@, j, k) != flat(req.jobs@, j2, k2),
{
    lemma_flat_bounds(req, j, k);
    lemma_flat_bounds(req, j2, k2);
    if j < j2 {
        lemma_ops_count_monotone(req.jobs@, (j + 1) as nat, j2 as nat);
    } else if j2 < j {
        lemma_ops_count_monotone(req.jobs@, (j2 + 1) as nat, j as nat);
    }
}

proof fn lemma_decls_len(req: JobShopRequest, h: i64)
    requires
        model_fits(req),
    ensures
        decls(req, h, req.jobs@.len()).len() == 3 * total_ops(req.jobs@),
{
    lemma_decls(req, h, req.jobs@.len());
}

/// The values of operation `(j, k)`'s start and end variables.
#[verifier::rlimit(80)]
proof fn lemma_op_values(req: JobShopRequest, values: Seq<i64>, j: int, k: int)
    requires
        model_fits(req),
        satisfies(jsp_model(req), values),
        0 <= j < req.jobs@.len(),
        0 <= k < req.jobs@[j].operations@.len(),
    ensures
        ({
            let q = 3 * flat(req.jobs@, j, k);
            let h = jobs_duration(req.jobs@, req.jobs@.len()) as i64;
            let op = solved_op(req, values, j, k);
            &&& op.start == values[q]
            &&& op.end == values[q + 1]
            &&& values[q + 1] == values[q] + req.jobs@[j].operations@[k].duration
            &&& 0 <= values[q] <= h
            &&& values[q + 1] <= h
            &&& jsp_model(req)[q + 2].0 == (ModelOp::FixedInterval {
                start: q as usize,
                duration: req.jobs@[j].operations@[k].duration,
                end: (q + 1) as usize,
            })
        }),
{
    let n = req.jobs@.len();
    let h = jobs_duration(req.jobs@, n) as i64;
    let m = jsp_model(req);
    let q = 3 * flat(req.jobs@, j, k);
    lemma_decls(req, h, n);
    lemma_flat_bounds(req, j, k);
    let d = decls(req, h, n);
    assert(d[q + 0] == op_decls(req, h, j, k)[0]);
    assert(d[q + 1] == op_decls(req, h, j, k)[1]);
    assert(d[q + 2] == op_decls(req, h, j, k)[2]);
    assert(m[q] == d[q] && m[q + 1] == d[q + 1] && m[q + 2] == d[q + 2]);
    lemma_step_holds(m, values, q);
    lemma_step_holds(m, values, q + 1);
    lemma_step_holds(m, values, q + 2);
}

proof fn lemma_precedence_member(req: JobShopRequest, jn: nat, j: int, k: int)
    requires
        0 <= j < jn <= req.jobs@.len(),
        0 <= k,
        k + 1 < req.jobs@[j].operations@.len(),
    ensures
        exists|i: int| 0 <= i < precedences(req, jn).len() && precedences(req, jn)[i] == precedence_step(req, j, k),
    decreases jn,
{
    let prev = precedences(req, (jn - 1) as nat);
    let cur = precedences(req, jn);
    if j < jn - 1 {
        lemma_precedence_member(req, (jn - 1) as nat, j, k);
        let i = choose|i: int| 0 <= i < prev.len() && prev[i] == precedence_step(req, j, k);
        assert(cur[i] == prev[i]);
    } else {
        assert(cur[prev.len() + k] == precedence_step(req, j, k));
    }
}

proof fn lemma_job_ivs_member(req: JobShopRequest, mc: int, j: int, k: int, kn: nat)
    requires
        0 <= j < req.jobs@.len(),
        0 <= k < kn <= req.jobs@[j].operations@.len(),
        req.jobs@[j].operations@[k].machine_id == mc,
    ensures
        job_ivs(req, mc, j, kn).contains((3 * flat(req.jobs@, j, k) + 2) as usize),
    decreases kn,
{
    let prev = job_ivs(req, mc, j, (kn - 1) as nat);
    let cur = job_ivs(req, mc, j, kn);
    if k < kn - 1 {
        lemma_job_ivs_member(req, mc, j, k, (kn - 1) as nat);
        let w = choose|w: int| 0 <= w < prev.len() && prev[w] == (3 * flat(req.jobs@, j, k) + 2) as usize;
        assert(cur[w] == prev[w]);
    } else {
        assert(cur[cur.len() - 1] == (3 * flat(req.jobs@, j, k) + 2) as usize);
    }
}

proof fn lemma_machine_ivs_member(req: JobShopRequest, mc: int, jn: nat, j: int, k: int)
    requires
        0 <= j < jn <= req.jobs@.len(),
        0 <= k < req.jobs@[j].operations@.len(),
        req.jobs@[j].operations@[k].machine_id == mc,
    ensures
        machine_ivs(req, mc, jn).contains((3 * flat(req.jobs@, j, k) + 2) as usize),
    decreases jn,
{
    let prev = machine_ivs(req, mc, (jn - 1) as nat);
    let jv = job_ivs(req, mc, jn - 1, req.jobs@[jn - 1].operations@.len());
    let cur = machine_ivs(req, mc, jn);
    let v = (3 * flat(req.jobs@, j, k) + 2) as usize;
    if j < jn - 1 {
        lemma_machine_ivs_member(req, mc, (jn - 1) as nat, j, k);
        let w = choose|w: int| 0 <= w < prev.len() && prev[w] == v;
        assert(cur[w] == prev[w]);
    } else {
        lemma_job_ivs_member(req, mc, j, k, req.jobs@[j].operations@.len());
        let w = choose|w: int| 0 <= w < jv.len() && jv[w] == v;
        assert(cur[prev.len() + w] == jv[w]);
    }
}

proof fn lemma_no_overlap_member(req: JobShopRequest, x: nat, mc: int)
    requires
        0 <= mc < x,
        machine_ivs(req, mc, req.jobs@.len()).len() > 1,
    ensures
        exists|i: int|
            0 <= i < no_overlaps(req, x).len() && no_overlaps(req, x)[i] == listing(
                ModelOp::NoOverlap,
                machine_ivs(req, mc, req.jobs@.len()),
            ),
    decreases x,
{
    let prev = no_overlaps(req, (x - 1) as nat);
    let cur = no_overlaps(req, x);
    if mc < x - 1 {
        lemma_no_overlap_member(req, (x - 1) as nat, mc);
        let i = choose|i: int|
            0 <= i < prev.len() && prev[i] == listing(ModelOp::NoOverlap, machine_ivs(req, mc, req.jobs@.len()));
        assert(cur[i] == prev[i]);
    } else {
        assert(cur[cur.len() - 1] == listing(ModelOp::NoOverlap, machine_ivs(req, mc, req.jobs@.len())));
    }
}

proof fn lemma_makespan_member(req: JobShopRequest, jn: nat, j: int)
    requires
        0 <= j < jn <= req.jobs@.len(),
    ensures
        makespan_steps(req, jn).len() == jn,
        makespan_steps(req, jn)[j] == linear(
            ModelOp::LinearGe { rhs: 0 },
            seq![
                (3 * total_ops(req.jobs@)) as usize,
                (3 * flat(req.jobs@, j, req.jobs@[j].operations@.len() - 1) + 1) as usize,
            ],
            seq![1i64, -1i64],
        ),
    decreases jn,
{
    let prev = makespan_steps(req, (jn - 1) as nat);
    if jn > 1 {
        lemma_makespan_member(req, (jn - 1) as nat, if j < jn - 1 { j } else { 0 });
    }
    assert(prev.len() == jn - 1);
    assert(makespan_steps(req, jn) == prev.push(
        linear(
            ModelOp::LinearGe { rhs: 0 },
            seq![
                (3 * total_ops(req.jobs@)) as usize,
                (3 * flat(req.jobs@, jn - 1, req.jobs@[jn - 1].operations@.len() - 1) + 1) as usize,
            ],
            seq![1i64, -1i64],
        ),
    ));
}

#[verifier::rlimit(60)]
proof fn lemma_jsp_precedence_holds(req: JobShopRequest, values: Seq<i64>, j: int, k: int)
    requires
        model_fits(req),
        satisfies(jsp_model(req), values),
        0 <= j < req.jobs@.len(),
        0 <= k,
        k + 1 < req.jobs@[j].operations@.len(),
    ensures
        solved_op(req, values, j, k).end <= solved_op(req, values, j, k + 1).start,
{
    let n = req.jobs@.len();
    let t = total_ops(req.jobs@) as int;
    let m = jsp_model(req);
    let p = precedences(req, n);
    let h = jobs_duration(req.jobs@, n) as i64;
    lemma_decls_len(req, h);
    lemma_op_values(req, values, j, k);
    lemma_op_values(req, values, j, k + 1);
    lemma_precedence_member(req, n, j, k);
    let i = choose|i: int| 0 <= i < p.len() && p[i] == precedence_step(req, j, k);
    let pb = 3 * t + 1;
    assert(m[pb + i] == p[i]);
    lemma_step_holds(m, values, pb + i);
    let st = precedence_step(req, j, k);
    lemma_flat_bounds(req, j, k + 1);
    assert(st.2[0] as int == 3 * flat(req.jobs@, j, k + 1));
    assert(st.2[1] as int == 3 * flat(req.jobs@, j, k) + 1);
    lemma_weighted_difference(st.2, st.3, values);
}

proof fn lemma_jsp_no_overlap_holds(req: JobShopRequest, values: Seq<i64>, j: int, k: int, j2: int, k2: int)
    requires
        machines_in_range(req),
        model_fits(req),
        satisfies(jsp_model(req), values),
        0 <= j < req.jobs@.len(),
        0 <= k < req.jobs@[j].operations@.len(),
        0 <= j2 < req.jobs@.len(),
        0 <= k2 < req.jobs@[j2].operations@.len(),
        j != j2 || k != k2,
        req.jobs@[j].operations@[k].machine_id == req.jobs@[j2].operations@[k2].machine_id,
    ensures
        solved_op(req, values, j, k).end <= solved_op(req, values, j2, k2).start || solved_op(req, values, j2, k2).end
            <= solved_op(req, values, j, k).start,
{
    let n = req.jobs@.len();
    let t = total_ops(req.jobs@) as int;
    let m = jsp_model(req);
    let h = jobs_duration(req.jobs@, n) as i64;
    let p = precedences(req, n);
    let o = no_overlaps(req, req.num_machines as nat);
    lemma_decls_len(req, h);
    let ob = 3 * t + 1 + p.len();
    let mc = req.jobs@[j].operations@[k].machine_id as int;
    assert(req.jobs@[j].operations@[k].machine_id < req.num_machines);
    lemma_op_values(req, values, j, k);
    lemma_op_values(req, values, j2, k2);
    lemma_flat_injective(req, j, k, j2, k2);
    lemma_flat_bounds(req, j, k);
    lemma_flat_bounds(req, j2, k2);
    let v1 = (3 * flat(req.jobs@, j, k) + 2) as usize;
    let v2 = (3 * flat(req.jobs@, j2, k2) + 2) as usize;
    let ivs = machine_ivs(req, mc, n);
    lemma_machine_ivs_member(req, mc, n, j, k);
    lemma_machine_ivs_member(req, mc, n, j2, k2);
    let w1 = choose|w: int| 0 <= w < ivs.len() && ivs[w] == v1;
    let w2 = choose|w: int| 0 <= w < ivs.len() && ivs[w] == v2;
    assert(v1 != v2);
    assert(w1 != w2);
    lemma_no_overlap_member(req, req.num_machines as nat, mc);
    let i = choose|i: int| 0 <= i < o.len() && o[i] == listing(ModelOp::NoOverlap, ivs);
    assert(m[ob + i] == o[i]);
    lemma_step_holds(m, values, ob + i);
    let st = m[ob + i];
    assert(st.2[w1] == v1 && st.2[w2] == v2);
    assert(iv_present(m, values, v1 as int) && iv_present(m, values, v2 as int));
    assert(iv_end(m, values, v1 as int) == values[3 * flat(req.jobs@, j, k) + 1]);
    assert(iv_start(m, values, v2 as int) == values[3 * flat(req.jobs@, j2, k2)]);
    assert(iv_end(m, values, v2 as int) == values[3 * flat(req.jobs@, j2, k2) + 1]);
    assert(iv_start(m, values, v1 as int) == values[3 * flat(req.jobs@, j, k)]);
}

#[verifier::rlimit(60)]
proof fn lemma_jsp_makespan_holds(req: JobShopRequest, values: Seq<i64>, j: int)
    requires
        jobs_nonempty(req),
        model_fits(req),
        satisfies(jsp_model(req), values),
        0 <= j < req.jobs@.len(),
    ensures
        solved_op(req, values, j, req.jobs@[j].operations@.len() - 1).end <= values[3 * total_ops(req.jobs@) as int],
{
    let n = req.jobs@.len();
    let t = total_ops(req.jobs@) as int;
    let m = jsp_model(req);
    let h = jobs_duration(req.jobs@, n) as i64;
    let p = precedences(req, n);
    let o = no_overlaps(req, req.num_machines as nat);
    let ks = makespan_steps(req, n);
    lemma_decls_len(req, h);
    let kb = 3 * t + 1 + p.len() + o.len();
    let last = req.jobs@[j].operations@.len() - 1;
    assert(req.jobs@[j].operations@.len() > 0);
    lemma_op_values(req, values, j, last);
    lemma_flat_bounds(req, j, last);
    lemma_makespan_member(req, n, j);
    assert(m[kb + j] == ks[j]);
    lemma_step_holds(m, values, kb + j);
    let st = ks[j];
    assert(st.2[0] as int == 3 * t);
    assert(st.2[1] as int == 3 * flat(req.jobs@, j, last) + 1);
    lemma_weighted_difference(st.2, st.3, values);
}

/// With nonnegative durations, every operation ends by the makespan
/// variable's value: it ends before its job's next operation starts, which
/// ends no earlier than it starts.
proof fn lemma_jsp_end_within_makespan(req: JobShopRequest, values: Seq<i64>, j: int, k: int)
    requires
        jobs_nonempty(req),
        model_fits(req),
        durations_nonnegative(req),
        satisfies(jsp_model(req), values),
        0 <= j < req.jobs@.len(),
        0 <= k < req.jobs@[j].operations@.len(),
    ensures
        solved_op(req, values, j, k).end <= values[3 * total_ops(req.jobs@) as int],
    decreases req.jobs@[j].operations@.len() - k,
{
    if k == req.jobs@[j].operations@.len() - 1 {
        lemma_jsp_makespan_holds(req, values, j);
    } else {
        lemma_jsp_precedence_holds(req, values, j, k);
        lemma_op_values(req, values, j, k + 1);
        assert(req.jobs@[j].operations@[k + 1].duration >= 0);
        lemma_jsp_end_within_makespan(req, values, j, k + 1);
    }
}

/// What values satisfying the job shop model mean for the operations they
/// schedule: each operation starts at or after 0 and ends within the
/// horizon; within a job each operation starts once its predecessor ends;
/// two operations on one machine do not overlap; and the makespan variable
/// is at least every job's end (with nonnegative durations, every end).
pub proof fn lemma_jsp_solution_feasible(req: JobShopRequest, values: Seq<i64>)
    requires
        jobs_nonempty(req),
        machines_in_range(req),
        model_fits(req),
        satisfies(jsp_model(req), values),
    ensures
        forall|j: int, k: int|
            0 <= j < req.jobs@.len() && 0 <= k < req.jobs@[j].operations@.len() ==> 0 <= (#[trigger] solved_op(
                req,
                values,
                j,
                k,
            )).start && solved_op(req, values, j, k).end <= jobs_duration(req.jobs@, req.jobs@.len()) as i64,
        forall|j: int, k: int|
            0 <= j < req.jobs@.len() && 0 <= k && k + 1 < req.jobs@[j].operations@.len() ==> (#[trigger] solved_op(
                req,
                values,
                j,
                k,
            )).end <= solved_op(req, values, j, k + 1).start,
        forall|j: int, k: int, j2: int, k2: int|
            0 <= j < req.jobs@.len() && 0 <= k < req.jobs@[j].operations@.len() && 0 <= j2 < req.jobs@.len() && 0
                <= k2 < req.jobs@[j2].operations@.len() && (j != j2 || k != k2) && (#[trigger] solved_op(
                req,
                values,
                j,
                k,
            )).machine_id == (#[trigger] solved_op(req, values, j2, k2)).machine_id ==> solved_op(req, values, j, k).end
                <= solved_op(req, values, j2, k2).start || solved_op(req, values, j2, k2).end <= solved_op(
                req,
                values,
                j,
                k,
            ).start,
        forall|j: int|
            0 <= j < req.jobs@.len() ==> (#[trigger] solved_op(req, values, j, req.jobs@[j].operations@.len() - 1)).end
                <= values[3 * total_ops(req.jobs@) as int],
        durations_nonnegative(req) ==> forall|j: int, k: int|
            0 <= j < req.jobs@.len() && 0 <= k < req.jobs@[j].operations@.len() ==> (#[trigger] solved_op(
                req,
                values,
                j,
                k,
            )).end <= values[3 * total_ops(req.jobs@) as int],
{
    let n = req.jobs@.len();
    assert forall|j: int, k: int| 0 <= j < n && 0 <= k < req.jobs@[j].operations@.len() implies 0
        <= (#[trigger] solved_op(req, values, j, k)).start && solved_op(req, values, j, k).end <= jobs_duration(
        req.jobs@,
        n,
    ) as i64 by {
        lemma_op_values(req, values, j, k);
    }
    assert forall|j: int, k: int| 0 <= j < n && 0 <= k && k + 1 < req.jobs@[j].operations@.len() implies (
    #[trigger] solved_op(req, values, j, k)).end <= solved_op(req, values, j, k + 1).start by {
        lemma_jsp_precedence_holds(req, values, j, k);
    }
    assert forall|j: int, k: int, j2: int, k2: int|
        0 <= j < n && 0 <= k < req.jobs@[j].operations@.len() && 0 <= j2 < n && 0 <= k2
            < req.jobs@[j2].operations@.len() && (j != j2 || k != k2) && (#[trigger] solved_op(
            req,
            values,
            j,
            k,
        )).machine_id == (#[trigger] solved_op(req, values, j2, k2)).machine_id implies solved_op(
        req,
        values,
        j,
        k,
    ).end <= solved_op(req, values, j2, k2).start || solved_op(req, values, j2, k2).end <= solved_op(
        req,
        values,
        j,
        k,
    ).start by {
        lemma_jsp_no_overlap_holds(req, values, j, k, j2, k2);
    }
    assert forall|j: int| 0 <= j < n implies (#[trigger] solved_op(req, values, j, req.jobs@[j].operations@.len() - 1)).end
        <= values[3 * total_ops(req.jobs@) as int] by {
        lemma_jsp_makespan_holds(req, values, j);
    }
    if durations_nonnegative(req) {
        assert forall|j: int, k: int| 0 <= j < n && 0 <= k < req.jobs@[j].operations@.len() implies (
        #[trigger] solved_op(req, values, j, k)).end <= values[3 * total_ops(req.jobs@) as int] by {
            lemma_jsp_end_within_makespan(req, values, j, k);
        }
    }
}

/// Builds the CP-SAT model of the instance.
#[verifier::rlimit(40)]
pub fn build_jsp_model(req: &JobShopRequest) -> (m: CpModel)
    requires
        durations_bounded(req.jobs@),
        machines_in_range(*req),
        jobs_nonempty(*req),
        model_fits(*req),
    ensures
        m.spec_steps() == jsp_model(*req),
{
    let horizon = req.horizon();
    let n = req.jobs.len();
    let ghost t = total_ops(req.jobs@);
    let ghost h = horizon;
    let mut model = CpModel::new();
    proof {
        lemma_ops_count_monotone(req.jobs@, 0, n as nat);
    }

    // s, e and the interval of each operation; handle of (j, k) is 3 * flat(j, k)
    let mut j: usize = 0;
    while j < n
        invariant
            n == req.jobs@.len(),
            j <= n,
            h == horizon,
            t == total_ops(req.jobs@),
            model_fits(*req),
            model.spec_steps() == decls(*req, h, j as nat),
            model.steps@.len() == 3 * ops_count(req.jobs@, j as nat),
            ops_count(req.jobs@, j as nat) <= t,
        decreases n - j,
    {
        let job = &req.jobs[j];
        let len = job.operations.len();
        proof {
            lemma_ops_count_monotone(req.jobs@, (j + 1) as nat, n as nat);
            lemma_ops_count_step(req.jobs@, j as int);
        }
        let mut k: usize = 0;
        while k < len
            invariant
                n == req.jobs@.len(),
                j < n,
                job == req.jobs@[j as int],
                len == job.operations@.len(),
                k <= len,
                h == horizon,
                t == total_ops(req.jobs@),
                model_fits(*req),
                ops_count(req.jobs@, (j + 1) as nat) <= t,
                ops_count(req.jobs@, (j + 1) as nat) == ops_count(req.jobs@, j as nat) + len,
                model.spec_steps() == decls(*req, h, j as nat) + job_decls(*req, h, j as int, k as nat),
                model.steps@.len() == 3 * (ops_count(req.jobs@, j as nat) + k),
            decreases len - k,
        {
            let d = job.operations[k].duration;
            let ghost before = model.spec_steps();
            let s = model.new_int_var(0, horizon, name2("s_", job.id, k));
            let e = model.new_int_var(d, horizon, name2("e_", job.id, k));
            let _iv = model.new_fixed_interval_var(s, d, e, name2("iv_", job.id, k));
            proof {
                assert(model.spec_steps() =~= before + op_decls(*req, h, j as int, k as int));
                assert(job_decls(*req, h, j as int, (k + 1) as nat) =~= job_decls(*req, h, j as int, k as nat)
                    + op_decls(*req, h, j as int, k as int));
                assert(model.spec_steps() =~= decls(*req, h, j as nat) + job_decls(*req, h, j as int, (k + 1) as nat));
            }
            k = k + 1;
        }
        j = j + 1;
    }

    let cmax = model.new_int_var(0, horizon, String::from_str("cmax"));
    let ghost p1 = model.spec_steps();

    // precedence within each job
    let mut j: usize = 0;
    while j < n
        invariant
            n == req.jobs@.len(),
            j <= n,
            t == total_ops(req.jobs@),
            cmax == 3 * t,
            model_fits(*req),
            model.spec_steps() == p1 + precedences(*req, j as nat),
            model.steps@.len() == p1.len() + precedences(*req, j as nat).len(),
            p1.len() == 3 * t + 1,
            precedences(*req, j as nat).len() <= ops_count(req.jobs@, j as nat),
            ops_count(req.jobs@, j as nat) <= t,
        decreases n - j,
    {
        let len = req.jobs[j].operations.len();
        proof {
            lemma_ops_count_monotone(req.jobs@, (j + 1) as nat, n as nat);
            lemma_ops_count_step(req.jobs@, j as int);
            lemma_precedences_len(*req, (j + 1) as nat);
        }
        let base = 3 * ops_count_exec(req, j);
        let cnt = if len > 0 { len - 1 } else { 0 };
        let mut k: usize = 0;
        while k < cnt
            invariant
                n == req.jobs@.len(),
                j < n,
                len == req.jobs@[j as int].operations@.len(),
                cnt == (if len > 0 { len - 1 } else { 0 }),
                k <= cnt,
                t == total_ops(req.jobs@),
                model_fits(*req),
                base == 3 * ops_count(req.jobs@, j as nat),
                ops_count(req.jobs@, (j + 1) as nat) == ops_count(req.jobs@, j as nat) + len,
                ops_count(req.jobs@, (j + 1) as nat) <= t,
                p1.len() == 3 * t + 1,
                precedences(*req, (j + 1) as nat).len() <= ops_count(req.jobs@, (j + 1) as nat),
                model.spec_steps() == p1 + precedences(*req, j as nat) + Seq::new(
                    k as nat,
                    |x: int| precedence_step(*req, j as int, x),
                ),
                model.steps@.len() == p1.len() + precedences(*req, j as nat).len() + k,
            decreases cnt - k,
        {
            let ghost before = model.spec_steps();
            let mut vars: Vec<usize> = Vec::new();
            vars.push(base + 3 * (k + 1));
            vars.push(base + 3 * k + 1);
            let mut coeffs: Vec<i64> = Vec::new();
            coeffs.push(1);
            coeffs.push(-1);
            proof {
                assert(vars@ =~= seq![(3 * flat(req.jobs@, j as int, k + 1)) as usize, (3 * flat(req.jobs@, j as int, k as int) + 1) as usize]);
                assert(coeffs@ =~= seq![1i64, -1i64]);
            }
            model.add_linear(ModelOp::LinearGe { rhs: 0 }, vars, coeffs);
            proof {
                assert(model.spec_steps() =~= p1 + precedences(*req, j as nat) + Seq::new(
                    (k + 1) as nat,
                    |x: int| precedence_step(*req, j as int, x),
                ));
            }
            k = k + 1;
        }
        proof {
            assert(precedences(*req, (j + 1) as nat) =~= precedences(*req, j as nat) + Seq::new(
                cnt as nat,
                |x: int| precedence_step(*req, j as int, x),
            ));
        }
        j = j + 1;
    }

    // no two operations on one machine overlap
    let ghost p2 = model.spec_steps();
    let m = req.num_machines;
    let mut mc: usize = 0;
    proof {
        lemma_no_overlaps_len(*req, 0);
    }
    while mc < m
        invariant
            n == req.jobs@.len(),
            m == req.num_machines,
            mc <= m,
            t == total_ops(req.jobs@),
            model_fits(*req),
            p2.len() <= 4 * t + 1,
            model.spec_steps() == p2 + no_overlaps(*req, mc as nat),
            model.steps@.len() == p2.len() + no_overlaps(*req, mc as nat).len(),
            no_overlaps(*req, mc as nat).len() <= mc,
        decreases m - mc,
    {
        let ivs = intervals_on(req, mc);
        proof {
            lemma_no_overlaps_len(*req, (mc + 1) as nat);
        }
        if ivs.len() > 1 {
            model.add_listing(ModelOp::NoOverlap, ivs);
        }
        mc = mc + 1;
    }

    // the makespan bounds every job's last end
    let ghost p3 = model.spec_steps();
    let mut j: usize = 0;
    while j < n
        invariant
            n == req.jobs@.len(),
            j <= n,
            t == total_ops(req.jobs@),
            cmax == 3 * t,
            model_fits(*req),
            jobs_nonempty(*req),
            p3.len() <= 4 * t + 1 + req.num_machines,
            model.spec_steps() == p3 + makespan_steps(*req, j as nat),
            model.steps@.len() == p3.len() + j,
            makespan_steps(*req, j as nat).len() == j,
        decreases n - j,
    {
        proof {
            lemma_ops_count_monotone(req.jobs@, (j + 1) as nat, n as nat);
            lemma_ops_count_step(req.jobs@, j as int);
            assert(req.jobs@[j as int].operations@.len() > 0);
        }
        let last = req.jobs[j].operations.len() - 1;
        let base = 3 * ops_count_exec(req, j);
        let mut vars: Vec<usize> = Vec::new();
        vars.push(cmax);
        vars.push(base + 3 * last + 1);
        let mut coeffs: Vec<i64> = Vec::new();
        coeffs.push(1);
        coeffs.push(-1);
        proof {
            assert(vars@ =~= seq![(3 * total_ops(req.jobs@)) as usize, (3 * flat(req.jobs@, j as int, last as int) + 1) as usize]);
            assert(coeffs@ =~= seq![1i64, -1i64]);
        }
        model.add_linear(ModelOp::LinearGe { rhs: 0 }, vars, coeffs);
        proof {
            assert(model.spec_steps() =~= p3 + makespan_steps(*req, (j + 1) as nat));
        }
        j = j + 1;
    }

    let mut vars: Vec<usize> = Vec::new();
    vars.push(cmax);
    let mut coeffs: Vec<i64> = Vec::new();
    coeffs.push(1);
    proof {
        assert(vars@ =~= seq![cmax]);
        assert(coeffs@ =~= seq![1i64]);
    }
    model.add_linear(ModelOp::Minimize, vars, coeffs);
    proof {
        assert(model.spec_steps() =~= jsp_model(*req));
    }
    model
}

/// Number of operations of the first `j` jobs.
fn ops_count_exec(req: &JobShopRequest, j: usize) -> (r: usize)
    requires
        j <= req.jobs@.len(),
        total_ops(req.jobs@) <= usize::MAX,
    ensures
        r == ops_count(req.jobs@, j as nat),
{
    let mut c: usize = 0;
    let mut i: usize = 0;
    while i < j
        invariant
            i <= j <= req.jobs@.len(),
            total_ops(req.jobs@) <= usize::MAX,
            c == ops_count(req.jobs@, i as nat),
        decreases j - i,
    {
        proof {
            lemma_ops_count_monotone(req.jobs@, (i + 1) as nat, req.jobs@.len());
        }
        c = c + req.jobs[i].operations.len();
        i = i + 1;
    }
    c
}

/// Interval handles of the operations that run on machine `mc`, in job and
/// operation order.
fn intervals_on(req: &JobShopRequest, mc: usize) -> (r: Vec<usize>)
    requires
        model_fits(*req),
    ensures
        r@ == machine_ivs(*req, mc as int, req.jobs@.len()),
{
    let n = req.jobs.len();
    let mut r: Vec<usize> = Vec::new();
    let mut j: usize = 0;
    let mut base: usize = 0;
    proof {
        lemma_ops_count_monotone(req.jobs@, 0, n as nat);
    }
    while j < n
        invariant
            n == req.jobs@.len(),
            j <= n,
            model_fits(*req),
            base == ops_count(req.jobs@, j as nat),
            base <= total_ops(req.jobs@),
            r@ == machine_ivs(*req, mc as int, j as nat),
        decreases n - j,
    {
        let ops = &req.jobs[j].operations;
        proof {
            lemma_ops_count_monotone(req.jobs@, (j + 1) as nat, n as nat);
            lemma_ops_count_step(req.jobs@, j as int);
        }
        let mut k: usize = 0;
        while k < ops.len()
            invariant
                n == req.jobs@.len(),
                j < n,
                ops == req.jobs@[j as int].operations,
                k <= ops@.len(),
                model_fits(*req),
                base == ops_count(req.jobs@, j as nat),
                base + ops@.len() <= total_ops(req.jobs@),
                r@ == machine_ivs(*req, mc as int, j as nat) + job_ivs(*req, mc as int, j as int, k as nat),
            decreases ops.len() - k,
        {
            if ops[k].machine_id == mc {
                r.push(3 * (base + k) + 2);
            }
            k = k + 1;
        }
        base = base + ops.len();
        j = j + 1;
    }
    r
}

// ── Reading the plan off a solution ──────────────────────────────────────────

/// Name of a solver outcome in a job shop plan: `"optimal"`, `"feasible"`,
/// or `"error"` (any other outcome, an infeasible instance included).
pub open spec fn status_label(s: CpStatus) -> Seq<char> {
    match s {
        CpStatus::Optimal => "optimal"@,
        CpStatus::Feasible => "feasible"@,
        _ => "error"@,
    }
}

pub fn status_name(s: CpStatus) -> (r: &'static str)
    ensures
        r@ == status_label(s),
{
    match s {
        CpStatus::Optimal => "optimal",
        CpStatus::Feasible => "feasible",
        _ => "error",
    }
}

/// The operation `k` of job `j` at the start the solution gives it.
pub open spec fn solved_op(req: JobShopRequest, values: Seq<i64>, j: int, k: int) -> ScheduledOp {
    let job = req.jobs@[j];
    let op = job.operations@[k];
    let start = values[3 * flat(req.jobs@, j, k)];
    ScheduledOp {
        job_id: job.id,
        job_name: job.name,
        machine_id: op.machine_id,
        op_index: k as usize,
        start,
        end: (start + op.duration) as i64,
    }
}

/// The solved operations of the first `j` jobs, job by job.
pub open spec fn solved_ops(req: JobShopRequest, values: Seq<i64>, j: nat) -> Seq<ScheduledOp>
    decreases j,
{
    if j == 0 {
        Seq::empty()
    } else {
        solved_ops(req, values, (j - 1) as nat) + Seq::new(
            req.jobs@[j - 1].operations@.len(),
            |k: int| solved_op(req, values, j - 1, k),
        )
    }
}

/// The entry is operation `op_index` of a job of the request, carrying the
/// job's id and name, on that operation's machine, lasting its duration.
pub open spec fn op_of_request(req: JobShopRequest, e: ScheduledOp) -> bool {
    exists|j: int|
        0 <= j < req.jobs@.len() && {
            let job = #[trigger] req.jobs@[j];
            &&& e.op_index < job.operations@.len()
            &&& e.job_id == job.id
            &&& e.job_name == job.name
            &&& e.machine_id == job.operations@[e.op_index as int].machine_id
            &&& e.end == e.start + job.operations@[e.op_index as int].duration
        }
}

/// Every operation read from a solution is an operation of a job of the
/// request, with the job's id and name, on its machine, lasting its duration.
pub proof fn lemma_solved_ops_of_request(req: JobShopRequest, values: Seq<i64>, jn: nat)
    requires
        jn <= req.jobs@.len(),
        solution_fits(req, values),
    ensures
        forall|i: int| 0 <= i < solved_ops(req, values, jn).len() ==> op_of_request(req, #[trigger] solved_ops(req, values, jn)[i]),
    decreases jn,
{
    if jn > 0 {
        lemma_solved_ops_of_request(req, values, (jn - 1) as nat);
        let prev = solved_ops(req, values, (jn - 1) as nat);
        let j = jn - 1;
        let new = Seq::new(req.jobs@[j].operations@.len(), |k: int| solved_op(req, values, j, k));
        let cur = solved_ops(req, values, jn);
        assert forall|i: int| 0 <= i < cur.len() implies op_of_request(req, #[trigger] cur[i]) by {
            if i < prev.len() {
                assert(cur[i] == prev[i]);
            } else {
                let k = i - prev.len();
                assert(cur[i] == new[k]);
                assert(i64::MIN <= values[3 * flat(req.jobs@, j, k)] + req.jobs@[j].operations@[k].duration <= i64::MAX);
                assert(req.jobs@[j].operations@.len() == req.jobs@[j].operations.len());
                assert(cur[i].op_index as int == k);
            }
        }
    }
}

/// The solution's values are present for every declared variable, and each
/// start plus its duration fits in `i64`.
pub open spec fn solution_fits(req: JobShopRequest, values: Seq<i64>) -> bool {
    &&& values.len() > 3 * total_ops(req.jobs@)
    &&& forall|j: int, k: int|
        0 <= j < req.jobs@.len() && 0 <= k < req.jobs@[j].operations@.len() ==> i64::MIN
            <= values[3 * flat(req.jobs@, j, k)] + (#[trigger] req.jobs@[j].operations@[k]).duration <= i64::MAX
}

/// Whether `build_jsp_model` can run on the request: durations small enough
/// to add up, every operation on an existing machine, no job without
/// operations, and the model's handles within `usize`.
pub fn can_build_jsp_model(req: &JobShopRequest) -> (r: bool)
    ensures
        r == (durations_bounded(req.jobs@) && machines_in_range(*req) && jobs_nonempty(*req) && model_fits(*req)),
{
    if !durations_bounded_exec(&req.jobs) || !machines_in_range_exec(req) {
        return false;
    }
    let mut j: usize = 0;
    while j < req.jobs.len()
        invariant
            j <= req.jobs@.len(),
            forall|x: int| 0 <= x < j ==> (#[trigger] req.jobs@[x]).operations@.len() > 0,
        decreases req.jobs.len() - j,
    {
        if req.jobs[j].operations.len() == 0 {
            assert(req.jobs@[j as int].operations@.len() == 0);
            return false;
        }
        j = j + 1;
    }
    let t = match total_ops_exec(&req.jobs) {
        Some(t) => t,
        None => return false,
    };
    5 * (t as u128) + (req.num_machines as u128) + (req.jobs.len() as u128) + 4 < usize::MAX as u128
}

/// Whether `jsp_plan_from_solution` can read this solution: when the solver
/// found one, a value is present for every declared variable and each start
/// plus its duration fits in `i64`.
pub fn can_read_jsp_solution(req: &JobShopRequest, sol: &CpSolution) -> (r: bool)
    requires
        model_fits(*req),
    ensures
        r == (sol.status.spec_is_success() ==> solution_fits(*req, sol.values@)),
{
    if !sol.status.is_success() {
        return true;
    }
    let total = ops_count_exec(req, req.jobs.len());
    let vlen = sol.values.len();
    if vlen <= 3 * total {
        return false;
    }
    let n = req.jobs.len();
    let mut j: usize = 0;
    let mut base: usize = 0;
    while j < n
        invariant
            vlen == sol.values@.len(),
            sol.status.spec_is_success(),
            n == req.jobs@.len(),
            j <= n,
            model_fits(*req),
            total == total_ops(req.jobs@),
            sol.values@.len() > 3 * total,
            base == ops_count(req.jobs@, j as nat),
            base <= total,
            forall|x: int, k: int|
                0 <= x < j && 0 <= k < req.jobs@[x].operations@.len() ==> i64::MIN <= sol.values@[3 * flat(
                    req.jobs@,
                    x,
                    k,
                )] + (#[trigger] req.jobs@[x].operations@[k]).duration <= i64::MAX,
        decreases n - j,
    {
        let ops = &req.jobs[j].operations;
        proof {
            lemma_ops_count_monotone(req.jobs@, (j + 1) as nat, n as nat);
        }
        let mut k: usize = 0;
        while k < ops.len()
            invariant
                n == req.jobs@.len(),
                j < n,
                ops == req.jobs@[j as int].operations,
                k <= ops@.len(),
                total == total_ops(req.jobs@),
                sol.values@.len() > 3 * total,
                base == ops_count(req.jobs@, j as nat),
                base + ops@.len() == ops_count(req.jobs@, (j + 1) as nat),
                ops_count(req.jobs@, (j + 1) as nat) <= total,
                forall|y: int|
                    0 <= y < k ==> i64::MIN <= sol.values@[3 * flat(req.jobs@, j as int, y)]
                        + (#[trigger] req.jobs@[j as int].operations@[y]).duration <= i64::MAX,
                vlen == sol.values@.len(),
                sol.status.spec_is_success(),
            decreases ops.len() - k,
        {
            assert(flat(req.jobs@, j as int, k as int) == base + k);
            assert(base + k < total);
            assert(3 * (base + k) < sol.values@.len());
            let v = sol.values[3 * (base + k)];
            let d = ops[k].duration;
            if (v as i128) + (d as i128) < i64::MIN as i128 || (v as i128) + (d as i128) > i64::MAX as i128 {
                assert(req.jobs@[j as int].operations@[k as int].duration == d);
                assert(!(i64::MIN <= sol.values@[3 * flat(req.jobs@, j as int, k as int)]
                    + req.jobs@[j as int].operations@[k as int].duration <= i64::MAX));
                return false;
            }
            k = k + 1;
        }
        base = base + ops.len();
        j = j + 1;
    }
    true
}

/// The plan read off a solution of `jsp_model`: nothing when the solver has
/// no solution; otherwise every operation at its solved start, listed by
/// machine then start, the makespan variable's value, and that value as a
/// proven lower bound when the solution is optimal.
pub fn jsp_plan_from_solution(req: &JobShopRequest, sol: &CpSolution) -> (plan: JobShopPlan)
    requires
        model_fits(*req),
        sol.status.spec_is_success() ==> solution_fits(*req, sol.values@),
    ensures
        plan.request_id@ == req.id@,
        plan.solver@ == "cp-sat-v9.15"@,
        plan.status@ == status_label(sol.status),
        plan.status@ == "optimal"@ || plan.status@ == "feasible"@ || plan.status@ == "error"@,
        plan.lower_bound is Some <==> plan.status@ == "optimal"@,
        forall|i: int| 0 <= i < plan.schedule@.len() ==> op_of_request(*req, #[trigger] plan.schedule@[i]),
        forall|i: int, i2: int|
            0 <= i < i2 < plan.schedule@.len() ==> (#[trigger] plan.schedule@[i]).machine_id
                < (#[trigger] plan.schedule@[i2]).machine_id || (plan.schedule@[i].machine_id
                == plan.schedule@[i2].machine_id && plan.schedule@[i].start <= plan.schedule@[i2].start),
        !sol.status.spec_is_success() ==> {
            &&& plan.schedule@.len() == 0
            &&& plan.makespan == 0
            &&& plan.lower_bound is None
        },
        sol.status.spec_is_success() ==> {
            let raw = solved_ops(*req, sol.values@, req.jobs@.len());
            &&& plan.schedule@ == reorder(raw, stable_order(machine_start_keys(raw)))
            &&& plan.makespan == sol.values@[3 * total_ops(req.jobs@) as int]
            &&& plan.lower_bound == (if sol.status is Optimal {
                Some(plan.makespan)
            } else {
                None::<i64>
            })
        },
{
    let status = status_name(sol.status);
    proof {
        reveal_strlit("optimal");
        reveal_strlit("feasible");
        reveal_strlit("error");
        assert("optimal"@[0] != "error"@[0] && "optimal"@[0] != "feasible"@[0]);
    }
    if !sol.status.is_success() {
        return JobShopPlan {
            request_id: req.id.clone(),
            schedule: Vec::new(),
            makespan: 0,
            lower_bound: None,
            solver: String::from_str("cp-sat-v9.15"),
            status: String::from_str(status),
        };
    }
    let total = ops_count_exec(req, req.jobs.len());
    let makespan = sol.values[3 * total];

    let n = req.jobs.len();
    let mut raw: Vec<ScheduledOp> = Vec::new();
    let mut j: usize = 0;
    let mut base: usize = 0;
    proof {
        lemma_ops_count_monotone(req.jobs@, 0, n as nat);
    }
    while j < n
        invariant
            n == req.jobs@.len(),
            j <= n,
            model_fits(*req),
            solution_fits(*req, sol.values@),
            base == ops_count(req.jobs@, j as nat),
            base <= total_ops(req.jobs@),
            raw@ == solved_ops(*req, sol.values@, j as nat),
        decreases n - j,
    {
        let job = &req.jobs[j];
        proof {
            lemma_ops_count_monotone(req.jobs@, (j + 1) as nat, n as nat);
            lemma_ops_count_step(req.jobs@, j as int);
        }
        let mut k: usize = 0;
        while k < job.operations.len()
            invariant
                n == req.jobs@.len(),
                j < n,
                job == req.jobs@[j as int],
                k <= job.operations@.len(),
                model_fits(*req),
                solution_fits(*req, sol.values@),
                base == ops_count(req.jobs@, j as nat),
                base + job.operations@.len() <= total_ops(req.jobs@),
                raw@ == solved_ops(*req, sol.values@, j as nat) + Seq::new(
                    k as nat,
                    |x: int| solved_op(*req, sol.values@, j as int, x),
                ),
            decreases job.operations.len() - k,
        {
            let op = &job.operations[k];
            let start = sol.values[3 * (base + k)];
            proof {
                assert(i64::MIN <= sol.values@[3 * flat(req.jobs@, j as int, k as int)]
                    + req.jobs@[j as int].operations@[k as int].duration <= i64::MAX);
            }
            raw.push(ScheduledOp {
                job_id: job.id,
                job_name: job.name.clone(),
                machine_id: op.machine_id,
                op_index: k,
                start,
                end: start + op.duration,
            });
            proof {
                assert(raw@ =~= solved_ops(*req, sol.values@, j as nat) + Seq::new(
                    (k + 1) as nat,
                    |x: int| solved_op(*req, sol.values@, j as int, x),
                ));
            }
            k = k + 1;
        }
        base = base + job.operations.len();
        j = j + 1;
    }

    let cnt = raw.len();
    let mut keys: Vec<(usize, i64)> = Vec::new();
    let mut q: usize = 0;
    while q < cnt
        invariant
            cnt == raw@.len(),
            q <= cnt,
            keys@ =~= machine_start_keys(raw@).subrange(0, q as int),
        decreases cnt - q,
    {
        keys.push((raw[q].machine_id, raw[q].start));
        q = q + 1;
    }
    assert(keys@ =~= machine_start_keys(raw@));
    let order = stable_order_of(&keys);
    let mut schedule: Vec<ScheduledOp> = Vec::new();
    let mut w: usize = 0;
    while w < cnt
        invariant
            cnt == raw@.len(),
            order@.len() == cnt,
            is_stable_order(machine_start_keys(raw@), order@),
            w <= cnt,
            schedule@ =~= reorder(raw@, order@).subrange(0, w as int),
        decreases cnt - w,
    {
        schedule.push(raw[order[w]].clone());
        w = w + 1;
    }
    assert(schedule@ =~= reorder(raw@, order@));
    proof {
        let sc = schedule@;
        assert forall|i: int, i2: int| 0 <= i < i2 < sc.len() implies (#[trigger] sc[i]).machine_id
            < (#[trigger] sc[i2]).machine_id || (sc[i].machine_id == sc[i2].machine_id && sc[i].start
            <= sc[i2].start) by {
            assert(precedes(machine_start_keys(raw@), order@[i] as int, order@[i2] as int));
        }
        lemma_solved_ops_of_request(*req, sol.values@, n as nat);
        assert forall|i: int| 0 <= i < sc.len() implies op_of_request(*req, #[trigger] sc[i]) by {
            assert(sc[i] == raw@[order@[i] as int]);
        }
    }

    let lower_bound = match sol.status {
        CpStatus::Optimal => Some(makespan),
        _ => None,
    };
    JobShopPlan {
        request_id: req.id.clone(),
        schedule,
        makespan,
        lower_bound,
        solver: String::from_str("cp-sat-v9.15"),
        status: String::from_str(status),
    }
}

} // verus!
