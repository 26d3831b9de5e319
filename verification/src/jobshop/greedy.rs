//! List scheduling with Shortest Processing Time (SPT) dispatching.
use vstd::prelude::*;
use vstd::string::StringExecFns;

use crate::order::{is_stable_order, precedes, reorder, stable_order, stable_order_of};
use crate::routing::{any_pending, holds_id, is_pending, pending_prefix, pending_seeds, plan_exists, spec_request_id};
use super::problem::{
    abs, job_duration, jobs_duration, ops_count, total_ops, Job, JobShopPlan,
    JobShopRequest, Operation, ScheduledOp, total_ops_exec,
};

verus! {

pub const REQUEST_PREFIX: &'static str = "jspbench-request:";
pub const PLAN_PREFIX: &'static str = "jspbench-plan-greedy:";

/// Schedules a Job Shop instance via list scheduling with Shortest Processing
/// Time dispatching. SPT can be arbitrarily bad against the optimum; its plans
/// are marked `"feasible"`.
pub struct GreedyJobShopSuggestor;

impl GreedyJobShopSuggestor {
    pub fn name(&self) -> (r: &'static str)
        ensures
            r@ == "GreedyJobShopSuggestor"@,
    {
        "GreedyJobShopSuggestor"
    }

    pub fn complexity_hint(&self) -> (r: Option<&'static str>)
        ensures
            r is Some,
            r->0@ == "O(n·m²) — SPT list scheduling; sub-ms for n ≤ 1 000 jobs × m ≤ 100 machines"@,
    {
        Some("O(n·m²) — SPT list scheduling; sub-ms for n ≤ 1 000 jobs × m ≤ 100 machines")
    }

    /// Some seed is a job shop request without a greedy plan yet.
    pub fn accepts(&self, seed_ids: &Vec<String>, strategy_ids: &Vec<String>) -> (r: bool)
        ensures
            r == exists|i: int|
                0 <= i < seed_ids@.len() && #[trigger] is_pending(
                    seed_ids@[i]@,
                    strategy_ids@,
                    REQUEST_PREFIX@,
                    PLAN_PREFIX@,
                ),
    {
        any_pending(seed_ids, strategy_ids, REQUEST_PREFIX, PLAN_PREFIX)
    }

    /// Indices of the seeds that this suggestor answers in one pass.
    pub fn pending(&self, seed_ids: &Vec<String>, strategy_ids: &Vec<String>) -> (r: Vec<usize>)
        ensures
            r@ == pending_prefix(seed_ids@, strategy_ids@, REQUEST_PREFIX@, PLAN_PREFIX@, seed_ids@.len()),
    {
        pending_seeds(seed_ids, strategy_ids, REQUEST_PREFIX, PLAN_PREFIX)
    }
}

/// The request id carried by a job shop request seed id.
pub fn request_id(fact_id: &str) -> (r: &str)
    ensures
        r@ == spec_request_id(fact_id@, REQUEST_PREFIX@),
{
    crate::routing::request_id(fact_id, REQUEST_PREFIX)
}

/// Whether the greedy plan for `request_id` is already among the strategies.
pub fn own_plan_exists(strategy_ids: &Vec<String>, request_id: &str) -> (r: bool)
    ensures
        r == holds_id(strategy_ids@, PLAN_PREFIX@ + request_id@),
{
    plan_exists(strategy_ids, PLAN_PREFIX, request_id)
}

// ── Specification of the dispatching run ────────────────────────────────────

/// Per job: index of its next operation, and the time its previous operation
/// ends; per machine: the time it becomes free; and the operations dispatched.
pub type SptState = (Seq<usize>, Seq<i64>, Seq<i64>, Seq<ScheduledOp>);

/// Every operation names one of the request's machines.
pub open spec fn machines_in_range(req: JobShopRequest) -> bool {
    forall|j: int, k: int|
        0 <= j < req.jobs@.len() && 0 <= k < req.jobs@[j].operations@.len()
            ==> #[trigger] req.jobs@[j].operations@[k].machine_id < req.num_machines
}

pub open spec fn op_of(req: JobShopRequest, j: int, k: int) -> Operation {
    req.jobs@[j].operations@[k]
}

/// Job `j` has an operation left and the next one runs on `mach`.
pub open spec fn ready_for(req: JobShopRequest, st: SptState, mach: int, j: int) -> bool {
    &&& st.0[j] < req.jobs@[j].operations@.len()
    &&& op_of(req, j, st.0[j] as int).machine_id == mach
}

/// Among the first `n` jobs, the ready one for `mach` with the shortest next
/// operation, the lowest job index breaking ties.
pub open spec fn spt_pick(req: JobShopRequest, st: SptState, mach: int, n: nat) -> Option<int>
    decreases n,
{
    if n == 0 {
        None
    } else {
        let prev = spt_pick(req, st, mach, (n - 1) as nat);
        let j = n - 1;
        if ready_for(req, st, mach, j) {
            match prev {
                None => Some(j),
                Some(p) => if op_of(req, j, st.0[j] as int).duration < op_of(req, p, st.0[p] as int).duration {
                    Some(j)
                } else {
                    prev
                },
            }
        } else {
            prev
        }
    }
}

/// Job `j`'s next operation runs on `mach` as soon as both are free.
pub open spec fn dispatch(req: JobShopRequest, st: SptState, mach: int, j: int) -> SptState {
    let k = st.0[j];
    let op = op_of(req, j, k as int);
    let start: int = if st.1[j] >= st.2[mach] { st.1[j] as int } else { st.2[mach] as int };
    let end: int = start + op.duration;
    (
        st.0.update(j, (k + 1) as usize),
        st.1.update(j, end as i64),
        st.2.update(mach, end as i64),
        st.3.push(
            ScheduledOp {
                job_id: j as usize,
                job_name: req.jobs@[j].name,
                machine_id: mach as usize,
                op_index: k,
                start: start as i64,
                end: end as i64,
            },
        ),
    )
}

/// Machine `mach` takes the SPT choice among the jobs ready for it, if any.
pub open spec fn machine_pass(req: JobShopRequest, st: SptState, mach: int) -> SptState {
    match spt_pick(req, st, mach, req.jobs@.len()) {
        Some(j) => dispatch(req, st, mach, j),
        None => st,
    }
}

/// The passes of machines `0..x` in turn.
pub open spec fn passes(req: JobShopRequest, st: SptState, x: nat) -> SptState
    decreases x,
{
    if x == 0 {
        st
    } else {
        machine_pass(req, passes(req, st, (x - 1) as nat), x - 1)
    }
}

pub open spec fn spt_init(req: JobShopRequest) -> SptState {
    (
        Seq::new(req.jobs@.len(), |j: int| 0usize),
        Seq::new(req.jobs@.len(), |j: int| 0i64),
        Seq::new(req.num_machines as nat, |m: int| 0i64),
        Seq::empty(),
    )
}

pub open spec fn spt_done(req: JobShopRequest, st: SptState) -> bool {
    st.3.len() >= total_ops(req.jobs@)
}

/// The state after `r` rounds over all machines (rounds stop once every
/// operation is dispatched).
pub open spec fn spt_rounds(req: JobShopRequest, r: nat) -> SptState
    decreases r,
{
    if r == 0 {
        spt_init(req)
    } else {
        let s = spt_rounds(req, (r - 1) as nat);
        if spt_done(req, s) {
            s
        } else {
            passes(req, s, req.num_machines as nat)
        }
    }
}

/// Machine `mach` starting job `j`'s next operation forms an end within `i64`.
pub open spec fn dispatch_fits(req: JobShopRequest, st: SptState, mach: int, j: int) -> bool {
    let start: int = if st.1[j] >= st.2[mach] { st.1[j] as int } else { st.2[mach] as int };
    i64::MIN <= start + op_of(req, j, st.0[j] as int).duration <= i64::MAX
}

/// The ends formed in the passes of machines `0..x` fit in `i64`.
pub open spec fn passes_fit(req: JobShopRequest, st: SptState, x: nat) -> bool
    decreases x,
{
    if x == 0 {
        true
    } else {
        let s = passes(req, st, (x - 1) as nat);
        &&& passes_fit(req, st, (x - 1) as nat)
        &&& match spt_pick(req, s, x - 1, req.jobs@.len()) {
            Some(j) => dispatch_fits(req, s, x - 1, j),
            None => true,
        }
    }
}

/// The ends formed in the first `r` rounds fit in `i64`.
pub open spec fn rounds_fit(req: JobShopRequest, r: nat) -> bool
    decreases r,
{
    if r == 0 {
        true
    } else {
        let s = spt_rounds(req, (r - 1) as nat);
        rounds_fit(req, (r - 1) as nat) && (spt_done(req, s) || passes_fit(req, s, req.num_machines as nat))
    }
}

/// The operations can be counted in `usize`, and every end the run forms
/// fits in `i64`.
pub open spec fn spt_ends_fit(req: JobShopRequest) -> bool {
    &&& total_ops(req.jobs@) <= usize::MAX
    &&& rounds_fit(req, total_ops(req.jobs@))
}

proof fn lemma_passes_fit_prefix(req: JobShopRequest, st: SptState, a: nat, b: nat)
    requires
        a <= b,
        passes_fit(req, st, b),
    ensures
        passes_fit(req, st, a),
    decreases b,
{
    if a < b {
        lemma_passes_fit_prefix(req, st, a, (b - 1) as nat);
    }
}

proof fn lemma_rounds_fit_prefix(req: JobShopRequest, a: nat, b: nat)
    requires
        a <= b,
        rounds_fit(req, b),
    ensures
        rounds_fit(req, a),
    decreases b,
{
    if a < b {
        lemma_rounds_fit_prefix(req, a, (b - 1) as nat);
    }
}

/// Once the run is done, later rounds form no end.
proof fn lemma_rounds_fit_after(req: JobShopRequest, r: nat, r2: nat)
    requires
        r <= r2,
        rounds_fit(req, r),
        spt_done(req, spt_rounds(req, r)),
    ensures
        rounds_fit(req, r2),
    decreases r2,
{
    if r < r2 {
        lemma_rounds_fit_after(req, r, (r2 - 1) as nat);
        lemma_rounds_stay(req, r, (r2 - 1) as nat);
    }
}

/// Sort keys `(machine, start)`.
pub open spec fn machine_start_keys(s: Seq<ScheduledOp>) -> Seq<(usize, i64)> {
    Seq::new(s.len(), |i: int| (s[i].machine_id, s[i].start))
}

/// The operations in dispatch order (each round dispatches at least one, so
/// `total_ops` rounds finish the run).
pub open spec fn spt_dispatched(req: JobShopRequest) -> Seq<ScheduledOp> {
    spt_rounds(req, total_ops(req.jobs@)).3
}

/// The greedy schedule: the dispatched operations ordered by machine, then start.
pub open spec fn spt_schedule(req: JobShopRequest) -> Seq<ScheduledOp> {
    let d = spt_dispatched(req);
    reorder(d, stable_order(machine_start_keys(d)))
}

/// Latest end among the operations, or 0 when there is none.
pub open spec fn max_end(s: Seq<ScheduledOp>) -> int
    decreases s.len(),
{
    if s.len() == 0 {
        0
    } else if s.len() == 1 {
        s[0].end as int
    } else {
        let m = max_end(s.drop_last());
        if s.last().end > m { s.last().end as int } else { m }
    }
}

/// The latest end is the end of one of the entries (0 when there are none),
/// and no entry ends after it.
pub proof fn lemma_max_end_is_latest(s: Seq<ScheduledOp>)
    ensures
        forall|i: int| 0 <= i < s.len() ==> (#[trigger] s[i]).end <= max_end(s),
        s.len() == 0 ==> max_end(s) == 0,
        s.len() > 0 ==> exists|i: int| 0 <= i < s.len() && max_end(s) == (#[trigger] s[i]).end,
    decreases s.len(),
{
    if s.len() > 1 {
        let t = s.drop_last();
        lemma_max_end_is_latest(t);
        assert forall|i: int| 0 <= i < s.len() implies (#[trigger] s[i]).end <= max_end(s) by {
            if i < t.len() {
                assert(s[i] == t[i]);
            }
        }
        let w = choose|i: int| 0 <= i < t.len() && max_end(t) == (#[trigger] t[i]).end;
        assert(s[w] == t[w]);
        if s.last().end > max_end(t) {
            assert(max_end(s) == s[s.len() - 1].end);
        } else {
            assert(max_end(s) == s[w].end);
        }
    } else if s.len() == 1 {
        assert(max_end(s) == s[0].end);
    }
}

// ── Laws of a schedule ───────────────────────────────────────────────────────

/// The entry is operation `op_index` of job `job_id`, on that operation's
/// machine, lasting its duration.
pub open spec fn entry_matches(req: JobShopRequest, e: ScheduledOp) -> bool {
    &&& e.job_id < req.jobs@.len()
    &&& e.op_index < req.jobs@[e.job_id as int].operations@.len()
    &&& e.job_name == req.jobs@[e.job_id as int].name
    &&& e.machine_id == op_of(req, e.job_id as int, e.op_index as int).machine_id
    &&& e.end == e.start + op_of(req, e.job_id as int, e.op_index as int).duration
}

/// Operation `k` of job `j` occurs in `s`.
pub open spec fn scheduled(s: Seq<ScheduledOp>, j: int, k: int) -> bool {
    exists|i: int| 0 <= i < s.len() && #[trigger] s[i].job_id == j && #[trigger] s[i].op_index == k
}

/// Each operation of each job occurs exactly once.
pub open spec fn each_op_once(req: JobShopRequest, s: Seq<ScheduledOp>) -> bool {
    &&& forall|i: int, i2: int|
        0 <= i < s.len() && 0 <= i2 < s.len() && i != i2 && #[trigger] s[i].job_id == #[trigger] s[i2].job_id
            ==> s[i].op_index != s[i2].op_index
    &&& forall|j: int, k: int|
        0 <= j < req.jobs@.len() && 0 <= k < req.jobs@[j].operations@.len() ==> #[trigger] scheduled(s, j, k)
}

/// Within a job, each operation starts no earlier than its predecessor ends.
pub open spec fn precedence_kept(s: Seq<ScheduledOp>) -> bool {
    forall|i: int, i2: int|
        0 <= i < s.len() && 0 <= i2 < s.len() && #[trigger] s[i].job_id == #[trigger] s[i2].job_id
            && s[i2].op_index == s[i].op_index + 1 ==> s[i].end <= s[i2].start
}

/// No two operations on one machine overlap.
pub open spec fn no_machine_overlap(s: Seq<ScheduledOp>) -> bool {
    forall|i: int, i2: int|
        0 <= i < s.len() && 0 <= i2 < s.len() && i != i2 && #[trigger] s[i].machine_id
            == #[trigger] s[i2].machine_id ==> s[i].end <= s[i2].start || s[i2].end <= s[i].start
}

/// No operation has a negative duration.
pub open spec fn durations_nonnegative(req: JobShopRequest) -> bool {
    forall|j: int, k: int|
        0 <= j < req.jobs@.len() && 0 <= k < req.jobs@[j].operations@.len()
            ==> #[trigger] req.jobs@[j].operations@[k].duration >= 0
}

// ── Invariant of the run ─────────────────────────────────────────────────────

pub open spec fn sum_prefix(s: Seq<usize>, n: nat) -> int
    decreases n,
{
    if n == 0 { 0 } else { sum_prefix(s, (n - 1) as nat) + s[n - 1] }
}

pub open spec fn spt_inv(req: JobShopRequest, st: SptState) -> bool {
    let n = req.jobs@.len();
    let m = req.num_machines as int;
    let t = total_ops(req.jobs@) as int;
    let c = st.3.len() as int;
    &&& st.0.len() == n
    &&& st.1.len() == n
    &&& st.2.len() == m
    &&& forall|j: int| 0 <= j < n ==> #[trigger] st.0[j] <= req.jobs@[j].operations@.len()
    &&& sum_prefix(st.0, n) == c
    &&& c <= t
    &&& forall|i: int|
        0 <= i < c ==> {
            let e = #[trigger] st.3[i];
            &&& entry_matches(req, e)
            &&& e.op_index < st.0[e.job_id as int]
            &&& e.machine_id < m
            &&& e.op_index + 1 == st.0[e.job_id as int] ==> e.end == st.1[e.job_id as int]
        }
    &&& forall|i: int, i2: int|
        0 <= i < c && 0 <= i2 < c && i != i2 && #[trigger] st.3[i].job_id == #[trigger] st.3[i2].job_id
            ==> st.3[i].op_index != st.3[i2].op_index
    &&& forall|j: int, k: int| 0 <= j < n && 0 <= k < st.0[j] ==> #[trigger] scheduled(st.3, j, k)
    &&& precedence_kept(st.3)
    &&& durations_nonnegative(req) ==> {
        &&& no_machine_overlap(st.3)
        &&& forall|i: int| 0 <= i < c ==> (#[trigger] st.3[i]).end <= st.2[st.3[i].machine_id as int]
    }
}

proof fn lemma_sum_update(s: Seq<usize>, n: nat, j: int)
    requires
        0 <= j < n <= s.len(),
        s[j] < usize::MAX,
    ensures
        sum_prefix(s.update(j, (s[j] + 1) as usize), n) == sum_prefix(s, n) + 1,
    decreases n,
{
    let s2 = s.update(j, (s[j] + 1) as usize);
    if n - 1 > j {
        lemma_sum_update(s, (n - 1) as nat, j);
    } else {
        lemma_sum_agree(s, s2, (n - 1) as nat);
    }
}

proof fn lemma_sum_agree(s: Seq<usize>, s2: Seq<usize>, x: nat)
    requires
        x <= s.len(),
        x <= s2.len(),
        forall|i: int| 0 <= i < x ==> s[i] == s2[i],
    ensures
        sum_prefix(s, x) == sum_prefix(s2, x),
    decreases x,
{
    if x > 0 {
        lemma_sum_agree(s, s2, (x - 1) as nat);
    }
}

/// With each job's counter at most its operation count, the counters sum to at
/// most the number of operations, and to exactly that only when every job is
/// finished.
proof fn lemma_sum_bound(req: JobShopRequest, s: Seq<usize>, n: nat)
    requires
        n <= req.jobs@.len(),
        s.len() == req.jobs@.len(),
        forall|j: int| 0 <= j < req.jobs@.len() ==> #[trigger] s[j] <= req.jobs@[j].operations@.len(),
    ensures
        sum_prefix(s, n) <= ops_count(req.jobs@, n),
        sum_prefix(s, n) == ops_count(req.jobs@, n) <==> forall|j: int|
            0 <= j < n ==> #[trigger] s[j] == req.jobs@[j].operations@.len(),
    decreases n,
{
    if n > 0 {
        lemma_sum_bound(req, s, (n - 1) as nat);
    }
}

proof fn lemma_pick_sound(req: JobShopRequest, st: SptState, mach: int, n: nat)
    requires
        n <= req.jobs@.len(),
        st.0.len() == req.jobs@.len(),
    ensures
        match spt_pick(req, st, mach, n) {
            Some(j) => {
                &&& 0 <= j < n
                &&& ready_for(req, st, mach, j)
                &&& forall|i: int|
                    0 <= i < n && ready_for(req, st, mach, i) ==> op_of(req, j, st.0[j] as int).duration
                        <= op_of(req, i, st.0[i] as int).duration
                &&& forall|i: int|
                    0 <= i < j && ready_for(req, st, mach, i) ==> op_of(req, j, st.0[j] as int).duration
                        < op_of(req, i, st.0[i] as int).duration
            },
            None => forall|i: int| 0 <= i < n ==> !ready_for(req, st, mach, i),
        },
    decreases n,
{
    if n > 0 {
        lemma_pick_sound(req, st, mach, (n - 1) as nat);
    }
}

proof fn lemma_dispatch_inv(req: JobShopRequest, st: SptState, mach: int, j: int)
    requires
        total_ops(req.jobs@) <= usize::MAX,
        dispatch_fits(req, st, mach, j),
        machines_in_range(req),
        spt_inv(req, st),
        0 <= mach < req.num_machines,
        0 <= j < req.jobs@.len(),
        ready_for(req, st, mach, j),
    ensures
        spt_inv(req, dispatch(req, st, mach, j)),
        dispatch(req, st, mach, j).3.len() == st.3.len() + 1,
        st.0[j] < usize::MAX,
        dispatch(req, st, mach, j).1[j] as int == (if st.1[j] >= st.2[mach] {
            st.1[j] as int
        } else {
            st.2[mach] as int
        }) + op_of(req, j, st.0[j] as int).duration,
{
    let n = req.jobs@.len();
    let m = req.num_machines as int;
    let t = total_ops(req.jobs@) as int;
    let c = st.3.len() as int;
    let k = st.0[j];
    let op = op_of(req, j, k as int);
    let s2 = dispatch(req, st, mach, j);
    let start: int = if st.1[j] >= st.2[mach] { st.1[j] as int } else { st.2[mach] as int };
    let end: int = start + op.duration;
    // counters and the count
    lemma_sum_bound(req, st.0, n);
    lemma_ops_count_le(req);
    assert(k < req.jobs@[j].operations@.len());
    assert(req.jobs@[j].operations@.len() == req.jobs@[j].operations.len());
    lemma_sum_update(st.0, n, j);
    assert(c + 1 <= t) by {
        if c == t {
            assert(st.0[j] == req.jobs@[j].operations@.len());
        }
    }
    assert(i64::MIN <= end <= i64::MAX);
    let e = s2.3[c];
    assert(e.start == start && e.end == end);
    assert(e.machine_id == op.machine_id);
    assert(req.jobs@.len() == req.jobs.len());
    assert(e.job_id == j && e.op_index == k);
    assert(entry_matches(req, e));
    assert forall|i: int| 0 <= i < c + 1 implies {
        let e = #[trigger] s2.3[i];
        &&& entry_matches(req, e)
        &&& e.op_index < s2.0[e.job_id as int]
        &&& e.machine_id < m
        &&& e.op_index + 1 == s2.0[e.job_id as int] ==> e.end == s2.1[e.job_id as int]
    } by {
        if i < c {
            assert(s2.3[i] == st.3[i]);
        }
    }
    assert forall|i: int, i2: int|
        0 <= i < c + 1 && 0 <= i2 < c + 1 && i != i2 && #[trigger] s2.3[i].job_id == #[trigger] s2.3[i2].job_id
            implies s2.3[i].op_index != s2.3[i2].op_index by {
        if i < c && i2 < c {
            assert(s2.3[i] == st.3[i] && s2.3[i2] == st.3[i2]);
        } else if i < c {
            assert(s2.3[i] == st.3[i]);
        } else {
            assert(s2.3[i2] == st.3[i2]);
        }
    }
    assert forall|jj: int, kk: int| 0 <= jj < n && 0 <= kk < s2.0[jj] implies #[trigger] scheduled(s2.3, jj, kk) by {
        if jj == j && kk == k {
            assert(s2.3[c].job_id == jj && s2.3[c].op_index == kk);
        } else {
            assert(kk < st.0[jj]);
            assert(scheduled(st.3, jj, kk));
            let i = choose|i: int| 0 <= i < st.3.len() && #[trigger] st.3[i].job_id == jj && #[trigger] st.3[i].op_index == kk;
            assert(s2.3[i] == st.3[i]);
        }
    }
    assert forall|i: int, i2: int|
        0 <= i < c + 1 && 0 <= i2 < c + 1 && #[trigger] s2.3[i].job_id == #[trigger] s2.3[i2].job_id
            && s2.3[i2].op_index == s2.3[i].op_index + 1 implies s2.3[i].end <= s2.3[i2].start by {
        if i < c && i2 < c {
            assert(s2.3[i] == st.3[i] && s2.3[i2] == st.3[i2]);
        } else if i < c {
            assert(s2.3[i] == st.3[i]);
        } else if i2 < c {
            assert(s2.3[i2] == st.3[i2]);
        }
    }
    if durations_nonnegative(req) {
        assert(op.duration >= 0);
        assert forall|i: int| 0 <= i < c + 1 implies (#[trigger] s2.3[i]).end <= s2.2[s2.3[i].machine_id as int] by {
            if i < c {
                assert(s2.3[i] == st.3[i]);
            }
        }
        assert forall|i: int, i2: int|
            0 <= i < c + 1 && 0 <= i2 < c + 1 && i != i2 && #[trigger] s2.3[i].machine_id
                == #[trigger] s2.3[i2].machine_id implies s2.3[i].end <= s2.3[i2].start || s2.3[i2].end
                <= s2.3[i].start by {
            if i < c && i2 < c {
                assert(s2.3[i] == st.3[i] && s2.3[i2] == st.3[i2]);
            } else if i < c {
                assert(s2.3[i] == st.3[i]);
            } else {
                assert(s2.3[i2] == st.3[i2]);
            }
        }
    }
}

proof fn lemma_ops_count_le(req: JobShopRequest)
    ensures
        ops_count(req.jobs@, req.jobs@.len()) == total_ops(req.jobs@),
{
}

/// A pass keeps the invariant and never shrinks the dispatched list.
proof fn lemma_passes_inv(req: JobShopRequest, st: SptState, x: nat)
    requires
        total_ops(req.jobs@) <= usize::MAX,
        passes_fit(req, st, x),
        machines_in_range(req),
        spt_inv(req, st),
        x <= req.num_machines,
    ensures
        spt_inv(req, passes(req, st, x)),
        passes(req, st, x).3.len() >= st.3.len(),
        passes(req, st, x) == st || passes(req, st, x).3.len() > st.3.len(),
        x > 0 ==> passes(req, st, x).3.len() >= passes(req, st, (x - 1) as nat).3.len(),
    decreases x,
{
    if x > 0 {
        lemma_passes_inv(req, st, (x - 1) as nat);
        let s = passes(req, st, (x - 1) as nat);
        lemma_pick_sound(req, s, x - 1, req.jobs@.len());
        match spt_pick(req, s, x - 1, req.jobs@.len()) {
            Some(j) => {
                lemma_dispatch_inv(req, s, x - 1, j);
            },
            None => {},
        }
    }
}

/// A round over all machines dispatches something while operations remain.
proof fn lemma_round_progress(req: JobShopRequest, st: SptState)
    requires
        total_ops(req.jobs@) <= usize::MAX,
        passes_fit(req, st, req.num_machines as nat),
        machines_in_range(req),
        spt_inv(req, st),
        !spt_done(req, st),
    ensures
        passes(req, st, req.num_machines as nat).3.len() > st.3.len(),
{
    let n = req.jobs@.len();
    lemma_sum_bound(req, st.0, n);
    lemma_ops_count_le(req);
    assert(exists|j: int| 0 <= j < n && st.0[j] != req.jobs@[j].operations@.len()) by {
        if forall|j: int| 0 <= j < n ==> st.0[j] == req.jobs@[j].operations@.len() {
            assert(forall|j: int| 0 <= j < n ==> #[trigger] st.0[j] == req.jobs@[j].operations@.len());
        }
    }
    let j = choose|j: int| 0 <= j < n && st.0[j] != req.jobs@[j].operations@.len();
    assert(st.0[j] < req.jobs@[j].operations@.len());
    let mach = op_of(req, j, st.0[j] as int).machine_id as int;
    assert(req.jobs@[j].operations@[st.0[j] as int].machine_id < req.num_machines);
    assert(mach < req.num_machines);
    lemma_passes_fit_prefix(req, st, mach as nat, req.num_machines as nat);
    lemma_passes_fit_prefix(req, st, (mach + 1) as nat, req.num_machines as nat);
    lemma_passes_inv(req, st, mach as nat);
    let s = passes(req, st, mach as nat);
    lemma_passes_inv(req, st, (mach + 1) as nat);
    if s == st {
        assert(ready_for(req, s, mach, j));
        lemma_pick_sound(req, s, mach, n);
        let p = spt_pick(req, s, mach, n);
        assert(p is Some);
        lemma_dispatch_inv(req, s, mach, p->0);
        assert(passes(req, st, (mach + 1) as nat).3.len() > st.3.len());
    }
    lemma_passes_tail(req, st, (mach + 1) as nat, req.num_machines as nat);
}

/// Later passes never shrink the dispatched list.
proof fn lemma_passes_tail(req: JobShopRequest, st: SptState, a: nat, b: nat)
    requires
        total_ops(req.jobs@) <= usize::MAX,
        passes_fit(req, st, b),
        machines_in_range(req),
        spt_inv(req, st),
        a <= b <= req.num_machines,
    ensures
        passes(req, st, b).3.len() >= passes(req, st, a).3.len(),
        spt_inv(req, passes(req, st, b)),
    decreases b,
{
    lemma_passes_inv(req, st, b);
    if a < b {
        lemma_passes_tail(req, st, a, (b - 1) as nat);
    }
}

/// After `r` rounds the invariant holds and either the run is done or at
/// least `r` operations are dispatched.
proof fn lemma_rounds(req: JobShopRequest, r: nat)
    requires
        total_ops(req.jobs@) <= usize::MAX,
        rounds_fit(req, r),
        machines_in_range(req),
    ensures
        spt_inv(req, spt_rounds(req, r)),
        spt_done(req, spt_rounds(req, r)) || spt_rounds(req, r).3.len() >= r,
    decreases r,
{
    if r == 0 {
        lemma_init_inv(req);
    } else {
        lemma_rounds(req, (r - 1) as nat);
        let s = spt_rounds(req, (r - 1) as nat);
        if !spt_done(req, s) {
            lemma_passes_inv(req, s, req.num_machines as nat);
            lemma_round_progress(req, s);
        }
    }
}

proof fn lemma_init_inv(req: JobShopRequest)
    ensures
        spt_inv(req, spt_init(req)),
{
    let st = spt_init(req);
    let t = total_ops(req.jobs@) as int;
    assert forall|x: nat| x <= req.jobs@.len() implies sum_prefix(st.0, x) == 0 by {
        lemma_sum_zero(st.0, x);
    }
}

proof fn lemma_sum_zero(s: Seq<usize>, x: nat)
    requires
        x <= s.len(),
        forall|i: int| 0 <= i < s.len() ==> s[i] == 0,
    ensures
        sum_prefix(s, x) == 0,
    decreases x,
{
    if x > 0 {
        lemma_sum_zero(s, (x - 1) as nat);
    }
}

/// Once done, further rounds change nothing.
proof fn lemma_rounds_stay(req: JobShopRequest, r: nat, r2: nat)
    requires
        r <= r2,
        spt_done(req, spt_rounds(req, r)),
    ensures
        spt_rounds(req, r2) == spt_rounds(req, r),
    decreases r2,
{
    if r < r2 {
        lemma_rounds_stay(req, r, (r2 - 1) as nat);
    }
}

// ── The run stays within the horizon ─────────────────────────────────────────

/// Sum, over the first `x` jobs, of the durations of the operations that the
/// counters `s0` say are dispatched.
pub open spec fn done_duration(req: JobShopRequest, s0: Seq<usize>, x: nat) -> int
    decreases x,
{
    if x == 0 {
        0
    } else {
        done_duration(req, s0, (x - 1) as nat) + job_duration(req.jobs@[x - 1].operations@, s0[x - 1] as nat)
    }
}

/// Every free time, start and end so far is between 0 and the dispatched
/// durations.
pub open spec fn ends_within(req: JobShopRequest, st: SptState) -> bool {
    let d = done_duration(req, st.0, req.jobs@.len());
    &&& d >= 0
    &&& forall|j: int| 0 <= j < req.jobs@.len() ==> 0 <= #[trigger] st.1[j] <= d
    &&& forall|x: int| 0 <= x < req.num_machines ==> 0 <= #[trigger] st.2[x] <= d
    &&& forall|i: int| 0 <= i < st.3.len() ==> 0 <= (#[trigger] st.3[i]).start && st.3[i].end <= d
}

proof fn lemma_job_duration_nonneg(req: JobShopRequest, j: int, k: nat)
    requires
        durations_nonnegative(req),
        0 <= j < req.jobs@.len(),
        k <= req.jobs@[j].operations@.len(),
    ensures
        job_duration(req.jobs@[j].operations@, k) >= 0,
    decreases k,
{
    if k > 0 {
        lemma_job_duration_nonneg(req, j, (k - 1) as nat);
        assert(req.jobs@[j].operations@[k - 1].duration >= 0);
    }
}

proof fn lemma_done_nonneg(req: JobShopRequest, s0: Seq<usize>, x: nat)
    requires
        durations_nonnegative(req),
        x <= req.jobs@.len(),
        s0.len() == req.jobs@.len(),
        forall|j: int| 0 <= j < req.jobs@.len() ==> #[trigger] s0[j] <= req.jobs@[j].operations@.len(),
    ensures
        done_duration(req, s0, x) >= 0,
    decreases x,
{
    if x > 0 {
        lemma_done_nonneg(req, s0, (x - 1) as nat);
        lemma_job_duration_nonneg(req, x - 1, s0[x - 1] as nat);
    }
}

proof fn lemma_done_agree(req: JobShopRequest, a: Seq<usize>, b: Seq<usize>, x: nat)
    requires
        x <= a.len(),
        x <= b.len(),
        forall|i: int| 0 <= i < x ==> a[i] == b[i],
    ensures
        done_duration(req, a, x) == done_duration(req, b, x),
    decreases x,
{
    if x > 0 {
        lemma_done_agree(req, a, b, (x - 1) as nat);
    }
}

proof fn lemma_done_update(req: JobShopRequest, s0: Seq<usize>, x: nat, j: int)
    requires
        0 <= j < x <= s0.len(),
        s0[j] < req.jobs@[j].operations@.len(),
        s0[j] < usize::MAX,
    ensures
        done_duration(req, s0.update(j, (s0[j] + 1) as usize), x) == done_duration(req, s0, x) + req.jobs@[j].operations@[s0[j] as int].duration,
    decreases x,
{
    let s2 = s0.update(j, (s0[j] + 1) as usize);
    if x - 1 > j {
        lemma_done_update(req, s0, (x - 1) as nat, j);
    } else {
        lemma_done_agree(req, s0, s2, (x - 1) as nat);
        assert(job_duration(req.jobs@[j].operations@, (s0[j] + 1) as nat) == job_duration(
            req.jobs@[j].operations@,
            s0[j] as nat,
        ) + req.jobs@[j].operations@[s0[j] as int].duration);
    }
}

proof fn lemma_done_full(req: JobShopRequest, s0: Seq<usize>, x: nat)
    requires
        x <= req.jobs@.len(),
        s0.len() == req.jobs@.len(),
        forall|j: int| 0 <= j < x ==> #[trigger] s0[j] == req.jobs@[j].operations@.len(),
    ensures
        done_duration(req, s0, x) == jobs_duration(req.jobs@, x),
    decreases x,
{
    if x > 0 {
        lemma_done_full(req, s0, (x - 1) as nat);
        assert(s0[x - 1] == req.jobs@[x - 1].operations@.len());
    }
}

proof fn lemma_dispatch_within(req: JobShopRequest, st: SptState, mach: int, j: int)
    requires
        total_ops(req.jobs@) <= usize::MAX,
        dispatch_fits(req, st, mach, j),
        durations_nonnegative(req),
        machines_in_range(req),
        spt_inv(req, st),
        ends_within(req, st),
        0 <= mach < req.num_machines,
        0 <= j < req.jobs@.len(),
        ready_for(req, st, mach, j),
    ensures
        ends_within(req, dispatch(req, st, mach, j)),
{
    let n = req.jobs@.len();
    let s2 = dispatch(req, st, mach, j);
    let d = done_duration(req, st.0, n);
    let op = op_of(req, j, st.0[j] as int);
    lemma_dispatch_inv(req, st, mach, j);
    lemma_done_update(req, st.0, n, j);
    let d2 = done_duration(req, s2.0, n);
    assert(op.duration >= 0);
    assert(d2 == d + op.duration);
    let c = st.3.len() as int;
    assert(s2.1[j] <= d2);
    assert(s2.2[mach] == s2.1[j]);
    assert(s2.3[c].end == s2.1[j]);
    assert(s2.3[c].start >= 0);
    assert forall|i: int| 0 <= i < s2.3.len() implies 0 <= (#[trigger] s2.3[i]).start && s2.3[i].end <= d2 by {
        if i < c {
            assert(s2.3[i] == st.3[i]);
        }
    }
}

proof fn lemma_passes_within(req: JobShopRequest, st: SptState, x: nat)
    requires
        total_ops(req.jobs@) <= usize::MAX,
        passes_fit(req, st, x),
        durations_nonnegative(req),
        machines_in_range(req),
        spt_inv(req, st),
        ends_within(req, st),
        x <= req.num_machines,
    ensures
        ends_within(req, passes(req, st, x)),
    decreases x,
{
    if x > 0 {
        lemma_passes_within(req, st, (x - 1) as nat);
        lemma_passes_inv(req, st, (x - 1) as nat);
        let s = passes(req, st, (x - 1) as nat);
        lemma_pick_sound(req, s, x - 1, req.jobs@.len());
        match spt_pick(req, s, x - 1, req.jobs@.len()) {
            Some(j) => {
                lemma_dispatch_within(req, s, x - 1, j);
            },
            None => {},
        }
    }
}

proof fn lemma_rounds_within(req: JobShopRequest, r: nat)
    requires
        total_ops(req.jobs@) <= usize::MAX,
        rounds_fit(req, r),
        durations_nonnegative(req),
        machines_in_range(req),
    ensures
        ends_within(req, spt_rounds(req, r)),
    decreases r,
{
    lemma_rounds(req, r);
    if r == 0 {
        let st = spt_init(req);
        lemma_done_nonneg(req, st.0, req.jobs@.len());
    } else {
        lemma_rounds_within(req, (r - 1) as nat);
        lemma_rounds(req, (r - 1) as nat);
        let s = spt_rounds(req, (r - 1) as nat);
        if !spt_done(req, s) {
            lemma_passes_within(req, s, req.num_machines as nat);
        }
    }
}

// ── What each pass of the run does ──────────────────────────────────────────

/// How many operations of job `j` are in `d`.
pub open spec fn job_done(d: Seq<ScheduledOp>, j: int) -> nat
    decreases d.len(),
{
    if d.len() == 0 {
        0
    } else {
        job_done(d.drop_last(), j) + if d.last().job_id == j { 1nat } else { 0nat }
    }
}

/// When job `j` is next free after the operations in `d`: the end of its
/// last one, or 0 before any.
pub open spec fn job_free(d: Seq<ScheduledOp>, j: int) -> int
    decreases d.len(),
{
    if d.len() == 0 {
        0
    } else if d.last().job_id == j {
        d.last().end as int
    } else {
        job_free(d.drop_last(), j)
    }
}

/// When machine `x` is next free after the operations in `d`: the end of the
/// last one on it, or 0 before any.
pub open spec fn machine_free(d: Seq<ScheduledOp>, x: int) -> int
    decreases d.len(),
{
    if d.len() == 0 {
        0
    } else if d.last().machine_id == x {
        d.last().end as int
    } else {
        machine_free(d.drop_last(), x)
    }
}

/// The run's counters and free times are those of the operations dispatched.
pub open spec fn tables_match(req: JobShopRequest, st: SptState) -> bool {
    &&& forall|j: int| 0 <= j < req.jobs@.len() ==> #[trigger] st.0[j] == job_done(st.3, j)
    &&& forall|j: int| 0 <= j < req.jobs@.len() ==> #[trigger] st.1[j] == job_free(st.3, j)
    &&& forall|x: int| 0 <= x < req.num_machines ==> #[trigger] st.2[x] == machine_free(st.3, x)
}

proof fn lemma_dispatch_tables(req: JobShopRequest, st: SptState, mach: int, j: int)
    requires
        total_ops(req.jobs@) <= usize::MAX,
        dispatch_fits(req, st, mach, j),
        machines_in_range(req),
        spt_inv(req, st),
        tables_match(req, st),
        0 <= mach < req.num_machines,
        0 <= j < req.jobs@.len(),
        ready_for(req, st, mach, j),
    ensures
        tables_match(req, dispatch(req, st, mach, j)),
{
    lemma_dispatch_inv(req, st, mach, j);
    let s2 = dispatch(req, st, mach, j);
    let e = s2.3.last();
    assert(s2.3.drop_last() =~= st.3);
    assert(req.jobs@.len() == req.jobs.len());
    assert(e.job_id as int == j && e.machine_id as int == mach);
    assert forall|j2: int| 0 <= j2 < req.jobs@.len() implies #[trigger] s2.0[j2] == job_done(s2.3, j2) by {
        assert(job_done(s2.3, j2) == job_done(st.3, j2) + if e.job_id == j2 { 1nat } else { 0nat });
    }
    assert forall|j2: int| 0 <= j2 < req.jobs@.len() implies #[trigger] s2.1[j2] == job_free(s2.3, j2) by {
        if j2 != j {
            assert(job_free(s2.3, j2) == job_free(st.3, j2));
        }
    }
    assert forall|x: int| 0 <= x < req.num_machines implies #[trigger] s2.2[x] == machine_free(s2.3, x) by {
        if x != mach {
            assert(machine_free(s2.3, x) == machine_free(st.3, x));
        }
    }
}

proof fn lemma_passes_tables(req: JobShopRequest, st: SptState, x: nat)
    requires
        total_ops(req.jobs@) <= usize::MAX,
        passes_fit(req, st, x),
        machines_in_range(req),
        spt_inv(req, st),
        tables_match(req, st),
        x <= req.num_machines,
    ensures
        tables_match(req, passes(req, st, x)),
    decreases x,
{
    if x > 0 {
        lemma_passes_tables(req, st, (x - 1) as nat);
        lemma_passes_inv(req, st, (x - 1) as nat);
        let s = passes(req, st, (x - 1) as nat);
        lemma_pick_sound(req, s, x - 1, req.jobs@.len());
        match spt_pick(req, s, x - 1, req.jobs@.len()) {
            Some(j) => {
                lemma_dispatch_tables(req, s, x - 1, j);
            },
            None => {},
        }
    }
}

proof fn lemma_rounds_tables(req: JobShopRequest, r: nat)
    requires
        total_ops(req.jobs@) <= usize::MAX,
        rounds_fit(req, r),
        machines_in_range(req),
    ensures
        tables_match(req, spt_rounds(req, r)),
    decreases r,
{
    if r > 0 {
        lemma_rounds_tables(req, (r - 1) as nat);
        lemma_rounds(req, (r - 1) as nat);
        let s = spt_rounds(req, (r - 1) as nat);
        if !spt_done(req, s) {
            lemma_passes_tables(req, s, req.num_machines as nat);
        }
    }
}

/// Job `j`'s next operation, after the operations in `d`, runs on machine `x`.
pub open spec fn waits_for(req: JobShopRequest, d: Seq<ScheduledOp>, x: int, j: int) -> bool {
    &&& job_done(d, j) < req.jobs@[j].operations@.len()
    &&& req.jobs@[j].operations@[job_done(d, j) as int].machine_id == x
}

/// In each round, each machine in turn takes, among the jobs whose next
/// operation runs on it, one with the shortest such operation (the lowest job
/// on ties), and starts it once both the job's previous operation and the
/// machine's last one have ended; with no such job, nothing is dispatched.
pub proof fn lemma_spt_pass(req: JobShopRequest, r: nat, x: nat)
    requires
        machines_in_range(req),
        spt_ends_fit(req),
        r < total_ops(req.jobs@),
        x < req.num_machines,
        !spt_done(req, spt_rounds(req, r)),
    ensures
        ({
            let s0 = spt_rounds(req, r);
            let d = passes(req, s0, x).3;
            let d2 = passes(req, s0, x + 1).3;
            &&& d2.len() == d.len() ==> forall|j: int| 0 <= j < req.jobs@.len() ==> !#[trigger] waits_for(req, d, x as int, j)
            &&& d2.len() == d.len() + 1 ==> exists|j: int|
                0 <= j < req.jobs@.len() && {
                    let e = d2.last();
                    let op = req.jobs@[j].operations@[job_done(d, j) as int];
                    let start = if job_free(d, j) >= machine_free(d, x as int) {
                        job_free(d, j)
                    } else {
                        machine_free(d, x as int)
                    };
                    &&& #[trigger] waits_for(req, d, x as int, j)
                    &&& e.job_id == j && e.job_name == req.jobs@[j].name
                    &&& e.op_index == job_done(d, j) && e.machine_id == x
                    &&& e.start == start && e.end == start + op.duration
                    &&& forall|j2: int|
                        0 <= j2 < req.jobs@.len() && #[trigger] waits_for(req, d, x as int, j2) ==> op.duration
                            <= req.jobs@[j2].operations@[job_done(d, j2) as int].duration && (j2 < j ==> op.duration
                            < req.jobs@[j2].operations@[job_done(d, j2) as int].duration)
                }
            &&& d2.len() == d.len() || d2.len() == d.len() + 1
            &&& d2.subrange(0, d.len() as int) == d
        }),
{
    let t = total_ops(req.jobs@);
    let s0 = spt_rounds(req, r);
    lemma_rounds_fit_prefix(req, (r + 1) as nat, t);
    lemma_rounds(req, r);
    lemma_rounds_tables(req, r);
    assert(passes_fit(req, s0, req.num_machines as nat));
    lemma_passes_fit_prefix(req, s0, (x + 1) as nat, req.num_machines as nat);
    lemma_passes_inv(req, s0, x);
    lemma_passes_tables(req, s0, x);
    let st = passes(req, s0, x);
    let n = req.jobs@.len();
    lemma_pick_sound(req, st, x as int, n);
    assert forall|j: int| 0 <= j < n implies (ready_for(req, st, x as int, j) <==> #[trigger] waits_for(req, st.3, x as int, j)) by {
        assert(st.0[j] == job_done(st.3, j));
    }
    match spt_pick(req, st, x as int, n) {
        Some(j) => {
            lemma_dispatch_inv(req, st, x as int, j);
            let s2 = dispatch(req, st, x as int, j);
            assert(passes(req, s0, x + 1) == s2);
            assert(st.0[j] == job_done(st.3, j));
            assert(st.1[j] == job_free(st.3, j));
            assert(st.2[x as int] == machine_free(st.3, x as int));
            assert(s2.3.subrange(0, st.3.len() as int) =~= st.3);
            let e = s2.3.last();
            assert(waits_for(req, st.3, x as int, j));
            assert(req.jobs@.len() == req.jobs.len());
            assert(e.job_id as int == j && e.op_index as int == job_done(st.3, j) && e.machine_id as int == x);
            assert forall|j2: int| 0 <= j2 < n && #[trigger] waits_for(req, st.3, x as int, j2) implies op_of(
                req,
                j,
                st.0[j] as int,
            ).duration <= req.jobs@[j2].operations@[job_done(st.3, j2) as int].duration && (j2 < j ==> op_of(
                req,
                j,
                st.0[j] as int,
            ).duration < req.jobs@[j2].operations@[job_done(st.3, j2) as int].duration) by {
                assert(ready_for(req, st, x as int, j2));
                assert(st.0[j2] == job_done(st.3, j2));
            }
        },
        None => {
            assert(passes(req, s0, x + 1) == st);
            assert(st.3.subrange(0, st.3.len() as int) =~= st.3);
        },
    }
}

// ── Implementation ───────────────────────────────────────────────────────────

/// The SPT choice for machine `mach` (see `spt_pick`).
fn pick_for(
    req: &JobShopRequest,
    next_op: &Vec<usize>,
    mach: usize,
    Ghost(st): Ghost<SptState>,
) -> (r: Option<usize>)
    requires
        st.0 == next_op@,
        next_op@.len() == req.jobs@.len(),
    ensures
        match r {
            Some(j) => spt_pick(*req, st, mach as int, req.jobs@.len()) == Some(j as int),
            None => spt_pick(*req, st, mach as int, req.jobs@.len()) is None,
        },
{
    let n = req.jobs.len();
    let mut best: Option<usize> = None;
    let mut best_dur: i64 = 0;
    let mut j: usize = 0;
    while j < n
        invariant
            n == req.jobs@.len(),
            st.0 == next_op@,
            next_op@.len() == n,
            j <= n,
            match best {
                Some(b) => spt_pick(*req, st, mach as int, j as nat) == Some(b as int) && best_dur == op_of(
                    *req,
                    b as int,
                    st.0[b as int] as int,
                ).duration && b < n && st.0[b as int] < req.jobs@[b as int].operations@.len(),
                None => spt_pick(*req, st, mach as int, j as nat) is None,
            },
        decreases n - j,
    {
        let k = next_op[j];
        let ops = &req.jobs[j].operations;
        if k < ops.len() && ops[k].machine_id == mach {
            let d = ops[k].duration;
            match best {
                None => {
                    best = Some(j);
                    best_dur = d;
                },
                Some(_) => {
                    if d < best_dur {
                        best = Some(j);
                        best_dur = d;
                    }
                },
            }
        }
        j = j + 1;
    }
    best
}

/// Whether every operation names a machine below `num_machines`.
pub(crate) fn machines_in_range_exec(req: &JobShopRequest) -> (r: bool)
    ensures
        r == machines_in_range(*req),
{
    let mut j: usize = 0;
    while j < req.jobs.len()
        invariant
            j <= req.jobs@.len(),
            forall|x: int, k: int|
                0 <= x < j && 0 <= k < req.jobs@[x].operations@.len()
                    ==> #[trigger] req.jobs@[x].operations@[k].machine_id < req.num_machines,
        decreases req.jobs.len() - j,
    {
        let ops = &req.jobs[j].operations;
        let mut k: usize = 0;
        while k < ops.len()
            invariant
                j < req.jobs@.len(),
                ops == req.jobs@[j as int].operations,
                k <= ops@.len(),
                forall|y: int| 0 <= y < k ==> #[trigger] req.jobs@[j as int].operations@[y].machine_id < req.num_machines,
            decreases ops.len() - k,
        {
            if ops[k].machine_id >= req.num_machines {
                assert(req.jobs@[j as int].operations@[k as int].machine_id >= req.num_machines);
                return false;
            }
            k = k + 1;
        }
        j = j + 1;
    }
    true
}

/// Whether `solve_greedy` can run on the request: every operation names an
/// existing machine, and every end the run forms fits in `i64`.
pub fn can_solve_greedy(req: &JobShopRequest) -> (r: bool)
    ensures
        r == (machines_in_range(*req) && spt_ends_fit(*req)),
{
    machines_in_range_exec(req) && spt_run(req).is_some()
}

/// The operations in the order the SPT run dispatches them, or `None` when
/// the operations cannot be counted in `usize` or an end the run forms falls
/// outside `i64`.
fn spt_run(req: &JobShopRequest) -> (r: Option<Vec<ScheduledOp>>)
    requires
        machines_in_range(*req),
    ensures
        match r {
            Some(d) => spt_ends_fit(*req) && d@ == spt_rounds(*req, total_ops(req.jobs@)).3,
            None => !spt_ends_fit(*req),
        },
{
    let n = req.jobs.len();
    let m = req.num_machines;
    let total = match total_ops_exec(&req.jobs) {
        Some(t) => t,
        None => return None,
    };

    let mut next_op: Vec<usize> = Vec::new();
    let mut job_free: Vec<i64> = Vec::new();
    let mut i: usize = 0;
    while i < n
        invariant
            n == req.jobs@.len(),
            i <= n,
            next_op@ =~= Seq::new(i as nat, |j: int| 0usize),
            job_free@ =~= Seq::new(i as nat, |j: int| 0i64),
        decreases n - i,
    {
        next_op.push(0);
        job_free.push(0);
        i = i + 1;
    }
    let mut machine_free: Vec<i64> = Vec::new();
    let mut x: usize = 0;
    while x < m
        invariant
            m == req.num_machines,
            x <= m,
            machine_free@ =~= Seq::new(x as nat, |j: int| 0i64),
        decreases m - x,
    {
        machine_free.push(0);
        x = x + 1;
    }
    let mut schedule: Vec<ScheduledOp> = Vec::new();

    let ghost mut r: nat = 0;
    proof {
        lemma_rounds(*req, 0);
    }
    while schedule.len() < total
        invariant
            n == req.jobs@.len(),
            m == req.num_machines,
            total == total_ops(req.jobs@),
            machines_in_range(*req),
            rounds_fit(*req, r),
            (next_op@, job_free@, machine_free@, schedule@) == spt_rounds(*req, r),
            r <= schedule@.len(),
        decreases total - schedule.len(),
    {
        let ghost s0 = spt_rounds(*req, r);
        proof {
            lemma_rounds(*req, r);
        }
        let mut mach: usize = 0;
        while mach < m
            invariant
                n == req.jobs@.len(),
                m == req.num_machines,
                total == total_ops(req.jobs@),
                machines_in_range(*req),
                spt_inv(*req, s0),
                rounds_fit(*req, r),
                s0 == spt_rounds(*req, r),
                !spt_done(*req, s0),
                r < total,
                passes_fit(*req, s0, mach as nat),
                mach <= m,
                (next_op@, job_free@, machine_free@, schedule@) == passes(*req, s0, mach as nat),
            decreases m - mach,
        {
            let ghost st = (next_op@, job_free@, machine_free@, schedule@);
            proof {
                lemma_passes_inv(*req, s0, mach as nat);
                lemma_pick_sound(*req, st, mach as int, n as nat);
            }
            match pick_for(req, &next_op, mach, Ghost(st)) {
                Some(j) => {
                    let k = next_op[j];
                    let op = &req.jobs[j].operations[k];
                    let jf = job_free[j];
                    let mf = machine_free[mach];
                    let start = if jf >= mf { jf } else { mf };
                    let end_wide: i128 = (start as i128) + (op.duration as i128);
                    if end_wide < i64::MIN as i128 || end_wide > i64::MAX as i128 {
                        proof {
                            assert(!dispatch_fits(*req, st, mach as int, j as int));
                            if spt_ends_fit(*req) {
                                lemma_rounds_fit_prefix(*req, (r + 1) as nat, total as nat);
                                lemma_passes_fit_prefix(*req, s0, (mach + 1) as nat, m as nat);
                            }
                        }
                        return None;
                    }
                    proof {
                        lemma_dispatch_inv(*req, st, mach as int, j as int);
                    }
                    let ghost s2 = dispatch(*req, st, mach as int, j as int);
                    assert(s2.1[j as int] == start + op.duration);
                    let end = start + op.duration;
                    machine_free.set(mach, end);
                    job_free.set(j, end);
                    next_op.set(j, k + 1);
                    schedule.push(ScheduledOp {
                        job_id: j,
                        job_name: req.jobs[j].name.clone(),
                        machine_id: mach,
                        op_index: k,
                        start,
                        end,
                    });
                    assert(next_op@ =~= s2.0);
                    assert(job_free@ =~= s2.1);
                    assert(machine_free@ =~= s2.2);
                    assert(schedule@ =~= s2.3);
                },
                None => {},
            }
            mach = mach + 1;
        }
        proof {
            lemma_round_progress(*req, s0);
            lemma_passes_inv(*req, s0, m as nat);
        }
        proof {
            r = r + 1;
        }
    }
    proof {
        lemma_rounds(*req, r);
        let s = spt_rounds(*req, r);
        lemma_sum_bound(*req, s.0, n as nat);
        lemma_ops_count_le(*req);
        assert(r <= total);
        lemma_rounds_stay(*req, r, total as nat);
        lemma_rounds_fit_after(*req, r, total as nat);
    }
    Some(schedule)
}

/// SPT list scheduling: in rounds, each machine in turn takes, among the jobs
/// whose next operation runs on it, the one with the shortest such operation
/// (lowest job index on ties), starting it once both the job and the machine
/// are free. The schedule lists the operations by machine, then start.
pub fn solve_greedy(req: &JobShopRequest) -> (plan: JobShopPlan)
    requires
        machines_in_range(*req),
        spt_ends_fit(*req),
    ensures
        plan.request_id@ == req.id@,
        plan.schedule@ == spt_schedule(*req),
        plan.makespan == max_end(plan.schedule@),
        forall|i: int| 0 <= i < plan.schedule@.len() ==> (#[trigger] plan.schedule@[i]).end <= plan.makespan,
        plan.schedule@.len() == 0 ==> plan.makespan == 0,
        plan.schedule@.len() > 0 ==> exists|i: int| 0 <= i < plan.schedule@.len() && plan.makespan == (#[trigger] plan.schedule@[i]).end,
        plan.lower_bound is None,
        plan.solver@ == "greedy-spt"@,
        plan.status@ == "feasible"@,
        // what every greedy schedule satisfies
        plan.schedule@.len() == total_ops(req.jobs@),
        forall|i: int| 0 <= i < plan.schedule@.len() ==> entry_matches(*req, #[trigger] plan.schedule@[i]),
        each_op_once(*req, plan.schedule@),
        precedence_kept(plan.schedule@),
        durations_nonnegative(*req) ==> no_machine_overlap(plan.schedule@),
        // with nonnegative durations, everything ends within the horizon
        durations_nonnegative(*req) ==> forall|i: int|
            0 <= i < plan.schedule@.len() ==> (#[trigger] plan.schedule@[i]).end <= jobs_duration(
                req.jobs@,
                req.jobs@.len(),
            ),
        durations_nonnegative(*req) ==> plan.makespan <= jobs_duration(req.jobs@, req.jobs@.len()),
        durations_nonnegative(*req) ==> forall|i: int| 0 <= i < plan.schedule@.len() ==> 0 <= (#[trigger] plan.schedule@[i]).start,
        forall|i: int, i2: int|
            0 <= i < i2 < plan.schedule@.len() ==> (#[trigger] plan.schedule@[i]).machine_id
                < (#[trigger] plan.schedule@[i2]).machine_id || (plan.schedule@[i].machine_id
                == plan.schedule@[i2].machine_id && plan.schedule@[i].start <= plan.schedule@[i2].start),
{
    let n = req.jobs.len();
    let ghost total = total_ops(req.jobs@);
    let schedule = match spt_run(req) {
        Some(d) => d,
        None => {
            proof {
                assert(false);
            }
            Vec::new()
        },
    };
    let ghost r = total;
    proof {
        lemma_rounds(*req, r);
    }

    // order by (machine, start), stably
    let cnt = schedule.len();
    let mut keys: Vec<(usize, i64)> = Vec::new();
    let mut q: usize = 0;
    while q < cnt
        invariant
            cnt == schedule@.len(),
            q <= cnt,
            keys@ =~= machine_start_keys(schedule@).subrange(0, q as int),
        decreases cnt - q,
    {
        keys.push((schedule[q].machine_id, schedule[q].start));
        q = q + 1;
    }
    assert(keys@ =~= machine_start_keys(schedule@));
    let order = stable_order_of(&keys);
    let mut sorted: Vec<ScheduledOp> = Vec::new();
    let mut w: usize = 0;
    while w < cnt
        invariant
            cnt == schedule@.len(),
            order@.len() == cnt,
            is_stable_order(machine_start_keys(schedule@), order@),
            w <= cnt,
            sorted@ =~= reorder(schedule@, order@).subrange(0, w as int),
        decreases cnt - w,
    {
        sorted.push(schedule[order[w]].clone());
        w = w + 1;
    }
    assert(sorted@ =~= reorder(schedule@, order@));
    proof {
        let d = schedule@;
        let s = sorted@;
        let st = spt_rounds(*req, r);
        lemma_rounds(*req, r);
        lemma_sum_bound(*req, st.0, n as nat);
        lemma_ops_count_le(*req);
        assert forall|a: int, b: int| 0 <= a < s.len() && 0 <= b < s.len() && a != b implies order@[a] != order@[b] by {
            if a < b {
                assert(precedes(machine_start_keys(d), order@[a] as int, order@[b] as int));
            } else {
                assert(precedes(machine_start_keys(d), order@[b] as int, order@[a] as int));
            }
        }
        assert forall|i: int| 0 <= i < s.len() implies entry_matches(*req, #[trigger] s[i]) by {
            assert(s[i] == d[order@[i] as int]);
        }
        assert forall|a: int, b: int|
            0 <= a < s.len() && 0 <= b < s.len() && a != b && #[trigger] s[a].job_id == #[trigger] s[b].job_id
                implies s[a].op_index != s[b].op_index by {
            assert(s[a] == d[order@[a] as int] && s[b] == d[order@[b] as int]);
        }
        assert forall|jj: int, kk: int|
            0 <= jj < req.jobs@.len() && 0 <= kk < req.jobs@[jj].operations@.len() implies #[trigger] scheduled(s, jj, kk) by {
            assert(st.0[jj] == req.jobs@[jj].operations@.len());
            assert(scheduled(d, jj, kk));
            let i0 = choose|i: int| 0 <= i < d.len() && #[trigger] d[i].job_id == jj && #[trigger] d[i].op_index == kk;
            assert(order@.contains(i0 as usize));
            let w0 = choose|w0: int| 0 <= w0 < order@.len() && order@[w0] == i0 as usize;
            assert(s[w0] == d[i0]);
        }
        assert forall|a: int, b: int|
            0 <= a < s.len() && 0 <= b < s.len() && #[trigger] s[a].job_id == #[trigger] s[b].job_id
                && s[b].op_index == s[a].op_index + 1 implies s[a].end <= s[b].start by {
            assert(s[a] == d[order@[a] as int] && s[b] == d[order@[b] as int]);
        }
        if durations_nonnegative(*req) {
            assert forall|a: int, b: int|
                0 <= a < s.len() && 0 <= b < s.len() && a != b && #[trigger] s[a].machine_id
                    == #[trigger] s[b].machine_id implies s[a].end <= s[b].start || s[b].end <= s[a].start by {
                assert(s[a] == d[order@[a] as int] && s[b] == d[order@[b] as int]);
            }
        }
        assert forall|a: int, b: int|
            0 <= a < b < s.len() implies (#[trigger] s[a]).machine_id < (#[trigger] s[b]).machine_id
                || (s[a].machine_id == s[b].machine_id && s[a].start <= s[b].start) by {
            assert(precedes(machine_start_keys(d), order@[a] as int, order@[b] as int));
            assert(s[a] == d[order@[a] as int] && s[b] == d[order@[b] as int]);
        }
    }

    proof {
        if durations_nonnegative(*req) {
            let d = schedule@;
            let s = sorted@;
            let st = spt_rounds(*req, r);
            lemma_rounds(*req, r);
            lemma_rounds_within(*req, r);
            lemma_sum_bound(*req, st.0, n as nat);
            lemma_ops_count_le(*req);
            assert forall|jj: int| 0 <= jj < n implies #[trigger] st.0[jj] == req.jobs@[jj].operations@.len() by {
                assert(st.0[jj] <= req.jobs@[jj].operations@.len());
            }
            lemma_done_full(*req, st.0, n as nat);
            let h = jobs_duration(req.jobs@, req.jobs@.len());
            assert forall|i: int| 0 <= i < s.len() implies 0 <= (#[trigger] s[i]).start && s[i].end <= h by {
                assert(s[i] == d[order@[i] as int]);
            }
            lemma_max_end_within(s, h);
        }
    }
    let makespan = makespan_of(&sorted);
    JobShopPlan {
        request_id: req.id.clone(),
        schedule: sorted,
        makespan,
        lower_bound: None,
        solver: String::from_str("greedy-spt"),
        status: String::from_str("feasible"),
    }
}

/// With every end at most `b` and `b` nonnegative, the latest end is at
/// most `b`.
proof fn lemma_max_end_within(s: Seq<ScheduledOp>, b: int)
    requires
        b >= 0,
        forall|i: int| 0 <= i < s.len() ==> (#[trigger] s[i]).end <= b,
    ensures
        max_end(s) <= b,
    decreases s.len(),
{
    if s.len() > 1 {
        let t = s.drop_last();
        assert forall|i: int| 0 <= i < t.len() implies (#[trigger] t[i]).end <= b by {
            assert(t[i] == s[i]);
        }
        lemma_max_end_within(t, b);
    }
}

/// Latest end of the operations (0 when there are none).
pub fn makespan_of(s: &Vec<ScheduledOp>) -> (r: i64)
    ensures
        r == max_end(s@),
        forall|i: int| 0 <= i < s@.len() ==> (#[trigger] s@[i]).end <= r,
        s@.len() == 0 ==> r == 0,
        s@.len() > 0 ==> exists|i: int| 0 <= i < s@.len() && r == (#[trigger] s@[i]).end,
{
    proof {
        lemma_max_end_is_latest(s@);
    }
    let mut m: i64 = 0;
    let mut i: usize = 0;
    while i < s.len()
        invariant
            i <= s@.len(),
            m == max_end(s@.subrange(0, i as int)),
        decreases s.len() - i,
    {
        proof {
            let pre = s@.subrange(0, i + 1);
            assert(pre.drop_last() =~= s@.subrange(0, i as int));
        }
        if i == 0 || s[i].end > m {
            m = s[i].end;
        }
        i = i + 1;
    }
    assert(s@.subrange(0, s@.len() as int) =~= s@);
    m
}

} // verus!
