//! Earliest-Deadline-First scheduling onto the earliest-available capable agent.
use vstd::prelude::*;

use crate::order::{is_stable_order, precedes, reorder, stable_order, stable_order_of};
use crate::routing::{any_pending, pending_prefix, pending_seeds, plan_exists, spec_request_id, holds_id, is_pending};
use crate::text::contains_string;
use vstd::string::StringExecFns;
use super::problem::{capable, makespan_of, max_end, sorted_by_start, SchedulingAgent, SchedulingPlan, SchedulingRequest, SchedulingTask, TaskAssignment};

verus! {

pub const REQUEST_PREFIX: &'static str = "scheduling-request:";
pub const PLAN_PREFIX: &'static str = "scheduling-plan-greedy:";

/// Schedules tasks via Earliest-Deadline-First + earliest-available skilled agent.
///
/// Greedy cannot prove optimality; its plans are marked `"feasible"`.
pub struct GreedySchedulerSuggestor;

impl GreedySchedulerSuggestor {
    pub fn name(&self) -> (r: &'static str)
        ensures
            r@ == "GreedySchedulerSuggestor"@,
    {
        "GreedySchedulerSuggestor"
    }

    pub fn complexity_hint(&self) -> (r: Option<&'static str>)
        ensures
            r is Some,
            r->0@ == "O(n·m·log n) — EDF + earliest-available; deterministic, sub-ms for n ≤ 10 000 tasks"@,
    {
        Some("O(n·m·log n) — EDF + earliest-available; deterministic, sub-ms for n ≤ 10 000 tasks")
    }

    /// Some seed is a scheduling request without a greedy plan yet.
    pub fn accepts(&self, seed_ids: &Vec<String>, strategy_ids: &Vec<String>) -> (r: bool)
        ensures
            r == exists|i: int|
                0 <= i < seed_ids@.len() && #[trigger] is_pending(
                    seed_ids@[i]@,
                    strategy_ids@,
                    REQUEST_PREFIX@,
                    PLAN_PREFIX@,
                ),
    {
        any_pending(seed_ids, strategy_ids, REQUEST_PREFIX, PLAN_PREFIX)
    }

    /// Indices of the seeds that this suggestor answers in one pass.
    pub fn pending(&self, seed_ids: &Vec<String>, strategy_ids: &Vec<String>) -> (r: Vec<usize>)
        ensures
            r@ == pending_prefix(seed_ids@, strategy_ids@, REQUEST_PREFIX@, PLAN_PREFIX@, seed_ids@.len()),
    {
        pending_seeds(seed_ids, strategy_ids, REQUEST_PREFIX, PLAN_PREFIX)
    }
}

/// The request id carried by a scheduling-request seed id.
pub fn request_id(fact_id: &str) -> (r: &str)
    ensures
        r@ == spec_request_id(fact_id@, REQUEST_PREFIX@),
{
    crate::routing::request_id(fact_id, REQUEST_PREFIX)
}

/// Whether the greedy plan for `request_id` is already among the strategies.
pub fn own_plan_exists(strategy_ids: &Vec<String>, request_id: &str) -> (r: bool)
    ensures
        r == holds_id(strategy_ids@, PLAN_PREFIX@ + request_id@),
{
    plan_exists(strategy_ids, PLAN_PREFIX, request_id)
}

// ── Specification of the greedy run ─────────────────────────────────────────

/// Stable-sort keys that order tasks by deadline.
pub open spec fn deadline_keys(tasks: Seq<SchedulingTask>) -> Seq<(usize, i64)> {
    Seq::new(tasks.len(), |i: int| (0usize, tasks[i].deadline_min))
}

/// Stable-sort keys that order assignments by start.
pub open spec fn start_keys(s: Seq<TaskAssignment>) -> Seq<(usize, i64)> {
    Seq::new(s.len(), |i: int| (0usize, s[i].start_min))
}

/// The earliest time agent `a` can start task `t` given the agents' free times.
pub open spec fn ready_time(next_free: Seq<i64>, a: SchedulingAgent, t: SchedulingTask) -> int {
    let f = next_free[a.id as int];
    if f >= t.release_min { f as int } else { t.release_min as int }
}

/// Agent `b` is the first capable agent with the smallest ready time for `t`.
pub open spec fn is_first_best(
    agents: Seq<SchedulingAgent>,
    next_free: Seq<i64>,
    t: SchedulingTask,
    b: int,
) -> bool {
    &&& 0 <= b < agents.len()
    &&& capable(agents[b], t)
    &&& forall|a: int|
        0 <= a < agents.len() && capable(#[trigger] agents[a], t) ==> ready_time(next_free, agents[b], t)
            <= ready_time(next_free, agents[a], t)
    &&& forall|a: int|
        0 <= a < b && capable(#[trigger] agents[a], t) ==> ready_time(next_free, agents[b], t)
            < ready_time(next_free, agents[a], t)
}

/// The state of the run: each agent id's next free time, and the assignments made.
pub type EdfState = (Seq<i64>, Seq<TaskAssignment>);

/// Processing one task: the first best capable agent takes it if it can finish
/// by the deadline.
pub open spec fn edf_step(agents: Seq<SchedulingAgent>, st: EdfState, t: SchedulingTask) -> EdfState {
    if exists|b: int| is_first_best(agents, st.0, t, b) {
        let b = choose|b: int| is_first_best(agents, st.0, t, b);
        let a = agents[b];
        let start = ready_time(st.0, a, t);
        let end = start + t.duration_min;
        if end <= t.deadline_min {
            (
                st.0.update(a.id as int, end as i64),
                st.1.push(
                    TaskAssignment {
                        task_id: t.id,
                        task_name: t.name,
                        agent_id: a.id,
                        agent_name: a.name,
                        start_min: start as i64,
                        end_min: end as i64,
                    },
                ),
            )
        } else {
            st
        }
    } else {
        st
    }
}

/// The run after the first `k` tasks in deadline order.
pub open spec fn edf_run(req: SchedulingRequest, k: nat) -> EdfState
    decreases k,
{
    if k == 0 {
        (Seq::new(req.agents@.len(), |i: int| 0i64), Seq::empty())
    } else {
        let order = stable_order(deadline_keys(req.tasks@));
        edf_step(req.agents@, edf_run(req, (k - 1) as nat), req.tasks@[order[k - 1] as int])
    }
}

/// Assignments of the greedy plan, in order of start (stable).
pub open spec fn greedy_assignments(req: SchedulingRequest) -> Seq<TaskAssignment> {
    let made = edf_run(req, req.tasks@.len()).1;
    reorder(made, stable_order(start_keys(made)))
}

/// Every capable agent's id indexes the agent list (the free-time table is
/// indexed by agent id).
pub open spec fn agent_ids_in_range(req: SchedulingRequest) -> bool {
    forall|t: int, a: int|
        0 <= t < req.tasks@.len() && 0 <= a < req.agents@.len() && capable(
            #[trigger] req.agents@[a],
            #[trigger] req.tasks@[t],
        ) ==> req.agents@[a].id < req.agents@.len()
}

/// The end that the run forms for the `k`-th task in deadline order, on its
/// first best agent, is at least `i64::MIN` (an end above `i64::MAX` is past
/// every deadline and is never kept).
pub open spec fn edf_end_fits(req: SchedulingRequest, k: int) -> bool {
    let order = stable_order(deadline_keys(req.tasks@));
    let st = edf_run(req, k as nat);
    let t = req.tasks@[order[k] as int];
    (exists|b: int| is_first_best(req.agents@, st.0, t, b)) ==> {
        let b = choose|b: int| is_first_best(req.agents@, st.0, t, b);
        i64::MIN <= ready_time(st.0, req.agents@[b], t) + t.duration_min
    }
}

/// Every end that the run forms is at least `i64::MIN`.
pub open spec fn edf_ends_fit(req: SchedulingRequest) -> bool {
    forall|k: int| 0 <= k < req.tasks@.len() ==> #[trigger] edf_end_fits(req, k)
}

/// The assignment runs some task on some capable agent inside the task's
/// window: it starts no earlier than the release, lasts the task's duration
/// and ends by the deadline.
pub open spec fn assignment_valid(req: SchedulingRequest, x: TaskAssignment) -> bool {
    exists|t: int, a: int|
        #![trigger req.tasks@[t], req.agents@[a]]
        0 <= t < req.tasks@.len() && 0 <= a < req.agents@.len() && {
            let task = req.tasks@[t];
            let agent = req.agents@[a];
            &&& task.id == x.task_id
            &&& task.name == x.task_name
            &&& agent.id == x.agent_id
            &&& agent.name == x.agent_name
            &&& capable(agent, task)
            &&& task.release_min <= x.start_min
            &&& x.end_min == x.start_min + task.duration_min
            &&& x.end_min <= task.deadline_min
        }
}

/// No two assignments of one agent id overlap in time.
pub open spec fn no_agent_overlap(s: Seq<TaskAssignment>) -> bool {
    forall|i: int, j: int|
        0 <= i < s.len() && 0 <= j < s.len() && i != j && #[trigger] s[i].agent_id == #[trigger] s[j].agent_id
            ==> s[i].end_min <= s[j].start_min || s[j].end_min <= s[i].start_min
}

/// No task has a negative duration.
pub open spec fn durations_nonnegative(tasks: Seq<SchedulingTask>) -> bool {
    forall|t: int| 0 <= t < tasks.len() ==> #[trigger] tasks[t].duration_min >= 0
}

/// What holds of the run after any number of tasks.
proof fn lemma_edf_run_inv(req: SchedulingRequest, k: nat)
    requires
        k <= req.tasks@.len(),
        agent_ids_in_range(req),
        edf_ends_fit(req),
        is_stable_order(deadline_keys(req.tasks@), stable_order(deadline_keys(req.tasks@))),
    ensures
        ({
            let st = edf_run(req, k);
            &&& st.0.len() == req.agents@.len()
            &&& st.1.len() <= k
            &&& forall|i: int| 0 <= i < st.1.len() ==> assignment_valid(req, #[trigger] st.1[i])
            &&& forall|i: int| 0 <= i < st.1.len() ==> (#[trigger] st.1[i]).agent_id < st.0.len()
            &&& durations_nonnegative(req.tasks@) ==> {
                &&& no_agent_overlap(st.1)
                &&& forall|i: int|
                    0 <= i < st.1.len() ==> (#[trigger] st.1[i]).end_min <= st.0[st.1[i].agent_id as int]
            }
        }),
    decreases k,
{
    if k > 0 {
        lemma_edf_run_inv(req, (k - 1) as nat);
        let prev = edf_run(req, (k - 1) as nat);
        let order = stable_order(deadline_keys(req.tasks@));
        let ti = order[k - 1] as int;
        let t = req.tasks@[ti];
        let st = edf_run(req, k);
        assert(order[k - 1] < deadline_keys(req.tasks@).len());
        if exists|b: int| is_first_best(req.agents@, prev.0, t, b) {
            let b = choose|b: int| is_first_best(req.agents@, prev.0, t, b);
            let a = req.agents@[b];
            let start = ready_time(prev.0, a, t);
            let end = start + t.duration_min;
            if end <= t.deadline_min {
                assert(a.id < req.agents@.len());
                let y = st.1.last();
                assert(st.1.len() == prev.1.len() + 1);
                assert(assignment_valid(req, y)) by {
                    assert(0 <= ti < req.tasks@.len());
                    assert(edf_end_fits(req, k - 1));
                    assert(y.start_min == start && y.end_min == end);
                    assert(req.tasks@[ti] == t && req.agents@[b] == a);
                }
                assert forall|i: int| 0 <= i < st.1.len() implies assignment_valid(req, #[trigger] st.1[i]) by {
                    if i < prev.1.len() {
                        assert(st.1[i] == prev.1[i]);
                    }
                }
                assert forall|i: int| 0 <= i < st.1.len() implies (#[trigger] st.1[i]).agent_id < st.0.len() by {
                    if i < prev.1.len() {
                        assert(st.1[i] == prev.1[i]);
                    }
                }
                if durations_nonnegative(req.tasks@) {
                    assert(t.duration_min >= 0);
                    assert forall|i: int|
                        0 <= i < st.1.len() implies (#[trigger] st.1[i]).end_min <= st.0[st.1[i].agent_id as int] by {
                        if i < prev.1.len() {
                            assert(st.1[i] == prev.1[i]);
                        }
                    }
                    assert forall|i: int, j: int|
                        0 <= i < st.1.len() && 0 <= j < st.1.len() && i != j && #[trigger] st.1[i].agent_id
                            == #[trigger] st.1[j].agent_id implies st.1[i].end_min <= st.1[j].start_min
                            || st.1[j].end_min <= st.1[i].start_min by {
                        if i < prev.1.len() && j < prev.1.len() {
                            assert(st.1[i] == prev.1[i] && st.1[j] == prev.1[j]);
                        } else if i < prev.1.len() {
                            assert(st.1[i] == prev.1[i]);
                        } else {
                            assert(st.1[j] == prev.1[j]);
                        }
                    }
                }
            }
        }
    }
}

// ── What each step of the run does ──────────────────────────────────────────

/// When an agent id is next free after the assignments made so far: the end
/// of the last one on that id, or 0 before any.
pub open spec fn agent_free(made: Seq<TaskAssignment>, g: int) -> int
    decreases made.len(),
{
    if made.len() == 0 {
        0
    } else if made.last().agent_id == g {
        made.last().end_min as int
    } else {
        agent_free(made.drop_last(), g)
    }
}

/// The earliest the agent can start the task after the assignments made so
/// far: when it is next free, or the task's release if later.
pub open spec fn earliest_start(made: Seq<TaskAssignment>, a: SchedulingAgent, t: SchedulingTask) -> int {
    let f = agent_free(made, a.id as int);
    if f >= t.release_min { f } else { t.release_min as int }
}

/// The run's table of free times is the end of the last assignment made on
/// each agent id.
proof fn lemma_free_table(req: SchedulingRequest, k: nat)
    requires
        k <= req.tasks@.len(),
        agent_ids_in_range(req),
        edf_ends_fit(req),
        is_stable_order(deadline_keys(req.tasks@), stable_order(deadline_keys(req.tasks@))),
    ensures
        forall|g: int| 0 <= g < req.agents@.len() ==> #[trigger] edf_run(req, k).0[g] == agent_free(edf_run(req, k).1, g),
    decreases k,
{
    lemma_edf_run_inv(req, k);
    if k > 0 {
        lemma_free_table(req, (k - 1) as nat);
        lemma_edf_run_inv(req, (k - 1) as nat);
        let prev = edf_run(req, (k - 1) as nat);
        let st = edf_run(req, k);
        let order = stable_order(deadline_keys(req.tasks@));
        let t = req.tasks@[order[k - 1] as int];
        assert(order[k - 1] < deadline_keys(req.tasks@).len());
        if exists|b: int| is_first_best(req.agents@, prev.0, t, b) {
            let b = choose|b: int| is_first_best(req.agents@, prev.0, t, b);
            let a = req.agents@[b];
            assert(a.id < req.agents@.len());
            if st.1.len() == prev.1.len() + 1 {
                assert(st.1.drop_last() =~= prev.1);
            }
        }
    }
}

/// Among the first `m` agents, a first capable one with the least ready time
/// exists once some capable one does.
proof fn lemma_first_best_prefix(agents: Seq<SchedulingAgent>, nf: Seq<i64>, t: SchedulingTask, m: nat)
    requires
        m <= agents.len(),
        exists|c: int| 0 <= c < m && capable(#[trigger] agents[c], t),
    ensures
        exists|b: int|
            0 <= b < m && capable(agents[b], t) && (forall|x: int|
                0 <= x < m && capable(#[trigger] agents[x], t) ==> ready_time(nf, agents[b], t) <= ready_time(
                    nf,
                    agents[x],
                    t,
                )) && (forall|x: int|
                0 <= x < b && capable(#[trigger] agents[x], t) ==> ready_time(nf, agents[b], t) < ready_time(
                    nf,
                    agents[x],
                    t,
                )),
    decreases m,
{
    let l = m - 1;
    if exists|c: int| 0 <= c < l && capable(#[trigger] agents[c], t) {
        lemma_first_best_prefix(agents, nf, t, l as nat);
        let b = choose|b: int|
            0 <= b < l && capable(agents[b], t) && (forall|x: int|
                0 <= x < l && capable(#[trigger] agents[x], t) ==> ready_time(nf, agents[b], t) <= ready_time(
                    nf,
                    agents[x],
                    t,
                )) && (forall|x: int|
                0 <= x < b && capable(#[trigger] agents[x], t) ==> ready_time(nf, agents[b], t) < ready_time(
                    nf,
                    agents[x],
                    t,
                ));
        if capable(agents[l], t) && ready_time(nf, agents[l], t) < ready_time(nf, agents[b], t) {
            assert(forall|x: int|
                0 <= x < m && capable(#[trigger] agents[x], t) ==> ready_time(nf, agents[l], t) <= ready_time(
                    nf,
                    agents[x],
                    t,
                ));
        } else {
            assert(forall|x: int|
                0 <= x < m && capable(#[trigger] agents[x], t) ==> ready_time(nf, agents[b], t) <= ready_time(
                    nf,
                    agents[x],
                    t,
                ));
        }
    } else {
        assert(capable(agents[l], t));
        assert(forall|x: int|
            0 <= x < m && capable(#[trigger] agents[x], t) ==> ready_time(nf, agents[l], t) <= ready_time(nf, agents[x], t));
    }
}

proof fn lemma_some_first_best(agents: Seq<SchedulingAgent>, nf: Seq<i64>, t: SchedulingTask, c: int)
    requires
        0 <= c < agents.len(),
        capable(agents[c], t),
    ensures
        exists|b: int| is_first_best(agents, nf, t, b),
{
    lemma_first_best_prefix(agents, nf, t, agents.len());
    let b = choose|b: int|
        0 <= b < agents.len() && capable(agents[b], t) && (forall|x: int|
            0 <= x < agents.len() && capable(#[trigger] agents[x], t) ==> ready_time(nf, agents[b], t) <= ready_time(
                nf,
                agents[x],
                t,
            )) && (forall|x: int|
            0 <= x < b && capable(#[trigger] agents[x], t) ==> ready_time(nf, agents[b], t) < ready_time(
                nf,
                agents[x],
                t,
            ));
    assert(is_first_best(agents, nf, t, b));
}

/// Each step of the run takes the next task in deadline order. It goes to
/// the first capable agent with the earliest start (given the assignments
/// made so far) and is kept exactly when it then ends by its deadline; a
/// task is left out only when no capable agent can finish it by then.
pub proof fn lemma_edf_step(req: SchedulingRequest, k: nat)
    requires
        k < req.tasks@.len(),
        agent_ids_in_range(req),
        edf_ends_fit(req),
        is_stable_order(deadline_keys(req.tasks@), stable_order(deadline_keys(req.tasks@))),
    ensures
        ({
            let made = edf_run(req, k).1;
            let next = edf_run(req, k + 1).1;
            let t = req.tasks@[stable_order(deadline_keys(req.tasks@))[k as int] as int];
            &&& next.len() == made.len() || next.len() == made.len() + 1
            &&& next.subrange(0, made.len() as int) == made
            &&& next.len() == made.len() ==> forall|a: int|
                0 <= a < req.agents@.len() && capable(#[trigger] req.agents@[a], t) ==> earliest_start(made, req.agents@[a], t)
                    + t.duration_min > t.deadline_min
            &&& next.len() == made.len() + 1 ==> exists|b: int|
                0 <= b < req.agents@.len() && {
                    let x = next.last();
                    let a = #[trigger] req.agents@[b];
                    &&& capable(a, t)
                    &&& x.task_id == t.id && x.task_name == t.name
                    &&& x.agent_id == a.id && x.agent_name == a.name
                    &&& x.start_min == earliest_start(made, a, t)
                    &&& x.end_min == x.start_min + t.duration_min
                    &&& x.end_min <= t.deadline_min
                    &&& forall|c: int|
                        0 <= c < req.agents@.len() && capable(#[trigger] req.agents@[c], t) ==> earliest_start(made, a, t)
                            <= earliest_start(made, req.agents@[c], t) && (c < b ==> earliest_start(made, a, t)
                            < earliest_start(made, req.agents@[c], t))
                }
        }),
{
    let order = stable_order(deadline_keys(req.tasks@));
    assert(order[k as int] < deadline_keys(req.tasks@).len());
    let ti = order[k as int] as int;
    let t = req.tasks@[ti];
    let st = edf_run(req, k);
    let st2 = edf_run(req, k + 1);
    lemma_free_table(req, k);
    lemma_edf_run_inv(req, k);
    assert(st2 == edf_step(req.agents@, st, t));
    assert forall|a: int| 0 <= a < req.agents@.len() && capable(#[trigger] req.agents@[a], t) implies ready_time(
        st.0,
        req.agents@[a],
        t,
    ) == earliest_start(st.1, req.agents@[a], t) by {
        assert(agent_ids_in_range(req));
        assert(req.agents@[a].id < req.agents@.len());
    }
    if exists|b: int| is_first_best(req.agents@, st.0, t, b) {
        let b = choose|b: int| is_first_best(req.agents@, st.0, t, b);
        let a = req.agents@[b];
        let start = ready_time(st.0, a, t);
        let end = start + t.duration_min;
        assert(edf_end_fits(req, k as int));
        if end <= t.deadline_min {
            assert(st2.1 == st.1.push(st2.1.last()));
            assert(st2.1.subrange(0, st.1.len() as int) =~= st.1);
        } else {
            assert forall|c: int| 0 <= c < req.agents@.len() && capable(#[trigger] req.agents@[c], t) implies earliest_start(
                st.1,
                req.agents@[c],
                t,
            ) + t.duration_min > t.deadline_min by {
                assert(ready_time(st.0, a, t) <= ready_time(st.0, req.agents@[c], t));
            }
            assert(st2.1.subrange(0, st.1.len() as int) =~= st.1);
        }
    } else {
        assert forall|c: int| 0 <= c < req.agents@.len() && capable(#[trigger] req.agents@[c], t) implies earliest_start(
            st.1,
            req.agents@[c],
            t,
        ) + t.duration_min > t.deadline_min by {
            // a capable agent with the least ready time would be a first best one
            lemma_some_first_best(req.agents@, st.0, t, c);
        }
        assert(st2.1.subrange(0, st.1.len() as int) =~= st.1);
    }
}

// ── Implementation ───────────────────────────────────────────────────────────

/// The larger of two times.
fn later(a: i64, b: i64) -> (r: i64)
    ensures
        r == (if a >= b { a } else { b }),
{
    if a >= b { a } else { b }
}

/// The first capable agent with the smallest ready time for `t`, if any.
fn best_agent(agents: &Vec<SchedulingAgent>, next_free: &Vec<i64>, t: &SchedulingTask) -> (r: Option<usize>)
    requires
        next_free@.len() == agents@.len(),
        forall|a: int|
            0 <= a < agents@.len() && capable(#[trigger] agents@[a], *t) ==> agents@[a].id < agents@.len(),
    ensures
        match r {
            Some(b) => is_first_best(agents@, next_free@, *t, b as int),
            None => forall|a: int| 0 <= a < agents@.len() ==> !capable(#[trigger] agents@[a], *t),
        },
{
    let mut best: Option<usize> = None;
    let mut best_ready: i64 = 0;
    let mut a: usize = 0;
    while a < agents.len()
        invariant
            a <= agents@.len(),
            next_free@.len() == agents@.len(),
            forall|x: int|
                0 <= x < agents@.len() && capable(#[trigger] agents@[x], *t) ==> agents@[x].id < agents@.len(),
            match best {
                Some(b) => {
                    &&& b < a
                    &&& capable(agents@[b as int], *t)
                    &&& best_ready == ready_time(next_free@, agents@[b as int], *t)
                    &&& forall|x: int|
                        0 <= x < a && capable(#[trigger] agents@[x], *t) ==> best_ready
                            <= ready_time(next_free@, agents@[x], *t)
                    &&& forall|x: int|
                        0 <= x < b && capable(#[trigger] agents@[x], *t) ==> best_ready
                            < ready_time(next_free@, agents@[x], *t)
                },
                None => forall|x: int| 0 <= x < a ==> !capable(#[trigger] agents@[x], *t),
            },
        decreases agents.len() - a,
    {
        let ag = &agents[a];
        if contains_string(&ag.capabilities, t.required_capability.as_str()) {
            assert(capable(agents@[a as int], *t));
            let r = later(next_free[ag.id], t.release_min);
            match best {
                None => {
                    best = Some(a);
                    best_ready = r;
                },
                Some(_) => {
                    if r < best_ready {
                        best = Some(a);
                        best_ready = r;
                    }
                },
            }
        }
        a = a + 1;
    }
    best
}

proof fn lemma_first_best_unique(
    agents: Seq<SchedulingAgent>,
    next_free: Seq<i64>,
    t: SchedulingTask,
    b: int,
    c: int,
)
    requires
        is_first_best(agents, next_free, t, b),
        is_first_best(agents, next_free, t, c),
    ensures
        b == c,
{
    if b < c {
        assert(capable(agents[b], t));
    } else if c < b {
        assert(capable(agents[c], t));
    }
}

/// Whether every agent that can run some task has an id below the number of
/// agents.
pub(crate) fn agent_ids_in_range_exec(req: &SchedulingRequest) -> (r: bool)
    ensures
        r == agent_ids_in_range(*req),
{
    let na = req.agents.len();
    let n = req.tasks.len();
    let mut a: usize = 0;
    while a < na
        invariant
            na == req.agents@.len(),
            n == req.tasks@.len(),
            a <= na,
            forall|t: int, x: int|
                0 <= t < n && 0 <= x < a && capable(#[trigger] req.agents@[x], #[trigger] req.tasks@[t])
                    ==> req.agents@[x].id < na,
        decreases na - a,
    {
        let ag = &req.agents[a];
        if ag.id >= na {
            let mut t: usize = 0;
            while t < n
                invariant
                    na == req.agents@.len(),
                    n == req.tasks@.len(),
                    a < na,
                    ag == req.agents@[a as int],
                    ag.id >= na,
                    t <= n,
                    forall|y: int| 0 <= y < t ==> !capable(req.agents@[a as int], #[trigger] req.tasks@[y]),
                decreases n - t,
            {
                if contains_string(&ag.capabilities, req.tasks[t].required_capability.as_str()) {
                    assert(capable(req.agents@[a as int], req.tasks@[t as int]));
                    return false;
                }
                t = t + 1;
            }
        }
        a = a + 1;
    }
    true
}

/// Whether `solve_greedy` can run on the request: every agent that can run
/// some task has an id below the number of agents, and no end the run forms
/// falls below `i64::MIN`.
pub fn can_solve_greedy(req: &SchedulingRequest) -> (r: bool)
    ensures
        r == (agent_ids_in_range(*req) && edf_ends_fit(*req)),
{
    if !agent_ids_in_range_exec(req) {
        return false;
    }
    edf_made(req).is_some()
}

/// The assignments that the EDF run makes, in the order it makes them, or
/// `None` when an end it forms falls below `i64::MIN`.
fn edf_made(req: &SchedulingRequest) -> (r: Option<Vec<TaskAssignment>>)
    requires
        agent_ids_in_range(*req),
    ensures
        match r {
            Some(made) => {
                &&& edf_ends_fit(*req)
                &&& made@ == edf_run(*req, req.tasks@.len()).1
                &&& is_stable_order(deadline_keys(req.tasks@), stable_order(deadline_keys(req.tasks@)))
            },
            None => !edf_ends_fit(*req),
        },
{
    let n = req.tasks.len();
    let m = req.agents.len();

    let mut keys: Vec<(usize, i64)> = Vec::new();
    let mut i: usize = 0;
    while i < n
        invariant
            n == req.tasks@.len(),
            i <= n,
            keys@ =~= deadline_keys(req.tasks@).subrange(0, i as int),
        decreases n - i,
    {
        keys.push((0, req.tasks[i].deadline_min));
        i = i + 1;
    }
    assert(keys@ =~= deadline_keys(req.tasks@));
    let order = stable_order_of(&keys);

    let mut next_free: Vec<i64> = Vec::new();
    let mut g: usize = 0;
    while g < m
        invariant
            m == req.agents@.len(),
            g <= m,
            next_free@ =~= Seq::new(g as nat, |i: int| 0i64),
        decreases m - g,
    {
        next_free.push(0);
        g = g + 1;
    }

    let mut made: Vec<TaskAssignment> = Vec::new();
    let mut k: usize = 0;
    while k < n
        invariant
            n == req.tasks@.len(),
            m == req.agents@.len(),
            k <= n,
            agent_ids_in_range(*req),
            forall|x: int| 0 <= x < k ==> #[trigger] edf_end_fits(*req, x),
            order@ == stable_order(deadline_keys(req.tasks@)),
            is_stable_order(deadline_keys(req.tasks@), order@),
            (next_free@, made@) == edf_run(*req, k as nat),
            next_free@.len() == m,
        decreases n - k,
    {
        let ti = order[k];
        let t = &req.tasks[ti];
        let ghost st = edf_run(*req, k as nat);
        assert(forall|a: int|
            0 <= a < m && capable(#[trigger] req.agents@[a], *t) ==> req.agents@[a].id < m);
        match best_agent(&req.agents, &next_free, t) {
            Some(b) => {
                proof {
                    assert(is_first_best(req.agents@, st.0, *t, b as int));
                    let c = choose|c: int| is_first_best(req.agents@, st.0, *t, c);
                    lemma_first_best_unique(req.agents@, st.0, *t, b as int, c);
                }
                let ag = &req.agents[b];
                let f = next_free[ag.id];
                let start = later(f, t.release_min);
                // formed in i128: an end beyond i64 is past the deadline
                let end_wide: i128 = (start as i128) + (t.duration_min as i128);
                proof {
                    assert(start == ready_time(st.0, req.agents@[b as int], *t));
                }
                if end_wide < i64::MIN as i128 {
                    proof {
                        assert(!edf_end_fits(*req, k as int));
                    }
                    return None;
                }
                proof {
                    assert(edf_end_fits(*req, k as int));
                }
                if end_wide <= t.deadline_min as i128 {
                    let end = end_wide as i64;
                    next_free.set(ag.id, end);
                    made.push(TaskAssignment {
                        task_id: t.id,
                        task_name: t.name.clone(),
                        agent_id: ag.id,
                        agent_name: ag.name.clone(),
                        start_min: start,
                        end_min: end,
                    });
                }
            },
            None => {
                proof {
                    if exists|c: int| is_first_best(req.agents@, st.0, *t, c) {
                        let c = choose|c: int| is_first_best(req.agents@, st.0, *t, c);
                        assert(capable(req.agents@[c], *t));
                    }
                    assert(edf_end_fits(*req, k as int));
                }
            },
        }
        k = k + 1;
    }

    proof {
        assert(made@ == edf_run(*req, n as nat).1);
    }
    Some(made)
}

/// Pure EDF + earliest-available scheduling.
///
/// Tasks are taken in order of deadline (ties in input order); each goes to
/// the first capable agent whose earliest start (its next free time, or the
/// task's release if later) is smallest, and is kept only when it then ends
/// by its deadline. The plan lists the assignments by start (ties in the
/// order they were made).
pub fn solve_greedy(req: &SchedulingRequest) -> (plan: SchedulingPlan)
    requires
        agent_ids_in_range(*req),
        edf_ends_fit(*req),
    ensures
        plan.request_id@ == req.id@,
        plan.assignments@ == greedy_assignments(*req),
        plan.tasks_total == req.tasks@.len(),
        plan.tasks_scheduled == plan.assignments@.len(),
        plan.makespan_min == max_end(plan.assignments@),
        plan.solver@ == "greedy-edf"@,
        forall|i: int| 0 <= i < plan.assignments@.len() ==> (#[trigger] plan.assignments@[i]).end_min <= plan.makespan_min,
        plan.assignments@.len() == 0 ==> plan.makespan_min == 0,
        plan.assignments@.len() > 0 ==> exists|i: int| 0 <= i < plan.assignments@.len() && plan.makespan_min == (#[trigger] plan.assignments@[i]).end_min,
        plan.status@ == "feasible"@,
        // what every greedy plan satisfies
        forall|i: int| 0 <= i < plan.assignments@.len() ==> assignment_valid(*req, #[trigger] plan.assignments@[i]),
        sorted_by_start(plan.assignments@),
        plan.tasks_scheduled <= plan.tasks_total,
        durations_nonnegative(req.tasks@) ==> no_agent_overlap(plan.assignments@),
{
    let n = req.tasks.len();
    let m = req.agents.len();

    let made = match edf_made(req) {
        Some(made) => made,
        None => {
            proof {
                assert(false);
            }
            Vec::new()
        },
    };

    // order the assignments by start time (stable)
    let cnt = made.len();
    let mut skeys: Vec<(usize, i64)> = Vec::new();
    let mut j: usize = 0;
    while j < cnt
        invariant
            cnt == made@.len(),
            j <= cnt,
            skeys@ =~= start_keys(made@).subrange(0, j as int),
        decreases cnt - j,
    {
        skeys.push((0, made[j].start_min));
        j = j + 1;
    }
    assert(skeys@ =~= start_keys(made@));
    let sorder = stable_order_of(&skeys);
    let mut assignments: Vec<TaskAssignment> = Vec::new();
    let mut q: usize = 0;
    while q < cnt
        invariant
            cnt == made@.len(),
            sorder@.len() == cnt,
            is_stable_order(start_keys(made@), sorder@),
            q <= cnt,
            assignments@ =~= reorder(made@, sorder@).subrange(0, q as int),
        decreases cnt - q,
    {
        assignments.push(made[sorder[q]].clone());
        q = q + 1;
    }
    assert(assignments@ =~= reorder(made@, sorder@));
    proof {
        lemma_edf_run_inv(*req, n as nat);
        let a = assignments@;
        assert forall|i: int| 0 <= i < a.len() implies assignment_valid(*req, #[trigger] a[i]) by {
            assert(a[i] == made@[sorder@[i] as int]);
        }
        assert forall|i: int, j: int| 0 <= i < j < a.len() implies #[trigger] a[i].start_min <= #[trigger] a[j].start_min by {
            assert(precedes(start_keys(made@), sorder@[i] as int, sorder@[j] as int));
        }
        if durations_nonnegative(req.tasks@) {
            assert forall|i: int, j: int|
                0 <= i < a.len() && 0 <= j < a.len() && i != j && #[trigger] a[i].agent_id == #[trigger] a[j].agent_id
                    implies a[i].end_min <= a[j].start_min || a[j].end_min <= a[i].start_min by {
                let pi = sorder@[i] as int;
                let pj = sorder@[j] as int;
                if i < j {
                    assert(precedes(start_keys(made@), pi, pj));
                } else {
                    assert(precedes(start_keys(made@), pj, pi));
                }
                assert(pi != pj);
                assert(made@[pi] == a[i] && made@[pj] == a[j]);
            }
        }
    }

    let makespan = makespan_of(&assignments);
    let scheduled = assignments.len();
    SchedulingPlan {
        request_id: req.id.clone(),
        assignments,
        tasks_total: n,
        tasks_scheduled: scheduled,
        makespan_min: makespan,
        solver: String::from_str("greedy-edf"),
        status: String::from_str("feasible"),
    }
}

} // verus!
