use vstd::prelude::*;

verus! {

/// An agent that can execute tasks requiring one of its declared capabilities.
pub struct SchedulingAgent {
    pub id: usize,
    pub name: String,
    /// Capability tags this agent possesses (e.g. "python", "ml", "rust").
    pub capabilities: Vec<String>,
}

/// A unit of work to be scheduled.
pub struct SchedulingTask {
    pub id: usize,
    pub name: String,
    /// Capability required to run the task.
    pub required_capability: String,
    /// Duration in minutes.
    pub duration_min: i64,
    /// Earliest start (minutes from horizon start).
    pub release_min: i64,
    /// Latest finish (minutes from horizon start).
    pub deadline_min: i64,
}

/// A scheduling request: agents, tasks and the planning horizon in minutes.
pub struct SchedulingRequest {
    pub id: String,
    pub agents: Vec<SchedulingAgent>,
    pub tasks: Vec<SchedulingTask>,
    /// Planning horizon in minutes.
    pub horizon_min: i64,
}

/// A single task-to-agent assignment with resolved timing.
pub struct TaskAssignment {
    pub task_id: usize,
    pub task_name: String,
    pub agent_id: usize,
    pub agent_name: String,
    pub start_min: i64,
    pub end_min: i64,
}

impl Clone for TaskAssignment {
    fn clone(&self) -> (r: Self)
        ensures
            r == *self,
    {
        TaskAssignment {
            task_id: self.task_id,
            task_name: self.task_name.clone(),
            agent_id: self.agent_id,
            agent_name: self.agent_name.clone(),
            start_min: self.start_min,
            end_min: self.end_min,
        }
    }
}

/// The outcome of a scheduling run.
pub struct SchedulingPlan {
    pub request_id: String,
    pub assignments: Vec<TaskAssignment>,
    pub tasks_total: usize,
    pub tasks_scheduled: usize,
    /// Completion time of the last scheduled task (0 if nothing scheduled).
    pub makespan_min: i64,
    /// Short identifier for the algorithm that produced this plan.
    pub solver: String,
    /// `"optimal"`, `"feasible"`, `"infeasible"`, or `"error"`.
    pub status: String,
}

/// The agent holds the capability that the task requires.
pub open spec fn capable(a: SchedulingAgent, t: SchedulingTask) -> bool {
    crate::routing::holds_id(a.capabilities@, t.required_capability@)
}

/// Latest end among the assignments, or 0 when there is none.
pub open spec fn max_end(s: Seq<TaskAssignment>) -> int
    decreases s.len(),
{
    if s.len() == 0 {
        0
    } else if s.len() == 1 {
        s[0].end_min as int
    } else {
        let m = max_end(s.drop_last());
        if s.last().end_min > m { s.last().end_min as int } else { m }
    }
}

/// The latest end is the end of one of the entries (0 when there are none),
/// and no entry ends after it.
pub proof fn lemma_max_end_is_latest(s: Seq<TaskAssignment>)
    ensures
        forall|i: int| 0 <= i < s.len() ==> (#[trigger] s[i]).end_min <= max_end(s),
        s.len() == 0 ==> max_end(s) == 0,
        s.len() > 0 ==> exists|i: int| 0 <= i < s.len() && max_end(s) == (#[trigger] s[i]).end_min,
    decreases s.len(),
{
    if s.len() > 1 {
        let t = s.drop_last();
        lemma_max_end_is_latest(t);
        assert forall|i: int| 0 <= i < s.len() implies (#[trigger] s[i]).end_min <= max_end(s) by {
            if i < t.len() {
                assert(s[i] == t[i]);
            }
        }
        let w = choose|i: int| 0 <= i < t.len() && max_end(t) == (#[trigger] t[i]).end_min;
        assert(s[w] == t[w]);
        if s.last().end_min > max_end(t) {
            assert(max_end(s) == s[s.len() - 1].end_min);
        } else {
            assert(max_end(s) == s[w].end_min);
        }
    } else if s.len() == 1 {
        assert(max_end(s) == s[0].end_min);
    }
}

/// Assignments ordered by start time (nondecreasing).
pub open spec fn sorted_by_start(s: Seq<TaskAssignment>) -> bool {
    forall|i: int, j: int| 0 <= i < j < s.len() ==> #[trigger] s[i].start_min <= #[trigger] s[j].start_min
}

/// Latest end of the assignments (0 when there are none).
pub fn makespan_of(s: &Vec<TaskAssignment>) -> (r: i64)
    ensures
        r == max_end(s@),
        forall|i: int| 0 <= i < s@.len() ==> (#[trigger] s@[i]).end_min <= r,
        s@.len() == 0 ==> r == 0,
        s@.len() > 0 ==> exists|i: int| 0 <= i < s@.len() && r == (#[trigger] s@[i]).end_min,
{
    proof {
        lemma_max_end_is_latest(s@);
    }
    let mut m: i64 = 0;
    let mut i: usize = 0;
    while i < s.len()
        invariant
            i <= s@.len(),
            m == max_end(s@.subrange(0, i as int)),
        decreases s.len() - i,
    {
        proof {
            let pre = s@.subrange(0, i + 1);
            assert(pre.drop_last() =~= s@.subrange(0, i as int));
        }
        if i == 0 || s[i].end_min > m {
            m = s[i].end_min;
        }
        i = i + 1;
    }
    assert(s@.subrange(0, s@.len() as int) =~= s@);
    m
}

} // verus!
