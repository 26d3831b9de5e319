use vstd::prelude::*;

verus! {

/// One operation within a job: must execute on `machine_id` for `duration` units.
pub struct Operation {
    pub machine_id: usize,
    pub duration: i64,
}

/// A job is an ordered sequence of operations; each must complete before the next begins.
pub struct Job {
    pub id: usize,
    pub name: String,
    /// Operations in their required execution order.
    pub operations: Vec<Operation>,
}

/// A job shop instance: jobs over `num_machines` machines.
pub struct JobShopRequest {
    pub id: String,
    pub jobs: Vec<Job>,
    pub num_machines: usize,
}

/// A scheduled operation with resolved timing.
pub struct ScheduledOp {
    pub job_id: usize,
    pub job_name: String,
    pub machine_id: usize,
    pub op_index: usize,
    pub start: i64,
    pub end: i64,
}

impl Clone for ScheduledOp {
    fn clone(&self) -> (r: Self)
        ensures
            r == *self,
    {
        ScheduledOp {
            job_id: self.job_id,
            job_name: self.job_name.clone(),
            machine_id: self.machine_id,
            op_index: self.op_index,
            start: self.start,
            end: self.end,
        }
    }
}

/// A job shop schedule.
pub struct JobShopPlan {
    pub request_id: String,
    pub schedule: Vec<ScheduledOp>,
    pub makespan: i64,
    /// Proven lower bound (available when status is `"optimal"`).
    pub lower_bound: Option<i64>,
    pub solver: String,
    /// `"optimal"`, `"feasible"`, or `"error"`.
    pub status: String,
}

pub open spec fn abs(x: int) -> int {
    if x < 0 { -x } else { x }
}

/// Number of operations of the first `n` jobs.
pub open spec fn ops_count(jobs: Seq<Job>, n: nat) -> nat
    decreases n,
{
    if n == 0 { 0 } else { ops_count(jobs, (n - 1) as nat) + jobs[n - 1].operations@.len() }
}

/// Number of operations of all jobs.
pub open spec fn total_ops(jobs: Seq<Job>) -> nat {
    ops_count(jobs, jobs.len())
}

/// Sum of the first `k` durations of a job.
pub open spec fn job_duration(ops: Seq<Operation>, k: nat) -> int
    decreases k,
{
    if k == 0 { 0 } else { job_duration(ops, (k - 1) as nat) + ops[k - 1].duration }
}

/// Sum of all durations of the first `n` jobs.
pub open spec fn jobs_duration(jobs: Seq<Job>, n: nat) -> int
    decreases n,
{
    if n == 0 {
        0
    } else {
        jobs_duration(jobs, (n - 1) as nat) + job_duration(jobs[n - 1].operations@, jobs[n - 1].operations@.len())
    }
}

/// Sum of the magnitudes of the first `k` durations of a job.
pub open spec fn job_magnitude(ops: Seq<Operation>, k: nat) -> int
    decreases k,
{
    if k == 0 { 0 } else { job_magnitude(ops, (k - 1) as nat) + abs(ops[k - 1].duration as int) }
}

/// Sum of the magnitudes of all durations of the first `n` jobs.
pub open spec fn jobs_magnitude(jobs: Seq<Job>, n: nat) -> int
    decreases n,
{
    if n == 0 {
        0
    } else {
        jobs_magnitude(jobs, (n - 1) as nat) + job_magnitude(jobs[n - 1].operations@, jobs[n - 1].operations@.len())
    }
}

/// Every sum of durations, and every time the solvers form from them, fits
/// in `i64`: the magnitudes of all durations add up to at most `i64::MAX`.
/// With nonnegative durations this says exactly that the horizon fits.
pub open spec fn durations_bounded(jobs: Seq<Job>) -> bool {
    &&& total_ops(jobs) <= usize::MAX
    &&& jobs_magnitude(jobs, jobs.len()) <= i64::MAX
}

pub proof fn lemma_job_magnitude_monotone(ops: Seq<Operation>, a: nat, b: nat)
    requires
        a <= b,
    ensures
        0 <= job_magnitude(ops, a) <= job_magnitude(ops, b),
    decreases b,
{
    if a < b {
        lemma_job_magnitude_monotone(ops, a, (b - 1) as nat);
    } else {
        lemma_job_magnitude_nonneg(ops, a);
    }
}

proof fn lemma_job_magnitude_nonneg(ops: Seq<Operation>, k: nat)
    ensures
        0 <= job_magnitude(ops, k),
    decreases k,
{
    if k > 0 {
        lemma_job_magnitude_nonneg(ops, (k - 1) as nat);
    }
}

pub proof fn lemma_jobs_magnitude_monotone(jobs: Seq<Job>, a: nat, b: nat)
    requires
        a <= b <= jobs.len(),
    ensures
        0 <= jobs_magnitude(jobs, a) <= jobs_magnitude(jobs, b),
    decreases b,
{
    if b > 0 {
        lemma_job_magnitude_monotone(jobs[b - 1].operations@, 0, jobs[b - 1].operations@.len());
        if a < b {
            lemma_jobs_magnitude_monotone(jobs, a, (b - 1) as nat);
        } else {
            lemma_jobs_magnitude_monotone(jobs, 0, (b - 1) as nat);
        }
    }
}

pub proof fn lemma_ops_count_monotone(jobs: Seq<Job>, a: nat, b: nat)
    requires
        a <= b <= jobs.len(),
    ensures
        ops_count(jobs, a) <= ops_count(jobs, b),
    decreases b,
{
    if a < b {
        lemma_ops_count_monotone(jobs, a, (b - 1) as nat);
    }
}

/// Number of operations of all jobs, or `None` when it exceeds `usize::MAX`.
pub(crate) fn total_ops_exec(jobs: &Vec<Job>) -> (r: Option<usize>)
    ensures
        match r {
            Some(t) => t == total_ops(jobs@),
            None => total_ops(jobs@) > usize::MAX,
        },
{
    let mut c: usize = 0;
    let mut i: usize = 0;
    while i < jobs.len()
        invariant
            i <= jobs@.len(),
            c == ops_count(jobs@, i as nat),
        decreases jobs.len() - i,
    {
        let len = jobs[i].operations.len();
        if c > usize::MAX - len {
            proof {
                lemma_ops_count_monotone(jobs@, (i + 1) as nat, jobs@.len());
            }
            return None;
        }
        c = c + len;
        i = i + 1;
    }
    Some(c)
}

/// Whether `durations_bounded` holds of the jobs.
pub(crate) fn durations_bounded_exec(jobs: &Vec<Job>) -> (r: bool)
    ensures
        r == durations_bounded(jobs@),
{
    if total_ops_exec(jobs).is_none() {
        return false;
    }
    let n = jobs.len();
    let mut acc: u128 = 0;
    let mut j: usize = 0;
    while j < n
        invariant
            n == jobs@.len(),
            j <= n,
            acc == jobs_magnitude(jobs@, j as nat),
            acc <= i64::MAX,
        decreases n - j,
    {
        let ops = &jobs[j].operations;
        let mut k: usize = 0;
        while k < ops.len()
            invariant
                n == jobs@.len(),
                j < n,
                ops == jobs@[j as int].operations,
                k <= ops@.len(),
                acc == jobs_magnitude(jobs@, j as nat) + job_magnitude(ops@, k as nat),
                acc <= i64::MAX,
            decreases ops.len() - k,
        {
            let d = ops[k].duration;
            let a: u128 = if d < 0 { (-(d as i128)) as u128 } else { d as u128 };
            assert(a == abs(d as int));
            if acc + a > 0x7fff_ffff_ffff_ffff {
                proof {
                    lemma_job_magnitude_monotone(ops@, (k + 1) as nat, ops@.len());
                    lemma_jobs_magnitude_monotone(jobs@, (j + 1) as nat, n as nat);
                    assert(jobs@[j as int].operations@[k as int].duration == d);
                }
                return false;
            }
            acc = acc + a;
            k = k + 1;
        }
        j = j + 1;
    }
    true
}

impl JobShopRequest {
    /// Trivial upper bound on makespan: sum of all operation durations.
    pub fn horizon(&self) -> (r: i64)
        requires
            durations_bounded(self.jobs@),
        ensures
            r == jobs_duration(self.jobs@, self.jobs@.len()),
    {
        let mut sum: i64 = 0;
        let mut j: usize = 0;
        while j < self.jobs.len()
            invariant
                j <= self.jobs@.len(),
                durations_bounded(self.jobs@),
                sum == jobs_duration(self.jobs@, j as nat),
                abs(sum as int) <= jobs_magnitude(self.jobs@, j as nat),
            decreases self.jobs.len() - j,
        {
            let ops = &self.jobs[j].operations;
            let mut k: usize = 0;
            let mut part: i64 = sum;
            proof {
                lemma_jobs_magnitude_monotone(self.jobs@, (j + 1) as nat, self.jobs@.len());
            }
            while k < ops.len()
                invariant
                    j < self.jobs@.len(),
                    ops == self.jobs@[j as int].operations,
                    k <= ops@.len(),
                    durations_bounded(self.jobs@),
                    jobs_magnitude(self.jobs@, (j + 1) as nat) <= i64::MAX,
                    part == jobs_duration(self.jobs@, j as nat) + job_duration(ops@, k as nat),
                    abs(part as int) <= jobs_magnitude(self.jobs@, j as nat) + job_magnitude(ops@, k as nat),
                decreases ops.len() - k,
            {
                let d = ops[k].duration;
                proof {
                    lemma_job_magnitude_monotone(ops@, (k + 1) as nat, ops@.len());
                    assert(self.jobs@[j as int].operations@[k as int].duration == d);
                }
                part = part + d;
                k = k + 1;
            }
            sum = part;
            j = j + 1;
        }
        sum
    }
}

} // verus!
