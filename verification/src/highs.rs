use vstd::prelude::*;

verus! {

/// Status code returned by a HiGHS call.
#[derive(Debug, Clone, Copy, PartialEq, Eq, Structural)]
pub enum HighsReturnStatus {
    Success,
    Warning,
    Error,
}

/// Model status reported by HiGHS after a run.
#[derive(Debug, Clone, Copy, PartialEq, Eq, Structural)]
pub enum HighsModelStatus {
    NotSet,
    LoadError,
    ModelError,
    Infeasible,
    Optimal,
    Unbounded,
    SolutionLimit,
    TimeLimit,
}

impl HighsReturnStatus {
    /// The status code HiGHS uses for this status.
    pub fn code(self) -> (r: i32)
        ensures
            r == (match self {
                HighsReturnStatus::Success => 0i32,
                HighsReturnStatus::Warning => 1i32,
                HighsReturnStatus::Error => 2i32,
            }),
    {
        match self {
            HighsReturnStatus::Success => 0,
            HighsReturnStatus::Warning => 1,
            HighsReturnStatus::Error => 2,
        }
    }
}

/// The status code HiGHS uses for a model status.
pub open spec fn model_status_code(s: HighsModelStatus) -> i32 {
    match s {
        HighsModelStatus::NotSet => 0,
        HighsModelStatus::LoadError => 1,
        HighsModelStatus::ModelError => 2,
        HighsModelStatus::Infeasible => 8,
        HighsModelStatus::Optimal => 7,
        HighsModelStatus::Unbounded => 9,
        HighsModelStatus::SolutionLimit => 11,
        HighsModelStatus::TimeLimit => 12,
    }
}

impl HighsModelStatus {
    /// The status code HiGHS uses for this status.
    pub fn code(self) -> (r: i32)
        ensures
            r == model_status_code(self),
    {
        match self {
            HighsModelStatus::NotSet => 0,
            HighsModelStatus::LoadError => 1,
            HighsModelStatus::ModelError => 2,
            HighsModelStatus::Infeasible => 8,
            HighsModelStatus::Optimal => 7,
            HighsModelStatus::Unbounded => 9,
            HighsModelStatus::SolutionLimit => 11,
            HighsModelStatus::TimeLimit => 12,
        }
    }

    /// The status with the given HiGHS code, if it is one of these.
    pub fn from_code(c: i32) -> (r: Option<HighsModelStatus>)
        ensures
            match r {
                Some(s) => model_status_code(s) == c,
                None => forall|s: HighsModelStatus| model_status_code(s) != c,
            },
    {
        match c {
            0 => Some(HighsModelStatus::NotSet),
            1 => Some(HighsModelStatus::LoadError),
            2 => Some(HighsModelStatus::ModelError),
            8 => Some(HighsModelStatus::Infeasible),
            7 => Some(HighsModelStatus::Optimal),
            9 => Some(HighsModelStatus::Unbounded),
            11 => Some(HighsModelStatus::SolutionLimit),
            12 => Some(HighsModelStatus::TimeLimit),
            _ => None,
        }
    }

    /// A run that produced a usable primal solution.
    pub open spec fn spec_is_success(self) -> bool {
        self is Optimal || self is SolutionLimit || self is TimeLimit
    }

    pub fn is_success(self) -> (r: bool)
        ensures
            r == self.spec_is_success(),
    {
        match self {
            HighsModelStatus::Optimal | HighsModelStatus::SolutionLimit | HighsModelStatus::TimeLimit => true,
            _ => false,
        }
    }

    pub fn is_optimal(self) -> (r: bool)
        ensures
            r == (self is Optimal),
    {
        self == HighsModelStatus::Optimal
    }
}

/// An optimal run is a successful one.
pub proof fn lemma_optimal_is_success(s: HighsModelStatus)
    ensures
        s is Optimal ==> s.spec_is_success(),
{
}

/// Distinct statuses have distinct codes, so a code names at most one status.
pub proof fn lemma_code_injective(a: HighsModelStatus, b: HighsModelStatus)
    ensures
        model_status_code(a) == model_status_code(b) ==> a == b,
{
}

} // verus!
