//! Mixed-integer programs: which requests to answer, and the name of the
//! solver's outcome.
use vstd::prelude::*;

use crate::highs::HighsModelStatus;
use crate::routing::{any_pending, holds_id, is_pending, pending_prefix, pending_seeds, plan_exists as plan_in, spec_request_id};

verus! {

pub const REQUEST_PREFIX: &'static str = "mip-request:";
pub const PLAN_PREFIX: &'static str = "mip-plan:";

/// Answers mixed-integer programs with HiGHS.
pub struct HighsMipSuggestor;

impl HighsMipSuggestor {
    pub fn name(&self) -> (r: &'static str)
        ensures
            r@ == "HighsMipSuggestor"@,
    {
        "HighsMipSuggestor"
    }

    pub fn complexity_hint(&self) -> (r: Option<&'static str>)
        ensures
            r is Some,
            r->0@ == "MIP branch-and-cut via HiGHS v1.7; NP-hard in general"@,
    {
        Some("MIP branch-and-cut via HiGHS v1.7; NP-hard in general")
    }

    /// Some seed is a mixed-integer program without a plan yet.
    pub fn accepts(&self, seed_ids: &Vec<String>, strategy_ids: &Vec<String>) -> (r: bool)
        ensures
            r == exists|i: int|
                0 <= i < seed_ids@.len() && #[trigger] is_pending(
                    seed_ids@[i]@,
                    strategy_ids@,
                    REQUEST_PREFIX@,
                    PLAN_PREFIX@,
                ),
    {
        any_pending(seed_ids, strategy_ids, REQUEST_PREFIX, PLAN_PREFIX)
    }

    /// Indices of the seeds that this suggestor answers in one pass.
    pub fn pending(&self, seed_ids: &Vec<String>, strategy_ids: &Vec<String>) -> (r: Vec<usize>)
        ensures
            r@ == pending_prefix(seed_ids@, strategy_ids@, REQUEST_PREFIX@, PLAN_PREFIX@, seed_ids@.len()),
    {
        pending_seeds(seed_ids, strategy_ids, REQUEST_PREFIX, PLAN_PREFIX)
    }
}

/// The request id carried by a mixed-integer program seed id.
pub fn request_id(fact_id: &str) -> (r: &str)
    ensures
        r@ == spec_request_id(fact_id@, REQUEST_PREFIX@),
{
    crate::routing::request_id(fact_id, REQUEST_PREFIX)
}

/// Whether the plan for `request_id` is already among the strategies.
pub fn plan_exists(strategy_ids: &Vec<String>, request_id: &str) -> (r: bool)
    ensures
        r == holds_id(strategy_ids@, PLAN_PREFIX@ + request_id@),
{
    plan_in(strategy_ids, PLAN_PREFIX, request_id)
}

/// Name of a HiGHS outcome in a plan: a time or solution limit still leaves a
/// feasible solution.
pub open spec fn mip_status_label(s: HighsModelStatus) -> Seq<char> {
    match s {
        HighsModelStatus::Optimal => "optimal"@,
        HighsModelStatus::SolutionLimit | HighsModelStatus::TimeLimit => "feasible"@,
        HighsModelStatus::Infeasible => "infeasible"@,
        HighsModelStatus::Unbounded => "unbounded"@,
        _ => "error"@,
    }
}

pub fn mip_status_name(s: HighsModelStatus) -> (r: &'static str)
    ensures
        r@ == mip_status_label(s),
{
    match s {
        HighsModelStatus::Optimal => "optimal",
        HighsModelStatus::SolutionLimit | HighsModelStatus::TimeLimit => "feasible",
        HighsModelStatus::Infeasible => "infeasible",
        HighsModelStatus::Unbounded => "unbounded",
        _ => "error",
    }
}

} // verus!
