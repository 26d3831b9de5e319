//! Linear programs: which requests to answer, how terms find their
//! variables, and the name of the solver's outcome.
use vstd::prelude::*;

use crate::cpmodel::{outcome_label, outcome_name, CpStatus};
use crate::routing::{any_pending, holds_id, is_pending, pending_prefix, pending_seeds, plan_exists as plan_in, spec_request_id};
use crate::text::{last_index_of, last_of, views};

verus! {

pub const REQUEST_PREFIX: &'static str = "glop-request:";
pub const PLAN_PREFIX: &'static str = "glop-plan:";

/// Answers linear programs with GLOP.
pub struct GlopLpSuggestor;

impl GlopLpSuggestor {
    pub fn name(&self) -> (r: &'static str)
        ensures
            r@ == "GlopLpSuggestor"@,
    {
        "GlopLpSuggestor"
    }

    pub fn complexity_hint(&self) -> (r: Option<&'static str>)
        ensures
            r is Some,
            r->0@ == "LP simplex; polynomial in practice; GLOP v9.11"@,
    {
        Some("LP simplex; polynomial in practice; GLOP v9.11")
    }

    /// Some seed is a linear program without a plan yet.
    pub fn accepts(&self, seed_ids: &Vec<String>, strategy_ids: &Vec<String>) -> (r: bool)
        ensures
            r == exists|i: int|
                0 <= i < seed_ids@.len() && #[trigger] is_pending(
                    seed_ids@[i]@,
                    strategy_ids@,
                    REQUEST_PREFIX@,
                    PLAN_PREFIX@,
                ),
    {
        any_pending(seed_ids, strategy_ids, REQUEST_PREFIX, PLAN_PREFIX)
    }

    /// Indices of the seeds that this suggestor answers in one pass.
    pub fn pending(&self, seed_ids: &Vec<String>, strategy_ids: &Vec<String>) -> (r: Vec<usize>)
        ensures
            r@ == pending_prefix(seed_ids@, strategy_ids@, REQUEST_PREFIX@, PLAN_PREFIX@, seed_ids@.len()),
    {
        pending_seeds(seed_ids, strategy_ids, REQUEST_PREFIX, PLAN_PREFIX)
    }
}

/// The request id carried by a linear program seed id.
pub fn request_id(fact_id: &str) -> (r: &str)
    ensures
        r@ == spec_request_id(fact_id@, REQUEST_PREFIX@),
{
    crate::routing::request_id(fact_id, REQUEST_PREFIX)
}

/// Whether the plan for `request_id` is already among the strategies.
pub fn plan_exists(strategy_ids: &Vec<String>, request_id: &str) -> (r: bool)
    ensures
        r == holds_id(strategy_ids@, PLAN_PREFIX@ + request_id@),
{
    plan_in(strategy_ids, PLAN_PREFIX, request_id)
}

/// The name of the solver's outcome in a plan.
pub fn lp_status_name(s: CpStatus) -> (r: &'static str)
    ensures
        r@ == outcome_label(s),
{
    outcome_name(s)
}

/// For each term name, the last variable with that name, if any (later
/// variables of one name shadow earlier ones).
pub fn term_positions(var_names: &Vec<String>, term_vars: &Vec<String>) -> (r: Vec<Option<usize>>)
    ensures
        r@.len() == term_vars@.len(),
        forall|k: int|
            0 <= k < term_vars@.len() ==> #[trigger] r@[k] == (if last_of(views(var_names@), term_vars@[k]@, var_names@.len()) >= 0 {
                Some(last_of(views(var_names@), term_vars@[k]@, var_names@.len()) as usize)
            } else {
                None::<usize>
            }),
{
    let mut r: Vec<Option<usize>> = Vec::new();
    let mut k: usize = 0;
    while k < term_vars.len()
        invariant
            k <= term_vars@.len(),
            r@.len() == k,
            forall|x: int|
                0 <= x < k ==> #[trigger] r@[x] == (if last_of(views(var_names@), term_vars@[x]@, var_names@.len()) >= 0 {
                    Some(last_of(views(var_names@), term_vars@[x]@, var_names@.len()) as usize)
                } else {
                    None::<usize>
                }),
        decreases term_vars.len() - k,
    {
        r.push(last_index_of(var_names, term_vars[k].as_str()));
        k = k + 1;
    }
    r
}

} // verus!
