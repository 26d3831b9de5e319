//! How a suggestor decides which seeded requests it still has to answer.
//!
//! A request is a seed whose id starts with the suggestor's request prefix;
//! its request id is the seed id with that prefix trimmed (repeatedly, as
//! `trim_start_matches` does). The suggestor's plan for it is the strategy
//! whose id is the plan prefix followed by the request id.
use vstd::prelude::*;

use crate::text::{concat, contains_string, has_prefix, starts_with, strip_all, trim_start_all};

verus! {

/// Whether some string of `ids` has the view `x`.
pub open spec fn holds_id(ids: Seq<String>, x: Seq<char>) -> bool {
    exists|i: int| 0 <= i < ids.len() && #[trigger] ids[i]@ == x
}

/// The request id of a seed id.
pub open spec fn spec_request_id(seed_id: Seq<char>, request_prefix: Seq<char>) -> Seq<char> {
    strip_all(seed_id, request_prefix)
}

/// The seed is a request of this suggestor and no plan of it answers it yet.
pub open spec fn is_pending(
    seed_id: Seq<char>,
    strategy_ids: Seq<String>,
    request_prefix: Seq<char>,
    plan_prefix: Seq<char>,
) -> bool {
    &&& has_prefix(seed_id, request_prefix)
    &&& !holds_id(strategy_ids, plan_prefix + spec_request_id(seed_id, request_prefix))
}

/// Indices, in increasing order, of the pending seeds among the first `k`.
pub open spec fn pending_prefix(
    seed_ids: Seq<String>,
    strategy_ids: Seq<String>,
    request_prefix: Seq<char>,
    plan_prefix: Seq<char>,
    k: nat,
) -> Seq<usize>
    decreases k,
{
    if k == 0 {
        Seq::empty()
    } else {
        let prev = pending_prefix(seed_ids, strategy_ids, request_prefix, plan_prefix, (k - 1) as nat);
        if is_pending(seed_ids[k - 1]@, strategy_ids, request_prefix, plan_prefix) {
            prev.push((k - 1) as usize)
        } else {
            prev
        }
    }
}

/// The request id carried by a seed id.
pub fn request_id<'a>(seed_id: &'a str, request_prefix: &str) -> (r: &'a str)
    ensures
        r@ == spec_request_id(seed_id@, request_prefix@),
{
    trim_start_all(seed_id, request_prefix)
}

/// The id under which the plan for `request_id` is proposed.
pub fn plan_id(plan_prefix: &str, request_id: &str) -> (r: String)
    ensures
        r@ == plan_prefix@ + request_id@,
{
    concat(plan_prefix, request_id)
}

/// The id under which the plan answering a seed is proposed: the plan prefix
/// followed by the seed's request id. Once it is among the strategies, the
/// seed is no longer pending (`lemma_answered_not_pending`).
pub fn seed_plan_id(seed_id: &str, request_prefix: &str, plan_prefix: &str) -> (r: String)
    ensures
        r@ == plan_prefix@ + spec_request_id(seed_id@, request_prefix@),
{
    plan_id(plan_prefix, request_id(seed_id, request_prefix))
}

/// Whether the plan for `request_id` is already among the strategies.
pub fn plan_exists(strategy_ids: &Vec<String>, plan_prefix: &str, request_id: &str) -> (r: bool)
    ensures
        r == holds_id(strategy_ids@, plan_prefix@ + request_id@),
{
    let plan_id = concat(plan_prefix, request_id);
    contains_string(strategy_ids, plan_id.as_str())
}

/// Whether the seed is a request that still waits for this suggestor's plan.
pub fn seed_is_pending(
    seed_id: &str,
    strategy_ids: &Vec<String>,
    request_prefix: &str,
    plan_prefix: &str,
) -> (r: bool)
    ensures
        r == is_pending(seed_id@, strategy_ids@, request_prefix@, plan_prefix@),
{
    if !starts_with(seed_id, request_prefix) {
        return false;
    }
    let rid = request_id(seed_id, request_prefix);
    !plan_exists(strategy_ids, plan_prefix, rid)
}

/// Whether any seed waits for this suggestor's plan.
pub fn any_pending(
    seed_ids: &Vec<String>,
    strategy_ids: &Vec<String>,
    request_prefix: &str,
    plan_prefix: &str,
) -> (r: bool)
    ensures
        r == exists|i: int|
            0 <= i < seed_ids@.len() && #[trigger] is_pending(
                seed_ids@[i]@,
                strategy_ids@,
                request_prefix@,
                plan_prefix@,
            ),
{
    let mut i: usize = 0;
    while i < seed_ids.len()
        invariant
            i <= seed_ids@.len(),
            forall|k: int|
                0 <= k < i ==> !#[trigger] is_pending(
                    seed_ids@[k]@,
                    strategy_ids@,
                    request_prefix@,
                    plan_prefix@,
                ),
        decreases seed_ids.len() - i,
    {
        if seed_is_pending(seed_ids[i].as_str(), strategy_ids, request_prefix, plan_prefix) {
            return true;
        }
        i = i + 1;
    }
    false
}

/// The indices of the seeds that wait for this suggestor's plan, in seed order.
pub fn pending_seeds(
    seed_ids: &Vec<String>,
    strategy_ids: &Vec<String>,
    request_prefix: &str,
    plan_prefix: &str,
) -> (r: Vec<usize>)
    ensures
        r@ == pending_prefix(
            seed_ids@,
            strategy_ids@,
            request_prefix@,
            plan_prefix@,
            seed_ids@.len(),
        ),
{
    let mut r: Vec<usize> = Vec::new();
    let mut i: usize = 0;
    while i < seed_ids.len()
        invariant
            i <= seed_ids@.len(),
            r@ == pending_prefix(seed_ids@, strategy_ids@, request_prefix@, plan_prefix@, i as nat),
        decreases seed_ids.len() - i,
    {
        if seed_is_pending(seed_ids[i].as_str(), strategy_ids, request_prefix, plan_prefix) {
            r.push(i);
        }
        i = i + 1;
    }
    r
}

/// Every index that `pending_prefix` lists names a pending seed, and the
/// indices strictly increase, so no request is answered twice in one pass.
pub proof fn lemma_pending_prefix_sound(
    seed_ids: Seq<String>,
    strategy_ids: Seq<String>,
    request_prefix: Seq<char>,
    plan_prefix: Seq<char>,
    k: nat,
)
    requires
        k <= seed_ids.len() <= usize::MAX,
    ensures
        ({
            let p = pending_prefix(seed_ids, strategy_ids, request_prefix, plan_prefix, k);
            &&& forall|j: int|
                0 <= j < p.len() ==> #[trigger] p[j] < k && is_pending(
                    seed_ids[p[j] as int]@,
                    strategy_ids,
                    request_prefix,
                    plan_prefix,
                )
            &&& forall|a: int, b: int| 0 <= a < b < p.len() ==> p[a] < p[b]
            &&& forall|i: int|
                0 <= i < k && is_pending(seed_ids[i]@, strategy_ids, request_prefix, plan_prefix)
                    ==> #[trigger] p.contains(i as usize)
        }),
    decreases k,
{
    if k > 0 {
        lemma_pending_prefix_sound(seed_ids, strategy_ids, request_prefix, plan_prefix, (k - 1) as nat);
        let prev = pending_prefix(seed_ids, strategy_ids, request_prefix, plan_prefix, (k - 1) as nat);
        let p = pending_prefix(seed_ids, strategy_ids, request_prefix, plan_prefix, k);
        assert forall|i: int|
            0 <= i < k && is_pending(seed_ids[i]@, strategy_ids, request_prefix, plan_prefix)
            implies #[trigger] p.contains(i as usize) by {
            if i < k - 1 {
                assert(prev.contains(i as usize));
                let w = choose|w: int| 0 <= w < prev.len() && prev[w] == i as usize;
                assert(p[w] == i as usize);
            } else {
                assert(p[p.len() - 1] == i as usize);
            }
        }
    }
}

/// A suggestor accepts exactly when it has some seed to answer: some seed is
/// pending if and only if the list of pending seeds is not empty.
pub proof fn lemma_accepts_iff_pending(
    seed_ids: Seq<String>,
    strategy_ids: Seq<String>,
    request_prefix: Seq<char>,
    plan_prefix: Seq<char>,
)
    requires
        seed_ids.len() <= usize::MAX,
    ensures
        (exists|i: int| 0 <= i < seed_ids.len() && #[trigger] is_pending(seed_ids[i]@, strategy_ids, request_prefix, plan_prefix))
            <==> pending_prefix(seed_ids, strategy_ids, request_prefix, plan_prefix, seed_ids.len()).len() > 0,
{
    let n = seed_ids.len();
    lemma_pending_prefix_sound(seed_ids, strategy_ids, request_prefix, plan_prefix, n);
    let p = pending_prefix(seed_ids, strategy_ids, request_prefix, plan_prefix, n);
    if p.len() > 0 {
        assert(is_pending(seed_ids[p[0] as int]@, strategy_ids, request_prefix, plan_prefix));
    }
    if exists|i: int| 0 <= i < n && #[trigger] is_pending(seed_ids[i]@, strategy_ids, request_prefix, plan_prefix) {
        let i = choose|i: int| 0 <= i < n && #[trigger] is_pending(seed_ids[i]@, strategy_ids, request_prefix, plan_prefix);
        assert(p.contains(i as usize));
    }
}

/// Once the plan that answers a seed is among the strategies, the seed is no
/// longer pending: a request is answered once, whatever else the strategies
/// hold.
pub proof fn lemma_answered_not_pending(
    seed_id: Seq<char>,
    strategy_ids: Seq<String>,
    plan_id: String,
    request_prefix: Seq<char>,
    plan_prefix: Seq<char>,
)
    requires
        plan_id@ == plan_prefix + spec_request_id(seed_id, request_prefix),
    ensures
        !is_pending(seed_id, strategy_ids.push(plan_id), request_prefix, plan_prefix),
{
    let s = strategy_ids.push(plan_id);
    assert(s[strategy_ids.len() as int]@ == plan_prefix + spec_request_id(seed_id, request_prefix));
}

} // verus!
