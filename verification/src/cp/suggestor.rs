//! A generic CP-SAT request: the model it describes, and the plan read from
//! a solution.
//!
//! Names refer to variables (and intervals) declared earlier; a later
//! declaration of a name shadows an earlier one, and a term, variable or
//! interval that names nothing declared is left out.
use vstd::prelude::*;
use vstd::string::StringExecFns;

use crate::cpmodel::{
    outcome_label, outcome_name,
    declares_interval, declares_var, decl, iv_end, iv_present, iv_start, lemma_step_holds, linear, listing, satisfies,
    step_refs_ok, weighted_sum, well_formed, CpModel, CpSolution, CpStatus, ModelOp, StepView,
};
use crate::routing::{any_pending, holds_id, is_pending, pending_prefix, pending_seeds, plan_exists as plan_in, spec_request_id};
use crate::text::{last_index_of, last_of, lemma_last_of_range, views};
use super::problem::{ConstraintKind, CpSatPlan, CpSatRequest, CpTerm, CpVariable, IntervalVarDef, OptionalIntervalVarDef};

verus! {

pub const REQUEST_PREFIX: &'static str = "cpsat-request:";
pub const PLAN_PREFIX: &'static str = "cpsat-plan:";

/// Answers generic CP-SAT requests.
pub struct CpSatSuggestor;

impl CpSatSuggestor {
    pub fn name(&self) -> (r: &'static str)
        ensures
            r@ == "CpSatSuggestor"@,
    {
        "CpSatSuggestor"
    }

    pub fn complexity_hint(&self) -> (r: Option<&'static str>)
        ensures
            r is Some,
            r->0@ == "NP-hard in general; CP-SAT DPLL+propagation+LNS; practical for n≤500 vars"@,
    {
        Some("NP-hard in general; CP-SAT DPLL+propagation+LNS; practical for n≤500 vars")
    }

    /// Some seed is a CP-SAT request without a plan yet.
    pub fn accepts(&self, seed_ids: &Vec<String>, strategy_ids: &Vec<String>) -> (r: bool)
        ensures
            r == exists|i: int|
                0 <= i < seed_ids@.len() && #[trigger] is_pending(
                    seed_ids@[i]@,
                    strategy_ids@,
                    REQUEST_PREFIX@,
                    PLAN_PREFIX@,
                ),
    {
        any_pending(seed_ids, strategy_ids, REQUEST_PREFIX, PLAN_PREFIX)
    }

    /// Indices of the seeds that this suggestor answers in one pass.
    pub fn pending(&self, seed_ids: &Vec<String>, strategy_ids: &Vec<String>) -> (r: Vec<usize>)
        ensures
            r@ == pending_prefix(seed_ids@, strategy_ids@, REQUEST_PREFIX@, PLAN_PREFIX@, seed_ids@.len()),
    {
        pending_seeds(seed_ids, strategy_ids, REQUEST_PREFIX, PLAN_PREFIX)
    }
}

/// The request id carried by a CP-SAT request seed id.
pub fn request_id(fact_id: &str) -> (r: &str)
    ensures
        r@ == spec_request_id(fact_id@, REQUEST_PREFIX@),
{
    crate::routing::request_id(fact_id, REQUEST_PREFIX)
}

/// Whether the plan for `request_id` is already among the strategies.
pub fn plan_exists(strategy_ids: &Vec<String>, request_id: &str) -> (r: bool)
    ensures
        r == holds_id(strategy_ids@, PLAN_PREFIX@ + request_id@),
{
    plan_in(strategy_ids, PLAN_PREFIX, request_id)
}

// ── Resolving names ──────────────────────────────────────────────────────────

/// The handle of the variable named `x` (-1 if none).
pub open spec fn var_handle(names: Seq<String>, x: Seq<char>) -> int {
    last_of(views(names), x, names.len())
}

/// The first `k` terms with a declared variable, as handles and coefficients.
pub open spec fn resolve_terms(names: Seq<String>, terms: Seq<CpTerm>, k: nat) -> (Seq<usize>, Seq<i64>)
    decreases k,
{
    if k == 0 {
        (Seq::empty(), Seq::empty())
    } else {
        let (v, c) = resolve_terms(names, terms, (k - 1) as nat);
        let h = var_handle(names, terms[k - 1].var@);
        if h >= 0 { (v.push(h as usize), c.push(terms[k - 1].coeff)) } else { (v, c) }
    }
}

/// Handles of the first `k` names in `xs` that name an entry of `table`,
/// offset by `base`.
pub open spec fn resolve_names(table: Seq<Seq<char>>, base: int, xs: Seq<String>, k: nat) -> Seq<usize>
    decreases k,
{
    if k == 0 {
        Seq::empty()
    } else {
        let prev = resolve_names(table, base, xs, (k - 1) as nat);
        let h = last_of(table, xs[k - 1]@, table.len());
        if h >= 0 { prev.push((base + h) as usize) } else { prev }
    }
}

/// The terms whose variable is declared, as handles and coefficients.
pub fn terms_to_vecs(terms: &Vec<CpTerm>, names: &Vec<String>) -> (r: (Vec<usize>, Vec<i64>))
    ensures
        (r.0@, r.1@) == resolve_terms(names@, terms@, terms@.len()),
{
    let mut vars: Vec<usize> = Vec::new();
    let mut coeffs: Vec<i64> = Vec::new();
    let mut k: usize = 0;
    while k < terms.len()
        invariant
            k <= terms@.len(),
            (vars@, coeffs@) == resolve_terms(names@, terms@, k as nat),
        decreases terms.len() - k,
    {
        match last_index_of(names, terms[k].var.as_str()) {
            Some(h) => {
                vars.push(h);
                coeffs.push(terms[k].coeff);
            },
            None => {},
        }
        k = k + 1;
    }
    (vars, coeffs)
}

/// The names in `xs` that name an entry of `table`, as handles offset by `base`.
fn names_to_handles(xs: &Vec<String>, table: &Vec<String>, base: usize) -> (r: Vec<usize>)
    requires
        base + table@.len() <= usize::MAX,
    ensures
        r@ == resolve_names(views(table@), base as int, xs@, xs@.len()),
{
    let mut r: Vec<usize> = Vec::new();
    let mut k: usize = 0;
    while k < xs.len()
        invariant
            k <= xs@.len(),
            base + table@.len() <= usize::MAX,
            r@ == resolve_names(views(table@), base as int, xs@, k as nat),
        decreases xs.len() - k,
    {
        match last_index_of(table, xs[k].as_str()) {
            Some(h) => r.push(base + h),
            None => {},
        }
        k = k + 1;
    }
    r
}

// ── The model ────────────────────────────────────────────────────────────────

pub open spec fn var_names(req: CpSatRequest) -> Seq<String> {
    Seq::new(req.variables@.len(), |i: int| req.variables@[i].name)
}

/// Declaration of a variable: an integer variable in its bounds, and for
/// one marked boolean those bounds within `[0, 1]` (a 0/1 variable, which
/// the solver treats as a Boolean).
pub open spec fn var_decl(v: CpVariable) -> StepView {
    if v.is_bool {
        decl(
            ModelOp::IntVar {
                lb: if v.lb > 0 { v.lb } else { 0 },
                ub: if v.ub < 1 { v.ub } else { 1 },
            },
            v.name@,
        )
    } else {
        decl(ModelOp::IntVar { lb: v.lb, ub: v.ub }, v.name@)
    }
}

/// The fixed intervals among the first `k` definitions whose start and end
/// name declared variables: their declarations and names.
pub open spec fn fixed_intervals(req: CpSatRequest, k: nat) -> (Seq<StepView>, Seq<Seq<char>>)
    decreases k,
{
    if k == 0 {
        (Seq::empty(), Seq::empty())
    } else {
        let (steps, ns) = fixed_intervals(req, (k - 1) as nat);
        let d = req.interval_vars@[k - 1];
        let names = var_names(req);
        let s = var_handle(names, d.start_var@);
        let e = var_handle(names, d.end_var@);
        if s >= 0 && e >= 0 {
            (
                steps.push(
                    decl(ModelOp::FixedInterval { start: s as usize, duration: d.duration, end: e as usize }, d.name@),
                ),
                ns.push(d.name@),
            )
        } else {
            (steps, ns)
        }
    }
}

/// The optional intervals among the first `k` definitions whose start, end
/// and literal name declared variables.
pub open spec fn optional_intervals(req: CpSatRequest, k: nat) -> (Seq<StepView>, Seq<Seq<char>>)
    decreases k,
{
    if k == 0 {
        (Seq::empty(), Seq::empty())
    } else {
        let (steps, ns) = optional_intervals(req, (k - 1) as nat);
        let d = req.optional_interval_vars@[k - 1];
        let names = var_names(req);
        let s = var_handle(names, d.start_var@);
        let e = var_handle(names, d.end_var@);
        let l = var_handle(names, d.lit_var@);
        if s >= 0 && e >= 0 && l >= 0 {
            (
                steps.push(
                    decl(
                        ModelOp::OptionalInterval {
                            start: s as usize,
                            duration: d.duration,
                            end: e as usize,
                            presence: l as usize,
                        },
                        d.name@,
                    ),
                ),
                ns.push(d.name@),
            )
        } else {
            (steps, ns)
        }
    }
}

/// Names of all declared intervals, fixed ones first; an interval's handle is
/// the number of variables plus its position here.
pub open spec fn interval_names(req: CpSatRequest) -> Seq<Seq<char>> {
    fixed_intervals(req, req.interval_vars@.len()).1 + optional_intervals(req, req.optional_interval_vars@.len()).1
}

/// The step of one constraint.
pub open spec fn constraint_step(req: CpSatRequest, c: ConstraintKind) -> StepView {
    let names = var_names(req);
    match c {
        ConstraintKind::LinearLe { terms, rhs } => {
            let (v, k) = resolve_terms(names, terms@, terms@.len());
            linear(ModelOp::LinearLe { rhs }, v, k)
        },
        ConstraintKind::LinearGe { terms, rhs } => {
            let (v, k) = resolve_terms(names, terms@, terms@.len());
            linear(ModelOp::LinearGe { rhs }, v, k)
        },
        ConstraintKind::LinearEq { terms, rhs } => {
            let (v, k) = resolve_terms(names, terms@, terms@.len());
            linear(ModelOp::LinearEq { rhs }, v, k)
        },
        ConstraintKind::AllDifferent { vars } => listing(
            ModelOp::AllDifferent,
            resolve_names(views(names), 0, vars@, vars@.len()),
        ),
        ConstraintKind::NoOverlap { intervals } => listing(
            ModelOp::NoOverlap,
            resolve_names(interval_names(req), req.variables@.len() as int, intervals@, intervals@.len()),
        ),
    }
}

/// The whole model.
pub open spec fn cp_model(req: CpSatRequest) -> Seq<StepView> {
    let vars = Seq::new(req.variables@.len(), |i: int| var_decl(req.variables@[i]));
    let cons = Seq::new(req.constraints@.len(), |i: int| constraint_step(req, req.constraints@[i]));
    let obj = match req.objective_terms {
        Some(terms) => {
            let (v, k) = resolve_terms(var_names(req), terms@, terms@.len());
            seq![linear(if req.minimize { ModelOp::Minimize } else { ModelOp::Maximize }, v, k)]
        },
        None => Seq::empty(),
    };
    vars + fixed_intervals(req, req.interval_vars@.len()).0 + optional_intervals(
        req,
        req.optional_interval_vars@.len(),
    ).0 + cons + obj
}

/// The model's handles fit in `usize`.
pub open spec fn cp_model_fits(req: CpSatRequest) -> bool {
    req.variables@.len() + req.interval_vars@.len() + req.optional_interval_vars@.len() + req.constraints@.len()
        + 2 < usize::MAX
}

proof fn lemma_intervals_len(req: CpSatRequest, k: nat, j: nat)
    requires
        k <= req.interval_vars@.len(),
        j <= req.optional_interval_vars@.len(),
    ensures
        fixed_intervals(req, k).0.len() == fixed_intervals(req, k).1.len() <= k,
        optional_intervals(req, j).0.len() == optional_intervals(req, j).1.len() <= j,
    decreases k + j,
{
    if k > 0 {
        lemma_intervals_len(req, (k - 1) as nat, j);
    } else if j > 0 {
        lemma_intervals_len(req, k, (j - 1) as nat);
    }
}

// ── The model refers only to what it declares ───────────────────────────────

proof fn lemma_resolve_terms(names: Seq<String>, terms: Seq<CpTerm>, k: nat)
    requires
        k <= terms.len(),
        names.len() <= usize::MAX,
    ensures
        resolve_terms(names, terms, k).0.len() == resolve_terms(names, terms, k).1.len(),
        forall|x: int|
            0 <= x < resolve_terms(names, terms, k).0.len() ==> #[trigger] resolve_terms(names, terms, k).0[x]
                < names.len(),
    decreases k,
{
    if k > 0 {
        lemma_resolve_terms(names, terms, (k - 1) as nat);
        lemma_last_of_range(views(names), terms[k - 1].var@, names.len());
        let prev = resolve_terms(names, terms, (k - 1) as nat).0;
        let cur = resolve_terms(names, terms, k).0;
        assert forall|x: int| 0 <= x < cur.len() implies #[trigger] cur[x] < names.len() by {
            if x < prev.len() {
                assert(cur[x] == prev[x]);
            }
        }
    }
}

proof fn lemma_resolve_names(table: Seq<Seq<char>>, base: int, xs: Seq<String>, k: nat)
    requires
        k <= xs.len(),
        0 <= base,
        base + table.len() <= usize::MAX,
    ensures
        forall|x: int|
            0 <= x < resolve_names(table, base, xs, k).len() ==> base <= #[trigger] resolve_names(table, base, xs, k)[x]
                < base + table.len(),
    decreases k,
{
    if k > 0 {
        lemma_resolve_names(table, base, xs, (k - 1) as nat);
        lemma_last_of_range(table, xs[k - 1]@, table.len());
        let prev = resolve_names(table, base, xs, (k - 1) as nat);
        let cur = resolve_names(table, base, xs, k);
        assert forall|x: int| 0 <= x < cur.len() implies base <= #[trigger] cur[x] < base + table.len() by {
            if x < prev.len() {
                assert(cur[x] == prev[x]);
            }
        }
    }
}

/// Each declared interval spans (and, if optional, is present by) declared
/// variables.
proof fn lemma_interval_elems(req: CpSatRequest, k: nat, j: nat)
    requires
        k <= req.interval_vars@.len(),
        j <= req.optional_interval_vars@.len(),
        cp_model_fits(req),
    ensures
        forall|x: int|
            0 <= x < fixed_intervals(req, k).0.len() ==> ((#[trigger] fixed_intervals(req, k).0[x]).0 matches ModelOp::FixedInterval {
                start,
                end,
                ..
            } && start < req.variables@.len() && end < req.variables@.len()),
        forall|x: int|
            0 <= x < optional_intervals(req, j).0.len() ==> ((#[trigger] optional_intervals(req, j).0[x]).0 matches ModelOp::OptionalInterval {
                start,
                end,
                presence,
                ..
            } && start < req.variables@.len() && end < req.variables@.len() && presence < req.variables@.len()),
    decreases k + j,
{
    let names = var_names(req);
    let nv = req.variables@.len();
    if k > 0 {
        lemma_interval_elems(req, (k - 1) as nat, j);
        let d = req.interval_vars@[k - 1];
        lemma_last_of_range(views(names), d.start_var@, nv);
        lemma_last_of_range(views(names), d.end_var@, nv);
        let prev = fixed_intervals(req, (k - 1) as nat).0;
        let cur = fixed_intervals(req, k).0;
        assert forall|x: int| 0 <= x < cur.len() implies ((#[trigger] cur[x]).0 matches ModelOp::FixedInterval {
            start,
            end,
            ..
        } && start < nv && end < nv) by {
            if x < prev.len() {
                assert(cur[x] == prev[x]);
            }
        }
    } else if j > 0 {
        lemma_interval_elems(req, k, (j - 1) as nat);
        let d = req.optional_interval_vars@[j - 1];
        lemma_last_of_range(views(names), d.start_var@, nv);
        lemma_last_of_range(views(names), d.end_var@, nv);
        lemma_last_of_range(views(names), d.lit_var@, nv);
        let prev = optional_intervals(req, (j - 1) as nat).0;
        let cur = optional_intervals(req, j).0;
        assert forall|x: int| 0 <= x < cur.len() implies ((#[trigger] cur[x]).0 matches ModelOp::OptionalInterval {
            start,
            end,
            presence,
            ..
        } && start < nv && end < nv && presence < nv) by {
            if x < prev.len() {
                assert(cur[x] == prev[x]);
            }
        }
    }
}

/// The generic model refers only to what it declares: each interval spans
/// declared variables, each constraint and the objective weigh declared
/// variables with one coefficient each, and each no-overlap lists declared
/// intervals; names that denote nothing have been left out.
pub proof fn lemma_cp_model_well_formed(req: CpSatRequest)
    requires
        cp_model_fits(req),
    ensures
        well_formed(cp_model(req)),
{
    let nv = req.variables@.len();
    let names = var_names(req);
    let m = cp_model(req);
    let nf = req.interval_vars@.len();
    let no = req.optional_interval_vars@.len();
    lemma_intervals_len(req, nf, no);
    lemma_interval_elems(req, nf, no);
    let fx = fixed_intervals(req, nf).0;
    let op = optional_intervals(req, no).0;
    let vars = Seq::new(nv, |i: int| var_decl(req.variables@[i]));
    let cons = Seq::new(req.constraints@.len(), |i: int| constraint_step(req, req.constraints@[i]));
    let fb = nv as int;
    let ob = fb + fx.len();
    let cb = ob + op.len();
    let zb = cb + cons.len();
    assert(views(names).len() == nv);
    assert forall|v: int| 0 <= v < nv implies declares_var(m, v, fb) by {
        assert(m[v] == vars[v]);
    }
    assert forall|v: int| fb <= v < cb implies declares_interval(m, v, cb) by {
        if v < ob {
            assert(m[v] == fx[v - fb]);
        } else {
            assert(m[v] == op[v - ob]);
        }
    }
    assert forall|q: int| 0 <= q < m.len() implies #[trigger] step_refs_ok(m, q) by {
        if q < fb {
            assert(m[q] == vars[q]);
        } else if q < ob {
            assert(m[q] == fx[q - fb]);
            assert(declares_var(m, m[q].0->FixedInterval_start as int, fb));
            assert(declares_var(m, m[q].0->FixedInterval_end as int, fb));
        } else if q < cb {
            assert(m[q] == op[q - ob]);
            assert(declares_var(m, m[q].0->OptionalInterval_start as int, fb));
            assert(declares_var(m, m[q].0->OptionalInterval_end as int, fb));
            assert(declares_var(m, m[q].0->OptionalInterval_presence as int, fb));
        } else if q < zb {
            let c = req.constraints@[q - cb];
            assert(m[q] == constraint_step(req, c));
            match c {
                ConstraintKind::LinearLe { terms, rhs } => {
                    lemma_resolve_terms(names, terms@, terms@.len());
                },
                ConstraintKind::LinearGe { terms, rhs } => {
                    lemma_resolve_terms(names, terms@, terms@.len());
                },
                ConstraintKind::LinearEq { terms, rhs } => {
                    lemma_resolve_terms(names, terms@, terms@.len());
                },
                ConstraintKind::AllDifferent { vars } => {
                    lemma_resolve_names(views(names), 0, vars@, vars@.len());
                },
                ConstraintKind::NoOverlap { intervals } => {
                    assert(interval_names(req).len() == fx.len() + op.len());
                    lemma_resolve_names(interval_names(req), nv as int, intervals@, intervals@.len());
                },
            }
        } else {
            let terms = req.objective_terms->0;
            lemma_resolve_terms(names, terms@, terms@.len());
        }
    }
}

// ── What a solution of the model means ─────────────────────────────────────

/// The constraint holds of the values, over the variables its names denote
/// (names that denote nothing are left out, as in the model).
pub open spec fn constraint_holds(req: CpSatRequest, values: Seq<i64>, c: ConstraintKind) -> bool {
    let names = var_names(req);
    match c {
        ConstraintKind::LinearLe { terms, rhs } => {
            let (v, k) = resolve_terms(names, terms@, terms@.len());
            weighted_sum(v, k, values, v.len()) <= rhs
        },
        ConstraintKind::LinearGe { terms, rhs } => {
            let (v, k) = resolve_terms(names, terms@, terms@.len());
            weighted_sum(v, k, values, v.len()) >= rhs
        },
        ConstraintKind::LinearEq { terms, rhs } => {
            let (v, k) = resolve_terms(names, terms@, terms@.len());
            weighted_sum(v, k, values, v.len()) == rhs
        },
        ConstraintKind::AllDifferent { vars } => {
            let hs = resolve_names(views(names), 0, vars@, vars@.len());
            forall|i: int, i2: int| 0 <= i < i2 < hs.len() ==> values[#[trigger] hs[i] as int] != values[#[trigger] hs[i2] as int]
        },
        ConstraintKind::NoOverlap { intervals } => {
            let m = cp_model(req);
            let hs = resolve_names(interval_names(req), req.variables@.len() as int, intervals@, intervals@.len());
            forall|i: int, i2: int|
                0 <= i < hs.len() && 0 <= i2 < hs.len() && #[trigger] hs[i] != #[trigger] hs[i2] && iv_present(
                    m,
                    values,
                    hs[i] as int,
                ) && iv_present(m, values, hs[i2] as int) ==> iv_end(m, values, hs[i] as int) <= iv_start(
                    m,
                    values,
                    hs[i2] as int,
                ) || iv_end(m, values, hs[i2] as int) <= iv_start(m, values, hs[i] as int)
        },
    }
}

/// What values satisfying the generic model mean for the request: every
/// variable lies in its bounds (within `[0, 1]` when marked boolean), and
/// every constraint holds over the variables its names denote.
pub proof fn lemma_cp_solution_meaning(req: CpSatRequest, values: Seq<i64>)
    requires
        cp_model_fits(req),
        satisfies(cp_model(req), values),
    ensures
        forall|i: int|
            0 <= i < req.variables@.len() ==> {
                let v = #[trigger] req.variables@[i];
                &&& v.lb <= values[i] <= v.ub
                &&& v.is_bool ==> 0 <= values[i] <= 1
            },
        forall|i: int| 0 <= i < req.constraints@.len() ==> constraint_holds(req, values, #[trigger] req.constraints@[i]),
{
    let nv = req.variables@.len();
    let m = cp_model(req);
    let nf = req.interval_vars@.len();
    let no = req.optional_interval_vars@.len();
    lemma_intervals_len(req, nf, no);
    let fx = fixed_intervals(req, nf).0;
    let op = optional_intervals(req, no).0;
    let vars = Seq::new(nv, |i: int| var_decl(req.variables@[i]));
    let cb = nv + fx.len() + op.len();
    assert forall|i: int| 0 <= i < nv implies {
        let v = #[trigger] req.variables@[i];
        &&& v.lb <= values[i] <= v.ub
        &&& v.is_bool ==> 0 <= values[i] <= 1
    } by {
        assert(m[i] == vars[i]);
        lemma_step_holds(m, values, i);
    }
    assert forall|i: int| 0 <= i < req.constraints@.len() implies constraint_holds(
        req,
        values,
        #[trigger] req.constraints@[i],
    ) by {
        let c = req.constraints@[i];
        let st = constraint_step(req, c);
        assert(m[cb + i] == st);
        lemma_step_holds(m, values, cb + i);
        match c {
            ConstraintKind::LinearLe { terms, rhs } => {
                let (v, k) = resolve_terms(var_names(req), terms@, terms@.len());
                assert(st.2 == v && st.3 == k);
            },
            ConstraintKind::LinearGe { terms, rhs } => {
                let (v, k) = resolve_terms(var_names(req), terms@, terms@.len());
                assert(st.2 == v && st.3 == k);
            },
            ConstraintKind::LinearEq { terms, rhs } => {
                let (v, k) = resolve_terms(var_names(req), terms@, terms@.len());
                assert(st.2 == v && st.3 == k);
            },
            ConstraintKind::AllDifferent { vars } => {},
            ConstraintKind::NoOverlap { intervals } => {},
        }
    }
}

/// Builds the CP-SAT model of the request.
#[verifier::rlimit(40)]
pub fn build_cp_model(req: &CpSatRequest) -> (m: CpModel)
    requires
        cp_model_fits(*req),
    ensures
        m.spec_steps() == cp_model(*req),
{
    let nv = req.variables.len();
    let mut model = CpModel::new();
    let mut names: Vec<String> = Vec::new();
    let mut i: usize = 0;
    while i < nv
        invariant
            nv == req.variables@.len(),
            i <= nv,
            cp_model_fits(*req),
            names@ == var_names(*req).subrange(0, i as int),
            model.spec_steps() == Seq::new(i as nat, |x: int| var_decl(req.variables@[x])),
            model.steps@.len() == i,
        decreases nv - i,
    {
        let v = &req.variables[i];
        if v.is_bool {
            let lb = if v.lb > 0 { v.lb } else { 0 };
            let ub = if v.ub < 1 { v.ub } else { 1 };
            model.new_int_var(lb, ub, v.name.clone());
        } else {
            model.new_int_var(v.lb, v.ub, v.name.clone());
        }
        names.push(v.name.clone());
        proof {
            assert(names@ =~= var_names(*req).subrange(0, i + 1));
            assert(model.spec_steps() =~= Seq::new((i + 1) as nat, |x: int| var_decl(req.variables@[x])));
        }
        i = i + 1;
    }
    assert(names@ =~= var_names(*req));
    let ghost p1 = model.spec_steps();

    // fixed intervals
    let mut ivl: Vec<String> = Vec::new();
    let mut k: usize = 0;
    while k < req.interval_vars.len()
        invariant
            nv == req.variables@.len(),
            k <= req.interval_vars@.len(),
            cp_model_fits(*req),
            names@ == var_names(*req),
            model.spec_steps() == p1 + fixed_intervals(*req, k as nat).0,
            views(ivl@) == fixed_intervals(*req, k as nat).1,
            model.steps@.len() == nv + ivl@.len(),
            ivl@.len() <= k,
        decreases req.interval_vars.len() - k,
    {
        let d = &req.interval_vars[k];
        let s = last_index_of(&names, d.start_var.as_str());
        let e = last_index_of(&names, d.end_var.as_str());
        proof {
            lemma_intervals_len(*req, k as nat, 0);
        }
        match (s, e) {
            (Some(s), Some(e)) => {
                model.new_fixed_interval_var(s, d.duration, e, d.name.clone());
                ivl.push(d.name.clone());
            },
            _ => {},
        }
        proof {
            assert(views(ivl@) =~= fixed_intervals(*req, (k + 1) as nat).1);
        }
        k = k + 1;
    }
    let ghost p2 = model.spec_steps();
    let ghost nf = ivl@.len();

    // optional intervals
    let mut k: usize = 0;
    while k < req.optional_interval_vars.len()
        invariant
            nv == req.variables@.len(),
            k <= req.optional_interval_vars@.len(),
            cp_model_fits(*req),
            names@ == var_names(*req),
            nf <= req.interval_vars@.len(),
            model.spec_steps() == p2 + optional_intervals(*req, k as nat).0,
            views(ivl@) == fixed_intervals(*req, req.interval_vars@.len()).1 + optional_intervals(*req, k as nat).1,
            ivl@.len() == nf + optional_intervals(*req, k as nat).1.len(),
            optional_intervals(*req, k as nat).1.len() <= k,
            model.steps@.len() == nv + ivl@.len(),
        decreases req.optional_interval_vars.len() - k,
    {
        let d = &req.optional_interval_vars[k];
        let s = last_index_of(&names, d.start_var.as_str());
        let e = last_index_of(&names, d.end_var.as_str());
        let l = last_index_of(&names, d.lit_var.as_str());
        let ghost old_ivl = views(ivl@);
        proof {
            lemma_intervals_len(*req, 0, (k + 1) as nat);
        }
        match (s, e, l) {
            (Some(s), Some(e), Some(l)) => {
                model.new_optional_interval_var(s, d.duration, e, l, d.name.clone());
                ivl.push(d.name.clone());
            },
            _ => {},
        }
        proof {
            let f = fixed_intervals(*req, req.interval_vars@.len()).1;
            let o = optional_intervals(*req, k as nat).1;
            let o1 = optional_intervals(*req, (k + 1) as nat).1;
            if s is Some && e is Some && l is Some {
                assert(views(ivl@) =~= old_ivl.push(d.name@));
                assert(o1 == o.push(d.name@));
                assert((f + o).push(d.name@) =~= f + o.push(d.name@));
            } else {
                assert(views(ivl@) =~= old_ivl);
                assert(o1 == o);
            }
            assert(views(ivl@) =~= f + o1);
        }
        k = k + 1;
    }
    assert(views(ivl@) == interval_names(*req));
    let ghost p3 = model.spec_steps();

    // constraints
    let nc = req.constraints.len();
    let mut c: usize = 0;
    while c < nc
        invariant
            nv == req.variables@.len(),
            nc == req.constraints@.len(),
            c <= nc,
            cp_model_fits(*req),
            names@ == var_names(*req),
            views(ivl@) == interval_names(*req),
            ivl@.len() <= req.interval_vars@.len() + req.optional_interval_vars@.len(),
            p3.len() == nv + ivl@.len(),
            model.spec_steps() == p3 + Seq::new(c as nat, |x: int| constraint_step(*req, req.constraints@[x])),
            model.steps@.len() == p3.len() + c,
        decreases nc - c,
    {
        let ghost before = model.spec_steps();
        match &req.constraints[c] {
            ConstraintKind::LinearLe { terms, rhs } => {
                let (v, k) = terms_to_vecs(terms, &names);
                model.add_linear(ModelOp::LinearLe { rhs: *rhs }, v, k);
            },
            ConstraintKind::LinearGe { terms, rhs } => {
                let (v, k) = terms_to_vecs(terms, &names);
                model.add_linear(ModelOp::LinearGe { rhs: *rhs }, v, k);
            },
            ConstraintKind::LinearEq { terms, rhs } => {
                let (v, k) = terms_to_vecs(terms, &names);
                model.add_linear(ModelOp::LinearEq { rhs: *rhs }, v, k);
            },
            ConstraintKind::AllDifferent { vars } => {
                let hs = names_to_handles(vars, &names, 0);
                model.add_listing(ModelOp::AllDifferent, hs);
            },
            ConstraintKind::NoOverlap { intervals } => {
                let hs = names_to_handles(intervals, &ivl, nv);
                model.add_listing(ModelOp::NoOverlap, hs);
            },
        }
        proof {
            assert(model.spec_steps() =~= p3 + Seq::new((c + 1) as nat, |x: int| constraint_step(*req, req.constraints@[x])));
        }
        c = c + 1;
    }

    // objective
    match &req.objective_terms {
        Some(terms) => {
            let (v, k) = terms_to_vecs(terms, &names);
            if req.minimize {
                model.add_linear(ModelOp::Minimize, v, k);
            } else {
                model.add_linear(ModelOp::Maximize, v, k);
            }
        },
        None => {},
    }
    proof {
        lemma_intervals_len(*req, req.interval_vars@.len(), req.optional_interval_vars@.len());
        assert(model.spec_steps() =~= cp_model(*req));
    }
    model
}

// ── Reading the plan off a solution ──────────────────────────────────────────

/// Each variable's name with the value of the variable its name denotes.
pub open spec fn solved_values(req: CpSatRequest, values: Seq<i64>) -> Seq<(Seq<char>, i64)> {
    Seq::new(
        req.variables@.len(),
        |i: int| (req.variables@[i].name@, values[var_handle(var_names(req), req.variables@[i].name@)]),
    )
}

/// Whether `build_cp_model` can run on the request: its step count fits in
/// `usize`.
pub fn can_build_cp_model(req: &CpSatRequest) -> (r: bool)
    ensures
        r == cp_model_fits(*req),
{
    (req.variables.len() as u128) + (req.interval_vars.len() as u128) + (req.optional_interval_vars.len() as u128)
        + (req.constraints.len() as u128) + 2 < usize::MAX as u128
}

/// The plan read off a solution of `cp_model`: every variable's value when
/// the solver has a solution (none otherwise), and the objective value when
/// it has one and the request has an objective.
pub fn cp_plan_from_solution(req: &CpSatRequest, sol: &CpSolution) -> (plan: CpSatPlan)
    requires
        sol.status.spec_is_success() ==> sol.values@.len() >= req.variables@.len(),
    ensures
        plan.request_id@ == req.id@,
        plan.status@ == outcome_label(sol.status),
        plan.solver@ == "cp-sat-v9.15"@,
        !sol.status.spec_is_success() ==> plan.assignments@.len() == 0,
        sol.status.spec_is_success() ==> {
            &&& plan.assignments@.len() == req.variables@.len()
            &&& forall|i: int|
                0 <= i < plan.assignments@.len() ==> ((#[trigger] plan.assignments@[i]).0@, plan.assignments@[i].1)
                    == solved_values(*req, sol.values@)[i]
        },
        plan.objective_value == (if sol.status.spec_is_success() && req.objective_terms is Some {
            Some(sol.objective_value)
        } else {
            None::<i64>
        }),
{
    let status = outcome_name(sol.status);
    let mut assignments: Vec<(String, i64)> = Vec::new();
    if sol.status.is_success() {
        let nv = req.variables.len();
        let mut names: Vec<String> = Vec::new();
        let mut i: usize = 0;
        while i < nv
            invariant
                nv == req.variables@.len(),
                i <= nv,
                names@ == var_names(*req).subrange(0, i as int),
            decreases nv - i,
        {
            names.push(req.variables[i].name.clone());
            proof {
                assert(names@ =~= var_names(*req).subrange(0, i + 1));
            }
            i = i + 1;
        }
        assert(names@ =~= var_names(*req));
        let mut i: usize = 0;
        while i < nv
            invariant
                nv == req.variables@.len(),
                i <= nv,
                names@ == var_names(*req),
                sol.values@.len() >= nv,
                assignments@.len() == i,
                forall|x: int|
                    0 <= x < i ==> ((#[trigger] assignments@[x]).0@, assignments@[x].1) == solved_values(
                        *req,
                        sol.values@,
                    )[x],
            decreases nv - i,
        {
            let v = &req.variables[i];
            let found = last_index_of(&names, v.name.as_str());
            proof {
                lemma_last_of_range(views(names@), v.name@, names@.len());
                assert(views(names@)[i as int] == v.name@);
                crate::text::lemma_last_of_here(views(names@), v.name@, i as nat, names@.len());
            }
            match found {
                Some(h) => {
                    assignments.push((v.name.clone(), sol.values[h]));
                },
                None => {
                    proof {
                        assert(false);
                    }
                },
            }
            i = i + 1;
        }
    }
    let objective_value = if sol.status.is_success() && req.objective_terms.is_some() {
        Some(sol.objective_value)
    } else {
        None
    };
    CpSatPlan {
        request_id: req.id.clone(),
        status: String::from_str(status),
        assignments,
        objective_value,
        solver: String::from_str("cp-sat-v9.15"),
    }
}

} // verus!
