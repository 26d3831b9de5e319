//! A CP-SAT model as the list of the builder steps that make it.
//!
//! Each step declares a variable or an interval, or adds a constraint or the
//! objective, in the order a solver's model builder receives them. A step
//! that declares something is referred to by its position (its handle); the
//! solver's result gives a value per handle.
use vstd::prelude::*;

verus! {

/// What a builder step does. The operands are in the step's lists.
#[derive(Clone, Copy, PartialEq, Eq, Structural, Debug)]
pub enum ModelOp {
    /// An integer variable in `[lb, ub]`.
    IntVar { lb: i64, ub: i64 },
    /// A 0/1 variable.
    BoolVar,
    /// An interval `end == start + duration` over two variable handles.
    FixedInterval { start: usize, duration: i64, end: usize },
    /// An interval present only when the 0/1 variable `presence` is 1.
    OptionalInterval { start: usize, duration: i64, end: usize, presence: usize },
    /// `sum(coeffs[i] * vars[i]) <= rhs`.
    LinearLe { rhs: i64 },
    /// `sum(coeffs[i] * vars[i]) >= rhs`.
    LinearGe { rhs: i64 },
    /// `sum(coeffs[i] * vars[i]) == rhs`.
    LinearEq { rhs: i64 },
    /// The variables take pairwise different values.
    AllDifferent,
    /// The intervals listed in `vars` do not overlap.
    NoOverlap,
    /// The arcs `tails[i] -> heads[i]` chosen by the literals `vars[i]` form
    /// one circuit (self-loops skip a node).
    Circuit,
    /// Minimise `sum(coeffs[i] * vars[i])`.
    Minimize,
    /// Maximise `sum(coeffs[i] * vars[i])`.
    Maximize,
}

/// One builder step: the operation, the declared name (empty for
/// constraints), the variable or interval handles, the coefficients, and
/// for a circuit the arc ends.
pub struct ModelStep {
    pub op: ModelOp,
    pub name: String,
    pub vars: Vec<usize>,
    pub coeffs: Vec<i64>,
    pub tails: Vec<usize>,
    pub heads: Vec<usize>,
}

pub type StepView = (ModelOp, Seq<char>, Seq<usize>, Seq<i64>, Seq<usize>, Seq<usize>);

impl View for ModelStep {
    type V = StepView;

    open spec fn view(&self) -> StepView {
        (self.op, self.name@, self.vars@, self.coeffs@, self.tails@, self.heads@)
    }
}

/// The steps of a model, in order.
pub struct CpModel {
    pub steps: Vec<ModelStep>,
}

/// The views of the steps.
pub open spec fn steps_view(steps: Seq<ModelStep>) -> Seq<StepView> {
    Seq::new(steps.len(), |k: int| steps[k]@)
}

pub open spec fn decl(op: ModelOp, name: Seq<char>) -> StepView {
    (op, name, Seq::empty(), Seq::empty(), Seq::empty(), Seq::empty())
}

pub open spec fn linear(op: ModelOp, vars: Seq<usize>, coeffs: Seq<i64>) -> StepView {
    (op, Seq::empty(), vars, coeffs, Seq::empty(), Seq::empty())
}

pub open spec fn listing(op: ModelOp, vars: Seq<usize>) -> StepView {
    (op, Seq::empty(), vars, Seq::empty(), Seq::empty(), Seq::empty())
}

pub open spec fn circuit(tails: Seq<usize>, heads: Seq<usize>, lits: Seq<usize>) -> StepView {
    (ModelOp::Circuit, Seq::empty(), lits, Seq::empty(), tails, heads)
}

/// `n` copies of 1.
pub open spec fn ones(n: nat) -> Seq<i64> {
    Seq::new(n, |i: int| 1i64)
}

/// The step at handle `h`, before position `k`, declares a variable.
pub open spec fn declares_var(steps: Seq<StepView>, h: int, k: int) -> bool {
    &&& 0 <= h < k
    &&& (steps[h].0 is IntVar || steps[h].0 is BoolVar)
}

/// The step at handle `h`, before position `k`, declares an interval.
pub open spec fn declares_interval(steps: Seq<StepView>, h: int, k: int) -> bool {
    &&& 0 <= h < k
    &&& (steps[h].0 is FixedInterval || steps[h].0 is OptionalInterval)
}

/// Step `k` refers only to earlier declarations of the right kind, and a
/// weighted step has one coefficient per variable.
pub open spec fn step_refs_ok(steps: Seq<StepView>, k: int) -> bool {
    let s = steps[k];
    match s.0 {
        ModelOp::IntVar { .. } => true,
        ModelOp::BoolVar => true,
        ModelOp::FixedInterval { start, end, .. } => declares_var(steps, start as int, k) && declares_var(
            steps,
            end as int,
            k,
        ),
        ModelOp::OptionalInterval { start, end, presence, .. } => {
            &&& declares_var(steps, start as int, k)
            &&& declares_var(steps, end as int, k)
            &&& declares_var(steps, presence as int, k)
        },
        ModelOp::NoOverlap => forall|i: int| 0 <= i < s.2.len() ==> declares_interval(steps, #[trigger] s.2[i] as int, k),
        ModelOp::AllDifferent => forall|i: int| 0 <= i < s.2.len() ==> declares_var(steps, #[trigger] s.2[i] as int, k),
        ModelOp::Circuit => {
            &&& s.4.len() == s.2.len()
            &&& s.5.len() == s.2.len()
            &&& forall|i: int| 0 <= i < s.2.len() ==> declares_var(steps, #[trigger] s.2[i] as int, k)
        },
        _ => {
            &&& s.3.len() == s.2.len()
            &&& forall|i: int| 0 <= i < s.2.len() ==> declares_var(steps, #[trigger] s.2[i] as int, k)
        },
    }
}

/// Every step refers only to what earlier steps declare.
pub open spec fn well_formed(steps: Seq<StepView>) -> bool {
    forall|k: int| 0 <= k < steps.len() ==> #[trigger] step_refs_ok(steps, k)
}

// ── What a solution of a model satisfies ─────────────────────────────────────

/// `sum(coeffs[i] * values[vars[i]])` over the first `n` terms.
pub open spec fn weighted_sum(vars: Seq<usize>, coeffs: Seq<i64>, values: Seq<i64>, n: nat) -> int
    decreases n,
{
    if n == 0 {
        0
    } else {
        weighted_sum(vars, coeffs, values, (n - 1) as nat) + coeffs[n - 1] * values[vars[n - 1] as int]
    }
}

/// Start, end and presence of the interval declared at handle `h`.
pub open spec fn iv_start(steps: Seq<StepView>, values: Seq<i64>, h: int) -> int {
    match steps[h].0 {
        ModelOp::FixedInterval { start, .. } => values[start as int] as int,
        ModelOp::OptionalInterval { start, .. } => values[start as int] as int,
        _ => 0,
    }
}

pub open spec fn iv_end(steps: Seq<StepView>, values: Seq<i64>, h: int) -> int {
    match steps[h].0 {
        ModelOp::FixedInterval { end, .. } => values[end as int] as int,
        ModelOp::OptionalInterval { end, .. } => values[end as int] as int,
        _ => 0,
    }
}

pub open spec fn iv_present(steps: Seq<StepView>, values: Seq<i64>, h: int) -> bool {
    match steps[h].0 {
        ModelOp::OptionalInterval { presence, .. } => values[presence as int] == 1,
        _ => true,
    }
}

/// The head of a used arc of the circuit step `s` that leaves node `u`.
pub open spec fn circuit_next(s: StepView, values: Seq<i64>, u: usize) -> usize {
    let y = choose|y: int| 0 <= y < s.2.len() && values[s.2[y] as int] == 1 && s.4[y] == u;
    s.5[y]
}

/// Node `u` after `k` steps along the used arcs.
pub open spec fn circuit_walk(s: StepView, values: Seq<i64>, u: usize, k: nat) -> usize
    decreases k,
{
    if k == 0 { u } else { circuit_next(s, values, circuit_walk(s, values, u, (k - 1) as nat)) }
}

/// Node `u` is not skipped: its used outgoing arc is not its self-loop.
pub open spec fn circuit_visits(s: StepView, values: Seq<i64>, u: usize) -> bool {
    circuit_next(s, values, u) != u
}

/// Step `k` holds of the values (one value per handle). For a circuit: each
/// node (tail or head of a listed arc) has exactly one used outgoing arc and
/// exactly one used incoming arc (its self-loop, where it is skipped), and
/// the nodes that are not skipped lie on one cycle: each reaches every other
/// along used arcs. The objective states no condition.
#[verifier::opaque]
pub open spec fn step_holds(steps: Seq<StepView>, values: Seq<i64>, k: int) -> bool {
    let s = steps[k];
    let sum = weighted_sum(s.2, s.3, values, s.2.len());
    match s.0 {
        ModelOp::IntVar { lb, ub } => lb <= values[k] <= ub,
        ModelOp::BoolVar => values[k] == 0 || values[k] == 1,
        ModelOp::FixedInterval { start, duration, end } => values[end as int] == values[start as int] + duration,
        ModelOp::OptionalInterval { start, duration, end, presence } => values[presence as int] == 1
            ==> values[end as int] == values[start as int] + duration,
        ModelOp::LinearLe { rhs } => sum <= rhs,
        ModelOp::LinearGe { rhs } => sum >= rhs,
        ModelOp::LinearEq { rhs } => sum == rhs,
        ModelOp::AllDifferent => forall|i: int, i2: int|
            0 <= i < i2 < s.2.len() ==> values[#[trigger] s.2[i] as int] != values[#[trigger] s.2[i2] as int],
        ModelOp::Circuit => {
            &&& forall|y1: int, y2: int|
                0 <= y1 < s.2.len() && 0 <= y2 < s.2.len() && y1 != y2 && values[#[trigger] s.2[y1] as int] == 1
                    && values[#[trigger] s.2[y2] as int] == 1 ==> s.4[y1] != s.4[y2] && s.5[y1] != s.5[y2]
            &&& forall|y: int|
                #![trigger s.4[y]]
                #![trigger s.5[y]]
                0 <= y < s.2.len() ==> (exists|y2: int|
                    0 <= y2 < s.2.len() && values[s.2[y2] as int] == 1 && #[trigger] s.4[y2] == s.4[y]) && (exists|
                    y3: int,
                |
                    0 <= y3 < s.2.len() && values[s.2[y3] as int] == 1 && #[trigger] s.5[y3] == s.5[y])
            &&& forall|y1: int, y2: int|
                0 <= y1 < s.2.len() && 0 <= y2 < s.2.len() && circuit_visits(s, values, #[trigger] s.4[y1])
                    && circuit_visits(s, values, #[trigger] s.4[y2]) ==> exists|k: nat|
                    k <= s.2.len() && #[trigger] circuit_walk(s, values, s.4[y1], k) == s.4[y2]
        },
        ModelOp::NoOverlap => forall|i: int, i2: int|
            0 <= i < s.2.len() && 0 <= i2 < s.2.len() && #[trigger] s.2[i] != #[trigger] s.2[i2] && iv_present(
                steps,
                values,
                s.2[i] as int,
            ) && iv_present(steps, values, s.2[i2] as int) ==> iv_end(steps, values, s.2[i] as int) <= iv_start(
                steps,
                values,
                s.2[i2] as int,
            ) || iv_end(steps, values, s.2[i2] as int) <= iv_start(steps, values, s.2[i] as int),
        _ => true,
    }
}

/// The values (one per handle) satisfy every step of the model.
pub open spec fn satisfies(steps: Seq<StepView>, values: Seq<i64>) -> bool {
    &&& values.len() >= steps.len()
    &&& forall|k: int| 0 <= k < steps.len() ==> #[trigger] step_holds(steps, values, k)
}

/// A two-term difference `values[vars[0]] - values[vars[1]]`.
pub proof fn lemma_weighted_difference(vars: Seq<usize>, coeffs: Seq<i64>, values: Seq<i64>)
    requires
        vars.len() == 2,
        coeffs == seq![1i64, -1i64],
    ensures
        weighted_sum(vars, coeffs, values, 2) == values[vars[0] as int] - values[vars[1] as int],
{
    assert(coeffs[0] == 1i64 && coeffs[1] == -1i64);
    assert(weighted_sum(vars, coeffs, values, 0) == 0);
    assert(weighted_sum(vars, coeffs, values, 1) == 1 * values[vars[0] as int]);
    assert(weighted_sum(vars, coeffs, values, 2) == weighted_sum(vars, coeffs, values, 1) + (-1) * values[vars[1] as int]);
}

/// A three-term weighted sum.
pub proof fn lemma_weighted_three(vars: Seq<usize>, coeffs: Seq<i64>, values: Seq<i64>)
    requires
        vars.len() == 3,
        coeffs.len() == 3,
    ensures
        weighted_sum(vars, coeffs, values, 3) == coeffs[0] * values[vars[0] as int] + coeffs[1] * values[vars[1] as int]
            + coeffs[2] * values[vars[2] as int],
{
    assert(weighted_sum(vars, coeffs, values, 0) == 0);
    assert(weighted_sum(vars, coeffs, values, 1) == coeffs[0] * values[vars[0] as int]);
    assert(weighted_sum(vars, coeffs, values, 2) == weighted_sum(vars, coeffs, values, 1) + coeffs[1]
        * values[vars[1] as int]);
    assert(weighted_sum(vars, coeffs, values, 3) == weighted_sum(vars, coeffs, values, 2) + coeffs[2]
        * values[vars[2] as int]);
}

/// What step `k` of a satisfied model says of the values.
pub proof fn lemma_step_holds(steps: Seq<StepView>, values: Seq<i64>, k: int)
    requires
        satisfies(steps, values),
        0 <= k < steps.len(),
    ensures
        steps[k].0 matches ModelOp::IntVar { lb, ub } ==> lb <= values[k] <= ub,
        steps[k].0 is BoolVar ==> values[k] == 0 || values[k] == 1,
        steps[k].0 matches ModelOp::FixedInterval { start, duration, end } ==> values[end as int] == values[start as int]
            + duration,
        steps[k].0 matches ModelOp::OptionalInterval { start, duration, end, presence } ==> (values[presence as int]
            == 1 ==> values[end as int] == values[start as int] + duration),
        steps[k].0 matches ModelOp::LinearGe { rhs } ==> weighted_sum(steps[k].2, steps[k].3, values, steps[k].2.len())
            >= rhs,
        steps[k].0 matches ModelOp::LinearLe { rhs } ==> weighted_sum(steps[k].2, steps[k].3, values, steps[k].2.len())
            <= rhs,
        steps[k].0 matches ModelOp::LinearEq { rhs } ==> weighted_sum(steps[k].2, steps[k].3, values, steps[k].2.len())
            == rhs,
        steps[k].0 is AllDifferent ==> forall|i: int, i2: int|
            0 <= i < i2 < steps[k].2.len() ==> values[#[trigger] steps[k].2[i] as int] != values[#[trigger] steps[k].2[i2] as int],
        steps[k].0 is Circuit ==> forall|y1: int, y2: int|
            0 <= y1 < steps[k].2.len() && 0 <= y2 < steps[k].2.len() && y1 != y2 && values[#[trigger] steps[k].2[y1] as int]
                == 1 && values[#[trigger] steps[k].2[y2] as int] == 1 ==> steps[k].4[y1] != steps[k].4[y2]
                && steps[k].5[y1] != steps[k].5[y2],
        steps[k].0 is NoOverlap ==> forall|i: int, i2: int|
            0 <= i < steps[k].2.len() && 0 <= i2 < steps[k].2.len() && #[trigger] steps[k].2[i]
                != #[trigger] steps[k].2[i2] && iv_present(steps, values, steps[k].2[i] as int) && iv_present(
                steps,
                values,
                steps[k].2[i2] as int,
            ) ==> iv_end(steps, values, steps[k].2[i] as int) <= iv_start(steps, values, steps[k].2[i2] as int)
                || iv_end(steps, values, steps[k].2[i2] as int) <= iv_start(steps, values, steps[k].2[i] as int),
{
    assert(step_holds(steps, values, k));
    reveal(step_holds);
}

impl CpModel {
    pub open spec fn spec_steps(&self) -> Seq<StepView> {
        steps_view(self.steps@)
    }

    pub fn new() -> (m: CpModel)
        ensures
            m.spec_steps() == Seq::<StepView>::empty(),
            m.steps@.len() == 0,
    {
        let m = CpModel { steps: Vec::new() };
        assert(m.spec_steps() =~= Seq::<StepView>::empty());
        m
    }

    fn push(&mut self, op: ModelOp, name: String, vars: Vec<usize>, coeffs: Vec<i64>, tails: Vec<usize>, heads: Vec<usize>) -> (h: usize)
        requires
            old(self).steps@.len() < usize::MAX,
        ensures
            h == old(self).steps@.len(),
            final(self).steps@.len() == old(self).steps@.len() + 1,
            final(self).spec_steps() == old(self).spec_steps().push((op, name@, vars@, coeffs@, tails@, heads@)),
    {
        let h = self.steps.len();
        let ghost before = self.spec_steps();
        self.steps.push(ModelStep { op, name, vars, coeffs, tails, heads });
        assert(self.spec_steps() =~= before.push((op, name@, vars@, coeffs@, tails@, heads@)));
        h
    }

    pub fn new_int_var(&mut self, lb: i64, ub: i64, name: String) -> (h: usize)
        requires
            old(self).steps@.len() < usize::MAX,
        ensures
            h == old(self).steps@.len(),
            final(self).steps@.len() == old(self).steps@.len() + 1,
            final(self).spec_steps() == old(self).spec_steps().push(decl(ModelOp::IntVar { lb, ub }, name@)),
    {
        self.push(ModelOp::IntVar { lb, ub }, name, Vec::new(), Vec::new(), Vec::new(), Vec::new())
    }

    pub fn new_bool_var(&mut self, name: String) -> (h: usize)
        requires
            old(self).steps@.len() < usize::MAX,
        ensures
            h == old(self).steps@.len(),
            final(self).steps@.len() == old(self).steps@.len() + 1,
            final(self).spec_steps() == old(self).spec_steps().push(decl(ModelOp::BoolVar, name@)),
    {
        self.push(ModelOp::BoolVar, name, Vec::new(), Vec::new(), Vec::new(), Vec::new())
    }

    pub fn new_fixed_interval_var(&mut self, start: usize, duration: i64, end: usize, name: String) -> (h: usize)
        requires
            old(self).steps@.len() < usize::MAX,
        ensures
            h == old(self).steps@.len(),
            final(self).steps@.len() == old(self).steps@.len() + 1,
            final(self).spec_steps() == old(self).spec_steps().push(
                decl(ModelOp::FixedInterval { start, duration, end }, name@),
            ),
    {
        self.push(ModelOp::FixedInterval { start, duration, end }, name, Vec::new(), Vec::new(), Vec::new(), Vec::new())
    }

    pub fn new_optional_interval_var(
        &mut self,
        start: usize,
        duration: i64,
        end: usize,
        presence: usize,
        name: String,
    ) -> (h: usize)
        requires
            old(self).steps@.len() < usize::MAX,
        ensures
            h == old(self).steps@.len(),
            final(self).steps@.len() == old(self).steps@.len() + 1,
            final(self).spec_steps() == old(self).spec_steps().push(
                decl(ModelOp::OptionalInterval { start, duration, end, presence }, name@),
            ),
    {
        self.push(
            ModelOp::OptionalInterval { start, duration, end, presence },
            name,
            Vec::new(),
            Vec::new(),
            Vec::new(),
            Vec::new(),
        )
    }

    /// A linear constraint or objective (`op` is one of the linear kinds).
    pub fn add_linear(&mut self, op: ModelOp, vars: Vec<usize>, coeffs: Vec<i64>)
        requires
            old(self).steps@.len() < usize::MAX,
        ensures
            final(self).steps@.len() == old(self).steps@.len() + 1,
            final(self).spec_steps() == old(self).spec_steps().push(linear(op, vars@, coeffs@)),
    {
        self.push(op, String::new(), vars, coeffs, Vec::new(), Vec::new());
    }

    /// A constraint over a list of handles (`AllDifferent` or `NoOverlap`).
    pub fn add_listing(&mut self, op: ModelOp, vars: Vec<usize>)
        requires
            old(self).steps@.len() < usize::MAX,
        ensures
            final(self).steps@.len() == old(self).steps@.len() + 1,
            final(self).spec_steps() == old(self).spec_steps().push(listing(op, vars@)),
    {
        self.push(op, String::new(), vars, Vec::new(), Vec::new(), Vec::new());
    }

    pub fn add_circuit(&mut self, tails: Vec<usize>, heads: Vec<usize>, lits: Vec<usize>)
        requires
            old(self).steps@.len() < usize::MAX,
        ensures
            final(self).steps@.len() == old(self).steps@.len() + 1,
            final(self).spec_steps() == old(self).spec_steps().push(circuit(tails@, heads@, lits@)),
    {
        self.push(ModelOp::Circuit, String::new(), lits, Vec::new(), tails, heads);
    }
}

/// `n` copies of 1.
pub fn ones_vec(n: usize) -> (r: Vec<i64>)
    ensures
        r@ == ones(n as nat),
{
    let mut r: Vec<i64> = Vec::new();
    let mut i: usize = 0;
    while i < n
        invariant
            i <= n,
            r@ =~= ones(i as nat),
        decreases n - i,
    {
        r.push(1);
        i = i + 1;
    }
    r
}

/// How a CP-SAT solve ended.
#[derive(Clone, Copy, PartialEq, Eq, Structural, Debug)]
pub enum CpStatus {
    Optimal,
    Feasible,
    Infeasible,
    Unbounded,
    /// Any other outcome (invalid model, unknown, ...).
    Other,
}

impl CpStatus {
    /// A solution is available.
    pub open spec fn spec_is_success(self) -> bool {
        self is Optimal || self is Feasible
    }

    pub fn is_success(self) -> (r: bool)
        ensures
            r == self.spec_is_success(),
    {
        match self {
            CpStatus::Optimal | CpStatus::Feasible => true,
            _ => false,
        }
    }
}

/// The solver's answer: the status, the value of each declared variable by
/// handle (entries of other steps are unused), and the objective value.
pub struct CpSolution {
    pub status: CpStatus,
    pub values: Vec<i64>,
    pub objective_value: i64,
}

/// Name of a solver outcome in a generic plan (CP-SAT or LP request).
pub open spec fn outcome_label(s: CpStatus) -> Seq<char> {
    match s {
        CpStatus::Optimal => "optimal"@,
        CpStatus::Feasible => "feasible"@,
        CpStatus::Infeasible => "infeasible"@,
        CpStatus::Unbounded => "unbounded"@,
        CpStatus::Other => "error"@,
    }
}

pub fn outcome_name(s: CpStatus) -> (r: &'static str)
    ensures
        r@ == outcome_label(s),
{
    match s {
        CpStatus::Optimal => "optimal",
        CpStatus::Feasible => "feasible",
        CpStatus::Infeasible => "infeasible",
        CpStatus::Unbounded => "unbounded",
        CpStatus::Other => "error",
    }
}

} // verus!
