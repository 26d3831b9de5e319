# ferrox

Solver suggestors for a converge engine: multi-agent task scheduling, job
shop scheduling, vehicle routing with time windows, and generic CP-SAT, LP
and MIP requests.

## Layout

- `src/` — the verified library (Verus).
  - `text`, `routing`: prefix trimming, request ids, and which seeded
    requests a suggestor still has to answer.
  - `order`: stable ordering by key, as a permutation of indices.
  - `cpmodel`: a CP-SAT model as the list of builder steps that make it,
    and the solver's answer by step position.
  - `scheduling`, `jobshop`, `vrptw`: the greedy solvers (EDF, SPT, nearest
    neighbour) in full, the CP-SAT models they hand to the solver, and the
    plans read back from a solution.
  - `cp`, `lp`, `mip`: generic requests — the CP-SAT model of a request,
    term-name resolution, and status names.
  - `highs`: HiGHS status codes.
- `tests/` — tests of the library on concrete values.
- `app/` — the engine-facing side: serde forms of requests and plans, the
  `Suggestor` impls over a converge context, the HiGHS C binding, the calls
  into OR-Tools, and the floating-point parts (coordinates, distances,
  confidences, wall times).

Each greedy solver states its result exactly (as a spec of the run) and
proves what every such result satisfies: assignments inside their windows,
no overlap on an agent or machine, precedence within a job, each operation
scheduled once, time windows and the depot deadline on a route. Each
CP-SAT model builder states the model it builds, and a law shows that every
step of it refers only to earlier declarations of the right kind. For the
scheduling, job shop and routing models, further laws say what values that
satisfy the model (`cpmodel::satisfies`) mean for the plan read from them:
tasks inside their windows and not overlapping on an agent, operations in
job order and not overlapping on a machine, customers served inside their
windows with travel times respected along the route, and a route that
visits each customer once.
