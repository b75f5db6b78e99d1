# roma

Building blocks for metaheuristic optimization, verified with Verus.

`src/` is the verified library. Its modules state their results with
contracts:

- `solution` — a solution with its decision variables and a cached quality
  that every change of the variables clears.
- `permutation` — permutations as multisets, with the moves the operators
  use (swap, segment reversal, insertion).
- `operator` — order and single-point crossover, bit-flip and swap
  mutation, bit-flip, insertion, swap and 2-opt neighborhoods, binary and
  multi-objective tournaments, and the tabu memories. Random draws are
  arguments: an operator is a function of its draws.
- `nsga2` — non-dominated sorting of a dominance matrix into Pareto fronts
  (first front by index, later fronts in discovery order), ranks, and
  survivor selection by fronts.
- `search` — parameter checks and step decisions of tabu search, variable
  neighborhood search, beam search and elitism, the split of a generation's
  offspring among workers, and differential evolution's donor draws.
- `run` — the run lifecycle every algorithm follows (validate, report the
  initial snapshot, check termination and step, checkpoint periodically,
  finalize), as a state machine from phase and event to phase and actions.
- `termination` — progress counters and the stopping criteria judged on them.
- `problem` — route and assignment validity, random routes, and the
  indexing of a traveling-salesman edge list into a complete matrix.
- `quality_text` — the text form of a Pareto quality
  (`Objectives: [..], Rank: .., Dist: ..`), split into its parts.
- `observer`, `experiment`, `comparison`, `text` — progress reporting,
  experiment parameters and run outcomes, comparison results, text building.

`tests/` runs the library on concrete values.

`app/` holds what the library leaves out: `f64` objectives, their
comparisons and parsing, Pareto dominance and crowding distance, the
real-valued perturbation mutation, turning probabilities into draws, the
traveling-salesman and quadratic-assignment costs, the convergence and
time-limit criteria, threads, file paths and the report's rows. It runs
the lifecycle's actions (`runner`) and drives the algorithms through it:
hill climbing, tabu search, variable neighborhood search and beam search
(`local_search`), the genetic algorithm, NSGA-II, differential evolution
and the binary particle swarm (`evolution`, with their `f64` steps in
`population`). It calls the library for the decisions.

Checkpoint files and the HTML page itself are not part of this crate.
