# extraction_gym

Extraction of expressions from e-graphs: given an e-graph and its root classes,
choose one node for every class that is needed, without a cycle, so that the
chosen expression is small, shallow, or a mix of both.

The library is written in Verus. Every function in `src/` states what it
returns in `requires` and `ensures` clauses, and Verus proves the code against
them.

## Layout

| Module | Contents |
|---|---|
| `cost`, `sums`, `text` | fixed-point amounts, finite sums, reading numbers and words |
| `egraph` | the e-graph, nodes and classes numbered densely |
| `collections` | the outside collections in use and what is taken for granted of them |
| `extract` | extractions, their validity, cycles and errors |
| `extract::selection`, `extract::measure` | what an extraction costs: size, tree cost, depth |
| `extract::greedy` | exact bottom-up extraction by depth, tree size or initial nodes |
| `extract::ilp` | size and depth extraction as an integer program, with time limit, start and fallback |
| `extract::ilp_cbc` | the older extractors over the same program |
| `extract::faster_ilp_cbc` | size extraction that simplifies the program first and blocks cycles as they come up |
| `milp` | models, deltas, solutions and logs of solvers, and what each backend tells its own |

`app/` holds what cannot be proved: serialized e-graphs, floating point, the
three solvers, the clock, and messages.

## Amounts

A cost is a whole number of millionths. Sums saturate; `INFINITY` is above every
amount and absorbs what is added to it. Objective coefficients have twelve
decimals, so that a weight times a size is not rounded.

## What is proved

* An extraction that is called complete is valid: every class below the roots
  has a choice of its own, and the choices have no cycle there. Choices for other
  classes are ignored. Depth, size and tree
  cost are those of the chosen expression.
* The greedy extractors find an extraction whenever there is one. No other is
  less deep than that of the depth extractor, nor of less tree cost than that of
  the size extractor. Of candidates that cost the same, the one that was queued
  first is taken.
* A point of the integer program is a valid extraction, within the budget, worth
  no more than the objective; every valid extraction within the budget is a
  point. So an optimal point gives an optimal extraction: for every objective, no
  other within the budget is worth less by more than a millionth of rounding, as
  long as depths, doubled, and sizes fit an amount. A solver that is right when it
  says that it has proved an optimum leads to an outcome called optimal.
* A solver is told its time limit, threads, parameters and log before it is asked;
  a search tells it before every solve what is left of the time.
* A start handed to a solver is a point of the program it is handed with.
* Whatever a solver answers, the outcome is a valid extraction: its own, or the
  better of the initial and the greedy one. A fallback is flagged as violating
  the depth budget exactly if no extraction meets it, and is then as shallow as
  any.
* Every simplification, and all of them together, keep the optimum. A search blocks
  the cycles of each solution before the next solve, and a blocked cycle does not
  come back, so that with a solver that solves to optimality no choice comes up
  twice. Such a search ends with a smallest extraction and calls it optimal,
  whatever the simplifications and the start, unless the number of its solves does
  not fit a counter or no extraction has a size that fits an amount.
* A delta, applied to the model that a solver holds, brings it up to date, and
  nothing is pending after a flush. The coefficients of a row are handed over in
  the order in which they were first set, each once.
