# dpbst-core

A SAT solver that combines backtracking search with dynamic programming, and stores what it
remembers in a hash table whose buckets are binary search trees. The library is written in Verus:
its functions carry contracts, and the contracts are proved.

## What is proved

`solver::solve_here` returns, for every formula whose variables and clauses can be numbered and for
every configuration,

* a model of the input, covering all of its variables, or
* the verdict that the input has no model, or
* the reason why it gave up: more nodes than the limit allows, or a time limit at a visit at which the
  clock is read.

It always terminates. Below it, each layer has a contract of its own:

| module | what its contracts say |
|---|---|
| `lit`, `cnf`, `semantics` | literals, formulas, models; normalisation keeps exactly the satisfying assignments |
| `dimacs` | what a text says, fault by fault; reading a formula that was written gives it back |
| `varint` | decoding inverts encoding, and no encoding starts another |
| `cache` | a finite map from keys to verdicts, whatever the bucket policy; when the table grows and what a sweep drops; the tree that each policy makes of an insertion or a lookup; AVL heights are logarithmic |
| `search::state` | propagation step by step, in the order of its queue; counters agree with the assignment, backtracking restores them, learned clauses are the first-UIP ones and follow from the formula |
| `search::component` | connected components of the residual formula, and keys that determine them |
| `search::heuristic` | the literal of greatest score |
| `search::searcher` | the verdict is right, memo and learning included; every step is one that the configuration calls for; a component that was solved is in the memo, unless it does not fit |
| `search::trace` | a search as a tree of visits, decisions and conflicts, with the memo and the learned clauses that pass from one to the next; it fixes what the counters say |
| `search::wide` | exact sums of powers of two |
| `elim`, `dp`, `preprocess` | resolution and reconstruction lose no model; preprocessing never adds a clause |
| `solution`, `report` | the text that is printed |

Time and the capacity that an allocator grants come from the standard library through a few small
functions in `clock` and `memory`, whose contracts promise nothing that the machine decides. The
text of a malformed token comes from `String::from_utf8_lossy`, in `text`.

## Layout

* `src/` is the verified library.
* `tests/` runs it: unit tests, brute-force comparison on random formulas, whole scenarios.
* `app/` is the command line program: arguments, files, the search thread, and the fractions in
  the statistics.
