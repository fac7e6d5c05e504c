# bayes-2048

2048 played by tree search, for comparing the rules by which a search spends its
simulations. The library is written in Verus: its functions are proved against their
contracts. Taken on trust are four calls of the random number generator (`random`) and the
standard library's `String::push` (`text`).

Policies:

- `uct`: upper confidence bounds on returns that are normalized at each node.
- `thompson`: Student-t Thompson sampling under the prior `p(mu, sigma) ~ 1 / sigma`.
- `exact-voc`: the expected gain of one more sample, in closed form.
- `mc-voc-N`: the same gain, estimated from `N` draws of the next return.

## What is proved

- The rules of the game: how lines slide and merge, that a move keeps the sum of the
  tiles, that the score is fixed by the last board and the number of moves, and that
  every game ends with no tile above 131072.
- The search: which move a policy chooses, what one simulation changes in the tree, that a
  search of `n` simulations leaves `n` samples, and that the first ones are spread evenly.
- What is drawn: every tile, move, tie and estimate is tied to the generator that it comes
  from. The tiles of a game come from a generator that starts from its seed and that no
  search draws from. Where the arithmetic and the generator are functions of what they are
  given, searches and games can be repeated, and a search step by step agrees with one in
  one go (`repeat`).
- The formulas: each result is the value of its formula over the operations that the
  caller supplies (`arith::Arithmetic`). In exact arithmetic the statistics are the mean and
  the deviations of the samples in any order (`samples`), and the value of a sample is the
  expected gain (`gain`).
- Units: a search whose returns are scaled and shifted chooses the same move, wherever
  nothing rounds in what the two searches compute, no margin within which values count as
  equal bites, and every legal move is sampled (`invariance`). With scores, scales and
  shifts that are natural numbers nothing rounds in the first sample of each move. Later
  ones divide and take roots, which machine numbers round: there the law leaves out what
  rounds, and says nothing of it.
- A live search: when it stops, what the keys do, when frames are due, and the text of a
  frame.
- The program: which options are refused and why, which games a benchmark plays, what a
  trace records, and the lines that are printed.

Floating-point operations, Student's t distribution, files, the clock and the terminal are
in `app/`.

## Layout

- `src/`: the library.
- `tests/`: its tests.
- `app/`: the program.

## Run

```bash
bayes-2048 --games 20 --budgets 8,16,32,64,128 \
  --policies uct,thompson,mc-voc-8,mc-voc-32,mc-voc-128 --out results
bayes-2048 --play --policies exact-voc --simulation-limit 512
```
