# gepa

Reflective evolution of the text components of a program, in Verus.

A candidate is a list of named texts, such as the prompts of a program. A run
starts from a seed candidate and then, until it is to stop, mutates candidates
with the help of a language model or merges two of them. A new candidate is kept
where it does better on a few examples; it is then evaluated on the validation
set, and the Pareto fronts over the validation examples, the objectives, or both
tell which candidates are worth going on from.

- `src/` is the library. Every decision of a run is here, with its contract:
  what a selector may choose, when a mutation or a merge is accepted, what the
  fronts are, what the cache holds, what is saved of a state and comes back.
- `src/optimizer/run.rs` is the run as a machine. It waits for results of
  evaluations and answers of the language model, and says what is to be done
  next.
- `app/` performs what the machine asks for: it evaluates candidates, talks to a
  server, runs processes, and reads and writes files.
- `tests/` runs the library.

Scores are held by their bits. Comparisons are verified on the bits; sums and
means are floating point operations that the caller supplies as a
`ScoreArithmetic`, and contracts speak of what it returned.

Chance comes from seeded generators. Which draws a generator gives is not known to
the contracts, but they say which generator each draw is from and what is made of
it. So, for one, samplers with equal seeds give equal batches.
