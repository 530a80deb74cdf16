# homophone

A homophonic-substitution cipher solver whose scoring, annealing search,
model format, key generation and ciphertext parsing are verified with Verus.

## Layout

- `src/` — the verified library.
  - `rng.rs`: xoshiro256** seeded through SplitMix64, specified bit for bit.
  - `model.rs`: the n-gram model (`NgramModel`): training from counts, the
    rolling-hash text score, sampling, and the byte format with its round trip.
  - `score_spec.rs`: the log-likelihood of a ciphertext under a key as plain
    mathematics (n-gram term, homophone term, symbol term).
  - `scorer.rs`: the incremental scorer. Its kept score always equals the
    score of its committed key recomputed from scratch.
  - `anneal.rs`: steepest-ascent polishing (stated pass by pass),
    calibration, and one annealing
    run, whose contract follows the run move by move from the generator
    state, with the acceptance closure's answers as the only open choice;
    plus picking the best of several restarts.
  - `plan.rs`: the lengths, generator streams and solver seeds of a
    unicity measurement.
  - `cipher.rs`: homophonic keys, encryption and decryption, ciphertext
    parsing and renumbering.
- `app/` — the command-line program: argument handling, files, threads, and
  everything computed in floating point (logarithms for training, the
  temperature schedule, letter weights, the synthetic Markov language,
  recovery rates and the unicity table). It hands the library integers and
  closures and takes integers back.
- `tests/` — tests of the library, run against the compiled crate.

## Scores

Scores are integers in millinats, so the incremental update can be checked
for equality. The floating-point parts reach the library only as results:
the model trainer asks a closure for `round(1000 ln(num / den))`, the scorer
takes a table of `round(1000 ln x!)`, and the annealing run asks a closure
whether to take a worsening move.
