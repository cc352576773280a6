# zho-complexity

A verified library that scores the difficulty of Chinese text by the HSK and TOP vocabularies.

A sentence is matched against the vocabularies with an Aho-Corasick automaton. The matched words
give twelve features, the lexical coverage at each learner level, and labels: a text is readable at
an HSK level where at least 90% of its words are known there, and at a TOP level from that of its
hardest word on. Labelled sentences train a small ordinal model.

## Layout

- `src/`: the library, verified with Verus
  - `matcher`: matching words, all of them or the greedy longest reading
  - `features`: features, coverage, labels, and the laws about them
  - `vocab`, `json`: vocabularies and how they are loaded
  - `training`, `normalize`: training examples, their validation, batches of normalized rows
  - `generate`, `chance`: synthetic sentences of a given difficulty, and what chance decides in them
  - `phrases`, `text`: difficult phrases of a dictionary
  - `report`: what is said of a score
- `tests/`: tests of the library
- `app/`: the command line, the files and the neural model, which computes in floating point

Measured numbers are exact ratios in the library. The hash map, the JSON parser, the automaton and
the random numbers come from `rustc-hash`, `serde_json`, `aho-corasick` and `rand`; what the proofs
take for granted about them stands in the contracts of small wrappers, marked
`#[verifier::external_body]`.
