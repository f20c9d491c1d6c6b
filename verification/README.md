# hegel

The core of a property-based testing engine, verified with Verus.

A test case is a sequence of choices: booleans, integers, floating-point values,
byte strings and strings. Choices are made at random, replayed, or made as simple
as possible. A failing test case is shrunk to a simpler one by changing its choices.

## Layout

- `src/choices.rs`, `src/order.rs`, `src/float_order.rs`, `src/intervalsets.rs`,
  `src/bignum.rs`: what choices are, and which of two test cases is simpler.
- `src/test_case.rs`, `src/drawing.rs`, `src/family.rs`, `src/structure.rs`,
  `src/spans.rs`: test cases and their streams.
- `src/sampling.rs`, `src/sequence_sampling.rs`, `src/float_categories.rs`, with the
  constants that they favour: random values.
- `src/draws.rs`, `src/float_draws.rs`, `src/alphabets.rs`, `src/special.rs`,
  `src/collections.rs`, `src/recursion.rs`: values that are made of choices.
- `src/replay.rs`: what holds of every draw.
- `src/shrinker/`: the passes that simplify a failing test case, and their schedule.
- `src/abi/`: the calls of the library, with the messages of their errors.
- `app/`: floating-point arithmetic, the C interface, and what a program that links it
  brings along: profiles, the exploration of test cases, the layout of documents.

Floating-point values are held as bits, and probabilities in units of two to the minus
fifty-third. Arithmetic on real numbers is supplied through traits, and its results are
examined before they are used.
