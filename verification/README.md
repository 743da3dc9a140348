# ZeroCloud

What can this machine run, and how fast? `zc` measures a machine, reads what is
known of language models, and predicts which of them fit, with which context
and at which speed.

- `src/` is the library, verified with Verus: reading JSON and model metadata,
  sizing memory, IEEE 754 arithmetic on the bits of a double, fitting
  coefficients to measured runs, predicting, ranking, laying out reports and
  driving the interactive table.
- `app/` is the program around it: system calls, benchmarks, files, sockets and
  the terminal.
- `tests/` exercises the library from outside.

Every measured or computed number is a `Double`: the sixty-four bits of an IEEE
double. What arithmetic, reading and printing make of one is stated over its
units and proved, so a prediction is determined to the last bit.

What the library takes from Rust's standard library without proof stands in
`chars.rs` (upper and lower case, pushing a character), `json.rs` (a character
by its code point), `probe/storage.rs` (which characters are numeric) and
`report/markdown.rs` (a string with its escapes).
