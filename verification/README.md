# dokono

Which binaries and tests of a Rust workspace does a change reach? Which binaries reach a
vulnerable function of a dependency? The answers come from the reference graph that
rust-analyzer keeps: starting from a symbol, its references are followed upward, from each
reference to the function around it, until a file of interest is met.

- `src/` is the library, written in Verus. It holds the searches, the diff and protocol
  readers, the matching of tests, the rules on advisories and versions, and the texts and
  objects that are reported. Each function has a contract. The laws that relate functions
  stand beside them as proof functions, such as that a search finds exactly the goals that
  can be reached (`reach`), or that the classification of binaries says what can be reached
  in production code (`cve::runner`).
- `app/` is the program around it: command lines, git, `cargo metadata`, the language server
  and the files.
- `tests/` runs the library on examples.

Calls into other crates (`gix` for line diffs, `serde_json`, `semver`, `rustsec`, `syn`) stand
in small wrappers whose contracts say what is taken on trust.
