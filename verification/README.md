# tau

The verified core of the tau coding agent, and the programs around it.

- `src/` holds the rules: the terminal's screen and prompt, the session tree and
  its log, the agent's turns, the tools for files, skills, models and providers.
  Every function there has a contract that Verus proves. The laws that span
  functions are the public proof functions named `law_...`.
- `app/` does the input and output: terminal, files, locks, threads, HTTP.
- `tests/` runs the library with the outside crates linked.

What is believed without proof stands beside its caller: the terminal commands of
crossterm (`terminal.rs`), the values of ciborium (`cbor.rs`) and serde_json
(`json.rs`), base64 (`convert.rs`) and globset (`listing.rs`), and a few functions
of the standard library.
