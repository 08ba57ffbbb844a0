# positorium

A positional database in the style of Transitional Modeling: things take
roles in appearances, appearance sets carry a value and a time as posits, and
posits about posits (through the `ascertains` role) record who holds what to
be true and with what certainty. Every construct is identified by a thing,
handed out by a generator that never reuses an identity.

The library in `src/` is written in Verus. Its functions carry contracts that
the verifier proves; the few that do not are the shared cancellation flag and
the Cartesian-product driver that hands index tuples to a caller's closure,
whose behaviour Verus has no way to state.

- `construct` — identities, roles, appearances, appearance sets, posits and
  their keepers, and the database that creates and restores them.
- `datatype`, `literal`, `numeric`, `json`, `unicode`, `text` — times with
  their precisions and intervals, certainties, literal values of each family
  with their exact, nominal and semantic comparisons, and the strict JSON
  reader behind JSON literals.
- `effect` — which assertions stand in effect at a time, per positor.
- `codec`, `storage`, `maintenance` — the binary encodings, the framed
  append-only log and its logical replay, store identities, and the logical
  export format with its validation.
- `terrain`, `frames` — the Terrain report: history and current frames,
  profiles, isopleths, relationships and their allocations, within limits.
- `server`, `interface`, `traqula`, `results`, `script`, `command` — request
  configuration checks and the admission of script requests, identifiers,
  the result sets that searches combine, the division of a script into
  commands and row-returning searches, the warnings a script earns, the step
  function that drives a script's execution (row limits, a sink's stop,
  cancellation and timeouts), and the `add posit` command over its command
  tree: fresh things for `+x`, the candidates of each appearance in order of
  cardinality, every combination of them, and the bindings of the result.

- `search`, `runner` — `search` commands over their command trees: each
  posit pattern's roles found by name, the candidate posits that hold them
  at its time and with a nominally equal value, the identity slots that
  recall bound variables, the binding of its posit variable; the rows the
  patterns make and join on shared variables, the `where` conditions on
  times, between times and on values, and the projection on the `return`
  columns; and the running of a
  script's `add role`, `add posit` and `search` commands in turn, each
  search collected within its row limit, on its own or all together.
- `timetext` — time literals and constants (`@NOW`, `@BOT`, `@EOT`, dates,
  date-times, year-months and years) read from text.

The Traqula language itself is only partly here: its grammar is not part of
this repository, so scripts are divided into commands by their lexical
structure and commands come to the library as command trees. Of `search`,
`as of` snapshots and unions of recalled variables (`w|h`) are not
evaluated yet.

Numbers are compared through `bigdecimal`, strings decoded through
`serde_json`, text normalised through `unicode-normalization`, calendar
arithmetic and time parsing done through `chrono`, and store identities drawn through
`getrandom`; each such call sits behind a small trusted wrapper whose
contract states what the outside crate promises.

`app/` holds what the verifier does not see: the command-line entry point,
file I/O for the log store, inspection, backup and import, and the JSON
serialisation of reports. `tests/` exercises the library as a user would.
