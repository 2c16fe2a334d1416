# ya_filters

Output filters for the Arcadia command-line tools `ya` and `arc`, written in
Verus: every filter is a verified function whose contract states, over a
character-sequence model of the text, exactly what it returns.

## Layout

- `src/text.rs` — the text model (`str::lines`, `trim`, `find`, …) and the
  verified string helpers the filters are built from.
- `src/pattern.rs` — regular expressions through the `regex` crate (trusted
  wrappers; results are named, not restated).
- `src/framing.rs`, `src/detect.rs` — suite/chunk framing rules and the
  inner-runner fingerprints.
- `src/generic_fail.rs` — splitting a dump into `[fail]` blocks and compacting
  each block; the overflow tee request.
- `src/go_test.rs`, `src/pytest.rs`, `src/py3test.rs` — the language adapters.
- `src/envelope.rs` — test-mode dispatch and the live `YaTestStreamFilter`.
- `src/ya_build.rs`, `src/ya_cmd.rs` — build-mode filter and `ya` routing.
- `src/arc_cmd.rs`, `src/arc_status.rs`, `src/arc_diff.rs` — `arc` routing and
  the `status` / `log` / `diff` / `show` filters.
- `app/main.rs` — the command-line front end: runs `ya` / `arc`, writes tee
  files, prints the filtered output (`pipe -f <filter>` filters stdin).
- `tests/` — scenario tests on synthetic dumps.

Laws of the library (what holds for every input) are public proof functions
named `law_*` next to the functions they speak of.
