# fusion_in_motion

A verified library for the bookkeeping of a sensor-fusion and target-tracking workbench:
identifiers and track tables, association-plan validation, the lifecycle decisions of a
tracking scan (events, counters, initiation checks, reported tracks), measurement
timing and replay order, scenario and sweep rules, run-bundle naming, MCAP log reading,
external CSV intake, settings comparison, deterministic random draws and track-continuity
scoring. Every function
in `src/` carries a `requires`/`ensures` contract proved by Verus, and the laws that relate
functions are stated as public proof functions.

Layout:

- `src/` — the verified library (one module per concern; `lib.rs` lists them).
- `tests/` — ordinary Rust tests that run the compiled library.
- `app/` — the `fusion` command and the floating-point parts of the tracking engine
  (gated nearest-neighbor association, the hit-count policy, the scan loop), built on the
  library.

Calls into `sha2`, `hex`, `mcap` and `char::is_whitespace` go through small trusted wrappers
whose contracts are stated next to them in `src/fingerprint.rs`, `src/mcap_log.rs` and
`src/text.rs`.
