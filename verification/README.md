# fulmicoton

A columnar codec for GitHub-style event logs, written in Verus. Events are
sorted by key, parsed, turned into columns, and each column is coded on its
own; the seven coded parts are framed by their lengths.

## Layout

- `src/` — the verified library.
  - `events.rs`: whole event logs, sorted by key, parsed, coded and back.
  - `event_codec.rs`: the seven parts of the columns and their framing.
  - `columnar.rs`, `parse.rs`: events as columns, and events as text.
  - `ans.rs`, `adaptive_mix.rs`, `bic.rs`, `elias_fano.rs`, `histogram.rs`,
    `monotonic.rs`, `timestamp.rs`, `codec.rs`, `bijection.rs`, `vint.rs`:
    the coders (rANS, adaptive range coding, interpolative coding,
    Elias-Fano, histograms, permutation repair, deltas, varints).
  - `compress.rs`: zstd and xz, behind small trusted wrappers.
- `tests/` — tests of the library.
- `app/` — the codec behind the benchmark's interface: file output, size
  reports, printable errors and the floating-point model statistics.

Every public function states what it returns in its contract; the
round-trip properties of the coders are stated and proved as `law_*`
proof functions.
