# anemoi

Anemoi decides which local language model serves a request and keeps the
runtimes' residency sensible: it reads a configuration of domains, residency
groups (rosters), model profiles and runtimes, observes what each runtime has
loaded, scores the candidates and explains every decision.

The library in `src/` is written in Verus. Its own functions carry contracts
and are proved against them; the few calls it makes into outside crates and
std (UUID rendering, JSON decoding, formatting, `char::from_u32`) go through
small trusted wrappers or specifications whose contracts are believed, not
proved.

- `ids`, `types`, `decisions` — identifiers, runtime snapshots, requests and
  explained decisions.
- `text`, `utf8` — text helpers and UTF-8 decoding.
- `config`, `validation` — the configuration model, its validation (sorted,
  complete diagnostics) and environment-variable expansion.
- `governance`, `daemon` — operator overrides applied over the baseline
  configuration, governance warnings, and the transactional holder.
- `policy` — candidate generation, scoring, quality floors, continuity
  staging, ranking and the scheduler's decision; the transition coordinator
  that arbitrates concurrent model loads under fenced leases.
- `runtime` — model-id normalization, llama-swap's memory metrics (sample
  values read exactly to the nearest binary64 value), its
  server-sent event stream and colocation matrix, and the snapshots each
  runtime adapter reports.
- `telemetry` — the in-memory decision index.

`app/` holds the I/O around the library: drawing random identifiers and
reading the clock for decisions, YAML and JSON loading, the HTTP
runtime adapters, the event-stream task, decision logs on disk and the
persisted governance holder. `tests/` exercises the library from outside.
