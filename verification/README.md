# correlation_core

A root-cause correlation engine for OpenTelemetry data. Given a trace (or a
metric anomaly), it gathers the spans, logs and metrics around it from
Tempo, Loki and Prometheus, builds an evidence graph, and ranks the services
that are most likely to blame, with the evidence behind each rank.

The library in `src/` is written in Verus: Verus proves each function's
body against its contract. The functions that call other libraries (chrono,
uuid, indexmap, prometheus, std's formatting) do so through a few small
trusted wrappers whose contracts restate those libraries' documentation.

- `graph/` — the evidence graph (nodes, edges, strict insertion) and its
  invariants (no dangling edge, no cycle of blame), with the proofs that the
  insertions keep them.
- `ranking.rs` — the evidence a ranking is formed from: direct evidence per
  service, blame propagated along `CausedBy` edges, slow spans by self-time,
  anomalies close to the trigger.
- `engine.rs` — the decisions of the pipeline: what a trace lookup leads to,
  the log window, the span forest, and the incident document.
- `tempo.rs`, `loki.rs`, `prom.rs` — the requests to the stores and the
  readers of their answers.
- `render.rs` — the Markdown document: every section, and the document as a
  whole, from the figures (scores, weights, measurements) written as text.
- `explain.rs` — the request for a written explanation and the reading of
  its answer.
- `time.rs` — instants of the calendar (to the nanosecond, over the whole
  range of dates chrono covers), the clocks, and how instants are written.
- `chaos.rs`, `loadgen.rs`, `errors.rs`, `failure.rs`, `metrics.rs` — fault
  injection, load generation and the parts shared by the bank services.

`app/` is the program around the library: the command line, the HTTP
service, the HTTP clients, the floating-point scoring and detectors, and the
JSON forms of the documents.
