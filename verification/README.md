# network_monitor

The verified core of a personal network traffic monitor: it turns captured frames
into packet events, aggregates them into bidirectional flows, summarises the flow
table for a dashboard, raises transparent heuristic cues (rare ports, upload-heavy
flows, geo tags on non-web ports, first contacts), keeps the bookkeeping of the
reverse-DNS/GeoIP enrichment service, and renders CSV exports.

Layout:

- `src/` — the library, written in Verus; every function carries a contract that
  Verus proves. Header walking is done by `etherparse`, behind small trusted wrappers
  whose contracts name what they return.
- `tests/` — tests of the library on concrete values.
- `app/` — the plumbing around it: the pcap capture thread, the enrichment worker with
  its DNS and MaxMind lookups, the snapshot publisher, settings persistence and the
  command surface.
