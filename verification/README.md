# riffy

A reverse proxy that answers every request from a baseline upstream, replays
the requests of configured endpoints against a candidate and a control
upstream, and reports the JSON fields where the candidate differs from the
baseline more often than the control does.

## Layout

- `src/` — the library, verified with Verus: JSON comparison and flattening
  (`compare`, `flatten`, `json`), endpoint templates (`endpoint`,
  `pathmatch`), suppression rules (`suppress`), the read-time analysis
  (`engine`, `query`), live counters (`counters`), sample assembly and
  storage (`pipeline`, `sample`, `store`, `redis_store`, `diff_store`),
  request replay as curl (`curl`), the proxy's decisions (`proxy`), errors,
  metrics and configuration checks.
- `tests/` — tests of the library on concrete values.
- `app/` — the program around it: command line and configuration loading,
  the axum servers, the HTTP client, content decoding, Redis I/O and the
  wire forms of the library's values.
