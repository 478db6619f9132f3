# dormlab_nodeexporter

A small Prometheus exporter for macOS host metrics (CPU power and usage,
memory in use and installed, per-interface network byte counters).

- `src/` is the verified library:
  - `text.rs`: the character-level model of `str` operations the parsers
    use (lines, trimming, splitting, prefixes, `u64` parsing).
  - `collectors/`: parsers for the output of `top`, `sysctl`, `netstat -ibn`
    and `powermetrics`, each specified by a spec function over the text.
  - `metrics.rs`: turning absolute kernel byte counters into counter
    increases, and the integer Prometheus metrics.
  - `snapshot.rs`: per-interface counters.
- `app/` is the binary: running the tools, the HTTP server, reading the
  floating-point figures (memory sizes, CPU percentages, watts) whose text
  the library finds, and the floating-point metrics.
- `tests/` exercise the library on concrete outputs.
