# contenedores

The decisions of a container supervisor, verified with Verus.

A kernel module publishes the running processes under `/proc`; the
supervisor ranks them by usage, finds the Docker container each one runs
and the kind of load it was started with (`stress --cpu`, `--vm`, `--io`,
`--hdd`), and stops containers by fixed rules.

- `src/text.rs`: whitespace, tokens, trimming.
- `src/json.rs`: JSON documents read with `serde_json`, as trees.
- `src/container.rs`: processes, container ids, names and kinds of load.
- `src/order.rs`: the comparison of processes by usage.
- `src/sort.rs`: a stable ordering by integer keys.
- `src/analyzer.rs`: ranking, grouping and the plans of which containers to stop.
- `app/`: the program around the library: reading `/proc`, running `sudo`
  and `docker`, printing, and posting logs to the log server.

Usage figures are decimals; the program turns each into an integer order
key before the library sees it.
