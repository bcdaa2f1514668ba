# dns_benchmark

Measures how quickly DNS servers answer. Each configured group lists plain
IPv4 and IPv6 servers and DNS-over-TLS servers; the domains to query come from
a fixed domain, a printf-style format, and a file. Every server gets its own
chunk of the domains and resolves each of them twice, for IPv4 and for IPv6
addresses. The times are written to `results/dns-benchmark-<timestamp>-<name>.csv`, the name being the
groups' names joined by `-`,
one column per server.

Layout:

- `src/` is the library, verified with Verus:
  - `config.rs`: the configuration.
  - `domains.rs`: the list of domains to query.
  - `dns_server.rs`: the setup of a server under test.
  - `benchmark.rs`: the servers of a group, the chunks of domains they get,
    and the collected results.
  - `schedule.rs`: what one server does during the benchmark, as a state
    machine that the program drives, and how lookup outcomes are recorded.
  - `results.rs`: the table of results and its CSV bytes.
  - `ordered_map.rs`, `printf.rs`, `csv_out.rs`, `clock.rs`, `randomness.rs`:
    the calls into `indexmap`, `sprintf`, `csv`, `chrono` and `rand`, with the
    contracts the proofs rely on.
- `app/` is the program around it: reading the configuration and the domain
  file, resolving with `hickory-resolver` on `tokio`, progress bars, and
  writing the results file.
- `tests/` holds the tests of the library.
