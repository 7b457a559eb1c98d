# rdr_proxy

The RDR proxy network function replays a browsing workload: for each second of
the experiment, each simulated user visits a host in a headless browser.

- `src/` is the verified library: the JSON model of the workload and seed
  files (`json`), the set of broken hosts (`hosts`), the order of visits and
  their sort (`order`), the construction of the workload (`workload`), the
  user setups (`users`), the seed lookup (`seed`) and the tally of a round of
  browsing (`schedule`).
- `app/` reads the bytes of the files, drives the browsers with
  `headless_chrome` and prints the metrics; the library parses the bytes with
  `serde_json` (`json::parse_json`).
- `tests/` exercises the library on concrete values.
