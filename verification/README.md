# flight_network_planner

A flight network planner for airlines of the Minecart Rapid Transit server,
written in Verus. It ranks every pair of gates that an airline's
configuration lets it connect (routes that other airlines do not fly score
higher), then opens a pair of flights for each pair of gates that the
per-gate limits still admit, with flight numbers from configured ranges.

Layout:

- `src/` — the verified library.
  - `config.rs`: the configuration, its airports and hubs, and the rules on
    which gates may be connected (`is_valid_flight`).
  - `score.rs`, `flight_type.rs`, `flight_utils.rs`: route kinds and scores.
  - `fng.rs`: flight number dispensers.
  - `run.rs`: the planner, specified step by step (`plan_step`, `plan_fold`);
    `run_laws.rs`: what every plan satisfies.
  - `flight.rs`: flights and the plan's text form; `gate.rs`: gates and gate
    files; `flight_data.rs`: the existing flight network; `stats.rs`:
    statistics of a plan; `gate_keys.rs`: the plan grouped by departure
    gate; `lists.rs`, `text.rs`: helpers.
- `tests/` — tests of the library.
- `app/` — the command line program: argument parsing, reading the YAML
  configuration, downloading the network from Gatelogue, printing.
