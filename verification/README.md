# brisk_bench

The verified core of a load-testing pair for streaming chat-completion
services:

- a **mock backend** that answers chat requests on a precise schedule, with a
  timing marker in every chunk;
- a **load generator** that offers a planned load, measures what comes back,
  and judges whether the measurement can be trusted.

## Layout

- `src/mock/`: requests read from a byte stream, the bench directive, response
  schedules, the emission timer, counters and the event handling of a shard.
- `src/loadgen/`: arrival schedules, request templates, the response parser,
  the shard state machine, latency lower bounds of unfinished requests, ramps,
  validity rules, reports and comparisons.
- `src/histogram.rs`, `src/http.rs`, `src/text.rs`, `src/chars.rs`: the calls
  into `hdrhistogram`, `httparse`, `memchr` and the standard library, each
  behind a small function whose contract states what it is relied on for. JSON
  strings come from `serde_json` in `src/mock/response.rs`, and file names from
  the standard library in `src/loadgen/output.rs`.
- `tests/`: unit tests and scenarios on concrete values.
- `app/`: the program around the library: command line, sockets, threads,
  clocks, result files, and the arithmetic on floating-point numbers.

Proof functions named `law_*` state properties that span several functions.

Times are unsigned nanoseconds throughout. Rates are carried as the bits of
floating-point numbers and only `app/` computes with them.
