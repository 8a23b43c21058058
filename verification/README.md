# geiger

Real-time order-flow toxicity for perpetual futures: VPIN on a volume clock,
by Bulk Volume Classification, streamed as a continuous score.

`src/` is the library, verified with Verus: the estimator, the venues'
messages, capture and replay, the service's sessions and endpoints, the
subscriber's state, and the parameter sweep. Every public function states what
it returns; the laws that hold across functions are public proof functions
named `law_...`.

Floating point is the caller's. The library holds doubles by their bits,
compares and orders them itself, and asks an arithmetic unit for everything
that rounds. `ieee.rs` states what it is to round to the nearest double, ties
to even, with integers alone. From it `bounds.rs` proves that scores, ranks and
interval bounds stay between 0 and 1 with the bounds in order, `ordering.rs`
that a higher level widens an interval, `symmetry.rs` that a bucket's larger
side follows its price, and `deviation.rs` how close a rolling deviation is to
the real one.

`app/` is the programs around the library: `geiger service`, `geiger
calibrate`, `geiger capture`, a background subscriber, and Python bindings.

| Module | What it is |
|---|---|
| `double`, `numeral`, `text` | doubles by their bits, numbers as text, text |
| `ieee`, `precision`, `roots` | rounding, and how its errors add up |
| `bounds`, `ordering`, `symmetry`, `deviation` | what rounding leaves true of every reading |
| `window`, `bucket`, `bvc`, `rng`, `bootstrap`, `vpin`, `intensity` | the estimator |
| `trade`, `feed`, `binance`, `bybit`, `hyperliquid`, `json` | normalized trades and the venues' messages |
| `capture` | bit-stable recording and replay |
| `protocol`, `registry`, `config`, `worker`, `server`, `health` | the service |
| `state`, `backoff` | the subscriber, and reconnecting |
| `calibrate`, `sweep`, `report`, `args`, `repr` | the tools |

Settings of the service: `GEIGER_STREAMS_FILE` (required),
`GEIGER_BIND_ADDR` (0.0.0.0:9700), `GEIGER_HEARTBEAT_SECS` (5),
`GEIGER_AUTH_TOKEN` (unset: no auth), `GEIGER_HEALTH_ADDR` (0.0.0.0:9701),
`GEIGER_CONFIG_POLL_SECS` (unset: no reloading).
