# arb

Cross-AMM arbitrage for EVM chains, verified with Verus: what a pool pays, which cycles of pools
pay more than they cost, and how pool state is kept exact from the chain's event logs.

## Layout

- `src/` is the library. Every function in it is verified against its contract.
  - `types`, `math`, `order`, `rank_map`, `symbols`, `text`: integers of 256 bits and more, sorting,
    ordered maps, texts.
  - `amm/`: the exact integer mathematics of Uniswap V2 and V3, Aerodrome, Solidly, Curve and
    Balancer pools. `amm/balancer_accuracy` shows that Balancer's rounded powers bracket the true
    power and that a swap never lowers the weighted product; it rests on `amm/real_powers` and on
    the exponential of `amm/natural_powers`, with its series, logarithm and factors.
  - `pool`, `path`: quoting a pool, and a path of pools net of gas.
  - `book`, `graph`, `config`, `report`: the pool books, cycle search, selections, text for people.
  - `sim/`: what detected edges would have earned under a latency distribution.
  - `live/`: pool state from logs, and `live/base/` for Base: Flashblocks, V3 state, pricing,
    screening, confirmation, discovery.
- `app/` is the `arb` program: the command line, files, the connection to a node.
- `tests/` run the library.

## Trusted code

A few functions hand work to other crates; each says in its doc comment what is claimed of the
call. They are the arithmetic of `alloy-primitives` (in `types`), its Keccak hash and its reading
of words (in `live/abi`), the concurrent map of `dashmap` and `arc-swap` (in `live/registry`), and
`brotli` and `serde_json` (in `live/base/flashblocks` and `live/base/probe`). Of the standard
library they are `String::push` (in `text`), `std::str::from_utf8` (in `live/base/flashblocks`) and
`String::from_utf8_lossy` (in `live/base/probe`).
