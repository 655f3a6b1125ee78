# hft_execution

A microstructure-driven execution algorithm with a simulated venue, written in
Verus. Prices, quantities and ratios are fixed-point integers: prices in ticks
of 1/10 000, quantities in lots of 1/10 000, ratios and basis points scaled by
10^8 (`fixed::FIXED_ONE`).

## Layout

- `src/` — the verified library.
  - `types`, `config`: orders, fills, books, trades and the configuration.
  - `market_data`: book and recent-trade state and the microstructure inputs
    (imbalance, trade flow, spread, momentum, large resting orders, icebergs,
    queue position).
  - `signals`, `decision`: the signal set and the passive/aggressive decision
    with child sizing.
  - `exchange`: the simulated venue — book generation, random trades, order
    acceptance, cancellation and matching.
  - `execution`: the decision loop's state transitions (start, market data,
    fills, expiries, decisions).
  - `performance`, `fill_analytics`: implementation shortfall, VWAP, fill
    rate, maker/taker shares and adverse selection.
  - `report`: the Markdown report text.
  - `laws`: properties that span several functions.
  - `clock`, `random`: the calls into `chrono`, `uuid` and `rand`.
- `app/` — the program around the library: configuration loading (YAML), the
  venue and decision loops on `tokio`, the CSV fill log and logging.
- `tests/` — tests of the library.
