# paper_ecash

Analytics for fedimint paper ecash: decode out-of-band ecash strings, keep
named sets of notes, group them into the paper notes they were printed on,
track which have been redeemed (as reported by a fedimint observer), and
present amounts, times and redemption charts.

## Layout

- `src/` — the library, verified with Verus.
  - `models/` — notes, note sets, paper notes, and the decoder of ecash
    strings (bech32m or base64, BigSize-framed parts).
  - `state/` — the application state and its update rules (`store.rs`),
    with the properties that hold across operations (`laws.rs`).
  - `features/` — importing notes, refresh planning and outcome, sorting,
    and the text of note rows and cards.
  - `components/` — chart data (redemptions per time bucket and per hour)
    and style classes.
  - `api/` — observer URLs, request bodies and error classification.
  - `utils/`, `text.rs` — number, amount, time and string formatting.
  - `external.rs` — the calls into outside crates (base64, bech32, k256,
    hex, chrono, uuid), each with the contract the library relies on.
- `tests/` — tests run against the compiled library.
- `app/` — browser glue: local storage, HTTP requests to the observer, the
  refresh flows, and the floating-point chart layout.
