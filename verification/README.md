# prediction_clob

A binary-outcome prediction market built around a central limit order book,
with its core verified in Verus.

- `src/` is the verified library: the order book's three linked lists (bids,
  asks, free slots) over a fixed array of slots, price-time priority
  insertion, the matching engine, the user ledger, the settlement rules of a
  market, and the rebuilding of a book from its stored fields with a check
  of every invariant.
- `app/` is the on-chain program around it: account contexts, account
  (de)serialization, the clock and the token transfers. It converts the
  accounts into the library's types, calls the library and writes the
  results back.
- `tests/` exercises the library on concrete scenarios.
