# splitter_v3

A revenue splitter for a token: a sender's amount is divided among
recipients by shares in basis points, after a protocol fee, with a
whitelist of verified recipients.

- `src/` is the verified library. `splitter.rs` holds the splitter's state
  (configuration, strict flag, verification statuses) and its operations;
  `shares.rs` and `payout.rs` the arithmetic of a split; `laws.rs` the
  properties proved of every split (only verified accounts are paid, funds
  are conserved, strictness is moot when everyone is verified).
- `app/` is the Soroban contract around it: storage, authorization, token
  transfers and events. Each entry point loads the state it needs, asks the
  library, and carries out what the library decided.
- `tests/` drives the library with a small in-memory token ledger.
