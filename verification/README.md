# tok

The value layer: the conservation clip and settle mint (the PLUMB mint
path), the mint ledger it settles into, and the reward, fee and market
splits built on that ledger — written in Verus, with every function of the
library proved against its contract.

- `src/` — the verified library. `fixed` (fixed-point values over the
  Goldilocks field, arithmetic by `cyber-tru`), `ids`/`slots`/`ledger` (the
  mint ledger, conserving every token in every state), `conservation` (the
  clip to `min(v★, Δφ⁺)` and the integer split under a budget), `mint`
  (settle mints and the intent hash), `referral`, `sybil`, `fee_share`,
  `fees` and `book` (birth mints, referral payouts, fee distribution, the
  home-book registry), `stake`, `pow_subsidy`, `service_fee` (reward terms),
  `icbs` (the ICBS market), `hashing` (Hemera digests by `cyber-hemera`).
- `app/` — the floating-point edge: the mass-to-token rounding and split
  weights in `f64`, and the entry points that compose them with the
  library (`conserve_and_allocate`, `execute_settle_mints`, market
  `buy`/`sell`, `referral_payout`).
- `tests/` — the library's tests, one file per module.
