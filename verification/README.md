# ordinal_transaction_builder

A verified library that builds ordinal-aware Bitcoin transactions: given the
sat to send, the outputs of a wallet and the inscriptions on them, it selects
inputs, aligns the sat with the output of the first recipient, adds value and
change, and takes out the fee.

- `src/model.rs` says what each step does to a transaction under construction,
  as mathematical functions on a `Draft`.
- `src/builder.rs` and `src/checks.rs` do it, and are proved to do just that.
- `src/laws.rs` states what holds of every transaction that is built.
- `src/allotment.rs`, `src/steps.rs` and `src/variations.rs` hold the lemmas on how
  funds are handed out, on what the steps keep, and on what another wallet or limit
  changes.
- `src/address.rs`, `src/amount.rs`, `src/fee_rate.rs`, `src/outpoint.rs`,
  `src/ordered.rs`, `src/transaction.rs`, `src/error.rs`, `src/text.rs` and
  `src/bytes.rs` hold the values that these are made of.
- `app/` connects the library to the types of the `bitcoin` crate.

What the library has from the `bitcoin` crate, it calls through a few functions
whose contracts are believed: the script of an address, the dust value of a
script, the weight of a transaction, and the texts of addresses, amounts and
transaction ids.
