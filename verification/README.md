# aegeri

The verified core of the Aegeri layered-consensus ledger, written in Verus.

- `src/` is the library. Each function carries a contract that Verus proves.
  - Messages: `id`, `keys`, `crypto` (SHA3-256 and ML-DSA-44, called from their
    crates), `message`, `message_in`, `message_out`.
  - Consensus values: `transaction_set`, `index`, `order`, `quorum`, `proposal`,
    `transition`, `subcommittee`.
  - A node: `tables` and `mempool`, `block` and `store`, `executor`, `task`,
    `bootstrap`, `client`, `clock`, `cluster`, `program`.
- `tests/` runs the library on concrete values.
- `app/` puts the messages on the wire: serializable copies of the library's
  types, JSON payload bytes for signing and verifying, and wire bytes for
  unified messages.
