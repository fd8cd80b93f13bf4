# clob

A central limit order book with price-time priority, for one Solana account per
market. The library holds everything that can be decided without a runtime: the
book and its matching, the instructions, the account checks, the byte layouts,
the client's encoders and decoders. Verus proves each function against its
contract.

A market is one account: a header, two occupancy bitmaps, 8192 price levels,
128 seats and a pool of orders. Prices are ticks; the levels are a ring over a
window of ticks that can be moved. Makers quote from seats that they fund, and
trades settle between seats.

## Reading order

- `model.rs` says what a book means and what each operation does to it.
- `book.rs` has the stored regions, the invariant `wf` that ties them to the
  model, and the list surgery; `orders.rs`, `quoting.rs`, `matching.rs` and
  `hygiene.rs` are the operations.
- `maker.rs`, `taker.rs`, `funding.rs`, `cranks.rs`, `admin.rs` and `opening.rs`
  are the instructions; `accounts.rs` and `dispatch.rs` check and parse them;
  `entry.rs` recognises maker calls in the runtime's input.
- `layout.rs`, `account.rs`, `codec.rs` and `fresh.rs` go between bytes and
  values; `snapshot.rs`, `client.rs` and `scale.rs` serve clients.
- `audit.rs` checks a market against its vaults; `inspect.rs` tells from bytes
  whether they are a well-formed market, and `BookRefMut::load` hands one out.
- The laws: `laws.rs`, `priority.rs`, `custody.rs`, `ledger.rs`, `vacancy.rs`,
  `versions.rs`, `access.rs`, `windows.rs`, `requote.rs` and `undo.rs` speak of
  single steps; `history.rs` of any sequence of operations on a book, and
  `lifetime.rs` of any sequence of instructions from a market's creation on.

What is taken on trust stands in `keys.rs` (program ids, address derivation),
`entry.rs` (one constant of the runtime) and `scale.rs` (two string functions of
the standard library).

`app/` runs the library on a runtime: it reads accounts, carries out transfers
and writes results back. It holds the whole book in memory while an instruction
runs, so the runtime must map a larger heap than it does by default.
