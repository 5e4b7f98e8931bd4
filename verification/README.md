# beth

`beth` is an EVM-compatible Bitcoin sidechain, secured by the BIP300/BIP301 "drivechain" two-way
peg. This crate holds the rules of the sidechain side of the peg, verified with
[Verus](https://github.com/verus-lang/verus), and the node built around them.

- `src/` is the library. Every function states in its contract what it returns, and Verus proves
  it. The laws that span several functions (that a bundle is canonical and stays within Bitcoin's
  standard weight, that a refunded request is never eligible again, that a stored request queue is
  read back as it was stored, ...) are public proof functions beside the functions they speak of.
- `tests/` runs the library on concrete values, with the outside crates linked.
- `app/` is the node: a [reth](https://github.com/paradigmxyz/reth) node with a custom consensus
  module, payload builder and EVM wiring, which talks to a `bip300301_enforcer` over gRPC. It takes
  every decision that concerns the peg from the library. `app/main.rs` passes no lifecycle report:
  how the report to `WithdrawalRequestQueue` is encoded is not part of this crate, so the node
  reads the requests and the outcomes and then reports nothing. `app/chainspec.rs` embeds the
  chain's `genesis.json`, which is not part of this crate either.

The node is told where its enforcer listens through `BIP300301_ENFORCER_URL` (default
`http://127.0.0.1:8080`), and its sidechain slot through `BETH_SIDECHAIN_ID` (default `10`).

## How the peg works

- **Deposits** (Bitcoin -> `beth`): the enforcer reports deposits of the mainchain blocks that a
  sidechain block covers. Every node computes the same `DepositVault.systemCreditDeposits(...)`
  system call from them. A block's EIP-4895 withdrawals must begin with one mint per deposit as
  well; the two rules stand side by side, and a block that this node builds has no withdrawals.
- **Withdrawals** (`beth` -> Bitcoin): requests queue up in `WithdrawalRequestQueue`. Whoever builds
  a block selects requests into a bundle and has its M6 transaction broadcast. A request whose
  bundle was broadcast is not selected again, whatever becomes of the bundle, as long as the node
  runs.
- **BMM**: every block's `extraData` names a mainchain block, which has to commit to the block.
