# sc_delegation

The bookkeeping of a delegation (staking pool) contract, verified with Verus: users put
stake into the pool, the pool stakes validator nodes through an auction contract, rewards
are shared out by stake, and stake can be offered for sale, bought, unstaked and unbonded.
Storage is modelled as ordinary data structures in memory; what the contract would send or
call elsewhere is returned to the caller as values.

Layout of `src/`:

- `fund_type`, `fund_item`, `fund_module`: fund storage kept as doubly linked lists, one per
  fund type and one per user and type, with the list invariants and walks that split,
  convert and destroy funds.
- `fund_transf_module`, `fund_view_module`: the transformations between fund types and the
  views over them.
- `user_data`: user ids and addresses. `settings`, `pause`: owner settings and pause flags.
- `rewards`: computation of each user's rewards from the cumulated rewards.
- `codec`, `serialization`: the byte format of the stored values, with round-trip proofs.
- `pool`: the staking contract itself: node registry (`node_config`), stake ledger per user
  and state (`stake_ledger`), funds per state (`fund`, `fund_store`, `fund_transf`,
  `fund_view`), node staking, unstaking and unbonding with the auction callbacks
  (`node_staking`, `node_unstaking`, `node_activation`), rewards (`contract_rewards`),
  stake sale (`stake_sale`), user stake endpoints (`user_stake`), genesis (`genesis`),
  unexpected balance (`unexpected`) and encodings (`bls_key`, `states`, `encoding`).

`tests/` runs the library on concrete scenarios; `app/` holds a small debug program.
