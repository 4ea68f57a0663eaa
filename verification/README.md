# liars_bars

The game logic of a Liar's Bar table, verified with Verus.

- `src/` is the verified library. `state` holds the table, player, room and revolver-table
  types (player addresses as `PlayerKey`, encrypted handles as `u128`); `helpers` resets a
  round; `instructions/` has one module per instruction of the program, each a function from
  the accounts' state (and, where the instruction draws one, a random number) to the new
  state and what the caller must do next (cards to encrypt, access to grant, whether to pull
  the trigger or start a new round).
- `app/` is the on-chain program around it: the Anchor accounts, the calls into the Inco
  Lightning program (random numbers, encryption, access grants), events, and the conversions
  between the accounts and the library's types.
- `tests/` runs the library on concrete games.
