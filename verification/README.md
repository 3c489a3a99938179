# The cell-game AI seats, verified

The decision logic of the AI opponents of a cell-game RTS (sub-structures that produce ships,
capture by a resistance grind, fleets between structs), written in Verus: every policy is a
pure function of a board of integers and booleans, and its contract states exactly what it
decides.

## Layout

- `src/` — the verified library.
  - `position`, `greedy`, `vocab`, `automata` — the board, the greedy expand/defend/assault
    rule, the shared vocabulary of predicates and actions, and the four automatons composed
    from it.
  - `simple`, `simple_step`, `simple_turn`, `funnel`, `last_stand`, `routes`, `order` — the
    ledger-driven Simple colonizer: one decision tick per struct, the whole seat's turn, the
    inter-struct funnel, the last stand, teleporter routing and the deterministic orderings.
  - `cycler` — the Cycler drillmaster.
  - `observe`, `profile`, `synthesize`, `strategy`, `bestresponse`, `faction` — the
    opponent-observation bands, tallies, counter-exploits, the strategy vocabulary and the
    best-response candidate allocations (hold, concentrate, spread).
  - `controller`, `adapters` — the roster and the fraction-bucket fold.
- `tests/` — scenario tests of every public function and law.
- `app/` — the host: it reads the simulation, prices the float-valued signals (OVERWHELM bars,
  ranking keys, geometry), calls the library and applies its orders.

Laws that relate several calls are public proof functions named `law_*`.
