# bridge_buddy

A contract bridge toolkit, verified with Verus: cards, hands, deals and decks; hand evaluation
(high card points, playing and losing trick counts, suit quality, stoppers); and a double dummy
solver that finds, for every declarer and strain, the tricks declarer takes when all four
players see all the cards and play perfectly.

## Layout

- `src/card.rs`, `src/hand.rs`, `src/deal.rs`, `src/deck.rs`, `src/notation.rs`: the cards and
  how they are dealt and written.
- `src/evaluator.rs`: hand evaluation in whole and half points.
- `src/webapp.rs`: the state and the updates of the hand-entry page.
- `src/dds/`: the solver.
  - `suit_field.rs`, `card_tracker.rs`, `card_manager.rs`: the cards of each seat as bit fields.
  - `trick_manager.rs`, `double_dummy_state.rs`: the rules of the play of the cards.
  - `virtualizer.rs`, `virtual_card*.rs`, `distribution_field.rs`, `virtual_state.rs`: the
    cards still in play by relative ("virtual") rank, and who holds them.
  - `move_generator.rs`: one move per run of touching cards, ordered by priority.
  - `trick_estimations.rs`, `transposition_table.rs`: the shortcuts of the search.
  - `double_dummy_runner.rs`, `double_dummy_solver.rs`: the search and the table.
  - `perfect_play.rs`: the value of a position under perfect play, defined as a game tree.
  - `touching_moves.rs`: why one card of each run of touching cards is enough.
- `app/`: the floating-point evaluations and search ratios, and the solving of a whole deal
  with its first estimate.

## What is proved

Every function in `src/` is verified against its contract. In particular, a search without the
transposition table and without quick-trick or losing-trick estimates returns exactly the
perfect-play value of `perfect_play::value` for every declarer and strain
(`DoubleDummySolver::solve`), whether or not the moves are ordered.
