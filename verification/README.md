# river_crossing

The game logic of a solitaire in which foxes, rabbits and carrots cross a
river. Thirty-nine cards (ranks 1 to 13 of three suits) are dealt on the three
depots of the left bank. Stacks of decreasing rank and alternating suit are
carried across; a side on which foxes outnumber rabbits by two (or rabbits
outnumber carrots by two) loses the game, and filling the right bank wins it.

* `src/` is the library, verified with Verus.
  * `game/mod.rs`: cards, suits, the deck.
  * `game/board.rs`: depots, sides, the board and its moves, with
    `BoardModel` as the board's value.
  * `game/counts.rs`: counting suits per side, dangers, predicted counts.
  * `game/game.rs`: the game state, clicks, showing moves, undo, restart,
    statuses, with `GameModel` as the game's value and the laws of play.
  * `game/skin.rs`: texts, symbols and colors of cards.
* `tests/`: tests of the library on concrete games.
* `app/`: serde, strum, enum-map and enumset copies of the library's types
  and the functions that store a game after a change.

## Suit counts and danger sets

The suit counts (`SuitCount`, `SuitCounts`) and the set of suits in danger
(`Dangers`) are types of the library rather than `enum_map::EnumMap` and
`enumset::EnumSet`. An `EnumMap<Suit, _>` needs `Suit` to implement
`enum_map::Enum` and `EnumArray`: the derive is an outside macro, and an impl
written by hand in the library is refused by Verus for the trait's associated
constant `LENGTH` ("function for external trait must have mode 'exec'"), while
the `exec const` form it asks for is not accepted by the crate's source rules.
An `EnumSet<Suit>` needs `enumset::EnumSetType`, an `unsafe` trait that only
its derive implements. `app/` converts the library's counts to `EnumMap` and
`EnumSet` for the interface.
