# deck

Playing cards, a 52-card deck with a Fisher-Yates shuffle, and the rules of
the card game War. The library is written in Verus: every function carries a
contract, which Verus proves for the library's own code. The few calls into
`rand` and `std` that it makes (in `src/rng.rs` and `src/input.rs`) are
trusted wrappers whose contracts state what those functions document.

- `src/card.rs`: suits, face values, cards and how they are shown.
- `src/deck.rs`: the deck, its shuffle, and the laws that a fresh deck holds
  every card once and that a shuffle only reorders cards.
- `src/war.rs`: the table of a game of War and its steps (deal, play a
  face-off, find the winners, award, go to war), each specified over a
  plain-value view of the table.
- `src/war_laws.rs`: laws of the game: highest card wins whatever the suits,
  a face-off keeps every card in play, dealing is even
  and keeps every card, a war leaves every winner a card, and a game
  that ends leaves its winner holding every card.
- `src/input.rs`: reading the number of players, and why a read failed.
- `src/rng.rs`: the calls into `rand`, and a generator that keeps a record
  of the draws made from it, so that contracts can say which draws a
  shuffle asks for.
- `app/main.rs`: the terminal program that plays a game.
