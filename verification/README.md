# blackjack

A casino blackjack engine with machine-checked contracts: one human player at
a living table of AI strangers, real multi-deck mechanics (insurance, splits,
double down, late surrender, 3:2 blackjack), and chips as the only
scoreboard. The library is written in Verus: every function in `src/` is
verified, and the public ones state what they do in `requires`/`ensures`
contracts that Verus proves. The calls into the random-number crates are
the only code taken on trust (see `rng`).

## Layout

- `src/` — the verified library.
  - `card`, `hand`, `rules`, `shoe` — cards, hand totals, house rules, and a
    multi-deck shoe with a cut card and a real discard pile.
  - `table` — the rules engine: betting, the deal, insurance and the peek,
    player decisions, the dealer's draw, settlement. Its invariant includes
    that every card of the table's decks is in the shoe, the discard pile,
    or on the felt, and its rules leave enough decks that the felt can never
    hold them all.
  - `chips`, `staging` — chip stacks, exact change, payouts, and the chips a
    player stages before committing them.
  - `strategy`, `persona`, `life` — basic strategy, AI temperaments, and the
    table's life: arrivals, departures, bets, and plays, one beat at a time.
  - `session`, `backend` — a human session with a rack of real chips from
    buy-in to walking away.
  - `snapshot`, `event`, `action` — what the engine reports and accepts.
  - `display`, `motion`, `driver`, `scene`, `gesture`, `keyboard`, `input`,
    `help`, `text` — the presentation logic: what the felt shows, how each
    event is animated and played frame by frame, and how keys and strokes
    become actions.
  - `rng` — the only trusted seam: the seeded ChaCha8 generator.
- `tests/` — executable tests against the compiled library.
- `app/` — the unverified shell: serialisation, screen geometry in floating
  point, the input state machine, and the host commands.
