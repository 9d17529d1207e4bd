# aladdin

An arbitrage bot for betting sites. It watches the offers of several bookmakers,
matches offers about the same event across them, and bets on every outcome when the
best odds together leave a profit whatever the result.

## Layout

- `src/` is the verified library, checked by Verus:
  - `currency`, `opportunity`: money in cents, odds in thousandths, the margin of a
    market and how a bet is split over its outcomes;
  - `events`, `markets`, `matcher`: offers, their outcomes, and the decision whether
    two offers of different bookmakers are about the same event;
  - `table`, `bookie`, `arbitrer`: the shared table of markets, the bookkeeping of each
    bookmaker, and the decisions taken on a market;
  - `gamblers/`: what each supported site's data means, from its pages and replies to
    offers and bets;
  - `html`: the elements of a page that CSS selectors find;
  - `session`, `timers`, `barrier`, `logger`, `parse`, `text`: the request protocol and
    cookies, periodic timers, barrier counting, the log history, and text helpers;
  - `combo`: the record of placed bets in SQLite.
- `app/` is the program around it: threads, HTTP and websocket I/O, the database file,
  the status page, and the float conversions of money.
- `tests/` exercises the library on concrete values.
