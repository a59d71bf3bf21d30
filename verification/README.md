# forebodere

The logic of Forebodere, a Discord quote bot, written in Verus with its
contracts proved.

- `src/` is the verified library:
  - `text.rs`: whitespace, trimming, splitting, joining and decimal
    rendering over sequences of characters;
  - `unicode.rs`: the Unicode character properties taken from `std`;
  - `db.rs`: quotes, and the escaped full-text search expressions built from
    what a user types;
  - `commands.rs`: quote requests, quote rendering, splitting replies into
    messages, and the replies of the commands;
  - `lol.rs`: recognising laughs and tracking laugh streaks per channel;
  - `markov_model.rs`: word Markov chains over the quote corpus;
  - `llm.rs`, `metrics.rs`: the computed parts of quote generation and of
    command metrics.
- `tests/` runs the library on concrete values.
- `app/` is the bot itself: Discord, SQLite, HTTP and telemetry around the
  library.
