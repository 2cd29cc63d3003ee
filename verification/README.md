# hledger_tools

Keeps the market prices of an hledger journal up to date from Yahoo Finance.

- `src/` is the verified library (Verus):
  - `text` — `trim_start`, `split_once`, `split_whitespace` words, text order, padding;
  - `journal` — reading `P <date> <info>` lines into a `PriceTable` and writing them back, newest first;
  - `date` — calendar dates from Unix timestamps (`time`) and from journal text (`chrono`), the latest date of a prices file;
  - `history` — daily closes of one stock turned into entries, merged with the journal;
  - `update` — the commodities to update and the prices newer than those already recorded;
  - `search` — the rows of the symbol search table.
- `app/` holds the program: command line, configuration, network, files, printing.
- `tests/` runs the library on concrete values.
