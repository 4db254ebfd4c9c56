# racetoturin

Who would qualify for the ATP Finals in Turin if selection happened now?

The site reads Wikipedia's `<season> ATP Finals` article, validates the
candidate, publishes it to SQLite (append-only, content-hash dedup, atomic
pointer), applies the Turin qualification rule and serves the table as HTML.
Every row expands to the tournaments behind its points.

## Layout

`src/` is a Verus library: what the site decides and says, with contracts and
proofs.

| Module | What it holds |
|---|---|
| `text` | string operations over `Seq<char>`, each with an exact meaning |
| `calendar` | dates and moments as plain values; the `time` crate behind them |
| `digest` | SHA-256 in hexadecimal; the `sha2` crate behind it |
| `canonical` | the canonical text of a table, which is hashed |
| `model` | rows, ledgers, qualifiers, snapshots |
| `source` | the article parser, its validation, and what a parsed snapshot promises |
| `parser` | the live race page parser; the `scraper` crate behind it |
| `curated` | the manual input: champions and withdrawals |
| `qualification` | the selection rule and its laws |
| `storage` | snapshots as columns and back, publication, movement |
| `atp` | the map of ATP ids and profile links; the `toml` crate behind it |
| `wikidata` | topping up that map; the `serde_json` crate behind it |
| `fetch` | what is asked with and what is accepted |
| `web` | every string that the pages display |

`tests/` runs the library. `app/` is the program around it: environment, HTTP,
SQLite, routes and markup.

## What is proved

Every function of `src/` is verified against its contract. Beyond the contracts,
public proof functions state what holds across functions, among them:

- a snapshot that parses is sound, and no row of it shows a breakdown that does
  not add up to its total (`source::a_parsed_snapshot_is_trustworthy`);
- the points on the lines of a displayed breakdown add up to the row's total
  (`web::every_displayed_breakdown_adds_up_to_its_total`);
- each active player has one place, a withdrawn player none, and an eligible
  Grand Slam champion takes seat 8 (`qualification`);
- a separator between the rows of the article's table changes no row
  (`source::a_separator_never_shifts_a_row`);
- what is stored reads back (`storage::snapshots_round_trip` and the contract of
  `storage::store_live`);
- rows that agree with the current ones in all but movement are not published
  again, and any others get a larger version
  (`storage::content_is_published_once`);
- what was published is then current, under its version and in all but movement
  as it was (`storage::what_is_published_is_current`);
- what is current carries the places gained since the table before it
  (`storage::movement_needs_two_snapshots`,
  `storage::movement_counts_the_places_gained`);
- a name links to a profile only by a well-formed id
  (`atp::links_are_never_guessed`), and topping up the map never loses an entry
  (`wikidata::the_map_only_grows`).

What is believed rather than proved are the contracts of the small functions
that call std and the outside crates; each says in its doc comment what it
claims.
