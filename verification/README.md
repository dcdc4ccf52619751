# server

The logic of an STV election service, verified with Verus: counting with Meek's
method and the Droop quota (through `stv-rs`), ordering the elected by
Copeland's method, counting grouped elections group by group, reading the
counting log, and producing the export archive's texts.

## Layout

- `src/counting.rs` — elections, ballots and results; combining identical
  ballots; the pairwise matrix and Copeland ranking; the single and grouped
  counts; which inputs a count can run on.
- `src/log.rs`, `src/log_format.rs` — the counting log: its line formats, the
  parser, and putting candidate counts in candidate order.
- `src/export.rs` — HTML escaping, the README of the archive, `ballots.json`
  entries, the ballots that are counted, when the archive and the ballot ids
  are shown, and the HTML report with its counting log.
- `src/email.rs` — recipient lists and the mails sent to voters: sender,
  recipient, subject and body.
- `src/elections.rs`, `src/tokens.rs` — stored election types, which changes a
  locked election refuses, token requests, which tokens a mailing goes to,
  redeeming tokens and filling in ballots while voting is open.
- `src/lib.rs` — the simulation request: its checks and its count.
- `app/` — the HTTP server (`axum`), JSON shapes, SMTP delivery, the ZIP
  archive and YAML election files.
- `tests/` — tests of the library on concrete elections, logs and texts.
