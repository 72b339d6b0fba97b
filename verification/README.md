# todo

A priority-aware task ledger kept as Markdown. One `todos.md` per company holds
the items in `## P0`, `## P1`, ... buckets; the library reads that file, changes
it, and writes it back in canonical form. Its behaviour is stated in contracts
and proved by Verus.

## Layout

- `src/` – the verified library
  - `text`, `decimal`, `calendar` – characters, numbers, dates and timestamps
  - `model` – items, lists, states, and their views
  - `parser`, `writer` – the Markdown form, read and written
  - `roundtrip`, `ledger`, `canonical` – what reading and writing promise
    together, for one line, for whole files, and for files in canonical form
  - `ops` – the operations: add, close, move, park, release, evidence, sweeps,
    missing ids
  - `reports` – closes and churn, counts by project, the salience ranking
  - `laws` – what operations and reports promise together
  - `listing`, `cli` – which items are shown and how; the command line
  - `events`, `paths` – audit records and file locations
- `tests/` – tests on concrete values
- `app/` – the program: files, lock, clock, environment, JSON

## Conventions

Time is handed in as seconds since the start of 1970, ids are drawn from clock
readings that the caller hands in, and every operation returns the audit entry
that is due. Contracts speak of views: text is a sequence of characters.

Two things are taken on trust, each described where it stands: that
`String::push` appends one character, and how chrono writes a point in time in
the form of RFC 3339.
