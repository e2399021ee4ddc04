# Edge Bookmarks Organizer

A command-line tool for cleaning up and reorganizing Microsoft Edge
bookmark files: statistics, duplicate detection and removal, dead-link
checks, reorganization, backups and a preflight `doctor` report.

The logic lives in a library whose functions carry Verus contracts and are
proved against them; the command-line program around it does the file,
network and terminal work.

## Layout

- `src/` — the verified library
  - `parser.rs`: flattening the bookmark tree into bookmarks, URL
    normalization and domain extraction
  - `duplicates.rs`: duplicate groups, deduplication (first or most
    recently used copy), duplicate statistics
  - `deadlinks.rs`: link statuses, the HEAD-then-GET probe as a state
    machine, filters and statistics over checked bookmarks
  - `organizer.rs`: grouping by domain and root domain, domain and folder
    statistics
  - `embeddings.rs`: keyword-based topic assignment
  - `rebuilder.rs`: building the bookmark tree again — original folder
    hierarchy, by domain, by root domain, or by topic then domain — and the
    rebuilt file
  - `backup.rs`: backup names, selection and pruning
  - `laws.rs`, `roundtrip.rs`, `identifiers.rs`, `structure.rs`,
    `statistics.rs`: properties that relate several functions, among them
    that reading a rebuilt file gives every bookmark back in its folder,
    that the nodes of a rebuilt file have distinct identifiers, the shape
    of each rebuilt tree, and the domain statistics' totals
  - `text.rs`, `sorting.rs`, `grouping.rs`, `bookmark.rs`: strings,
    ordering, grouping and the data model
- `app/` — the command-line program (argument parsing, JSON files,
  HTTP checks, backups on disk)
- `tests/` — tests of the library

## Safety

Destructive commands are dry runs unless `--apply` is given, a backup is
written before every rewrite, and no rewrite happens when the file yielded
no bookmark.
