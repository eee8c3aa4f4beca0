# zsqlite

A store for the pages of SQLite databases: immutable, compressed, shared between
heads, and collected when nothing reads them any more. The library is verified
with Verus; the contracts of its functions speak of mathematical models.

## What is stored

A *view* maps the pages of a database at one transaction to slots of *frames*. A
frame holds the versions of some pages, compressed with Zstandard (with or without
a shared dictionary) or raw. Frames stand in *packs*, packs in *blobs*. A view is
written as a *manifest*: a checkpoint, or a run of changes against a parent that is
named by its logical hash. The *catalog* of a namespace says where packs are
placed, which manifests end where, what is retained by name, and what the heads
have sealed; it is published by replacing one small root.

## How it is laid out

- `src/` holds the library. `adapter` states what a backend is: its calls and
  their replies are noted in a ghost history, and the contracts of what reads a
  backend say what the history makes of it. Of an object that is written in a
  stream the history notes the end: that it was installed, or where it broke off.
  `opening` bounds the one failure that no history decides: a Zstandard payload
  or a dictionary that the decompressor refuses, which must have been read just
  before.
  - encodings: `bytes`, `text`, `wire`, `format`, `frame`, `pack`, `segment`,
    `manifest`, `view_codec`, `run_codec`, `index`, `keys`, `directory`
  - views: `view`, `draft`, `run`, `resolve`, `validation`, `pinned`, `page`,
    `records`, `reading`, `statistics`
  - writing: `pack_writer`, `blob`, `assembly`, `seal`, `alike`, `builder`,
    `publication`, `samples`
  - the catalog: `state`, `catalog`, `objects`, `retention`, `handle`, `holdings`
  - maintenance: `trace`, `survey`, `report`, `estimate`, `collect`, `relocate`,
    `repack`, `rewrite`, `maintenance_read`
  - reading through a cache: `recency`, `slots`, `cache`
  - backends: `memory`, whose replies are those of what it holds; `driver`, which hosts a plain one; `faults`, which makes
    another one fail
- `tests/` runs the library on a backend in memory.
- `app/` keeps a namespace in a directory, with locks and leases.

What the library takes from other crates is declared next to the functions that
call them, with what is believed of each: `digest` (BLAKE3), `codec` (Zstandard)
and `entropy` (the system's random numbers).

Proof functions named `law_...` state what holds of several functions together:
that what was sealed is what is read, that encodings decode to what was encoded,
that collection keeps what a root reaches.
