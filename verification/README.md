# tokimo-kvdb

An embedded key-value database: a B-tree in 4 KB pages, a write-ahead log with CRC-32 checksums,
transactions, compaction, and a portable export format. The library in `src/` is verified with
Verus; `app/` is the command-line tool around it.

## How it is laid out

The library does no input or output. It is given what the data file and the log file hold, works on
that, and hands out an ordered list of requests (`Request`): write these bytes there, cut the log,
force the file to disk, put a new file in the place of the old one. `app/` reads the files, calls
the library, and carries out the requests.

| module | what it holds |
|---|---|
| `bytes`, `constants`, `error` | numbers as bytes, the order of keys, fixed-size records, errors |
| `storage`, `requests` | a file as bytes and pending changes; what is asked of the files |
| `page`, `pager`, `space` | pages, the cache over them, free pages and new ones |
| `entries`, `node` | sorted runs of pairs; how a node is laid out in a page |
| `tree`, `cuts`, `tree_laws`, `counts`, `growth` | the model of a B-tree, where its nodes are cut, what its operations keep, how large it is |
| `store`, `shape` | when pages hold a database, and what it is apart from its bytes |
| `btree`, `btree_walk`, `capacity`, `audit`, `survey` | the tree over pages: changing, walking, room, soundness, what can be read |
| `wal`, `wal_laws`, `replay` | the log, that it is read back as written, and doing what it commits |
| `export` | the portable format |
| `database`, `effects` | the database, and what its calls do |
| `laws`, `build_laws`, `rounds` | what holds over several calls |

## What the contracts say

A database is *sound* when its pages hold a balanced search tree, each node in a page of its own,
apart from the free pages. `Database::open` does what the log commits; `put` and `delete` keep a
sound database sound and say exactly which tree comes out; outside a transaction the data file
always holds the pages, and the log is empty. What is refused is not logged. Nodes are cut by the
bytes of their pairs, so that every pair of a size that can be stored finds room as long as memory
holds the pages. Where it does not, or where the pages are not those of a database, a call is not
allowed: `is_sound`, `has_room_for`, `is_compactable`, `try_import` and `open_checked` tell
beforehand. What can be read of pages that are not sound, `is_walkable`, `is_searchable`,
`is_measurable` and `is_inspectable` tell.

The one thing that is believed without proof is that `crc32fast::hash` is the CRC-32 checksum of its
bytes.
