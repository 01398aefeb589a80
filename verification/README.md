# obsidian

The decisions of a distributed, transactional key-value store, verified with
Verus.

- `range`: bounds, ranges and sets of ranges of keys.
- `types`: identifiers, timestamps, transactions, records.
- `router`, `meta`, `meta_synced`: which tablet owns a key, and the copy of the
  metadata that says so.
- `tablet`: reads, writes, scans and two-phase transactions of a tablet, and
  how transactions are recorded, resolved and cleaned up.
- `sequencer`: timestamps of writes, and up to when reads are safe.
- `shard`, `shards`, `replica`, `node`: which tablets a shard has, who leads
  it, and how it recovers from its journal.
- `supervisor`: plans and runs transfers of data, and collects garbage.
- `storage`: files in memory behind a cache of pages.
- `rtest`: checks that a history of appends and reads can be explained by an
  order of its transactions.

The library takes what was read and the events that came in, and says what to
return, what to write and what to do next. `app/` holds what waits, sleeps and
talks to stores and other processes.
