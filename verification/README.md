# dice_state

Durable and bounded state for a versioned incremental graph, verified with Verus.

## The library (`src/`)

- `versions`, `force_dirty`: version numbers, sets of versions in canonical form, and the
  versions at which a node was forced dirty.
- `value`, `nodes`, `store`: values, what a node keeps of one, and the nodes by key with the
  counts of what is in memory.
- `graph_types`, `graph`, `graph_laws`: lookups, computed values, invalidation and what depends
  on what.
- `tracker`, `core_state`, `core_laws`: versions with active transactions, and the core state
  that everything else asks.
- `persist`, `persist_ext`: the snapshot header, the stored forms and their encoding, and whether
  a snapshot is saved or loaded.
- `snapshot`, `snapshot_laws`: what is written of each node, what is made of it when it is read,
  and what holds across the two.
- `pressure`: which cold values are evicted when memory is short.
- `configure_dice`, `hydration`: settings, the evictor's control loop, and the command that
  pages values out and in and reports.
- `dup_stats`: which strings occur more than once across heaps.
- `analysis`: the part of an analysis result that can be persisted.
- `sort`, `text`: sorting and text.

What a module's functions do is stated in their contracts over mathematical models of the data.
Properties that span functions are the public proof functions whose names begin with `law_`.

Three kinds of calls leave verified code: bincode encodes and decodes stored forms, BLAKE3
digests what a snapshot depends on, and the standard library builds and quotes text. Each is
behind a declaration whose doc comment says what is taken for granted.

## Around it (`app/`)

The thread that owns the state, timers, environment variables, and the interface to a store.
