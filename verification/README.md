# gtether

The decisions of the gtether engine, written in Verus: which resource is loaded from where, what an
update at a source leads to, which task runs next. Everything under `src/` is verified; each public
function states in its contract what it returns and what it changes. What a contract leaves open
depends on something outside: the present time, which free slot `slab` takes, and which patterns take
`regex` more memory than it allows. Resources that are updated because of their dependencies are
updated in any order.

## Layout

- `src/resource` - identifiers and paths, sources and positions in a hierarchy of sources, watchers,
  and what went wrong when a load fails.
  - `source` - sources of data: constant data, lists, changing lists, files.
  - `watcher` - trees of watchers that report updates with the position of their source.
  - `manager` - the cache of loaded resources, the graph of their dependencies, and how updates
    travel through both. `manager::direct` is a smaller manager with one entry for each identifier
    and no dependencies.
- `src/util` - priority queues, the executor's bookkeeping, tick loops, wakers, small tables.
- `src/worker` - queues of work, and how a pool of workers finds its work.
- `src/server` - the headless side of an engine.
- `src/net` - what the generators of network code decide.
- `tests` - tests of the library as its users see it.
- `app` - threads, tasks, channels, files and token streams around the library.

## How values are named

The library does not hold threads, tasks, wakers or typed values. It names them by numbers, and
whoever calls it keeps what the numbers stand for. A resource that the cache does not keep alive
itself may be gone: the caller says which ones are still alive. Points in time are counted in
nanoseconds.

## What is taken on trust

Calls into other crates stand behind small functions whose contracts are believed: `boxcar`, `papaya`
and `ahash` for the table of identifiers, `slab` for unfinished tasks, crossbeam's `SegQueue` for
queued work, `sha2` and `base64` for hashes, `regex` for patterns, `chrono` for the time, and the
quoted form of a text. The comment above each says what is claimed.
