# interstice_core

The storage and scheduling core of the Interstice runtime, written in Verus
with its behaviour stated in contracts and proved.

- `src/runtime/table/`: tables with a primary key, secondary indexes (hash and
  ordered) and auto-increment counters; every change keeps the indexes exactly
  in step with the rows.
- `src/runtime/transaction.rs`: the tables of a module and how reducer changes
  are applied to them, with the events and persistence work each change yields;
  replica tables that follow a remote source.
- `src/runtime/scheduler.rs`: running reducers side by side when their table
  accesses do not conflict, holding the others back in arrival order.
- `src/runtime/module_load.rs`: whether a module can be loaded: the
  authorities it claims (each held by one module at a time), its name, its
  dependencies, remote subscriptions, and the public remote tables it
  replicates under `__replica__` names; and which module may make host
  calls that need an authority (only its holder).
- `src/runtime/node_events.rs`: peer nodes' subscriptions to table events,
  full table copies for peers (public tables only), and app initialization.
- `src/runtime/timers.rs`: reducers scheduled for later: how long to wait
  and which are due, in time order.
- `src/runtime/index.rs`, `scan.rs`: byte-keyed primary, secondary and
  composite indexes, and walks over a table's rows (all, or those a predicate
  accepts) and over index results.
- `src/runtime/table_access.rs`, `table_permissions.rs`: canonical
  `node.module.table` names and the access checks made against a reducer's
  declared tables.
- `src/persistence/`: the transaction log and its on-disk framing, log replay
  onto tables, snapshots, log rotation plans, validation, migrations, schema
  versions and peer tokens.
- `app/`: file-system and serialization plumbing around the library.
- `tests/`: tests run against the compiled library.
