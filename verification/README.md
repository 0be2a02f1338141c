# bigserve

State machines for replicated services, with contracts that are proved by Verus.

- `src/` is the library. It does no I/O: a state machine takes events, updates
  itself, and hands back the actions that are to be performed.
  - `pbft`: consensus among replicas, and the client's side of it.
  - `replication`: ordering by a single server or by a known log.
  - `service`: services that execute ordered requests. `unsharded` keeps the
    state of the application to itself; `big` and `big2` keep it in storage
    that is sharded over nodes, with an active and an archive tier.
  - `storage`: names and versions in a database, and a trie with proofs.
  - `server`, `session`, `unreplicated`, `workload`: which requests to execute
    and whom to answer, and the clients that send requests.
  - `app`: what applications look like, and some of them.
- `app/` performs the actions: connections, databases and timers.
- `tests/` runs the library on concrete values.

Laws that relate several functions are public proof functions beside the
functions they are about, or in files of their own whose names end in `laws`.
