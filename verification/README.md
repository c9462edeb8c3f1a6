# kv_store

The decision logic of a node of a replicated key-value store that runs as a
Kubernetes stateful set and orders client commands with OmniPaxos.

- `src/` is the verified library:
  - `decimal_text`: printing and parsing unsigned integers in decimal;
  - `text`: prefix tests and `-`-separated fields of pod names;
  - `addresses`: the addresses a node dials and the paths of its data;
  - `discovery`: which pods to connect to, with which node id and role;
  - `framing`: newline-terminated messages and routing by node id;
  - `config`: the node's configuration from its environment variables;
  - `kv`: the commands and the store that decided commands are applied to,
    opened with what its directory on disk holds;
  - `snapshot`: compaction of a run of commands into its last writes;
  - `liveness`: heartbeat bookkeeping about peers;
  - `server`: a replica's answers to requests, decided-log progress,
    application of decided entries and joining of new configurations.
- `app/` runs the node: the Tokio event loop, the TCP connections, the
  Kubernetes pod watch, JSON (de)serialization, the OmniPaxos instance, and
  the RocksDB store on disk that the library's decided writes go to.
