# sider

An in-memory database server that speaks RESP2, with its logic verified by Verus.

`src/` is the library. Everything in it is proved against contracts over
mathematical models:

- `resp`: the wire protocol, an incremental decoder and the encoder;
- `command`: what requests ask for, scores and their texts, replies;
- `storage`: the dataset of one shard, batches of changes, observation of keys,
  quotas, routing, and the owner of a shard;
- `connection`: what a connection does with each request, transactions and the
  answer to EXEC;
- `pubsub`: channels and their listeners;
- `persistence`: the append-only log, its recovery, compaction, migration and
  backups;
- `replication`: messages between servers, the history of a primary, sessions
  and roles;
- `config`, `settings`, `metrics`, `readiness`, `server`: what is configured,
  counted, told and decided around them.

The laws that relate several functions are public proof functions whose names
begin with `law_`.

Some calls go to other crates: `bytes` for buffers, `sha2` for digests,
`serde_json` for the text of a backup's description, `getrandom` for epochs,
and `tokio`'s limit on permits. Each stands behind one small function whose
contract is trusted and whose comment says what is claimed.

`app/` holds the programs around the library: sockets, files, tasks, clocks and
floating point. `tests/` runs the library on concrete values.
