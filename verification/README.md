# kafko

An embedded, partitioned, append-only log in the manner of Kafka: topics with
partitions, reads by offset, replay, retention, consumer groups, crash recovery.

`src/` is the library. It decides everything and performs no I/O, and all of it
is verified with Verus: every function states what it returns or changes, and
the promises of the library as a whole are proved as laws (the functions named
`law_..`).

| module | what it holds |
|---|---|
| `record`, `compression`, `wire` | the record format and the codecs |
| `segment`, `sparse_index`, `log` | the segmented log and its index; an append is planned as a list of effects |
| `scan`, `disk` | searching and recovering segments; the log together with its files |
| `durability` | what the log promises: reading back, failed appends, crashes, opening again |
| `retention` | deleting old segments |
| `topic`, `producer`, `position` | routing records to partitions |
| `consumer`, `offset_store` | cursors, and the committed offsets of a group |
| `partition` | working off a partition's commands |
| `broker` | the registry of topics |
| `text`, `error`, `duration` | file names, messages and lengths of time |
| `outside` | what is taken on trust from other crates |

`app/` drives the library: it owns the files, the tasks, the HTTP server and a
small benchmark. `tests/` runs the library on concrete values, with files held
in memory.
