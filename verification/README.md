# barnabas

A Kafka client with a sans-io core. The core decides; a runtime opens, reads, writes and
sleeps. Nothing above the transport names an executor, so the same client runs on a
work-stealing runtime and on one with a thread per core.

The core is a Verus library: every function states what it returns or changes, and Verus
proves it. What it has from other crates stands behind wrappers whose doc comments say what
is believed of them.

## Layout

`src/` is the verified core.

| Modules | What they hold |
| --- | --- |
| `wire`, `text`, `names`, `base64`, `buffer` | bytes, numbers and names |
| `slots`, `name_map`, `grouping` | maps by topic and partition, or by name, and grouping |
| `records`, `codec`, `general`, `record_ref`, `batch`, `layout`, `lean` | record batches: read lean, read the general way, written, laid out in bytes, and walked bare |
| `consumer`, `agreement`, `fetching`, `lookup` | filtering, one record or one batch at a time, fetch sessions and positions, offsets by time |
| `producer`, `partitioner`, `sender`, `window` | sequences and transactions, placement, batches in flight |
| `group`, `assignor`, `sticky`, `stability`, `blobs`, `membership` | groups: who gets what, how little moves, and what members tell each other |
| `admin`, `builder` | topics and settings, staged builders |
| `client`, `error`, `retry`, `routing`, `metadata`, `frames` | errors, retries, the cluster map, one connection |
| `sasl`, `login` | authentication |
| `workload` | what the measurements send |

`app/` is the client on its sockets, over tokio, glommio and TLS on glommio, and a program
that measures it beside other clients.

`tests/` runs the core on concrete values.

## What is not here

A group member's own state machine is an interface of `app/group.rs`, for a binding to supply.
