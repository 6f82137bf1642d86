# raft_kv

A replicated key-value store on the Raft consensus protocol, written in Rust and
verified with Verus.

- `src/` is the library: no input or output, no threads, no clock. Every function
  has a contract, and the contracts are proved.
- `app/` is the program around it: sockets, files, timers, command line.
- `tests/` runs the library on concrete values, whole clusters included.

## The library

| Module | What it holds |
|---|---|
| `config`, `timer` | Cluster configuration, majorities, the random election timeout |
| `message`, `log`, `state` | Messages, the replicated log, what a node keeps |
| `transitions` | The Raft state machine as mathematics |
| `node`, `quorum` | The executable state machine, proved equal to `transitions` |
| `kv`, `storage` | The key-value state machine, what goes to disk and comes back |
| `actor` | The node actor: pending clients, applying, snapshots, metrics |
| `agenda` | What the actor has done for it outside, in which order |
| `transport`, `codec` | Connections, links with back-off, frames |
| `client`, `bench`, `args`, `text`, `metrics` | Clients, load tester, command line, Prometheus text |

## What is proved about whole runs

A cluster is modelled with a network that loses, delays, reorders and duplicates
messages, and with nodes that crash, at the worst moment if need be, restart, compact
their logs, and send and install snapshots.

- `laws`, `replication`: what a single event does and never does to a node.
- `cluster`: two nodes never lead in the same term.
- `history`, `growth`, `completeness`, `takeover`, `induction`, `progress`, `safety`:
  no committed entry is lost, two nodes never commit different entries at one index, and
  a committed entry is in the logs of a majority.
- `freshness`: a leader that serves a read has applied all that any node had committed
  when the read came.
- `replicas`: the store of a node is the outcome of what it has committed, so replicas
  agree, and reads are answered from a store that is no older than the read.

A node that cannot write its state to disk goes on in memory (`agenda`): it sends and
answers nothing until all of it has been written. To the others that is as if the events
in between had come later, or never (`deferral`).

What is trusted: the byte buffer of the `bytes` crate (`codec`) and the random number
of the `rand` crate (`timer`).
