# kvr

A sharded in-memory key-value store with expiry, snapshots and a binary wire protocol, written and
proved in [Verus](https://github.com/verus-lang/verus), and a server for it on a Unix domain socket.

Keys are text, values are arbitrary bytes. A store may be bounded in its number of entries: writes
of new keys are then refused when it is full. Entries may expire; an expired entry is never seen,
and is removed when its key is next read, by a scan, or by a sweep.

## Layout

- `src/` is the verified library.
  - `model` is the mathematical state of a store, `store` the store itself, on the shards of
    `shard`; `entry` and `clock` hold values with their expiry, and the time.
  - `request` and `protocol` are the wire protocol: requests and their encoding, frames, responses,
    and serving a request; `fields` are the length-prefixed fields that both they and snapshots are
    made of.
  - `snapshot` is the snapshot format and restoring from it, with the CRC-32 of `crc`.
  - `server` and `config` are what a server decides between its system calls.
  - `laws` states what holds across operations.
  - `bytes`, `text` and `sort` are big-endian numbers, UTF-8 text with its order, and sorting.
- `app/` is the server around the library: sockets, threads, files, signals, the environment, and
  two benchmarks, which run when the program is linked under the names `bench` and `bench_wire`.
- `tests/` runs the library on concrete values.

Each operation of the store that depends on the time exists twice. With the suffix `_at` it takes
the time as an argument, and its contract is exact. Under its plain name it reads the clock, and
its contract holds for whatever the clock shows. The operations take the store by `&mut`; the
server shares it between threads behind one lock, which reads, scans and sweeps share as long as
they find no expired entry.

## Protocol

A frame is a four-byte big-endian length and a payload of at most 1 MiB. A request payload is an
opcode and its fields; numbers are big-endian.

| Opcode | Name | Fields |
|--------|------|--------|
| `0x00` | SET | `<2B key-len><key><4B val-len><val>` |
| `0x01` | GET | `<2B key-len><key>` |
| `0x02` | DEL | `<2B key-len><key>` |
| `0x03` | PING | |
| `0x04` | EXISTS | `<2B key-len><key>` |
| `0x05` | SETX | `<2B key-len><key><4B val-len><val><8B ttl-ms>` |
| `0x06` | SCAN | `<2B prefix-len><prefix><2B limit><2B cursor-len><cursor>` |
| `0x07` | MGET | `<2B count>` then count times `<2B key-len><key>` |
| `0x08` | SAVE | |
| `0x09` | TTL | `<2B key-len><key>` |

A response begins with a status: `0x10` OK, `0x11` deleted, `0x12` not found, `0x13` store full,
`0xFF` error. GET adds `<4B val-len><val>`; SCAN adds `<2B count>`, the keys as
`<2B key-len><key>`, and `<1B more>`; MGET adds for each key `<1B found>` and, where found,
`<4B val-len><val>`; TTL adds `0x00` for a key that never expires, or `0x01<8B remaining-ms>`. A
response that would not fit a frame is an error instead.

## Snapshots

`KVR1`, `<8B count>`, the entries as `<2B key-len><key><4B val-len><val><8B expires-at>` with 0 for
no expiry, and the CRC-32 of all that stands between the magic and the CRC.

## Configuration

| Variable | Default | |
|----------|---------|---|
| `KVR_SOCKET_PATH` | `/tmp/kvr.sock` | Unix domain socket |
| `KVR_TCP_ADDR` | (disabled) | secondary TCP listener, unauthenticated, for debugging |
| `KVR_MAX_ENTRIES` | `100000` | bound on the number of entries, 0 for none |
| `KVR_MAX_CONNECTIONS` | `256` | connections served at once |
| `KVR_SWEEP_INTERVAL_SECS` | `30` | seconds between sweeps, 0 for none |
| `KVR_SNAPSHOT_PATH` | (disabled) | snapshot file |
| `KVR_SNAPSHOT_ON_SHUTDOWN` | `true` | save a snapshot on shutdown |
| `KVR_SNAPSHOT_INTERVAL_SECS` | `0` | seconds between snapshots, 0 for none |

A number or truth value that is set but malformed keeps the server from starting.
