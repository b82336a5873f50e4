# ozd

A block store over many disks with an S3 gateway in front. Bodies are packed into segment
files, an index says where each lies, and the pool of disks keeps copies or erasure-coded
pieces of every object.

- `src/` is the library. It is written in Verus: every function states what it returns,
  and Verus proves it. The library does no input or output. Where an operation talks to
  disks or clients in turns, it is a machine that says what to do next and is told what
  came of it.
- `app/` is the daemon around it: redb and segment files, threads, the HTTP routes, the
  configuration file, and what needs floating point.
- `tests/` runs the library, among other things on disks held in memory.

Where to look first:

| Part of the store | Modules |
| --- | --- |
| segment files and the index | `segment`, `index`, `listing` |
| one disk | `engine`, `body`, `collect`, and `store` for what every operation keeps |
| erasure coding | `piece`, `erasure`, `ec_pool` |
| the pool | `placement`, `pool`, `probe`, `repair` and `redundancy` for what it brings back, `migrate`, `walk`, `heal` |
| health of the disks | `health`, `latency`, `diskslow`, `throttle`, `zfs`, `zfs_parser`, `zfs_properties` |
| the gateway | `s3`, `sigv4`, `ratelimit`, `verified`, `cache`, `car` |
| the rest | `admin`, `metrics`, `config`, `bench`, `text`, `bytes`, `digest`, `domain` |

The public proof functions state what holds across calls: that a body is read back after
it was put, also when the shard was dropped without a flush, that neither the collection of
an undamaged segment nor a failure on the way loses one, that a write reported as done has its quorum, that an object is
read back from any sufficient set of its pieces, that a repair brings the lost ones back and
no request for one is forgotten, that a migration never leaves an object unreadable, that an
archive gives back what it was made of, that an unsigned request is refused.
What the library has from other crates stands behind functions marked
`#[verifier::external_body]`, each with a note on what is taken for granted.
