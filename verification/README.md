# block_mirror

Mirrors a block device: while a background worker copies the existing bytes of a
source disk to a destination disk, every write of the guest goes to both. Once
both disks agree, the device can be switched over to the destination.

`src/` holds the rules, proved with Verus:

- `ranges` - byte ranges that one party holds at a time
- `phase` - the phases of a mirror and the moves between them
- `state` - what the worker and the queues share
- `queue` - mirrored requests and their completions
- `worker` - the block-by-block copy
- `reasons` - the texts of failures
- `sync` - why the disks agree once a mirror is ready

Its methods act on the shared state through `&mut`; whoever uses it from several
threads keeps the state behind a lock, and asks again after a release where a
method says that a range is held.

`app/` does that: it has the lock, the threads, the event loop and the disks.
