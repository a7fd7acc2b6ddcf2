# zc-ring-x1

Zero-copy SPSC and MPSC rings and fixed-size message pools laid out in
a caller-provided memory region, written in Verus: the functions of
the library under `src/` carry contracts that Verus proves, the one
trusted item being a wrapper of the CPU's spin-loop hint, and the
library's laws stand as public proof functions beside the code.

## Model

The region is a `Region`: a byte sequence and the address it starts at.
Every word a ring or pool keeps is a little-endian `u32` at an offset,
read with `word_at` and written with `put_word`, so each operation's
contract says exactly which words it stores and what the region holds
afterwards. Messages are byte strings written into a slot's body and
read back from it.

## Layout

- `region`, `layout`: the byte model and the geometry shared by the
  rings (cache-line multiples, powers of two, slot offsets, wrapping
  positions).
- `spsc::v0` to `spsc::v2`: single-region rings (index protocol, a seq
  word per slot in an array, the seq word at the front of each slot).
  Their contracts state the messages in flight as a sequence: a commit
  pushes, a release drops the first.
- `spsc::v3`: a ring of segments taken from a pool, and the crate-root
  `Ring`. `order` states the
  run a segment keeps, `chain` the chain of runs across segments, with
  the laws that a commit appends to it and a release takes its oldest.
- `spsc::v4`: v3's ring describing itself in the region, with claimed
  roles, checkpoints under intent words, attach, and takeover;
  `recovery` holds the laws for what a successor loads after a switch,
  and `window` the law that a segment the ring wrote scans back to its
  window, so a successor with no switch under way resumes at the oldest
  unread message.
- `mpsc::v2`: the claim protocol over a ring of segments, with tombstones
  and seals; `order` and `chain` state its runs and its chain, with the
  laws for send, the consumer's walk and release, and that any
  interleaving of sends and consumer turns keeps the two ends in step,
  agreeing once the consumer has read everything.
- `pool` (single-stack) and `pool::v1` (multi-stack): intrusive LIFO
  free-stacks, with the LIFO laws.
- `registry`: buffers as descriptors and back.
- `policy`, `checksum`, `text`, `cpus`: wait policies, the FNV-1a
  checksum, digit grouping, and the CPU-list parsing and placement
  choices of the demo.

`tests/` runs the library on concrete values; `app/` is the demo
program (arguments, sysfs, CPU pinning, timing) around it.
