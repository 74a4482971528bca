# laplacianos

The verified core of LaplacianOS, written in Verus.

- `src/` is the library. Every function there carries a `requires`/`ensures`
  contract over a mathematical model of its data, and the laws of the system
  (snapshot round trips, FIFO queues, read-after-write on the ramdisk, W^X
  kernel pages, term isolation in the BM25 index, probability distributions
  in PageRank, scheduler claim rules, volume-header round trips, and more)
  are public proof functions next to the code they speak of.
- Hardware access (MMIO, system registers, assembly entry points) is not part
  of the library; what those paths decide (virtqueue descriptors, feature
  negotiation, exception and interrupt routing, page-table words, register
  values) is.
- The SHA-256, PBKDF2, constant-time comparison and OS-randomness calls of
  the volume tool go through small trusted wrappers in `src/volume.rs`.
- `tests/` exercises the library on concrete values.
- `app/` is the `cryptsetup` command-line tool built on `src/volume.rs`.
