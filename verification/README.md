# mochi_cext

Two kernel extensions for block storage: an ext2 file system and a driver for
legacy virtio block devices. The logic of both is a library that is verified with
Verus.

- `src/` is the library. `src/lib.rs` says what each module is for. Every operation
  on a volume has a model, a spec function over the contents of the disk; its
  contract says that it does what the model does unless the driver fails a request.
  `src/laws/` proves what holds of the models together: what is written is read
  back, what is created is found, what is freed can be given out again, and what is
  refused leaves the disk alone.
- `app/` is the ordinary Rust around it: the tables of functions that cross the
  extension interface, port and memory accesses, and the log.
- `tests/` runs the library on small volumes in memory.

Arithmetic on numbers that a disk or a device supplies wraps.
