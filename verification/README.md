# rcore_os

Verified kernel logic of a small teaching operating system, written in Verus.

- `src/sync/semaphore.rs`: the counting semaphore (`up`, `down`) with the
  bookkeeping used for deadlock detection (units held per thread, the
  process's `need` matrix). Its well-formedness is a type invariant; laws
  cover wake order, round trips and the conservation of units.
- `src/syscall/fs.rs`: the descriptor table (`alloc_fd`) and the decision
  logic of the file system calls (`read`, `write`, `open`, `close`, `dup`,
  `pipe`, `fstat`, `linkat`, `unlinkat`), their result codes, the status
  record and its byte layout, and the cutting of bytes into the pieces of a
  user buffer, with laws relating them.
- `src/syscall/process.rs`: `waitpid`, `kill`, `get_time` (with the time
  value's byte layout), `mmap`, `munmap`, `exec`, `spawn`, `fork`, `getpid`,
  `yield` and `set_priority`.
- `app/lib.rs`: the system-call entry points. They reach the running kernel
  (user memory, file system, memory sets, scheduler) through a `Kernel`
  trait, pass what it answers to the library, and carry out what the library
  decided. `exit` only hands over to the scheduler.
