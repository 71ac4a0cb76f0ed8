# sysv_sem

System V semaphores of a library OS, verified with Verus.

- `src/ipc_util.rs`: identifier types, `semctl` commands, and `IpcIdManager`,
  which hands out identifiers below `SHMMNI`, each time the first free one
  after the last handed out.
- `src/sem.rs`: semaphores, semaphore sets and `SemManager`, with a
  mathematical model of each (`SemaphoreView`, `SemSetView`,
  `SemManagerView`) and the operations `semget`, `semop`, `semctl`, detaching
  an exiting process and cleaning up, each stated as a function on the model.
- `src/syscalls.rs`: the system calls over a `SemManager`.
- `src/laws.rs`: properties that span operations, proved on the model.
- `app/lib.rs`: the process-wide manager behind a lock, the clock, the
  caller's identity, and copies to and from user memory.
