use vstd::prelude::*;

use crate::errno::Errno;
use crate::ipc_util::{
    gid_t, key_t, pid_t, time_t, uid_t, CmdId, GETPID, GETVAL, IPC_PRIVATE, IPC_RMID, IPC_STAT,
    SETVAL,
};
use crate::laws::lemma_create_keeps_wf;
use crate::sem::{
    flags_contain, run_ops, sembuf_t, SemId, SemManagerView, SemSetView, SemaphoreView, SemctlReply, SEMMSL,
    SEMOPM, SEM_IPC_CREAT, SEM_IPC_EXCL,
};

verus! {

/// A single operation on semaphore `op.sem_num` changes that semaphore as
/// the operation says and no other.
proof fn lemma_one_op(sems: Seq<SemaphoreView>, op: sembuf_t, pid: pid_t, tid: pid_t)
    requires
        (op.sem_num as int) < sems.len(),
    ensures
        run_ops(sems, seq![op], pid, tid) == (
            sems.update(
                op.sem_num as int,
                sems[op.sem_num as int].after_op(op.sem_op, pid, tid).0,
            ),
            sems[op.sem_num as int].after_op(op.sem_op, pid, tid).1,
        ),
{
    let ops = seq![op];
    assert(ops.drop_last() =~= Seq::<sembuf_t>::empty());
    assert(ops.last() == op);
    assert(run_ops(sems, ops.drop_last(), pid, tid) == (sems, false));
}

/// The errors of `semop` that come before any operation: `E2BIG` unless
/// there are between one and `SEMOPM` operations, `EINVAL` without the
/// set, `EFBIG` if an operation names no semaphore of the set; the first
/// two change nothing, the third only attaches the caller. Whatever a
/// `semop` on an existing set answers, the caller ends up attached, the
/// set keeps its key, size and owner, its last-change time, and the time
/// of its last operation becomes `now` exactly when the call succeeds; no
/// other set and no identifier changes.
pub proof fn lemma_semop_errors_and_bookkeeping(
    s: SemManagerView,
    semid: SemId,
    ops: Seq<sembuf_t>,
    pid: pid_t,
    tid: pid_t,
    now: time_t,
)
    requires
        s.wf(),
    ensures
        ops.len() == 0 || ops.len() > SEMOPM ==> s.semop(semid, ops, pid, tid, now) == (Err::<
            (),
            Errno,
        >(Errno::E2BIG), s),
        1 <= ops.len() <= SEMOPM && !s.sets.contains_key(semid) ==> s.semop(
            semid,
            ops,
            pid,
            tid,
            now,
        ) == (Err::<(), Errno>(Errno::EINVAL), s),
        1 <= ops.len() <= SEMOPM && s.sets.contains_key(semid) && (exists|i: int|
            0 <= i < ops.len() && ops[i].sem_num >= s.sets[semid].nsems) ==> {
            let (r, s1) = s.semop(semid, ops, pid, tid, now);
            &&& r == Err::<(), Errno>(Errno::EFBIG)
            &&& s1.sets[semid].sems == s.sets[semid].sems
            &&& s1.sets[semid].sem_otime == s.sets[semid].sem_otime
        },
        1 <= ops.len() <= SEMOPM && s.sets.contains_key(semid) ==> {
            let (r, s1) = s.semop(semid, ops, pid, tid, now);
            let set = s.sets[semid];
            let set1 = s1.sets[semid];
            &&& s1.ids == s.ids
            &&& s1.sets.dom() == s.sets.dom()
            &&& forall|other: SemId|
                s.sets.contains_key(other) && other != semid ==> #[trigger] s1.sets[other]
                    == s.sets[other]
            &&& set1.attached_pids == set.attached_pids.insert(pid)
            &&& set1.semid == set.semid
            &&& set1.key == set.key
            &&& set1.nsems == set.nsems
            &&& set1.sems.len() == set.sems.len()
            &&& set1.uid == set.uid && set1.gid == set.gid
            &&& set1.cuid == set.cuid && set1.cgid == set.cgid
            &&& set1.mode == set.mode
            &&& set1.sem_ctime == set.sem_ctime
            &&& r is Ok ==> set1.sem_otime == now
            &&& r is Err ==> set1.sem_otime == set.sem_otime
            &&& r is Err ==> r == Err::<(), Errno>(Errno::EFBIG) || r == Err::<(), Errno>(
                Errno::EAGAIN,
            )
        },
{
    if 1 <= ops.len() <= SEMOPM && s.sets.contains_key(semid) {
        let set = s.sets[semid].attach(pid);
        if set.nums_valid(ops) {
            lemma_run_keeps_len(set.sems, ops, pid, tid);
        }
        let s1 = s.semop(semid, ops, pid, tid, now).1;
        assert(s1.sets.dom() =~= s.sets.dom());
    }
}

/// Operations keep the number of semaphores.
proof fn lemma_run_keeps_len(sems: Seq<SemaphoreView>, ops: Seq<sembuf_t>, pid: pid_t, tid: pid_t)
    requires
        forall|i: int| 0 <= i < ops.len() ==> (#[trigger] ops[i]).sem_num < sems.len(),
    ensures
        run_ops(sems, ops, pid, tid).0.len() == sems.len(),
    decreases ops.len(),
{
    if ops.len() > 0 {
        lemma_run_keeps_len(sems, ops.drop_last(), pid, tid);
        assert(ops.last() == ops[ops.len() - 1]);
    }
}

/// A single raise by `d > 0` succeeds. Each thread it wakes comes off the
/// front of the queue and takes one unit: the value plus the number woken
/// is the old value plus `d`, and waking stops only when the value is zero
/// or nobody waits. The caller becomes the last process on the semaphore,
/// and the other semaphores of the set do not change.
pub proof fn lemma_semop_raise(
    s: SemManagerView,
    semid: SemId,
    k: u16,
    d: i16,
    flg: i16,
    pid: pid_t,
    tid: pid_t,
    now: time_t,
)
    requires
        s.wf(),
        s.sets.contains_key(semid),
        (k as usize) < s.sets[semid].nsems,
        d > 0,
        s.sets[semid].sems[k as int].value + d <= i32::MAX,
    ensures
        ({
            let (r, s1) = s.semop(semid, seq![sembuf_t { sem_num: k, sem_op: d, sem_flg: flg }], pid, tid, now);
            let before = s.sets[semid].sems[k as int];
            let after = s1.sets[semid].sems[k as int];
            let n = before.waiters.len() - after.waiters.len();
            &&& r == Ok::<(), Errno>(())
            &&& 0 <= n <= before.waiters.len()
            &&& after.waiters == before.waiters.skip(n)
            &&& after.value + n == before.value + d
            &&& after.value >= 0
            &&& after.value == 0 || after.waiters.len() == 0
            &&& after.last_pid == pid
            &&& forall|j: int|
                0 <= j < s.sets[semid].nsems && j != k ==> #[trigger] s1.sets[semid].sems[j]
                    == s.sets[semid].sems[j]
        }),
{
    let op = sembuf_t { sem_num: k, sem_op: d, sem_flg: flg };
    let set = s.sets[semid].attach(pid);
    lemma_one_op(set.sems, op, pid, tid);
    assert(seq![op][0] == op);
    assert(set.nums_valid(seq![op]));
}

/// A single decrement by `-d` from a value of at least `-d` succeeds: the
/// value drops by `-d`, nobody is queued, and the caller becomes the last
/// process on the semaphore; the other semaphores do not change.
pub proof fn lemma_semop_lower(
    s: SemManagerView,
    semid: SemId,
    k: u16,
    d: i16,
    flg: i16,
    pid: pid_t,
    tid: pid_t,
    now: time_t,
)
    requires
        s.wf(),
        s.sets.contains_key(semid),
        (k as usize) < s.sets[semid].nsems,
        d < 0,
        d != i16::MIN,
        s.sets[semid].sems[k as int].value >= -d,
    ensures
        ({
            let (r, s1) = s.semop(semid, seq![sembuf_t { sem_num: k, sem_op: d, sem_flg: flg }], pid, tid, now);
            let before = s.sets[semid].sems[k as int];
            let after = s1.sets[semid].sems[k as int];
            &&& r == Ok::<(), Errno>(())
            &&& after.value == before.value + d
            &&& after.waiters == before.waiters
            &&& after.last_pid == pid
            &&& forall|j: int|
                0 <= j < s.sets[semid].nsems && j != k ==> #[trigger] s1.sets[semid].sems[j]
                    == s.sets[semid].sems[j]
        }),
{
    let op = sembuf_t { sem_num: k, sem_op: d, sem_flg: flg };
    let set = s.sets[semid].attach(pid);
    lemma_one_op(set.sems, op, pid, tid);
    assert(seq![op][0] == op);
    assert(set.nums_valid(seq![op]));
}

/// A single operation that cannot go on (a decrement beyond the value, or
/// waiting for zero on a value that is not zero) answers `EAGAIN`, queues
/// the caller's thread at the back, and changes neither the value nor the
/// last process.
pub proof fn lemma_semop_must_wait(
    s: SemManagerView,
    semid: SemId,
    k: u16,
    d: i16,
    flg: i16,
    pid: pid_t,
    tid: pid_t,
    now: time_t,
)
    requires
        s.wf(),
        s.sets.contains_key(semid),
        (k as usize) < s.sets[semid].nsems,
        (d == 0 && s.sets[semid].sems[k as int].value != 0) || (d < 0
            && s.sets[semid].sems[k as int].value < -d),
    ensures
        ({
            let (r, s1) = s.semop(semid, seq![sembuf_t { sem_num: k, sem_op: d, sem_flg: flg }], pid, tid, now);
            let before = s.sets[semid].sems[k as int];
            let after = s1.sets[semid].sems[k as int];
            &&& r == Err::<(), Errno>(Errno::EAGAIN)
            &&& after.value == before.value
            &&& after.waiters == before.waiters.push(tid)
            &&& after.last_pid == before.last_pid
            &&& forall|j: int|
                0 <= j < s.sets[semid].nsems && j != k ==> #[trigger] s1.sets[semid].sems[j]
                    == s.sets[semid].sems[j]
        }),
{
    let op = sembuf_t { sem_num: k, sem_op: d, sem_flg: flg };
    let set = s.sets[semid].attach(pid);
    lemma_one_op(set.sems, op, pid, tid);
    assert(seq![op][0] == op);
    assert(set.nums_valid(seq![op]));
}

/// After a single operation that goes through, `GETPID` of its semaphore
/// answers the caller's process.
pub proof fn lemma_getpid_after_semop(
    s: SemManagerView,
    semid: SemId,
    k: u16,
    d: i16,
    flg: i16,
    pid: pid_t,
    tid: pid_t,
    now: time_t,
    arg: usize,
    now2: time_t,
)
    requires
        s.wf(),
        s.sets.contains_key(semid),
        (k as usize) < s.sets[semid].nsems,
        d != i16::MIN,
        d > 0 ==> s.sets[semid].sems[k as int].value + d <= i32::MAX,
        d == 0 ==> s.sets[semid].sems[k as int].value == 0,
        d < 0 ==> s.sets[semid].sems[k as int].value >= -d,
    ensures
        ({
            let s1 = s.semop(semid, seq![sembuf_t { sem_num: k, sem_op: d, sem_flg: flg }], pid, tid, now).1;
            s1.semctl(semid, k as usize, GETPID, arg, now2) == (Ok::<SemctlReply, Errno>(
                SemctlReply::Value(pid as usize),
            ), s1)
        }),
{
    let op = sembuf_t { sem_num: k, sem_op: d, sem_flg: flg };
    let set = s.sets[semid].attach(pid);
    lemma_one_op(set.sems, op, pid, tid);
    assert(seq![op][0] == op);
    assert(set.nums_valid(seq![op]));
}

/// `IPC_STAT` reports the set's key, owner, creator, mode, size and times,
/// with the padding zero, and changes nothing; a null buffer is `EFAULT`.
pub proof fn lemma_stat_reports_set(
    s: SemManagerView,
    semid: SemId,
    semnum: usize,
    arg: usize,
    now: time_t,
)
    requires
        s.wf(),
        s.sets.contains_key(semid),
    ensures
        arg == 0 ==> s.semctl(semid, semnum, IPC_STAT, arg, now) == (Err::<SemctlReply, Errno>(
            Errno::EFAULT,
        ), s),
        arg != 0 ==> {
            let (r, s1) = s.semctl(semid, semnum, IPC_STAT, arg, now);
            let set = s.sets[semid];
            &&& s1 == s
            &&& r matches Ok(SemctlReply::Stat(st)) && {
                &&& st.sem_perm.key == set.key
                &&& st.sem_perm.uid == set.uid
                &&& st.sem_perm.gid == set.gid
                &&& st.sem_perm.cuid == set.cuid
                &&& st.sem_perm.cgid == set.cgid
                &&& st.sem_perm.mode == set.mode
                &&& st.sem_perm.pad1 == 0 && st.sem_perm.seq == 0 && st.sem_perm.pad2 == 0
                &&& st.sem_perm.unused1 == 0 && st.sem_perm.unused2 == 0
                &&& st.sem_otime == set.sem_otime
                &&& st.sem_ctime == set.sem_ctime
                &&& st.sem_nsems == set.nsems
                &&& st.unused1 == 0 && st.unused2 == 0
            }
        },
{
}

/// `semctl` without a set answers `EINVAL`; so does a command other than
/// `IPC_RMID`, `IPC_STAT`, `GETVAL`, `SETVAL` and `GETPID`; `GETVAL`,
/// `SETVAL` and `GETPID` of a semaphore the set lacks answer `ERANGE`.
/// None of these, and neither `GETVAL`, `GETPID` nor `IPC_STAT`, changes
/// anything.
pub proof fn lemma_semctl_errors_and_reads(
    s: SemManagerView,
    semid: SemId,
    semnum: usize,
    cmd: CmdId,
    arg: usize,
    now: time_t,
)
    requires
        s.wf(),
    ensures
        !s.sets.contains_key(semid) ==> s.semctl(semid, semnum, cmd, arg, now) == (Err::<
            SemctlReply,
            Errno,
        >(Errno::EINVAL), s),
        s.sets.contains_key(semid) && cmd != IPC_RMID && cmd != IPC_STAT && cmd != GETVAL && cmd
            != SETVAL && cmd != GETPID ==> s.semctl(semid, semnum, cmd, arg, now) == (Err::<
            SemctlReply,
            Errno,
        >(Errno::EINVAL), s),
        s.sets.contains_key(semid) && semnum >= s.sets[semid].nsems && (cmd == GETVAL || cmd
            == SETVAL || cmd == GETPID) ==> s.semctl(semid, semnum, cmd, arg, now) == (Err::<
            SemctlReply,
            Errno,
        >(Errno::ERANGE), s),
        cmd == GETVAL || cmd == GETPID || cmd == IPC_STAT ==> s.semctl(
            semid,
            semnum,
            cmd,
            arg,
            now,
        ).1 == s,
{
}

/// A successful `SETVAL` changes only its semaphore, keeps its waiters
/// apart from those it wakes from the front (each taking one unit), stamps
/// the last-change time, and changes no other set nor any identifier.
pub proof fn lemma_setval_effect(
    s: SemManagerView,
    semid: SemId,
    semnum: usize,
    arg: usize,
    now: time_t,
)
    requires
        s.wf(),
        s.sets.contains_key(semid),
        semnum < s.sets[semid].nsems,
        (arg as i32) >= 0,
    ensures
        ({
            let (r, s1) = s.semctl(semid, semnum, SETVAL, arg, now);
            let set = s.sets[semid];
            let set1 = s1.sets[semid];
            let before = set.sems[semnum as int];
            let after = set1.sems[semnum as int];
            let n = before.waiters.len() - after.waiters.len();
            &&& r == Ok::<SemctlReply, Errno>(SemctlReply::Value(0))
            &&& s1.ids == s.ids
            &&& s1.sets.dom() == s.sets.dom()
            &&& forall|other: SemId|
                s.sets.contains_key(other) && other != semid ==> #[trigger] s1.sets[other]
                    == s.sets[other]
            &&& 0 <= n <= before.waiters.len()
            &&& after.waiters == before.waiters.skip(n)
            &&& after.value + n == (arg as i32) as int
            &&& after.value >= 0
            &&& after.value == 0 || after.waiters.len() == 0
            &&& after.last_pid == before.last_pid
            &&& set1.sem_ctime == now
            &&& set1.sem_otime == set.sem_otime
            &&& set1.key == set.key && set1.nsems == set.nsems
            &&& set1.attached_pids == set.attached_pids
            &&& forall|j: int|
                0 <= j < set.nsems && j != semnum ==> #[trigger] set1.sems[j] == set.sems[j]
        }),
{
    let s1 = s.semctl(semid, semnum, SETVAL, arg, now).1;
    assert(s1.sets.dom() =~= s.sets.dom());
}

/// `semget` for a key without a set: without `IPC_CREAT` it is `ENOENT`;
/// with it, `EINVAL` unless the size lies between one and `SEMMSL`,
/// `ENOSPC` when no identifier is free, and otherwise a new set under a
/// new identifier, with `nsems` semaphores of value zero that nobody
/// waits on, last operated on by the caller, owned and created by the
/// caller's user and group, mode `0o666`, never operated on and last
/// changed at `now`. A key that has a set with both `IPC_CREAT` and
/// `IPC_EXCL` is `EEXIST`. The errors change nothing.
pub proof fn lemma_semget_for_key(
    s: SemManagerView,
    key: key_t,
    nsems: usize,
    flags: u32,
    pid: pid_t,
    uid: uid_t,
    gid: gid_t,
    now: time_t,
)
    requires
        s.wf(),
        key != IPC_PRIVATE,
    ensures
        (exists|id: SemId| s.has_key(key, id)) && flags_contain(flags, SEM_IPC_CREAT)
            && flags_contain(flags, SEM_IPC_EXCL) ==> s.semget(key, nsems, flags, pid, uid, gid, now)
            == (Err::<SemId, Errno>(Errno::EEXIST), s),
        (forall|id: SemId| !s.has_key(key, id)) ==> {
            let (r, s1) = s.semget(key, nsems, flags, pid, uid, gid, now);
            &&& !flags_contain(flags, SEM_IPC_CREAT) ==> (r, s1) == (Err::<SemId, Errno>(
                Errno::ENOENT,
            ), s)
            &&& flags_contain(flags, SEM_IPC_CREAT) && !(1 <= nsems <= SEMMSL) ==> (r, s1) == (Err::<
                SemId,
                Errno,
            >(Errno::EINVAL), s)
            &&& flags_contain(flags, SEM_IPC_CREAT) && 1 <= nsems <= SEMMSL && s.ids.free_num == 0
                ==> (r, s1) == (Err::<SemId, Errno>(Errno::ENOSPC), s)
            &&& flags_contain(flags, SEM_IPC_CREAT) && 1 <= nsems <= SEMMSL && s.ids.free_num > 0
                ==> {
                &&& r is Ok
                &&& s1.wf()
                &&& !s.sets.contains_key(r->Ok_0)
                &&& !s.ids.used.contains(r->Ok_0)
                &&& s1.ids.used == s.ids.used.insert(r->Ok_0)
                &&& s1.sets.dom() == s.sets.dom().insert(r->Ok_0)
                &&& forall|other: SemId|
                    s.sets.contains_key(other) ==> #[trigger] s1.sets[other] == s.sets[other]
                &&& s1.find_key(key) == Some(r->Ok_0)
                &&& s1.sets[r->Ok_0].key == key
                &&& s1.sets[r->Ok_0].semid == r->Ok_0
                &&& s1.sets[r->Ok_0].nsems == nsems
                &&& s1.sets[r->Ok_0].uid == uid && s1.sets[r->Ok_0].cuid == uid
                &&& s1.sets[r->Ok_0].gid == gid && s1.sets[r->Ok_0].cgid == gid
                &&& s1.sets[r->Ok_0].mode == 0o666
                &&& s1.sets[r->Ok_0].sem_otime == 0
                &&& s1.sets[r->Ok_0].sem_ctime == now
                &&& s1.sets[r->Ok_0].attached_pids.is_empty()
                &&& s1.sets[r->Ok_0].sems.len() == nsems
                &&& forall|j: int|
                    0 <= j < nsems ==> {
                        &&& (#[trigger] s1.sets[r->Ok_0].sems[j]).value == 0
                        &&& s1.sets[r->Ok_0].sems[j].waiters.len() == 0
                        &&& s1.sets[r->Ok_0].sems[j].last_pid == pid
                    }
            }
        },
{
    if exists|id: SemId| s.has_key(key, id) {
        let id = choose|id: SemId| s.has_key(key, id);
        assert(s.find_key(key) is Some);
    }
    if forall|id: SemId| !s.has_key(key, id) {
        assert(s.find_key(key) is None);
        if flags_contain(flags, SEM_IPC_CREAT) && 1 <= nsems <= SEMMSL && s.ids.free_num > 0 {
            lemma_create_keeps_wf(s, key, nsems, pid, uid, gid, now);
            let (r, s1) = s.semget(key, nsems, flags, pid, uid, gid, now);
            let id = r->Ok_0;
            assert(s1.sets.dom() =~= s.sets.dom().insert(id));
            assert(s1.has_key(key, id));
            let c = choose|c: SemId| s1.has_key(key, c);
            assert(s1.sets[c].key == s1.sets[id].key);
            assert(s1.sets[id].attached_pids =~= Set::<pid_t>::empty());
        }
    }
}

/// When a process exits it is attached to no set any more; every set keeps
/// everything else, and the other processes stay attached.
pub proof fn lemma_detach_effect(s: SemManagerView, pid: pid_t)
    requires
        s.wf(),
    ensures
        ({
            let s1 = s.detach(pid);
            &&& s1.ids == s.ids
            &&& s1.sets.dom() == s.sets.dom()
            &&& forall|id: SemId|
                #[trigger] s.sets.contains_key(id) ==> {
                    &&& !s1.sets[id].attached_pids.contains(pid)
                    &&& forall|q: pid_t|
                        q != pid ==> (s1.sets[id].attached_pids.contains(q)
                            == s.sets[id].attached_pids.contains(q))
                    &&& s1.sets[id].sems == s.sets[id].sems
                    &&& s1.sets[id].key == s.sets[id].key
                    &&& s1.sets[id].semid == s.sets[id].semid
                    &&& s1.sets[id].nsems == s.sets[id].nsems
                    &&& s1.sets[id].sem_otime == s.sets[id].sem_otime
                    &&& s1.sets[id].sem_ctime == s.sets[id].sem_ctime
                }
        }),
{
    assert(s.detach(pid).sets.dom() =~= s.sets.dom());
}

/// When the library OS exits no set remains, and the identifier of every
/// set is freed; other identifiers keep their state, and the free count
/// grows by the number of sets.
pub proof fn lemma_clean_effect(s: SemManagerView)
    requires
        s.wf(),
    ensures
        ({
            let s1 = s.clean();
            &&& s1.sets.dom().is_empty()
            &&& forall|id: SemId| #[trigger] s.sets.contains_key(id) ==> !s1.ids.used.contains(id)
            &&& forall|id: SemId|
                !s.sets.contains_key(id) ==> (#[trigger] s1.ids.used.contains(id)
                    == s.ids.used.contains(id))
            &&& s1.ids.free_num == s.ids.free_num + s.sets.dom().len()
        }),
{
    vstd::set_lib::lemma_len_subset(s.sets.dom(), s.ids.used);
}

/// `IPC_RMID` is the only `semctl` command that frees an identifier or
/// removes a set; after it the identifier is free and counted free once
/// more, and a later `semget` can hand it out again.
pub proof fn lemma_rmid_frees_id(s: SemManagerView, semid: SemId, semnum: usize, arg: usize, now: time_t)
    requires
        s.wf(),
        s.sets.contains_key(semid),
    ensures
        ({
            let s1 = s.semctl(semid, semnum, IPC_RMID, arg, now).1;
            &&& s1.ids.used == s.ids.used.remove(semid)
            &&& s1.ids.free_num == s.ids.free_num + 1
            &&& s1.ids.last_alloc_id == s.ids.last_alloc_id
            &&& s1.sets == s.sets.remove(semid)
        }),
{
}

/// Running `a` then `b` is running `a + b`, unless `a` already had to wait.
proof fn lemma_run_append(
    sems: Seq<SemaphoreView>,
    a: Seq<sembuf_t>,
    b: Seq<sembuf_t>,
    pid: pid_t,
    tid: pid_t,
)
    ensures
        run_ops(sems, a + b, pid, tid) == (if run_ops(sems, a, pid, tid).1 {
            run_ops(sems, a, pid, tid)
        } else {
            run_ops(run_ops(sems, a, pid, tid).0, b, pid, tid)
        }),
    decreases b.len(),
{
    if b.len() == 0 {
        assert(a + b =~= a);
    } else {
        lemma_run_append(sems, a, b.drop_last(), pid, tid);
        assert((a + b).drop_last() =~= a + b.drop_last());
        assert((a + b).last() == b.last());
    }
}

/// The operations of one `semop` are carried out one after another: if
/// the first has to wait, the call answers as for the first alone and the
/// rest are not carried out; otherwise the call answers, and leaves the
/// semaphores, as the rest would on the semaphores the first one left.
/// In particular a later operation that has to wait keeps what the
/// earlier ones did.
pub proof fn lemma_semop_one_after_another(
    set: SemSetView,
    ops: Seq<sembuf_t>,
    pid: pid_t,
    tid: pid_t,
    now: time_t,
)
    requires
        set.wf(),
        set.nums_valid(ops),
        ops.len() >= 2,
    ensures
        ({
            let (r1, set1) = set.after_semop(ops.take(1), pid, tid, now);
            let (r, after) = set.after_semop(ops, pid, tid, now);
            let (r2, after2) = set1.after_semop(ops.skip(1), pid, tid, now);
            &&& r1 is Err ==> r == r1 && after.sems == set1.sems
            &&& r1 is Ok ==> r == r2 && after.sems == after2.sems
        }),
{
    lemma_run_append(set.sems, ops.take(1), ops.skip(1), pid, tid);
    assert(ops.take(1) + ops.skip(1) =~= ops);
    let (r1, set1) = set.after_semop(ops.take(1), pid, tid, now);
    assert(set.nums_valid(ops.take(1)));
    assert(set1.nums_valid(ops.skip(1)));
}

} // verus!
