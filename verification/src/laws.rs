use vstd::prelude::*;

use crate::errno::Errno;
use crate::ipc_util::{
    gid_t, is_first_free, key_t, lemma_allocate, pid_t, time_t, uid_t, CmdId, GETVAL,
    IPC_PRIVATE, IPC_RMID, SETVAL,
};
use crate::sem::{
    flags_contain, fresh_set, sembuf_t, SemId, SemManagerView, SemSetView, SemaphoreView,
    SemctlReply, run_ops, SEMOPM, SEM_DEFAULT_MODE, SEM_IPC_CREAT, SEM_IPC_EXCL,
};

verus! {

/// Creating a set for a key that has none keeps the manager consistent; a
/// set it creates is stored fresh under the first free identifier, which
/// no set had.
pub proof fn lemma_create_keeps_wf(
    s: SemManagerView,
    key: key_t,
    nsems: usize,
    pid: pid_t,
    uid: uid_t,
    gid: gid_t,
    now: time_t,
)
    requires
        s.wf(),
        key != IPC_PRIVATE ==> s.find_key(key) is None,
    ensures
        s.create(key, nsems, pid, uid, gid, now).1.wf(),
        s.create(key, nsems, pid, uid, gid, now).0 matches Ok(id) ==> {
            &&& !s.sets.contains_key(id)
            &&& !s.ids.used.contains(id)
            &&& is_first_free(s.ids.used, s.ids.next_start(), id)
            &&& s.create(key, nsems, pid, uid, gid, now).1.sets[id] == fresh_set(
                id,
                key,
                nsems,
                SEM_DEFAULT_MODE,
                pid,
                uid,
                gid,
                now,
            )
        },
{
    lemma_allocate(s.ids);
    let (r, s1) = s.create(key, nsems, pid, uid, gid, now);
    if let Ok(id) = r {
        assert forall|a: SemId, b: SemId|
            #![trigger s1.sets[a], s1.sets[b]]
            s1.sets.contains_key(a) && s1.sets.contains_key(b) && a != b && s1.sets[a].key
                == s1.sets[b].key implies s1.sets[a].key == IPC_PRIVATE by {
            if key != IPC_PRIVATE {
                if a == id {
                    assert(!s.has_key(key, b));
                } else if b == id {
                    assert(!s.has_key(key, a));
                }
            }
        }
    }
}

/// Once `semget` has given a set for a key other than `IPC_PRIVATE`,
/// `semget` for that key without `IPC_EXCL`, and without naming another
/// size, gives the same set and changes nothing.
pub proof fn lemma_semget_then_lookup(
    s: SemManagerView,
    key: key_t,
    nsems: usize,
    flags: u32,
    pid: pid_t,
    uid: uid_t,
    gid: gid_t,
    now: time_t,
    nsems2: usize,
    flags2: u32,
    pid2: pid_t,
    uid2: uid_t,
    gid2: gid_t,
    now2: time_t,
)
    requires
        s.wf(),
        key != IPC_PRIVATE,
        s.semget(key, nsems, flags, pid, uid, gid, now).0 is Ok,
        !(flags_contain(flags2, SEM_IPC_CREAT) && flags_contain(flags2, SEM_IPC_EXCL)),
        nsems2 == 0 || nsems2 == s.semget(key, nsems, flags, pid, uid, gid, now).1.sets[s.semget(
            key,
            nsems,
            flags,
            pid,
            uid,
            gid,
            now,
        ).0->Ok_0].nsems,
    ensures
        ({
            let (r, s1) = s.semget(key, nsems, flags, pid, uid, gid, now);
            &&& s1.wf()
            &&& s1.semget(key, nsems2, flags2, pid2, uid2, gid2, now2) == (r, s1)
        }),
{
    let (r, s1) = s.semget(key, nsems, flags, pid, uid, gid, now);
    let id = r->Ok_0;
    if s.find_key(key) is None {
        lemma_create_keeps_wf(s, key, nsems, pid, uid, gid, now);
    }
    assert(s1.has_key(key, id));
    assert(s1.find_key(key) == Some(id));
}

/// `semget` with `IPC_PRIVATE` always makes a new set: when it succeeds,
/// the identifier is the first free one, no set had it, and the set is
/// fresh.
pub proof fn lemma_private_semget_creates(
    s: SemManagerView,
    nsems: usize,
    flags: u32,
    pid: pid_t,
    uid: uid_t,
    gid: gid_t,
    now: time_t,
)
    requires
        s.wf(),
        s.semget(IPC_PRIVATE, nsems, flags, pid, uid, gid, now).0 is Ok,
    ensures
        ({
            let (r, s1) = s.semget(IPC_PRIVATE, nsems, flags, pid, uid, gid, now);
            let id = r->Ok_0;
            &&& s1.wf()
            &&& !s.sets.contains_key(id)
            &&& is_first_free(s.ids.used, s.ids.next_start(), id)
            &&& s1.sets == s.sets.insert(
                id,
                fresh_set(id, IPC_PRIVATE, nsems, SEM_DEFAULT_MODE, pid, uid, gid, now),
            )
        }),
{
    lemma_create_keeps_wf(s, IPC_PRIVATE, nsems, pid, uid, gid, now);
}

/// After `SETVAL` of a semaphore succeeds, `GETVAL` of it answers the value
/// set, less one for each waiter the setting woke; with no waiter, the
/// value set.
pub proof fn lemma_getval_after_setval(
    s: SemManagerView,
    semid: SemId,
    semnum: usize,
    arg: usize,
    now: time_t,
    arg2: usize,
    now2: time_t,
)
    requires
        s.wf(),
        s.semctl(semid, semnum, SETVAL, arg, now).0 is Ok,
    ensures
        ({
            let s1 = s.semctl(semid, semnum, SETVAL, arg, now).1;
            let sem = s.sets[semid].sems[semnum as int];
            let set = SemaphoreView { value: (arg as i32) as int, waiters: sem.waiters, last_pid: sem.last_pid };
            &&& s1.semctl(semid, semnum, GETVAL, arg2, now2) == (
                Ok::<SemctlReply, Errno>(SemctlReply::Value(set.after_wake().value as usize)),
                s1,
            )
            &&& sem.waiters.len() == 0 ==> s1.semctl(semid, semnum, GETVAL, arg2, now2).0 == Ok::<
                SemctlReply,
                Errno,
            >(SemctlReply::Value((arg as i32) as usize))
        }),
{
}

/// `IPC_RMID` of a set removes it and frees its identifier: afterwards the
/// manager is consistent, every `semctl` of that identifier answers
/// `EINVAL`, and so does every `semop` of it with between one and
/// `SEMOPM` operations.
pub proof fn lemma_removed_set_is_gone(
    s: SemManagerView,
    semid: SemId,
    semnum: usize,
    arg: usize,
    now: time_t,
    semnum2: usize,
    cmd2: CmdId,
    arg2: usize,
    now2: time_t,
    ops: Seq<sembuf_t>,
    pid: pid_t,
    tid: pid_t,
)
    requires
        s.wf(),
        s.sets.contains_key(semid),
    ensures
        ({
            let (r, s1) = s.semctl(semid, semnum, IPC_RMID, arg, now);
            &&& r == Ok::<SemctlReply, Errno>(SemctlReply::Value(0))
            &&& s1.wf()
            &&& !s1.sets.contains_key(semid)
            &&& !s1.ids.used.contains(semid)
            &&& s1.ids.free_num == s.ids.free_num + 1
            &&& s1.semctl(semid, semnum2, cmd2, arg2, now2) == (Err::<SemctlReply, Errno>(
                Errno::EINVAL,
            ), s1)
            &&& 1 <= ops.len() <= SEMOPM ==> s1.semop(semid, ops, pid, tid, now2) == (Err::<
                (),
                Errno,
            >(Errno::EINVAL), s1)
        }),
{
    let (r, s1) = s.semctl(semid, semnum, IPC_RMID, arg, now);
    assert forall|a: SemId, b: SemId|
        #![trigger s1.sets[a], s1.sets[b]]
        s1.sets.contains_key(a) && s1.sets.contains_key(b) && a != b && s1.sets[a].key
            == s1.sets[b].key implies s1.sets[a].key == IPC_PRIVATE by {
    }
}

/// Raising a semaphore without waiters by `v` and then lowering it by `v`
/// gives back its value; neither operation waits.
pub proof fn lemma_up_then_down(
    sem: SemaphoreView,
    v: i16,
    pid: pid_t,
    tid: pid_t,
    pid2: pid_t,
    tid2: pid_t,
)
    requires
        sem.waiters.len() == 0,
        sem.value >= 0,
        v > 0,
        sem.op_fits(v),
    ensures
        ({
            let (up, waited_up) = sem.after_op(v, pid, tid);
            let (down, waited_down) = up.after_op(-v as i16, pid2, tid2);
            &&& !waited_up
            &&& !waited_down
            &&& down.value == sem.value
            &&& down.waiters == sem.waiters
        }),
{
}

/// Waiting for zero on a semaphore whose value is zero goes through at once,
/// whatever threads are queued on it: nothing is enqueued, the value stays
/// zero, and the caller becomes the last process to operate on it.
pub proof fn lemma_wait_for_zero_on_zero(sem: SemaphoreView, pid: pid_t, tid: pid_t)
    requires
        sem.value == 0,
    ensures
        !sem.after_op(0, pid, tid).1,
        sem.after_op(0, pid, tid).0.value == 0,
        sem.after_op(0, pid, tid).0.waiters == sem.waiters,
        sem.after_op(0, pid, tid).0.last_pid == pid,
{
}

/// `semop` with the single operation "wait for zero" on a semaphore of
/// value zero succeeds, whatever threads are queued on it, and enqueues
/// nobody.
pub proof fn lemma_semop_wait_for_zero_succeeds(
    s: SemManagerView,
    semid: SemId,
    k: u16,
    flg: i16,
    pid: pid_t,
    tid: pid_t,
    now: time_t,
)
    requires
        s.wf(),
        s.sets.contains_key(semid),
        (k as usize) < s.sets[semid].nsems,
        s.sets[semid].sems[k as int].value == 0,
    ensures
        ({
            let ops = seq![sembuf_t { sem_num: k, sem_op: 0, sem_flg: flg }];
            let (r, s1) = s.semop(semid, ops, pid, tid, now);
            &&& r == Ok::<(), Errno>(())
            &&& s1.sets[semid].sems[k as int].value == 0
            &&& s1.sets[semid].sems[k as int].waiters == s.sets[semid].sems[k as int].waiters
            &&& s1.sets[semid].sems[k as int].last_pid == pid
        }),
{
    let ops = seq![sembuf_t { sem_num: k, sem_op: 0, sem_flg: flg }];
    let set = s.sets[semid].attach(pid);
    assert(ops.drop_last() =~= Seq::<sembuf_t>::empty());
    assert(ops[0].sem_num == k);
    assert(set.nums_valid(ops));
    assert(run_ops(set.sems, ops.drop_last(), pid, tid) == (set.sems, false));
    let after = SemaphoreView { value: 0, waiters: set.sems[k as int].waiters, last_pid: pid };
    assert(run_ops(set.sems, ops, pid, tid) == (set.sems.update(k as int, after), false));
}

/// A decrement that cannot be met leaves the semaphore's value as it was:
/// the call answers `EAGAIN`, the caller's thread is queued, and `GETVAL`
/// answers what it answered before.
pub proof fn lemma_blocked_decrement_keeps_value(
    set: SemSetView,
    k: u16,
    d: i16,
    flg: i16,
    pid: pid_t,
    tid: pid_t,
    now: time_t,
)
    requires
        set.wf(),
        (k as usize) < set.nsems,
        set.sems[k as int].value <= i32::MAX,
        d < 0,
        set.sems[k as int].value < -d,
    ensures
        ({
            let ops = seq![sembuf_t { sem_num: k, sem_op: d, sem_flg: flg }];
            let (r, after) = set.after_semop(ops, pid, tid, now);
            &&& r == Err::<(), Errno>(Errno::EAGAIN)
            &&& after.getval(k as usize) == set.getval(k as usize)
            &&& after.sems[k as int].value == set.sems[k as int].value
            &&& after.sems[k as int].waiters == set.sems[k as int].waiters.push(tid)
        }),
{
    let ops = seq![sembuf_t { sem_num: k, sem_op: d, sem_flg: flg }];
    assert(ops.drop_last() =~= Seq::<sembuf_t>::empty());
    assert(ops[0].sem_num == k);
    assert(set.nums_valid(ops));
    assert(run_ops(set.sems, ops.drop_last(), pid, tid) == (set.sems, false));
    let sem = set.sems[k as int];
    assert(run_ops(set.sems, ops, pid, tid) == (set.sems.update(k as int, sem.with_waiter(tid)), true));
}

/// `GETVAL` of a semaphore of the set answers its current value, whatever
/// threads are queued on it.
pub proof fn lemma_getval_is_value(set: SemSetView, k: usize)
    requires
        set.wf(),
        k < set.nsems,
        set.sems[k as int].value <= i32::MAX,
    ensures
        set.getval(k) matches Ok(v) && v as int == set.sems[k as int].value,
{
}

/// `SETVAL` of a semaphore of the set succeeds exactly for a value that is
/// not negative; a negative one is `EINVAL` and changes nothing. After a
/// successful `SETVAL` of `v` on a semaphore nobody waits on, `GETVAL`
/// answers `v`.
pub proof fn lemma_setval_accepts_nonnegative(set: SemSetView, k: usize, v: i32, now: time_t)
    requires
        set.wf(),
        k < set.nsems,
    ensures
        set.after_setval(k, v, now).0 is Ok <==> v >= 0,
        v < 0 ==> set.after_setval(k, v, now) == (Err::<(), Errno>(Errno::EINVAL), set),
        v >= 0 && set.sems[k as int].waiters.len() == 0 ==> set.after_setval(k, v, now).1.getval(k)
            == Ok::<i32, Errno>(v),
        v >= 0 ==> set.after_setval(k, v, now).1.wf(),
{
}

/// `semctl(SETVAL)` of a semaphore of a set succeeds exactly when `arg`,
/// taken as an `i32`, is not negative; then `GETVAL` answers it if nobody
/// waits on the semaphore.
pub proof fn lemma_semctl_setval_accepts_nonnegative(
    s: SemManagerView,
    semid: SemId,
    semnum: usize,
    arg: usize,
    now: time_t,
    now2: time_t,
)
    requires
        s.wf(),
        s.sets.contains_key(semid),
        semnum < s.sets[semid].nsems,
    ensures
        s.semctl(semid, semnum, SETVAL, arg, now).0 is Ok <==> (arg as i32) >= 0,
        (arg as i32) < 0 ==> s.semctl(semid, semnum, SETVAL, arg, now) == (Err::<
            SemctlReply,
            Errno,
        >(Errno::EINVAL), s),
        (arg as i32) >= 0 && s.sets[semid].sems[semnum as int].waiters.len() == 0 ==> {
            let s1 = s.semctl(semid, semnum, SETVAL, arg, now).1;
            s1.semctl(semid, semnum, GETVAL, 0, now2).0 == Ok::<SemctlReply, Errno>(
                SemctlReply::Value((arg as i32) as usize),
            )
        },
{
    lemma_setval_accepts_nonnegative(s.sets[semid], semnum, arg as i32, now);
}

/// For a key that has a set, `semget` without both `IPC_CREAT` and
/// `IPC_EXCL` that names a positive size other than the set's answers
/// `EINVAL` and changes nothing; naming no size or the set's size answers
/// the set.
pub proof fn lemma_semget_size_must_match(
    s: SemManagerView,
    key: key_t,
    id: SemId,
    nsems: usize,
    flags: u32,
    pid: pid_t,
    uid: uid_t,
    gid: gid_t,
    now: time_t,
)
    requires
        s.wf(),
        key != IPC_PRIVATE,
        s.sets.contains_key(id),
        s.sets[id].key == key,
        !(flags_contain(flags, SEM_IPC_CREAT) && flags_contain(flags, SEM_IPC_EXCL)),
    ensures
        0 < nsems && nsems != s.sets[id].nsems ==> s.semget(key, nsems, flags, pid, uid, gid, now)
            == (Err::<SemId, Errno>(Errno::EINVAL), s),
        nsems == 0 || nsems == s.sets[id].nsems ==> s.semget(key, nsems, flags, pid, uid, gid, now)
            == (Ok::<SemId, Errno>(id), s),
{
    assert(s.has_key(key, id));
    let c = choose|c: SemId| s.has_key(key, c);
    assert(s.sets[c].key == s.sets[id].key);
    assert(s.find_key(key) == Some(id));
}

/// `IPC_RMID` of one set changes no other set: every other identifier has
/// a set afterwards exactly when it had one before, the same set, and
/// `GETVAL` of it answers as before.
pub proof fn lemma_rmid_keeps_other_sets(
    s: SemManagerView,
    semid: SemId,
    semnum: usize,
    arg: usize,
    now: time_t,
    other: SemId,
    semnum2: usize,
    now2: time_t,
)
    requires
        s.wf(),
        s.sets.contains_key(semid),
        other != semid,
    ensures
        ({
            let s1 = s.semctl(semid, semnum, IPC_RMID, arg, now).1;
            &&& s1.sets.contains_key(other) == s.sets.contains_key(other)
            &&& s.sets.contains_key(other) ==> s1.sets[other] == s.sets[other]
            &&& s1.sets.dom() == s.sets.dom().remove(semid)
            &&& s1.semctl(other, semnum2, GETVAL, 0, now2).0 == s.semctl(
                other,
                semnum2,
                GETVAL,
                0,
                now2,
            ).0
        }),
{
    let s1 = s.semctl(semid, semnum, IPC_RMID, arg, now).1;
    assert(s1.sets.dom() =~= s.sets.dom().remove(semid));
}

} // verus!
