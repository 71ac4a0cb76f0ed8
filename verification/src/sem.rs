use std::collections::HashMap;
use std::collections::HashSet;
use std::collections::VecDeque;
use vstd::prelude::*;
use vstd::std_specs::iter::IteratorSpec;

use crate::errno::Errno;
use crate::ipc_util::{
    gid_t, ipc_perm_t, key_t, pid_t, time_t, uid_t, CmdId, IpcId, IpcIdManager, IpcIdsView,
    GETPID, GETVAL, IPC_PRIVATE, IPC_RMID, IPC_STAT, SETVAL,
};

verus! {

broadcast use vstd::std_specs::hash::group_hash_axioms;

/// Identifier of a semaphore set.
pub type SemId = IpcId;

/// Maximum number of semaphore sets.
pub const SEMMNI: SemId = 128;

/// Maximum number of semaphores in one set.
pub const SEMMSL: usize = 250;

/// Maximum number of semaphores system-wide.
pub const SEMMNS: usize = 128 * 250;

/// Maximum number of operations in one `semop` call.
pub const SEMOPM: usize = 32;

/// Bit of `IPC_CREAT`: create the set if the key has none.
pub const SEM_IPC_CREAT: u32 = 0o1000;

/// Bit of `IPC_EXCL`: fail if the key already has a set.
pub const SEM_IPC_EXCL: u32 = 0o2000;

/// Flags of `semget`: a combination of `IPC_CREAT` and `IPC_EXCL`.
#[derive(Debug, Clone, Copy, PartialEq, Eq, Structural)]
pub struct SemFlags {
    bits: u32,
}

impl View for SemFlags {
    type V = u32;

    closed spec fn view(&self) -> u32 {
        self.bits
    }
}

/// `bits` holds only the bits of `IPC_CREAT` and `IPC_EXCL`.
pub open spec fn sem_flag_bits_known(bits: u32) -> bool {
    bits & !(SEM_IPC_CREAT | SEM_IPC_EXCL) == 0
}

/// `flags` holds every bit of `other`.
pub open spec fn flags_contain(flags: u32, other: u32) -> bool {
    flags & other == other
}

impl SemFlags {
    /// The flag `IPC_CREAT`.
    pub fn ipc_creat() -> (r: SemFlags)
        ensures
            r@ == SEM_IPC_CREAT,
    {
        SemFlags { bits: SEM_IPC_CREAT }
    }

    /// The flag `IPC_EXCL`.
    pub fn ipc_excl() -> (r: SemFlags)
        ensures
            r@ == SEM_IPC_EXCL,
    {
        SemFlags { bits: SEM_IPC_EXCL }
    }

    /// No flag at all.
    pub fn empty() -> (r: SemFlags)
        ensures
            r@ == 0,
    {
        SemFlags { bits: 0 }
    }

    /// The flags whose bits are `bits`, or `None` if `bits` holds a bit that
    /// is no flag.
    pub fn from_bits(bits: u32) -> (r: Option<SemFlags>)
        ensures
            r is Some <==> sem_flag_bits_known(bits),
            r matches Some(f) ==> f@ == bits,
    {
        if bits & !(SEM_IPC_CREAT | SEM_IPC_EXCL) == 0 {
            Some(SemFlags { bits })
        } else {
            None
        }
    }

    /// The bits of these flags.
    pub fn bits(&self) -> (r: u32)
        ensures
            r == self@,
    {
        self.bits
    }

    /// Both flags together.
    pub fn union(&self, other: SemFlags) -> (r: SemFlags)
        ensures
            r@ == self@ | other@,
    {
        SemFlags { bits: self.bits | other.bits }
    }

    /// These flags hold every flag of `other`.
    pub fn contains(&self, other: SemFlags) -> (r: bool)
        ensures
            r == flags_contain(self@, other@),
    {
        self.bits & other.bits == other.bits
    }
}

/// One operation of a `semop` call: add `sem_op` to semaphore `sem_num`, or
/// wait for it to reach zero when `sem_op` is zero.
#[allow(non_camel_case_types)]
#[derive(Debug, Clone, Copy, PartialEq, Eq, Structural)]
pub struct sembuf_t {
    pub sem_num: u16,
    pub sem_op: i16,
    pub sem_flg: i16,
}

/// What `IPC_STAT` reports of a semaphore set.
#[allow(non_camel_case_types)]
#[derive(Debug, Clone, Copy, PartialEq, Eq, Structural)]
pub struct semids_t {
    pub sem_perm: ipc_perm_t,
    pub sem_otime: time_t,
    pub sem_ctime: time_t,
    pub sem_nsems: u64,
    pub unused1: u64,
    pub unused2: u64,
}

/// The threads waiting on a semaphore, first come first served.
#[derive(Debug, Clone)]
pub struct WaiterQueue {
    waiters: VecDeque<pid_t>,
}

impl View for WaiterQueue {
    type V = Seq<pid_t>;

    closed spec fn view(&self) -> Seq<pid_t> {
        self.waiters@
    }
}

impl WaiterQueue {
    /// An empty queue.
    pub fn new() -> (r: Self)
        ensures
            r@ == Seq::<pid_t>::empty(),
    {
        WaiterQueue { waiters: VecDeque::new() }
    }

    /// No thread waits.
    pub fn is_empty(&self) -> (r: bool)
        ensures
            r == (self@.len() == 0),
    {
        self.waiters.len() == 0
    }

    /// Enqueues a fresh waiter for thread `tid` at the back.
    pub fn reset_and_enqueue(&mut self, tid: pid_t)
        ensures
            final(self)@ == old(self)@.push(tid),
    {
        self.waiters.push_back(tid);
    }

    /// Takes the waiter at the front, if any, and returns the thread to wake.
    pub fn dequeue_and_wake_one(&mut self) -> (r: Option<pid_t>)
        ensures
            old(self)@.len() == 0 ==> r is None && final(self)@ == old(self)@,
            old(self)@.len() > 0 ==> r == Some(old(self)@[0]) && final(self)@ == old(self)@.skip(1),
    {
        self.waiters.pop_front()
    }
}

#[verifier::ext_equal]
/// The state of one semaphore: its value, the threads waiting on it, and
/// the process that last operated on it.
pub struct SemaphoreView {
    pub value: int,
    pub waiters: Seq<pid_t>,
    pub last_pid: pid_t,
}

impl SemaphoreView {
    /// How many waiters a wake-up round takes: one per unit of a positive
    /// value, as long as waiters remain.
    pub open spec fn wake_count(self) -> int {
        if self.value <= 0 {
            0
        } else if self.value < self.waiters.len() {
            self.value
        } else {
            self.waiters.len() as int
        }
    }

    /// The semaphore after a wake-up round: each woken waiter takes one unit.
    pub open spec fn after_wake(self) -> SemaphoreView {
        SemaphoreView {
            value: self.value - self.wake_count(),
            waiters: self.waiters.skip(self.wake_count()),
            last_pid: self.last_pid,
        }
    }

    /// The semaphore with thread `tid` enqueued as a waiter.
    pub open spec fn with_waiter(self, tid: pid_t) -> SemaphoreView {
        SemaphoreView { value: self.value, waiters: self.waiters.push(tid), last_pid: self.last_pid }
    }

    /// Operation `sem_op` can be carried out without an arithmetic overflow.
    pub open spec fn op_fits(self, sem_op: i16) -> bool {
        &&& sem_op != i16::MIN
        &&& sem_op > 0 ==> self.value + sem_op <= i32::MAX
    }

    /// The semaphore after operation `sem_op` by thread `tid` of process
    /// `pid`, and whether the operation had to wait.
    ///
    /// A positive operation raises the value and wakes waiters; zero waits
    /// for the value zero; a negative one lowers the value if it suffices.
    /// An operation that cannot go on enqueues the thread and changes
    /// nothing else.
    pub open spec fn after_op(self, sem_op: i16, pid: pid_t, tid: pid_t) -> (SemaphoreView, bool) {
        if sem_op > 0 {
            let raised = SemaphoreView {
                value: self.value + sem_op,
                waiters: self.waiters,
                last_pid: self.last_pid,
            }.after_wake();
            (SemaphoreView { value: raised.value, waiters: raised.waiters, last_pid: pid }, false)
        } else if sem_op == 0 {
            if self.value != 0 {
                (self.with_waiter(tid), true)
            } else {
                (SemaphoreView { value: self.value, waiters: self.waiters, last_pid: pid }, false)
            }
        } else {
            if self.value < -sem_op {
                (self.with_waiter(tid), true)
            } else {
                (
                    SemaphoreView {
                        value: self.value + sem_op,
                        waiters: self.waiters,
                        last_pid: pid,
                    },
                    false,
                )
            }
        }
    }
}

/// One semaphore.
#[derive(Debug, Clone)]
pub struct Semaphore {
    value: i32,
    waiter_queue: WaiterQueue,
    last_pid: pid_t,
}

impl View for Semaphore {
    type V = SemaphoreView;

    closed spec fn view(&self) -> SemaphoreView {
        SemaphoreView {
            value: self.value as int,
            waiters: self.waiter_queue@,
            last_pid: self.last_pid,
        }
    }
}

impl Semaphore {
    /// A semaphore of value `initial_value`, with no waiters, last operated
    /// on by the creating process `pid`.
    pub fn new(initial_value: i32, pid: pid_t) -> (r: Self)
        ensures
            r@ == (SemaphoreView {
                value: initial_value as int,
                waiters: Seq::<pid_t>::empty(),
                last_pid: pid,
            }),
    {
        Semaphore { value: initial_value, waiter_queue: WaiterQueue::new(), last_pid: pid }
    }

    /// While the value is positive and threads wait, wakes the first waiter
    /// and takes one unit for it; returns the woken threads in order.
    ///
    /// No thread blocks on its waiter (`semop` answers `EAGAIN` right after
    /// enqueuing), so the callers inside this crate only need the queue and
    /// the value to change, and drop the list.
    pub fn try_wake(&mut self) -> (woken: Vec<pid_t>)
        ensures
            final(self)@ == old(self)@.after_wake(),
            woken@ == old(self)@.waiters.take(old(self)@.wake_count()),
    {
        let ghost s0 = self@;
        let mut woken: Vec<pid_t> = Vec::new();
        while self.value > 0 && !self.waiter_queue.is_empty()
            invariant
                woken.len() <= s0.waiters.len(),
                s0.value <= 0 ==> woken.len() == 0,
                s0.value > 0 ==> woken.len() <= s0.value,
                self@.value == s0.value - woken.len(),
                self@.waiters == s0.waiters.skip(woken.len() as int),
                self@.last_pid == s0.last_pid,
                woken@ == s0.waiters.take(woken.len() as int),
            decreases self@.waiters.len(),
        {
            let t = self.waiter_queue.dequeue_and_wake_one();
            if let Some(tid) = t {
                proof {
                    assert(s0.waiters.take(woken.len() + 1) =~= s0.waiters.take(
                        woken.len() as int,
                    ).push(tid));
                    assert(s0.waiters.skip(woken.len() + 1) =~= s0.waiters.skip(
                        woken.len() as int,
                    ).skip(1));
                }
                woken.push(tid);
            }
            self.value -= 1;
        }
        woken
    }

    /// Enqueues a waiter for thread `tid`.
    pub fn wait(&mut self, tid: pid_t)
        ensures
            final(self)@ == old(self)@.with_waiter(tid),
    {
        self.waiter_queue.reset_and_enqueue(tid);
    }

    /// Carries out operation `sem_op` by thread `tid` of process `pid`;
    /// returns whether it had to wait.
    fn apply_op(&mut self, sem_op: i16, pid: pid_t, tid: pid_t) -> (blocked: bool)
        requires
            old(self)@.op_fits(sem_op),
        ensures
            (final(self)@, blocked) == old(self)@.after_op(sem_op, pid, tid),
    {
        if sem_op > 0 {
            self.value += sem_op as i32;
            self.try_wake();
        } else if sem_op == 0 {
            if self.value != 0 {
                self.wait(tid);
                return true;
            }
        } else {
            let op_val: i32 = (-sem_op) as i32;
            if self.value < op_val {
                self.wait(tid);
                return true;
            }
            self.value -= op_val;
        }
        self.last_pid = pid;
        false
    }
}

/// The semaphores after the operations `ops` of thread `tid` of process
/// `pid`, carried out in order until one has to wait, and whether one did.
pub open spec fn run_ops(sems: Seq<SemaphoreView>, ops: Seq<sembuf_t>, pid: pid_t, tid: pid_t) -> (
    Seq<SemaphoreView>,
    bool,
)
    decreases ops.len(),
{
    if ops.len() == 0 {
        (sems, false)
    } else {
        let (before, blocked) = run_ops(sems, ops.drop_last(), pid, tid);
        if blocked {
            (before, true)
        } else {
            let op = ops.last();
            let k = op.sem_num as int;
            let (after, waits) = before[k].after_op(op.sem_op, pid, tid);
            (before.update(k, after), waits)
        }
    }
}

/// No operation of `ops` that is reached overflows.
pub open spec fn ops_fit(sems: Seq<SemaphoreView>, ops: Seq<sembuf_t>, pid: pid_t, tid: pid_t) -> bool {
    forall|i: int|
        0 <= i < ops.len() && !(#[trigger] run_ops(sems, ops.take(i), pid, tid)).1 ==> run_ops(
            sems,
            ops.take(i),
            pid,
            tid,
        ).0[ops[i].sem_num as int].op_fits(ops[i].sem_op)
}

/// Once an operation has had to wait, the later operations change nothing.
proof fn lemma_blocked_stays(
    sems: Seq<SemaphoreView>,
    ops: Seq<sembuf_t>,
    pid: pid_t,
    tid: pid_t,
    j: int,
    m: int,
)
    requires
        0 <= j <= m <= ops.len(),
        run_ops(sems, ops.take(j), pid, tid).1,
    ensures
        run_ops(sems, ops.take(m), pid, tid) == run_ops(sems, ops.take(j), pid, tid),
    decreases m - j,
{
    if m > j {
        lemma_blocked_stays(sems, ops, pid, tid, j, m - 1);
        assert(ops.take(m).drop_last() =~= ops.take(m - 1));
    }
}

#[verifier::ext_equal]
/// The state of a semaphore set.
pub struct SemSetView {
    pub semid: SemId,
    pub key: key_t,
    pub nsems: usize,
    pub uid: uid_t,
    pub gid: gid_t,
    pub cuid: uid_t,
    pub cgid: gid_t,
    pub mode: u16,
    pub sem_otime: time_t,
    pub sem_ctime: time_t,
    pub sems: Seq<SemaphoreView>,
    pub attached_pids: Set<pid_t>,
}

/// A semaphore set as `semget` creates it: `nsems` semaphores of value 0,
/// owned and created by `uid` / `gid`, last changed at `now`.
pub open spec fn fresh_set(
    semid: SemId,
    key: key_t,
    nsems: usize,
    mode: u16,
    pid: pid_t,
    uid: uid_t,
    gid: gid_t,
    now: time_t,
) -> SemSetView {
    SemSetView {
        semid,
        key,
        nsems,
        uid,
        gid,
        cuid: uid,
        cgid: gid,
        mode,
        sem_otime: 0,
        sem_ctime: now,
        sems: Seq::new(
            nsems as nat,
            |i: int| SemaphoreView { value: 0, waiters: Seq::<pid_t>::empty(), last_pid: pid },
        ),
        attached_pids: Set::<pid_t>::empty(),
    }
}

/// A set may hold `nsems` semaphores.
pub open spec fn nsems_valid(nsems: usize) -> bool {
    1 <= nsems <= SEMMSL
}

impl SemSetView {
    /// The set is consistent: it holds `nsems` semaphores, between one and
    /// [`SEMMSL`], none of negative value.
    pub open spec fn wf(self) -> bool {
        &&& self.sems.len() == self.nsems
        &&& nsems_valid(self.nsems)
        &&& forall|i: int| 0 <= i < self.sems.len() ==> #[trigger] self.sems[i].value >= 0
    }

    /// Every operation of `ops` names a semaphore of the set.
    pub open spec fn nums_valid(self, ops: Seq<sembuf_t>) -> bool {
        forall|i: int| 0 <= i < ops.len() ==> (#[trigger] ops[i]).sem_num < self.nsems
    }

    /// `semop` with `ops` overflows nowhere.
    pub open spec fn semop_fits(self, ops: Seq<sembuf_t>, pid: pid_t, tid: pid_t) -> bool {
        self.nums_valid(ops) ==> ops_fit(self.sems, ops, pid, tid)
    }

    /// The set with the semaphores `sems`.
    pub open spec fn with_sems(self, sems: Seq<SemaphoreView>) -> SemSetView {
        SemSetView { sems, ..self }
    }

    /// What `semop` with `ops` answers, and the set after it: `EFBIG` if an
    /// operation names no semaphore of the set; else the operations are
    /// carried out in order, and if one has to wait the call answers
    /// `EAGAIN` and keeps what the earlier ones did; else the time of the
    /// last operation becomes `now`.
    pub open spec fn after_semop(
        self,
        ops: Seq<sembuf_t>,
        pid: pid_t,
        tid: pid_t,
        now: time_t,
    ) -> (Result<(), Errno>, SemSetView) {
        if !self.nums_valid(ops) {
            (Err(Errno::EFBIG), self)
        } else {
            let (sems, blocked) = run_ops(self.sems, ops, pid, tid);
            if blocked {
                (Err(Errno::EAGAIN), self.with_sems(sems))
            } else {
                (Ok(()), SemSetView { sems, sem_otime: now, ..self })
            }
        }
    }

    /// What `GETVAL` of semaphore `sem_num` answers.
    pub open spec fn getval(self, sem_num: usize) -> Result<i32, Errno> {
        if sem_num >= self.nsems {
            Err(Errno::ERANGE)
        } else {
            Ok(self.sems[sem_num as int].value as i32)
        }
    }

    /// What `SETVAL` of semaphore `sem_num` to `value` answers, and the set
    /// after it: the value is set, then waiters are woken, and the time of
    /// the last change becomes `now`.
    pub open spec fn after_setval(self, sem_num: usize, value: i32, now: time_t) -> (
        Result<(), Errno>,
        SemSetView,
    ) {
        if sem_num >= self.nsems {
            (Err(Errno::ERANGE), self)
        } else if value < 0 {
            (Err(Errno::EINVAL), self)
        } else {
            let sem = self.sems[sem_num as int];
            let set = SemaphoreView { value: value as int, waiters: sem.waiters, last_pid: sem.last_pid };
            (
                Ok(()),
                SemSetView {
                    sems: self.sems.update(sem_num as int, set.after_wake()),
                    sem_ctime: now,
                    ..self
                },
            )
        }
    }

    /// What `IPC_STAT` reports of the set.
    pub open spec fn stat(self) -> semids_t {
        semids_t {
            sem_perm: ipc_perm_t {
                key: self.key,
                uid: self.uid,
                gid: self.gid,
                cuid: self.cuid,
                cgid: self.cgid,
                mode: self.mode,
                pad1: 0,
                seq: 0,
                pad2: 0,
                unused1: 0,
                unused2: 0,
            },
            sem_otime: self.sem_otime,
            sem_ctime: self.sem_ctime,
            sem_nsems: self.nsems as u64,
            unused1: 0,
            unused2: 0,
        }
    }

    /// The set with process `pid` attached.
    pub open spec fn attach(self, pid: pid_t) -> SemSetView {
        SemSetView { attached_pids: self.attached_pids.insert(pid), ..self }
    }

    /// The set with process `pid` detached.
    pub open spec fn detach(self, pid: pid_t) -> SemSetView {
        SemSetView { attached_pids: self.attached_pids.remove(pid), ..self }
    }
}

/// A set of semaphores, with its owner, permissions, times and the
/// processes attached to it.
#[derive(Debug)]
pub struct SemSet {
    semid: SemId,
    key: key_t,
    nsems: usize,
    uid: uid_t,
    gid: gid_t,
    cuid: uid_t,
    cgid: gid_t,
    mode: u16,
    sem_otime: time_t,
    sem_ctime: time_t,
    sems: Vec<Semaphore>,
    attached_pids: HashSet<pid_t>,
}

impl View for SemSet {
    type V = SemSetView;

    closed spec fn view(&self) -> SemSetView {
        SemSetView {
            semid: self.semid,
            key: self.key,
            nsems: self.nsems,
            uid: self.uid,
            gid: self.gid,
            cuid: self.cuid,
            cgid: self.cgid,
            mode: self.mode,
            sem_otime: self.sem_otime,
            sem_ctime: self.sem_ctime,
            sems: self.sems@.map_values(|s: Semaphore| s@),
            attached_pids: self.attached_pids@,
        }
    }
}

impl SemSet {
    /// A new set of `nsems` semaphores of value 0 for identifier `semid` and
    /// key `key`, created by process `pid` of user `uid` / group `gid` at
    /// `now`; `EINVAL` unless `nsems` lies between one and [`SEMMSL`].
    pub fn new(
        semid: SemId,
        key: key_t,
        nsems: usize,
        mode: u16,
        pid: pid_t,
        uid: uid_t,
        gid: gid_t,
        now: time_t,
    ) -> (r: Result<Self, Errno>)
        ensures
            r is Err <==> !nsems_valid(nsems),
            r matches Err(e) ==> e == Errno::EINVAL,
            r matches Ok(s) ==> s@ == fresh_set(semid, key, nsems, mode, pid, uid, gid, now),
    {
        if nsems == 0 || nsems > SEMMSL {
            return Err(Errno::EINVAL);
        }
        let mut sems: Vec<Semaphore> = Vec::new();
        let mut i: usize = 0;
        while i < nsems
            invariant
                i <= nsems,
                sems@.len() == i,
                forall|j: int|
                    0 <= j < i ==> (#[trigger] sems@[j])@ == (SemaphoreView {
                        value: 0,
                        waiters: Seq::<pid_t>::empty(),
                        last_pid: pid,
                    }),
            decreases nsems - i,
        {
            sems.push(Semaphore::new(0, pid));
            i += 1;
        }
        let r = SemSet {
            semid,
            key,
            nsems,
            uid,
            gid,
            cuid: uid,
            cgid: gid,
            mode,
            sem_otime: 0,
            sem_ctime: now,
            sems,
            attached_pids: HashSet::new(),
        };
        Ok(r)
    }

    /// Permission check of an operation on the set; every caller passes.
    pub fn check_perm(&self) -> (r: Result<(), Errno>)
        ensures
            r is Ok,
    {
        Ok(())
    }

    /// Records that process `pid` uses the set.
    pub fn attach_pid(&mut self, pid: pid_t)
        ensures
            final(self)@ == old(self)@.attach(pid),
    {
        self.attached_pids.insert(pid);
    }

    /// Forgets that process `pid` used the set.
    pub fn detach_pid(&mut self, pid: &pid_t)
        ensures
            final(self)@ == old(self)@.detach(*pid),
    {
        self.attached_pids.remove(pid);
    }

    /// Carries out the operations `sops` of thread `tid` of process `pid`
    /// at time `now`, as [`SemSetView::after_semop`] says.
    pub fn do_semop(&mut self, sops: &[sembuf_t], pid: pid_t, tid: pid_t, now: time_t) -> (r: Result<
        (),
        Errno,
    >)
        requires
            old(self)@.wf(),
            old(self)@.semop_fits(sops@, pid, tid),
        ensures
            (r, final(self)@) == old(self)@.after_semop(sops@, pid, tid, now),
            final(self)@.wf(),
    {
        let ghost s0 = self@;
        let n: usize = sops.len();
        let mut i: usize = 0;
        while i < n
            invariant
                i <= n,
                n == sops@.len(),
                self@ == s0,
                s0.wf(),
                forall|j: int| 0 <= j < i ==> (#[trigger] sops@[j]).sem_num < s0.nsems,
            decreases n - i,
        {
            if sops[i].sem_num as usize >= self.nsems {
                return Err(Errno::EFBIG);
            }
            i += 1;
        }
        let mut i: usize = 0;
        while i < n
            invariant
                i <= n,
                n == sops@.len(),
                s0 == old(self)@,
                s0.wf(),
                s0.nums_valid(sops@),
                ops_fit(s0.sems, sops@, pid, tid),
                !run_ops(s0.sems, sops@.take(i as int), pid, tid).1,
                self@ == s0.with_sems(run_ops(s0.sems, sops@.take(i as int), pid, tid).0),
                self@.wf(),
            decreases n - i,
        {
            let ghost before = self@;
            let k: usize = sops[i].sem_num as usize;
            proof {
                assert(sops@.take(i + 1).drop_last() =~= sops@.take(i as int));
            }
            let blocked = self.sems[k].apply_op(sops[i].sem_op, pid, tid);
            proof {
                let (after, waits) = before.sems[k as int].after_op(sops@[i as int].sem_op, pid, tid);
                assert(run_ops(s0.sems, sops@.take(i + 1), pid, tid) == (
                    before.sems.update(k as int, after),
                    waits,
                ));
            }
            if blocked {
                proof {
                    lemma_blocked_stays(s0.sems, sops@, pid, tid, i + 1, n as int);
                    assert(sops@.take(n as int) =~= sops@);
                    assert(self@ =~= s0.with_sems(run_ops(s0.sems, sops@, pid, tid).0));
                }
                return Err(Errno::EAGAIN);
            }
            i += 1;
        }
        proof {
            assert(sops@.take(n as int) =~= sops@);
        }
        self.sem_otime = now;
        Ok(())
    }

    /// The value of semaphore `sem_num`; `ERANGE` if the set has none of
    /// that number.
    pub fn getval(&self, sem_num: usize) -> (r: Result<i32, Errno>)
        requires
            self@.wf(),
        ensures
            r == self@.getval(sem_num),
    {
        if sem_num >= self.nsems {
            return Err(Errno::ERANGE);
        }
        Ok(self.sems[sem_num].value)
    }

    /// Sets semaphore `sem_num` to `value` at time `now`, as
    /// [`SemSetView::after_setval`] says.
    pub fn setval(&mut self, sem_num: usize, value: i32, now: time_t) -> (r: Result<(), Errno>)
        requires
            old(self)@.wf(),
        ensures
            (r, final(self)@) == old(self)@.after_setval(sem_num, value, now),
            final(self)@.wf(),
    {
        if sem_num >= self.nsems {
            return Err(Errno::ERANGE);
        }
        if value < 0 {
            return Err(Errno::EINVAL);
        }
        self.sems[sem_num].value = value;
        self.sems[sem_num].try_wake();
        self.sem_ctime = now;
        Ok(())
    }
}

/// What a successful `semctl` call answers: a number, or the record that
/// `IPC_STAT` asks to be written to the caller's buffer.
#[derive(Debug, Clone, Copy, PartialEq, Eq, Structural)]
pub enum SemctlReply {
    Value(usize),
    Stat(semids_t),
}

/// Permissions of the sets that `semget` creates.
pub const SEM_DEFAULT_MODE: u16 = 0o666;

#[verifier::ext_equal]
/// The state of a [`SemManager`]: its sets by identifier, and its
/// identifier allocator.
pub struct SemManagerView {
    pub sets: Map<SemId, SemSetView>,
    pub ids: IpcIdsView,
}

impl SemManagerView {
    /// The state is consistent: every set is stored under its own
    /// identifier, which is in use, and is consistent itself; no two sets
    /// share a key other than [`IPC_PRIVATE`].
    pub open spec fn wf(self) -> bool {
        &&& self.ids.wf()
        &&& self.sets.dom().finite()
        &&& forall|id: SemId| #[trigger]
            self.sets.contains_key(id) ==> {
                &&& self.ids.used.contains(id)
                &&& self.sets[id].semid == id
                &&& self.sets[id].wf()
            }
        &&& forall|a: SemId, b: SemId|
            #![trigger self.sets[a], self.sets[b]]
            self.sets.contains_key(a) && self.sets.contains_key(b) && a != b && self.sets[a].key
                == self.sets[b].key ==> self.sets[a].key == IPC_PRIVATE
    }

    /// Set `id` has key `key`.
    pub open spec fn has_key(self, key: key_t, id: SemId) -> bool {
        self.sets.contains_key(id) && self.sets[id].key == key
    }

    /// The set with key `key`, if there is one.
    pub open spec fn find_key(self, key: key_t) -> Option<SemId> {
        if exists|id: SemId| self.has_key(key, id) {
            Some(choose|id: SemId| self.has_key(key, id))
        } else {
            None
        }
    }

    /// What creating a set for `key` answers, and the state after it: a new
    /// identifier is taken (`ENOSPC` if none is left); then `EINVAL` if
    /// `nsems` is out of range, the identifier staying taken; else the
    /// fresh set is stored under it.
    pub open spec fn create(
        self,
        key: key_t,
        nsems: usize,
        pid: pid_t,
        uid: uid_t,
        gid: gid_t,
        now: time_t,
    ) -> (Result<SemId, Errno>, SemManagerView) {
        let (r, ids) = self.ids.allocate();
        match r {
            Err(e) => (Err(e), self),
            Ok(id) => if !nsems_valid(nsems) {
                (Err(Errno::EINVAL), SemManagerView { sets: self.sets, ids })
            } else {
                (
                    Ok(id),
                    SemManagerView {
                        sets: self.sets.insert(
                            id,
                            fresh_set(id, key, nsems, SEM_DEFAULT_MODE, pid, uid, gid, now),
                        ),
                        ids,
                    },
                )
            },
        }
    }

    /// What `semget(key, nsems, flags)` answers, and the state after it.
    ///
    /// [`IPC_PRIVATE`] always creates a set. Another key names its set if
    /// it has one: `EEXIST` under both `IPC_CREAT` and `IPC_EXCL`, `EINVAL`
    /// if `nsems` is positive and not the set's size. A key without a set
    /// gives `ENOENT` without `IPC_CREAT`, `EINVAL` if `nsems` is out of
    /// range, and otherwise creates the set.
    pub open spec fn semget(
        self,
        key: key_t,
        nsems: usize,
        flags: u32,
        pid: pid_t,
        uid: uid_t,
        gid: gid_t,
        now: time_t,
    ) -> (Result<SemId, Errno>, SemManagerView) {
        if key == IPC_PRIVATE {
            self.create(key, nsems, pid, uid, gid, now)
        } else {
            match self.find_key(key) {
                Some(id) => if flags_contain(flags, SEM_IPC_CREAT) && flags_contain(
                    flags,
                    SEM_IPC_EXCL,
                ) {
                    (Err(Errno::EEXIST), self)
                } else if nsems > 0 && nsems != self.sets[id].nsems {
                    (Err(Errno::EINVAL), self)
                } else {
                    (Ok(id), self)
                },
                None => if !flags_contain(flags, SEM_IPC_CREAT) {
                    (Err(Errno::ENOENT), self)
                } else if !nsems_valid(nsems) {
                    (Err(Errno::EINVAL), self)
                } else {
                    self.create(key, nsems, pid, uid, gid, now)
                },
            }
        }
    }

    /// `semop` on set `semid` with `ops` overflows nowhere.
    pub open spec fn semop_fits(self, semid: SemId, ops: Seq<sembuf_t>, pid: pid_t, tid: pid_t) -> bool {
        self.sets.contains_key(semid) && 1 <= ops.len() <= SEMOPM ==> self.sets[semid].semop_fits(
            ops,
            pid,
            tid,
        )
    }

    /// What `semop(semid, ops)` by thread `tid` of process `pid` answers,
    /// and the state after it: `E2BIG` unless there are between one and
    /// [`SEMOPM`] operations, `EINVAL` if there is no set `semid`; else the
    /// process is attached to the set and the set carries out the
    /// operations.
    pub open spec fn semop(
        self,
        semid: SemId,
        ops: Seq<sembuf_t>,
        pid: pid_t,
        tid: pid_t,
        now: time_t,
    ) -> (Result<(), Errno>, SemManagerView) {
        if ops.len() == 0 || ops.len() > SEMOPM {
            (Err(Errno::E2BIG), self)
        } else if !self.sets.contains_key(semid) {
            (Err(Errno::EINVAL), self)
        } else {
            let (r, set) = self.sets[semid].attach(pid).after_semop(ops, pid, tid, now);
            (r, SemManagerView { sets: self.sets.insert(semid, set), ids: self.ids })
        }
    }

    /// What `semctl(semid, semnum, cmd, arg)` answers, and the state after
    /// it: `EINVAL` if there is no set `semid`. `IPC_RMID` frees the
    /// identifier and removes the set; `SETVAL` sets a value to `arg`;
    /// `GETVAL` and `GETPID` read a semaphore; `IPC_STAT` reports the set,
    /// `EFAULT` for a null buffer; any other command is `EINVAL`.
    pub open spec fn semctl(self, semid: SemId, semnum: usize, cmd: CmdId, arg: usize, now: time_t) -> (
        Result<SemctlReply, Errno>,
        SemManagerView,
    ) {
        if !self.sets.contains_key(semid) {
            (Err(Errno::EINVAL), self)
        } else {
            let set = self.sets[semid];
            if cmd == IPC_RMID {
                (
                    Ok(SemctlReply::Value(0)),
                    SemManagerView { sets: self.sets.remove(semid), ids: self.ids.release(semid) },
                )
            } else if cmd == SETVAL {
                let (r, changed) = set.after_setval(semnum, arg as i32, now);
                match r {
                    Ok(_) => (
                        Ok(SemctlReply::Value(0)),
                        SemManagerView { sets: self.sets.insert(semid, changed), ids: self.ids },
                    ),
                    Err(e) => (Err(e), self),
                }
            } else if cmd == GETVAL {
                match set.getval(semnum) {
                    Ok(v) => (Ok(SemctlReply::Value(v as usize)), self),
                    Err(e) => (Err(e), self),
                }
            } else if cmd == IPC_STAT {
                if arg == 0 {
                    (Err(Errno::EFAULT), self)
                } else {
                    (Ok(SemctlReply::Stat(set.stat())), self)
                }
            } else if cmd == GETPID {
                if semnum >= set.nsems {
                    (Err(Errno::ERANGE), self)
                } else {
                    (Ok(SemctlReply::Value(set.sems[semnum as int].last_pid as usize)), self)
                }
            } else {
                (Err(Errno::EINVAL), self)
            }
        }
    }

    /// The state after process `pid` exits: it is detached from every set.
    pub open spec fn detach(self, pid: pid_t) -> SemManagerView {
        SemManagerView { sets: self.sets.map_values(|s: SemSetView| s.detach(pid)), ids: self.ids }
    }

    /// The state after the library OS exits: every set is removed and its
    /// identifier freed.
    pub open spec fn clean(self) -> SemManagerView {
        SemManagerView {
            sets: Map::<SemId, SemSetView>::empty(),
            ids: IpcIdsView {
                used: self.ids.used.difference(self.sets.dom()),
                free_num: (self.ids.free_num + self.sets.dom().len()) as u32,
                last_alloc_id: self.ids.last_alloc_id,
            },
        }
    }
}

/// All semaphore sets of the system, with the allocator of their
/// identifiers.
#[derive(Debug)]
pub struct SemManager {
    sem_sets: HashMap<SemId, SemSet>,
    semid_manager: IpcIdManager,
}

impl View for SemManager {
    type V = SemManagerView;

    closed spec fn view(&self) -> SemManagerView {
        SemManagerView {
            sets: self.sem_sets@.map_values(|s: SemSet| s@),
            ids: self.semid_manager@,
        }
    }
}

impl SemSet {
    /// What `IPC_STAT` reports of the set.
    fn stat(&self) -> (r: semids_t)
        ensures
            r == self@.stat(),
    {
        semids_t {
            sem_perm: ipc_perm_t {
                key: self.key,
                uid: self.uid,
                gid: self.gid,
                cuid: self.cuid,
                cgid: self.cgid,
                mode: self.mode,
                pad1: 0,
                seq: 0,
                pad2: 0,
                unused1: 0,
                unused2: 0,
            },
            sem_otime: self.sem_otime,
            sem_ctime: self.sem_ctime,
            sem_nsems: self.nsems as u64,
            unused1: 0,
            unused2: 0,
        }
    }
}

impl SemManager {
    /// A manager without sets, with every identifier free.
    pub fn new() -> (r: Self)
        ensures
            r@.wf(),
            r@.sets == Map::<SemId, SemSetView>::empty(),
            r@.ids.used == Set::<IpcId>::empty(),
            r@.ids.free_num == crate::ipc_util::SHMMNI,
            r@.ids.last_alloc_id == crate::ipc_util::SHMMNI - 1,
    {
        let r = SemManager { sem_sets: HashMap::new(), semid_manager: IpcIdManager::new() };
        assert(r@.sets =~= Map::<SemId, SemSetView>::empty());
        r
    }

    /// Takes a new set identifier, as [`IpcIdsView::allocate`] says.
    pub fn get_new_ipcid(&mut self) -> (r: Result<SemId, Errno>)
        requires
            old(self)@.wf(),
        ensures
            (r, final(self)@.ids) == old(self)@.ids.allocate(),
            final(self)@.sets == old(self)@.sets,
            final(self)@.wf(),
    {
        self.semid_manager.get_new_ipcid()
    }

    /// Gives set identifier `semid` back, as [`IpcIdsView::release`] says.
    pub fn free_ipcid(&mut self, semid: &SemId) -> (r: Result<(), Errno>)
        requires
            old(self)@.ids.wf(),
            old(self)@.ids.can_free(*semid),
        ensures
            r is Ok,
            final(self)@.ids == old(self)@.ids.release(*semid),
            final(self)@.sets == old(self)@.sets,
            final(self)@.ids.wf(),
    {
        self.semid_manager.free_ipcid(semid)
    }

    /// The identifiers of all sets, each once.
    fn set_ids(&self) -> (ids: Vec<SemId>)
        ensures
            ids@.to_set() == self@.sets.dom(),
            ids@.no_duplicates(),
            ids@.len() == self@.sets.dom().len(),
    {
        let ghost keys = vstd::std_specs::hash::spec_keys_iter(&self.sem_sets).remaining();
        let mut ids: Vec<SemId> = Vec::new();
        for k in it: self.sem_sets.keys()
            invariant
                it.seq() == keys,
                ids@.len() == it.index(),
                forall|i: int| 0 <= i < it.index() ==> ids@[i] == *keys[i],
        {
            ids.push(*k);
        }
        assert(ids@ =~= keys.unref());
        ids
    }

    /// The set whose key is `key`, if there is one.
    fn find_by_key(&self, key: key_t) -> (r: Option<SemId>)
        requires
            self@.wf(),
            key != IPC_PRIVATE,
        ensures
            r == self@.find_key(key),
    {
        let ids = self.set_ids();
        let mut i: usize = 0;
        while i < ids.len()
            invariant
                i <= ids@.len(),
                self@.wf(),
                key != IPC_PRIVATE,
                ids@.to_set() == self@.sets.dom(),
                forall|j: int| 0 <= j < i ==> !self@.has_key(key, #[trigger] ids@[j]),
            decreases ids@.len() - i,
        {
            let id: SemId = ids[i];
            if let Some(set) = self.sem_sets.get(&id) {
                if set.key == key {
                    assert(self@.has_key(key, id));
                    return Some(id);
                }
            }
            i += 1;
        }
        assert forall|id: SemId| !self@.has_key(key, id) by {
            if self@.sets.contains_key(id) {
                assert(exists|j: int| 0 <= j < ids@.len() && ids@[j] == id);
            }
        }
        None
    }

    /// Creates a set for `key`, as [`SemManagerView::create`] says.
    fn create_set(
        &mut self,
        key: key_t,
        nsems: usize,
        pid: pid_t,
        uid: uid_t,
        gid: gid_t,
        now: time_t,
    ) -> (r: Result<SemId, Errno>)
        requires
            old(self)@.wf(),
            key != IPC_PRIVATE ==> old(self)@.find_key(key) is None,
        ensures
            (r, final(self)@) == old(self)@.create(key, nsems, pid, uid, gid, now),
            final(self)@.wf(),
    {
        let ghost s0 = self@;
        let semid = match self.get_new_ipcid() {
            Ok(id) => id,
            Err(e) => return Err(e),
        };
        let sem_set = match SemSet::new(semid, key, nsems, SEM_DEFAULT_MODE, pid, uid, gid, now) {
            Ok(s) => s,
            Err(e) => return Err(e),
        };
        self.sem_sets.insert(semid, sem_set);
        proof {
            assert(self@.sets =~= s0.create(key, nsems, pid, uid, gid, now).1.sets);
            assert forall|a: SemId, b: SemId|
                #![trigger self@.sets[a], self@.sets[b]]
                self@.sets.contains_key(a) && self@.sets.contains_key(b) && a != b
                    && self@.sets[a].key == self@.sets[b].key implies self@.sets[a].key
                == IPC_PRIVATE by {
                if key != IPC_PRIVATE {
                    if a == semid {
                        assert(!s0.has_key(key, b));
                    } else if b == semid {
                        assert(!s0.has_key(key, a));
                    }
                }
            }
        }
        Ok(semid)
    }

    /// `semget(key, nsems, semflg)` by process `pid` of user `uid` / group
    /// `gid` at `now`, as [`SemManagerView::semget`] says.
    pub fn do_semget(
        &mut self,
        key: key_t,
        nsems: usize,
        semflg: SemFlags,
        pid: pid_t,
        uid: uid_t,
        gid: gid_t,
        now: time_t,
    ) -> (r: Result<SemId, Errno>)
        requires
            old(self)@.wf(),
        ensures
            (r, final(self)@) == old(self)@.semget(key, nsems, semflg@, pid, uid, gid, now),
            final(self)@.wf(),
    {
        if key == IPC_PRIVATE {
            return self.create_set(key, nsems, pid, uid, gid, now);
        }
        match self.find_by_key(key) {
            Some(id) => {
                if semflg.contains(SemFlags::ipc_creat()) && semflg.contains(SemFlags::ipc_excl()) {
                    return Err(Errno::EEXIST);
                }
                let set_nsems: usize = match self.sem_sets.get(&id) {
                    Some(set) => set.nsems,
                    None => 0,
                };
                if nsems > 0 && nsems != set_nsems {
                    return Err(Errno::EINVAL);
                }
                Ok(id)
            },
            None => {
                if !semflg.contains(SemFlags::ipc_creat()) {
                    return Err(Errno::ENOENT);
                }
                if nsems == 0 || nsems > SEMMSL {
                    return Err(Errno::EINVAL);
                }
                self.create_set(key, nsems, pid, uid, gid, now)
            },
        }
    }

    /// `semop(semid, sops)` by thread `tid` of process `pid` at `now`, as
    /// [`SemManagerView::semop`] says.
    pub fn do_semop(
        &mut self,
        semid: SemId,
        sops: &[sembuf_t],
        pid: pid_t,
        tid: pid_t,
        now: time_t,
    ) -> (r: Result<(), Errno>)
        requires
            old(self)@.wf(),
            old(self)@.semop_fits(semid, sops@, pid, tid),
        ensures
            (r, final(self)@) == old(self)@.semop(semid, sops@, pid, tid, now),
            final(self)@.wf(),
    {
        let ghost s0 = self@;
        let nsops: usize = sops.len();
        if nsops == 0 || nsops > SEMOPM {
            return Err(Errno::E2BIG);
        }
        let mut sem_set = match self.sem_sets.remove(&semid) {
            Some(s) => s,
            None => return Err(Errno::EINVAL),
        };
        assert(sem_set@ == s0.sets[semid]);
        sem_set.attach_pid(pid);
        let r = sem_set.do_semop(sops, pid, tid, now);
        self.sem_sets.insert(semid, sem_set);
        proof {
            assert forall|a: SemId, b: SemId|
                #![trigger self@.sets[a], self@.sets[b]]
                self@.sets.contains_key(a) && self@.sets.contains_key(b) && a != b
                    && self@.sets[a].key == self@.sets[b].key implies self@.sets[a].key
                == IPC_PRIVATE by {
            }
        }
        r
    }

    /// `semctl(semid, semnum, cmd, arg)` at `now`, as
    /// [`SemManagerView::semctl`] says.
    pub fn do_semctl(
        &mut self,
        semid: SemId,
        semnum: usize,
        cmd: CmdId,
        arg: usize,
        now: time_t,
    ) -> (r: Result<SemctlReply, Errno>)
        requires
            old(self)@.wf(),
        ensures
            (r, final(self)@) == old(self)@.semctl(semid, semnum, cmd, arg, now),
            final(self)@.wf(),
    {
        let ghost s0 = self@;
        if !self.sem_sets.contains_key(&semid) {
            return Err(Errno::EINVAL);
        }
        assert(s0.sets.contains_key(semid));
        if cmd == IPC_RMID {
            let _ = self.free_ipcid(&semid);
            self.sem_sets.remove(&semid);
            proof {
                assert forall|a: SemId, b: SemId|
                    #![trigger self@.sets[a], self@.sets[b]]
                    self@.sets.contains_key(a) && self@.sets.contains_key(b) && a != b
                        && self@.sets[a].key == self@.sets[b].key implies self@.sets[a].key
                    == IPC_PRIVATE by {
                    assert(s0.sets[a] == self@.sets[a]);
                    assert(s0.sets[b] == self@.sets[b]);
                }
            }
            return Ok(SemctlReply::Value(0));
        }
        if cmd == SETVAL {
            let value: i32 = #[verifier::truncate] (arg as i32);
            let mut sem_set = match self.sem_sets.remove(&semid) {
                Some(s) => s,
                None => return Err(Errno::EINVAL),
            };
            let r = sem_set.setval(semnum, value, now);
            self.sem_sets.insert(semid, sem_set);
            proof {
                assert forall|a: SemId, b: SemId|
                    #![trigger self@.sets[a], self@.sets[b]]
                    self@.sets.contains_key(a) && self@.sets.contains_key(b) && a != b
                        && self@.sets[a].key == self@.sets[b].key implies self@.sets[a].key
                    == IPC_PRIVATE by {
                }
            }
            return match r {
                Ok(()) => Ok(SemctlReply::Value(0)),
                Err(e) => Err(e),
            };
        }
        let sem_set = match self.sem_sets.get(&semid) {
            Some(s) => s,
            None => return Err(Errno::EINVAL),
        };
        if cmd == GETVAL {
            match sem_set.getval(semnum) {
                Ok(v) => Ok(SemctlReply::Value(v as usize)),
                Err(e) => Err(e),
            }
        } else if cmd == IPC_STAT {
            if arg == 0 {
                return Err(Errno::EFAULT);
            }
            Ok(SemctlReply::Stat(sem_set.stat()))
        } else if cmd == GETPID {
            if semnum >= sem_set.nsems {
                return Err(Errno::ERANGE);
            }
            Ok(SemctlReply::Value(sem_set.sems[semnum].last_pid as usize))
        } else {
            Err(Errno::EINVAL)
        }
    }
}

impl SemManager {
    /// Detaches the exiting process `pid` from every set.
    pub fn detach_sem_when_process_exit(&mut self, pid: pid_t)
        requires
            old(self)@.wf(),
        ensures
            final(self)@ == old(self)@.detach(pid),
            final(self)@.wf(),
    {
        let ghost s0 = self@;
        let ids = self.set_ids();
        let mut i: usize = 0;
        while i < ids.len()
            invariant
                i <= ids@.len(),
                ids@.to_set() == s0.sets.dom(),
                ids@.no_duplicates(),
                self@.ids == s0.ids,
                self@.sets.dom() == s0.sets.dom(),
                forall|id: SemId| #[trigger]
                    s0.sets.contains_key(id) ==> self@.sets[id] == (if ids@.take(i as int).contains(
                        id,
                    ) {
                        s0.sets[id].detach(pid)
                    } else {
                        s0.sets[id]
                    }),
            decreases ids@.len() - i,
        {
            let id: SemId = ids[i];
            assert(ids@.to_set().contains(id));
            if let Some(mut sem_set) = self.sem_sets.remove(&id) {
                sem_set.detach_pid(&pid);
                self.sem_sets.insert(id, sem_set);
            }
            assert forall|x: SemId| #[trigger]
                s0.sets.contains_key(x) implies self@.sets[x] == (if ids@.take(i + 1).contains(x) {
                s0.sets[x].detach(pid)
            } else {
                s0.sets[x]
            }) by {
                broadcast use vstd::seq_lib::group_seq_properties;

            }
            i += 1;
        }
        assert(ids@.take(ids@.len() as int) =~= ids@);
        assert forall|id: SemId| s0.sets.contains_key(id) implies ids@.contains(id) by {
        }
    }

    /// Removes every set and frees its identifier.
    pub fn clean_when_libos_exit(&mut self)
        requires
            old(self)@.wf(),
        ensures
            final(self)@ == old(self)@.clean(),
            final(self)@.wf(),
    {
        let ghost s0 = self@;
        let ids = self.set_ids();
        let mut i: usize = 0;
        while i < ids.len()
            invariant
                i <= ids@.len(),
                s0.wf(),
                ids@.to_set() == s0.sets.dom(),
                ids@.no_duplicates(),
                ids@.len() == s0.sets.dom().len(),
                self@.sets == s0.sets.remove_keys(ids@.take(i as int).to_set()),
                self@.ids.used == s0.ids.used.difference(ids@.take(i as int).to_set()),
                self@.ids.free_num == s0.ids.free_num + i,
                self@.ids.last_alloc_id == s0.ids.last_alloc_id,
                self@.ids.wf(),
            decreases ids@.len() - i,
        {
            let id: SemId = ids[i];
            assert(ids@.take(i + 1).to_set() =~= ids@.take(i as int).to_set().insert(id)) by {
                broadcast use vstd::seq_lib::group_seq_properties;

            }
            assert(s0.sets.contains_key(id));
            let ghost before = self@;
            self.sem_sets.remove(&id);
            assert(self@.sets =~= before.sets.remove(id));
            let _ = self.free_ipcid(&id);
            i += 1;
        }
        assert(ids@.take(ids@.len() as int) =~= ids@);
    }

    /// Whether `semop(semid, sops)` by thread `tid` of process `pid`
    /// overflows nowhere: no operation that is reached is `i16::MIN`, or
    /// raises a value above `i32::MAX`.
    pub fn semop_fits(&self, semid: SemId, sops: &[sembuf_t], pid: pid_t, tid: pid_t) -> (r: bool)
        requires
            self@.wf(),
        ensures
            r == self@.semop_fits(semid, sops@, pid, tid),
    {
        let n: usize = sops.len();
        if n == 0 || n > SEMOPM {
            return true;
        }
        let sem_set = match self.sem_sets.get(&semid) {
            Some(s) => s,
            None => return true,
        };
        let ghost set = self@.sets[semid];
        assert(self@.sets.contains_key(semid));
        let mut i: usize = 0;
        while i < n
            invariant
                i <= n,
                n == sops@.len(),
                sem_set@ == set,
                set.wf(),
                self@.sets.contains_key(semid),
                self@.sets[semid] == set,
                forall|j: int| 0 <= j < i ==> (#[trigger] sops@[j]).sem_num < set.nsems,
            decreases n - i,
        {
            if sops[i].sem_num as usize >= sem_set.nsems {
                return true;
            }
            i += 1;
        }
        let mut values: Vec<i32> = Vec::new();
        let mut waiting: Vec<usize> = Vec::new();
        let mut j: usize = 0;
        while j < sem_set.nsems
            invariant
                j <= set.nsems,
                sem_set@ == set,
                set.wf(),
                values@.len() == j,
                waiting@.len() == j,
                forall|k: int| 0 <= k < j ==> #[trigger] values@[k] == set.sems[k].value,
                forall|k: int| 0 <= k < j ==> #[trigger] waiting@[k] == set.sems[k].waiters.len(),
            decreases set.nsems - j,
        {
            values.push(sem_set.sems[j].value);
            waiting.push(sem_set.sems[j].waiter_queue.waiters.len());
            j += 1;
        }
        let mut i: usize = 0;
        while i < n
            invariant
                i <= n,
                n == sops@.len(),
                1 <= n <= SEMOPM,
                self@.sets.contains_key(semid),
                self@.sets[semid] == set,
                set.wf(),
                set.nums_valid(sops@),
                values@.len() == set.nsems,
                waiting@.len() == set.nsems,
                !run_ops(set.sems, sops@.take(i as int), pid, tid).1,
                run_ops(set.sems, sops@.take(i as int), pid, tid).0.len() == set.nsems,
                forall|k: int|
                    0 <= k < set.nsems ==> #[trigger] values@[k] == run_ops(
                        set.sems,
                        sops@.take(i as int),
                        pid,
                        tid,
                    ).0[k].value,
                forall|k: int|
                    0 <= k < set.nsems ==> #[trigger] waiting@[k] == run_ops(
                        set.sems,
                        sops@.take(i as int),
                        pid,
                        tid,
                    ).0[k].waiters.len(),
                forall|m: int|
                    0 <= m < i && !(#[trigger] run_ops(set.sems, sops@.take(m), pid, tid)).1
                        ==> run_ops(set.sems, sops@.take(m), pid, tid).0[sops@[m].sem_num as int].op_fits(
                        sops@[m].sem_op,
                    ),
            decreases n - i,
        {
            proof {
                assert(sops@.take(i + 1).drop_last() =~= sops@.take(i as int));
            }
            let k: usize = sops[i].sem_num as usize;
            let op: i16 = sops[i].sem_op;
            let v: i32 = values[k];
            let c: usize = waiting[k];
            if op == i16::MIN {
                return false;
            }
            if op > 0 {
                if v as i64 + op as i64 > i32::MAX as i64 {
                    return false;
                }
                let raised: i32 = v + op as i32;
                let woken: usize = if raised <= 0 {
                    0
                } else if (raised as usize) < c {
                    raised as usize
                } else {
                    c
                };
                values.set(k, raised - woken as i32);
                waiting.set(k, c - woken);
            } else if op == 0 {
                if v != 0 {
                    proof {
                        assert forall|m: int|
                            0 <= m < n && !(#[trigger] run_ops(set.sems, sops@.take(m), pid, tid)).1
                                implies run_ops(set.sems, sops@.take(m), pid, tid).0[sops@[m].sem_num as int].op_fits(
                            sops@[m].sem_op,
                        ) by {
                            if m > i {
                                lemma_blocked_stays(set.sems, sops@, pid, tid, i + 1, m);
                            }
                        }
                    }
                    return true;
                }
            } else {
                if v < -op as i32 {
                    proof {
                        assert forall|m: int|
                            0 <= m < n && !(#[trigger] run_ops(set.sems, sops@.take(m), pid, tid)).1
                                implies run_ops(set.sems, sops@.take(m), pid, tid).0[sops@[m].sem_num as int].op_fits(
                            sops@[m].sem_op,
                        ) by {
                            if m > i {
                                lemma_blocked_stays(set.sems, sops@, pid, tid, i + 1, m);
                            }
                        }
                    }
                    return true;
                }
                values.set(k, v + op as i32);
            }
            i += 1;
        }
        true
    }
}

impl WaiterQueue {
    /// How many threads wait.
    pub fn len(&self) -> (r: usize)
        ensures
            r == self@.len(),
    {
        self.waiters.len()
    }
}

impl Semaphore {
    /// The value of the semaphore.
    pub fn value(&self) -> (r: i32)
        ensures
            r == self@.value,
    {
        self.value
    }

    /// The process that last operated on the semaphore.
    pub fn last_pid(&self) -> (r: pid_t)
        ensures
            r == self@.last_pid,
    {
        self.last_pid
    }

    /// How many threads wait on the semaphore.
    pub fn num_waiters(&self) -> (r: usize)
        ensures
            r == self@.waiters.len(),
    {
        self.waiter_queue.len()
    }
}

impl SemSet {
    /// The identifier of the set.
    pub fn semid(&self) -> (r: SemId)
        ensures
            r == self@.semid,
    {
        self.semid
    }

    /// The key of the set.
    pub fn key(&self) -> (r: key_t)
        ensures
            r == self@.key,
    {
        self.key
    }

    /// The number of semaphores in the set.
    pub fn nsems(&self) -> (r: usize)
        ensures
            r == self@.nsems,
    {
        self.nsems
    }

    /// Whether process `pid` is attached to the set.
    pub fn is_attached(&self, pid: pid_t) -> (r: bool)
        ensures
            r == self@.attached_pids.contains(pid),
    {
        self.attached_pids.contains(&pid)
    }

    /// The time of the last successful `semop`.
    pub fn otime(&self) -> (r: time_t)
        ensures
            r == self@.sem_otime,
    {
        self.sem_otime
    }

    /// How many threads wait on semaphore `sem_num`, or `None` if the set has
    /// no such semaphore.
    pub fn num_waiters(&self, sem_num: usize) -> (r: Option<usize>)
        requires
            self@.wf(),
        ensures
            sem_num >= self@.nsems ==> r is None,
            sem_num < self@.nsems ==> r == Some(self@.sems[sem_num as int].waiters.len() as usize),
    {
        if sem_num >= self.nsems {
            return None;
        }
        Some(self.sems[sem_num].num_waiters())
    }
}

impl SemManager {
    /// The set with identifier `semid`, if there is one.
    pub fn get_set(&self, semid: SemId) -> (r: Option<&SemSet>)
        ensures
            r is None <==> !self@.sets.contains_key(semid),
            r matches Some(s) ==> s@ == self@.sets[semid],
    {
        self.sem_sets.get(&semid)
    }

    /// How many sets there are.
    pub fn num_sets(&self) -> (r: usize)
        ensures
            r == self@.sets.len(),
    {
        assert(self@.sets.dom() =~= self.sem_sets@.dom());
        self.sem_sets.len()
    }
}

} // verus!
