use std::collections::HashSet;
use vstd::prelude::*;

use crate::errno::Errno;

verus! {

broadcast use vstd::std_specs::hash::group_hash_axioms;

/// Identifier of an IPC object.
pub type IpcId = u32;

/// Key under which an IPC object is looked up.
#[allow(non_camel_case_types)]
pub type key_t = u32;

/// Command number of a `semctl` / `shmctl` call.
pub type CmdId = u32;

/// User id.
#[allow(non_camel_case_types)]
pub type uid_t = u32;

/// Group id.
#[allow(non_camel_case_types)]
pub type gid_t = u32;

/// Process or thread id.
#[allow(non_camel_case_types)]
pub type pid_t = u32;

/// Seconds since the epoch.
#[allow(non_camel_case_types)]
pub type time_t = i64;

/// The key that always asks for a new, unnamed object.
pub const IPC_PRIVATE: key_t = 0;

/// Number of identifiers an [`IpcIdManager`] hands out (`0 .. SHMMNI`).
pub const SHMMNI: IpcId = 4096;

// Commands of `shmctl()` and `semctl()`.
pub const IPC_RMID: CmdId = 0;
pub const IPC_SET: CmdId = 1;
pub const IPC_STAT: CmdId = 2;
pub const IPC_INFO: CmdId = 3;
pub const GETVAL: CmdId = 4;
pub const SETVAL: CmdId = 8;
pub const GETPID: CmdId = 11;
pub const GETNCNT: CmdId = 12;
pub const GETZCNT: CmdId = 13;
pub const GETALL: CmdId = 14;
pub const SETALL: CmdId = 15;

/// Ownership and permissions of an IPC object, in the layout the
/// `IPC_STAT` commands report.
#[allow(non_camel_case_types)]
#[derive(Debug, Clone, Copy, PartialEq, Eq, Structural)]
pub struct ipc_perm_t {
    pub key: key_t,
    pub uid: uid_t,
    pub gid: gid_t,
    pub cuid: uid_t,
    pub cgid: gid_t,
    pub mode: u16,
    pub pad1: u16,
    pub seq: u16,
    pub pad2: u16,
    pub unused1: u64,
    pub unused2: u64,
}

#[verifier::ext_equal]
/// The state of an [`IpcIdManager`]: the identifiers in use, how many are
/// still free, and the last one handed out.
pub struct IpcIdsView {
    pub used: Set<IpcId>,
    pub free_num: u32,
    pub last_alloc_id: IpcId,
}

/// The `k`-th identifier after `start` (`start` itself for `k == 0`),
/// wrapping around at [`SHMMNI`].
pub open spec fn cyclic_id(start: int, k: int) -> int {
    if start + k < SHMMNI {
        start + k
    } else {
        start + k - SHMMNI
    }
}

/// How many steps after `start` the identifier `id` comes, wrapping around
/// at [`SHMMNI`].
pub open spec fn cyclic_distance(start: int, id: int) -> int {
    if id >= start {
        id - start
    } else {
        id + SHMMNI - start
    }
}

/// `id` is the first identifier, going up from `start` and wrapping around,
/// that is not in `used`.
pub open spec fn is_first_free(used: Set<IpcId>, start: IpcId, id: IpcId) -> bool {
    &&& id < SHMMNI
    &&& !used.contains(id)
    &&& forall|k: int|
        0 <= k < cyclic_distance(start as int, id as int) ==> used.contains(
            #[trigger] cyclic_id(start as int, k) as IpcId,
        )
}

/// The first free identifier at or after `start`, wrapping around.
pub open spec fn first_free(used: Set<IpcId>, start: IpcId) -> IpcId {
    choose|id: IpcId| is_first_free(used, start, id)
}

impl IpcIdsView {
    /// The state is consistent: the used identifiers lie below [`SHMMNI`],
    /// and no more identifiers are counted free than are not in use.
    pub open spec fn wf(self) -> bool {
        &&& self.used.finite()
        &&& forall|id: IpcId| #[trigger] self.used.contains(id) ==> id < SHMMNI
        &&& self.last_alloc_id < SHMMNI
        &&& self.free_num + self.used.len() <= SHMMNI
    }

    /// Where the search for the next identifier starts: just after the last
    /// one handed out.
    pub open spec fn next_start(self) -> IpcId {
        if self.last_alloc_id + 1 == SHMMNI {
            0
        } else {
            (self.last_alloc_id + 1) as IpcId
        }
    }

    /// What a request for a new identifier answers, and the state after it.
    pub open spec fn allocate(self) -> (Result<IpcId, Errno>, IpcIdsView) {
        if self.free_num == 0 {
            (Err(Errno::ENOSPC), self)
        } else {
            let id = first_free(self.used, self.next_start());
            (
                Ok(id),
                IpcIdsView {
                    used: self.used.insert(id),
                    free_num: (self.free_num - 1) as u32,
                    last_alloc_id: id,
                },
            )
        }
    }

    /// The state after `id` is given back.
    pub open spec fn release(self, id: IpcId) -> IpcIdsView {
        IpcIdsView {
            used: self.used.remove(id),
            free_num: (self.free_num + 1) as u32,
            last_alloc_id: self.last_alloc_id,
        }
    }

    /// Giving back `id` keeps the count of free identifiers honest: either
    /// `id` is in use, or fewer identifiers are counted free than are not
    /// in use.
    pub open spec fn can_free(self, id: IpcId) -> bool {
        self.used.contains(id) || self.free_num + self.used.len() < SHMMNI
    }
}

/// A set that holds every identifier below `n` has at least `n` elements.
proof fn lemma_prefix_len(s: Set<IpcId>, n: nat)
    requires
        s.finite(),
        n <= SHMMNI,
        forall|i: IpcId| i < n ==> #[trigger] s.contains(i),
    ensures
        s.len() >= n,
    decreases n,
{
    if n > 0 {
        let x = (n - 1) as IpcId;
        lemma_prefix_len(s.remove(x), (n - 1) as nat);
    }
}

/// While an identifier is counted free, some identifier below [`SHMMNI`] is
/// not in use.
proof fn lemma_free_id_exists(v: IpcIdsView)
    requires
        v.wf(),
        v.free_num > 0,
    ensures
        exists|id: IpcId| id < SHMMNI && !v.used.contains(id),
{
    if forall|id: IpcId| id < SHMMNI ==> #[trigger] v.used.contains(id) {
        lemma_prefix_len(v.used, SHMMNI as nat);
    }
}

/// At most one identifier is the first free one from a given start.
proof fn lemma_first_free_unique(used: Set<IpcId>, start: IpcId, a: IpcId, b: IpcId)
    requires
        start < SHMMNI,
        is_first_free(used, start, a),
        is_first_free(used, start, b),
    ensures
        a == b,
{
    let da = cyclic_distance(start as int, a as int);
    let db = cyclic_distance(start as int, b as int);
    if da < db {
        assert(cyclic_id(start as int, da) == a);
    } else if db < da {
        assert(cyclic_id(start as int, db) == b);
    }
}

/// If `w` is free, some identifier is the first free one from `start`.
proof fn lemma_first_free_exists(used: Set<IpcId>, start: IpcId, w: IpcId)
    requires
        start < SHMMNI,
        w < SHMMNI,
        !used.contains(w),
    ensures
        is_first_free(used, start, first_free(used, start)),
    decreases cyclic_distance(start as int, w as int),
{
    if is_first_free(used, start, w) {
    } else {
        let k = choose|k: int|
            0 <= k < cyclic_distance(start as int, w as int) && !used.contains(
                #[trigger] cyclic_id(start as int, k) as IpcId,
            );
        let w2 = cyclic_id(start as int, k) as IpcId;
        lemma_first_free_exists(used, start, w2);
    }
}

/// Taking an identifier keeps the allocator consistent, and the identifier
/// taken is the first free one after the last handed out.
pub proof fn lemma_allocate(v: IpcIdsView)
    requires
        v.wf(),
    ensures
        v.allocate().1.wf(),
        v.allocate().0 matches Ok(id) ==> is_first_free(v.used, v.next_start(), id),
        v.allocate().0 is Err <==> v.free_num == 0,
{
    if v.free_num > 0 {
        lemma_free_id_exists(v);
        let w = choose|id: IpcId| id < SHMMNI && !v.used.contains(id);
        lemma_first_free_exists(v.used, v.next_start(), w);
    }
}

/// Taking an identifier when one is free hands out an identifier below
/// [`SHMMNI`] that was not in use and marks it used, counts one fewer free,
/// and remembers it as the last one; every identifier it skips, going up
/// from just after the last one handed out and wrapping at [`SHMMNI`], is
/// in use.
pub proof fn lemma_allocate_takes_next_free(v: IpcIdsView)
    requires
        v.wf(),
        v.free_num > 0,
    ensures
        ({
            let (r, v1) = v.allocate();
            let id = r->Ok_0;
            &&& r is Ok
            &&& id < SHMMNI
            &&& !v.used.contains(id)
            &&& v1.used == v.used.insert(id)
            &&& v1.free_num == v.free_num - 1
            &&& v1.last_alloc_id == id
            &&& v.last_alloc_id < id ==> forall|x: IpcId|
                v.last_alloc_id < x < id ==> #[trigger] v.used.contains(x)
            &&& id <= v.last_alloc_id ==> forall|x: IpcId|
                (v.last_alloc_id < x < SHMMNI || x < id) ==> #[trigger] v.used.contains(x)
        }),
{
    lemma_allocate(v);
    let id = v.allocate().0->Ok_0;
    let start = v.next_start();
    assert forall|x: IpcId|
        (v.last_alloc_id < id && v.last_alloc_id < x < id) || (id <= v.last_alloc_id && (
        v.last_alloc_id < x < SHMMNI || x < id)) implies #[trigger] v.used.contains(x) by {
        let k = cyclic_distance(start as int, x as int);
        assert(cyclic_id(start as int, k) == x);
    }
}

/// Giving back an identifier just taken restores the identifiers in use
/// and the count of free ones.
pub proof fn lemma_release_undoes_allocate(v: IpcIdsView)
    requires
        v.wf(),
        v.free_num > 0,
    ensures
        v.allocate().0 is Ok,
        v.allocate().1.can_free(v.allocate().0->Ok_0),
        v.allocate().1.release(v.allocate().0->Ok_0).used == v.used,
        v.allocate().1.release(v.allocate().0->Ok_0).free_num == v.free_num,
{
    lemma_allocate(v);
    let id = v.allocate().0->Ok_0;
}

/// Hands out identifiers of IPC objects below [`SHMMNI`], each time the next
/// free one after the last handed out.
#[derive(Debug)]
pub struct IpcIdManager {
    used_id: HashSet<IpcId>,
    free_num: u32,
    last_alloc_id: IpcId,
}

impl View for IpcIdManager {
    type V = IpcIdsView;

    closed spec fn view(&self) -> IpcIdsView {
        IpcIdsView { used: self.used_id@, free_num: self.free_num, last_alloc_id: self.last_alloc_id }
    }
}

impl IpcIdManager {
    /// A manager with every identifier free; the first one handed out is 0.
    pub fn new() -> (r: Self)
        ensures
            r@.wf(),
            r@.used == Set::<IpcId>::empty(),
            r@.free_num == SHMMNI,
            r@.last_alloc_id == SHMMNI - 1,
    {
        let used_id: HashSet<IpcId> = HashSet::new();
        let free_num: u32 = SHMMNI;
        let last_alloc_id: IpcId = SHMMNI - 1;
        IpcIdManager { used_id, free_num, last_alloc_id }
    }

    /// Always returns the next free identifier after the last one handed
    /// out, and marks it used; `ENOSPC` when every identifier is taken.
    pub fn get_new_ipcid(&mut self) -> (r: Result<IpcId, Errno>)
        requires
            old(self)@.wf(),
        ensures
            (r, final(self)@) == old(self)@.allocate(),
            final(self)@.wf(),
            r matches Ok(id) ==> is_first_free(old(self)@.used, old(self)@.next_start(), id),
    {
        if self.free_num == 0 {
            return Err(Errno::ENOSPC);
        }
        let ghost old_view = self@;
        let ghost start = self@.next_start();
        proof {
            lemma_free_id_exists(old_view);
        }
        let ghost w: IpcId = choose|id: IpcId| id < SHMMNI && !old_view.used.contains(id);
        self.free_num -= 1;
        let mut id: IpcId = self.last_alloc_id + 1;
        let ghost mut j: int = 0;
        loop
            invariant
                old_view.wf(),
                self.used_id@ == old_view.used,
                start == old_view.next_start(),
                w < SHMMNI,
                !old_view.used.contains(w),
                id <= SHMMNI,
                (if id == SHMMNI {
                    0
                } else {
                    id as int
                }) == cyclic_id(start as int, j),
                0 <= j <= cyclic_distance(start as int, w as int),
                forall|k: int| 0 <= k < j ==> old_view.used.contains(
                    #[trigger] cyclic_id(start as int, k) as IpcId,
                ),
            ensures
                id < SHMMNI,
                !old_view.used.contains(id),
                id == cyclic_id(start as int, j),
                0 <= j < SHMMNI,
                forall|k: int| 0 <= k < j ==> old_view.used.contains(
                    #[trigger] cyclic_id(start as int, k) as IpcId,
                ),
            decreases cyclic_distance(start as int, w as int) - j,
        {
            if id == SHMMNI {
                id = 0;
            }
            if !self.used_id.contains(&id) {
                break;
            }
            id += 1;
            proof {
                j = j + 1;
            }
        }
        assert(is_first_free(old_view.used, start, id));
        proof {
            lemma_first_free_unique(old_view.used, start, id, first_free(old_view.used, start));
        }
        self.used_id.insert(id);
        self.last_alloc_id = id;
        Ok(id)
    }

    /// Gives `ipcid` back: it is no longer in use and counts as free again.
    pub fn free_ipcid(&mut self, ipcid: &IpcId) -> (r: Result<(), Errno>)
        requires
            old(self)@.wf(),
            old(self)@.can_free(*ipcid),
        ensures
            r is Ok,
            final(self)@ == old(self)@.release(*ipcid),
            final(self)@.wf(),
    {
        self.free_num += 1;
        self.used_id.remove(ipcid);
        Ok(())
    }
}

} // verus!
