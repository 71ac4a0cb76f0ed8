use vstd::prelude::*;

use crate::errno::Errno;
use crate::ipc_util::{gid_t, key_t, pid_t, time_t, uid_t, CmdId};
use crate::sem::{
    sem_flag_bits_known, sembuf_t, semids_t, SemFlags, SemId, SemManager, SemctlReply,
};

verus! {

/// The `semget` system call: `semflg` must hold only `IPC_CREAT` and
/// `IPC_EXCL` (else `EINVAL`); then [`SemManager::do_semget`] with
/// `nsems` taken as an unsigned size. Answers the set's identifier.
pub fn do_semget(
    manager: &mut SemManager,
    key: key_t,
    nsems: i32,
    semflg: i32,
    pid: pid_t,
    uid: uid_t,
    gid: gid_t,
    now: time_t,
) -> (r: Result<isize, Errno>)
    requires
        old(manager)@.wf(),
    ensures
        final(manager)@.wf(),
        !sem_flag_bits_known(semflg as u32) ==> r == Err::<isize, Errno>(Errno::EINVAL)
            && final(manager)@ == old(manager)@,
        sem_flag_bits_known(semflg as u32) ==> {
            let (res, post) = old(manager)@.semget(
                key,
                nsems as usize,
                semflg as u32,
                pid,
                uid,
                gid,
                now,
            );
            &&& final(manager)@ == post
            &&& match res {
                Ok(id) => r == Ok::<isize, Errno>(id as isize),
                Err(e) => r == Err::<isize, Errno>(e),
            }
        },
{
    let flags = match SemFlags::from_bits(semflg as u32) {
        Some(f) => f,
        None => return Err(Errno::EINVAL),
    };
    match manager.do_semget(key, nsems as usize, flags, pid, uid, gid, now) {
        Ok(semid) => Ok(semid as isize),
        Err(e) => Err(e),
    }
}

/// The `semctl` system call: [`SemManager::do_semctl`] with the numbers
/// taken as unsigned. On success the call answers 0; `Some(stat)` is the
/// record that `IPC_STAT` asks to be copied to the caller's buffer `arg`.
pub fn do_semctl(
    manager: &mut SemManager,
    semid: i32,
    semnum: i32,
    cmd: i32,
    arg: usize,
    now: time_t,
) -> (r: Result<Option<semids_t>, Errno>)
    requires
        old(manager)@.wf(),
    ensures
        final(manager)@.wf(),
        ({
            let (res, post) = old(manager)@.semctl(
                semid as SemId,
                semnum as usize,
                cmd as CmdId,
                arg,
                now,
            );
            &&& final(manager)@ == post
            &&& match res {
                Ok(SemctlReply::Value(_)) => r == Ok::<Option<semids_t>, Errno>(None),
                Ok(SemctlReply::Stat(s)) => r == Ok::<Option<semids_t>, Errno>(Some(s)),
                Err(e) => r == Err::<Option<semids_t>, Errno>(e),
            }
        }),
{
    match manager.do_semctl(semid as SemId, semnum as usize, cmd as CmdId, arg, now) {
        Ok(SemctlReply::Value(_)) => Ok(None),
        Ok(SemctlReply::Stat(s)) => Ok(Some(s)),
        Err(e) => Err(e),
    }
}

/// The `semop` system call by thread `tid` of process `pid`: no operation
/// answers 0 at once; else [`SemManager::do_semop`], answering 0 on
/// success.
pub fn do_semop(
    manager: &mut SemManager,
    semid: i32,
    sops: &[sembuf_t],
    pid: pid_t,
    tid: pid_t,
    now: time_t,
) -> (r: Result<isize, Errno>)
    requires
        old(manager)@.wf(),
        old(manager)@.semop_fits(semid as SemId, sops@, pid, tid),
    ensures
        final(manager)@.wf(),
        sops@.len() == 0 ==> r == Ok::<isize, Errno>(0) && final(manager)@ == old(manager)@,
        sops@.len() > 0 ==> {
            let (res, post) = old(manager)@.semop(semid as SemId, sops@, pid, tid, now);
            &&& final(manager)@ == post
            &&& match res {
                Ok(_) => r == Ok::<isize, Errno>(0),
                Err(e) => r == Err::<isize, Errno>(e),
            }
        },
{
    if sops.len() == 0 {
        return Ok(0);
    }
    match manager.do_semop(semid as SemId, sops, pid, tid, now) {
        Ok(()) => Ok(0),
        Err(e) => Err(e),
    }
}

} // verus!
