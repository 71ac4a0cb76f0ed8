use sysv_sem::errno::Errno;
use sysv_sem::ipc_util::{IpcIdManager, GETPID, GETVAL, IPC_PRIVATE, IPC_RMID, IPC_STAT, SETVAL};
use sysv_sem::sem::{sembuf_t, SemFlags, SemManager, SemSet, SemctlReply};

fn op(sem_num: u16, sem_op: i16) -> sembuf_t {
    sembuf_t { sem_num, sem_op, sem_flg: 0 }
}

#[test]
fn law_release_undoes_allocate() {
    let mut m = IpcIdManager::new();
    assert_eq!(m.get_new_ipcid(), Ok(0));
    let id = m.get_new_ipcid().unwrap();
    assert_eq!(id, 1);
    assert_eq!(m.free_ipcid(&id), Ok(()));
    // As many ids are free as before the allocation: 4095.
    let mut n = 0;
    while m.get_new_ipcid().is_ok() {
        n += 1;
    }
    assert_eq!(n, 4095);
}

#[test]
fn law_semget_then_lookup() {
    let mut m = SemManager::new();
    let id = m.do_semget(9, 2, SemFlags::ipc_creat(), 1, 0, 0, 0).unwrap();
    assert_eq!(m.do_semget(9, 0, SemFlags::empty(), 3, 4, 5, 6), Ok(id));
    assert_eq!(m.do_semget(9, 2, SemFlags::ipc_creat(), 3, 4, 5, 6), Ok(id));
    assert_eq!(m.num_sets(), 1);
}

#[test]
fn law_private_semget_creates() {
    let mut m = SemManager::new();
    let a = m.do_semget(IPC_PRIVATE, 1, SemFlags::empty(), 1, 0, 0, 0).unwrap();
    let b = m.do_semget(IPC_PRIVATE, 1, SemFlags::ipc_creat(), 1, 0, 0, 0).unwrap();
    assert_ne!(a, b);
    assert_eq!(m.num_sets(), 2);
}

#[test]
fn law_getval_after_setval() {
    let mut m = SemManager::new();
    let id = m.do_semget(IPC_PRIVATE, 1, SemFlags::empty(), 1, 0, 0, 0).unwrap();
    assert_eq!(m.do_semctl(id, 0, SETVAL, 12, 0), Ok(SemctlReply::Value(0)));
    assert_eq!(m.do_semctl(id, 0, GETVAL, 0, 0), Ok(SemctlReply::Value(12)));
    // With two waiters, setting 12 wakes both and leaves 10.
    assert_eq!(m.do_semop(id, &[op(0, -13)], 2, 2, 0), Err(Errno::EAGAIN));
    assert_eq!(m.do_semop(id, &[op(0, -13)], 3, 3, 0), Err(Errno::EAGAIN));
    assert_eq!(m.do_semctl(id, 0, SETVAL, 12, 0), Ok(SemctlReply::Value(0)));
    assert_eq!(m.do_semctl(id, 0, GETVAL, 0, 0), Ok(SemctlReply::Value(10)));
}

#[test]
fn law_removed_set_is_gone() {
    let mut m = SemManager::new();
    let id = m.do_semget(IPC_PRIVATE, 1, SemFlags::empty(), 1, 0, 0, 0).unwrap();
    assert_eq!(m.do_semctl(id, 0, IPC_RMID, 0, 0), Ok(SemctlReply::Value(0)));
    for cmd in [IPC_RMID, SETVAL, GETVAL, IPC_STAT, GETPID] {
        assert_eq!(m.do_semctl(id, 0, cmd, 1, 0), Err(Errno::EINVAL));
    }
    assert_eq!(m.do_semop(id, &[op(0, 1)], 1, 1, 0), Err(Errno::EINVAL));
}

#[test]
fn law_up_then_down() {
    let mut s = SemSet::new(0, 1, 1, 0o666, 1, 0, 0, 0).unwrap();
    assert_eq!(s.setval(0, 5, 0), Ok(()));
    assert_eq!(s.do_semop(&[op(0, 7)], 1, 1, 1), Ok(()));
    assert_eq!(s.do_semop(&[op(0, -7)], 2, 2, 2), Ok(()));
    assert_eq!(s.getval(0), Ok(5));
}

#[test]
fn law_values_never_negative() {
    let mut s = SemSet::new(0, 1, 1, 0o666, 1, 0, 0, 0).unwrap();
    assert_eq!(s.do_semop(&[op(0, -1)], 1, 1, 1), Err(Errno::EAGAIN));
    assert_eq!(s.getval(0), Ok(0));
    assert_eq!(s.setval(0, -4, 0), Err(Errno::EINVAL));
    assert_eq!(s.getval(0), Ok(0));
}
