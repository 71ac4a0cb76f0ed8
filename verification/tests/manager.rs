use sysv_sem::errno::Errno;
use sysv_sem::ipc_util::{
    GETALL, GETPID, GETVAL, IPC_INFO, IPC_PRIVATE, IPC_RMID, IPC_SET, IPC_STAT, SETVAL, SHMMNI,
};
use sysv_sem::sem::{sembuf_t, SemFlags, SemManager, SemctlReply, SEMMSL, SEMOPM};

fn op(sem_num: u16, sem_op: i16) -> sembuf_t {
    sembuf_t { sem_num, sem_op, sem_flg: 0 }
}

fn creat() -> SemFlags {
    SemFlags::ipc_creat()
}

fn creat_excl() -> SemFlags {
    SemFlags::ipc_creat().union(SemFlags::ipc_excl())
}

#[test]
fn private_semget_creates_a_new_set_each_time() {
    let mut m = SemManager::new();
    assert_eq!(m.do_semget(IPC_PRIVATE, 2, SemFlags::empty(), 1, 100, 200, 10), Ok(0));
    assert_eq!(m.do_semget(IPC_PRIVATE, 2, SemFlags::empty(), 1, 100, 200, 10), Ok(1));
    assert_eq!(m.num_sets(), 2);
    let set = m.get_set(0).unwrap();
    assert_eq!(set.nsems(), 2);
    assert_eq!(set.key(), IPC_PRIVATE);
}

#[test]
fn private_semget_with_bad_size_leaks_the_id() {
    let mut m = SemManager::new();
    assert_eq!(m.do_semget(IPC_PRIVATE, 0, SemFlags::empty(), 1, 0, 0, 0), Err(Errno::EINVAL));
    assert_eq!(m.num_sets(), 0);
    // The identifier 0 stays taken.
    assert_eq!(m.do_semget(IPC_PRIVATE, 1, SemFlags::empty(), 1, 0, 0, 0), Ok(1));
}

#[test]
fn keyed_semget_without_creat_is_enoent() {
    let mut m = SemManager::new();
    assert_eq!(m.do_semget(42, 1, SemFlags::empty(), 1, 0, 0, 0), Err(Errno::ENOENT));
}

#[test]
fn keyed_semget_create_then_lookup() {
    let mut m = SemManager::new();
    assert_eq!(m.do_semget(42, 3, creat(), 1, 0, 0, 0), Ok(0));
    assert_eq!(m.do_semget(42, 0, SemFlags::empty(), 2, 0, 0, 5), Ok(0));
    assert_eq!(m.do_semget(42, 3, creat(), 2, 0, 0, 5), Ok(0));
    assert_eq!(m.num_sets(), 1);
}

#[test]
fn keyed_semget_excl_is_eexist() {
    let mut m = SemManager::new();
    assert_eq!(m.do_semget(42, 3, creat_excl(), 1, 0, 0, 0), Ok(0));
    assert_eq!(m.do_semget(42, 3, creat_excl(), 1, 0, 0, 0), Err(Errno::EEXIST));
}

#[test]
fn keyed_semget_size_mismatch_is_einval() {
    let mut m = SemManager::new();
    assert_eq!(m.do_semget(42, 3, creat(), 1, 0, 0, 0), Ok(0));
    assert_eq!(m.do_semget(42, 4, creat(), 1, 0, 0, 0), Err(Errno::EINVAL));
}

#[test]
fn keyed_semget_create_with_bad_size_is_einval_and_takes_no_id() {
    let mut m = SemManager::new();
    assert_eq!(m.do_semget(42, 0, creat(), 1, 0, 0, 0), Err(Errno::EINVAL));
    assert_eq!(m.do_semget(42, SEMMSL + 1, creat(), 1, 0, 0, 0), Err(Errno::EINVAL));
    assert_eq!(m.do_semget(43, 1, creat(), 1, 0, 0, 0), Ok(0));
}

#[test]
fn semget_without_ids_is_enospc() {
    let mut m = SemManager::new();
    for i in 0..SHMMNI {
        assert_eq!(m.do_semget(IPC_PRIVATE, 1, SemFlags::empty(), 1, 0, 0, 0), Ok(i));
    }
    assert_eq!(m.do_semget(IPC_PRIVATE, 1, SemFlags::empty(), 1, 0, 0, 0), Err(Errno::ENOSPC));
    assert_eq!(m.do_semget(7, 1, creat(), 1, 0, 0, 0), Err(Errno::ENOSPC));
    assert_eq!(m.do_semctl(5, 0, IPC_RMID, 0, 0), Ok(SemctlReply::Value(0)));
    assert_eq!(m.do_semget(7, 1, creat(), 1, 0, 0, 0), Ok(5));
}

#[test]
fn semop_size_checks() {
    let mut m = SemManager::new();
    let id = m.do_semget(IPC_PRIVATE, 1, SemFlags::empty(), 1, 0, 0, 0).unwrap();
    assert_eq!(m.do_semop(id, &[], 1, 1, 0), Err(Errno::E2BIG));
    let many = vec![op(0, 1); SEMOPM + 1];
    assert_eq!(m.do_semop(id, &many, 1, 1, 0), Err(Errno::E2BIG));
    let most = vec![op(0, 1); SEMOPM];
    assert_eq!(m.do_semop(id, &most, 1, 1, 0), Ok(()));
    assert_eq!(m.do_semctl(id, 0, GETVAL, 0, 0), Ok(SemctlReply::Value(SEMOPM)));
}

#[test]
fn semop_unknown_set_is_einval() {
    let mut m = SemManager::new();
    assert_eq!(m.do_semop(3, &[op(0, 1)], 1, 1, 0), Err(Errno::EINVAL));
}

#[test]
fn semop_attaches_the_process_even_when_it_fails() {
    let mut m = SemManager::new();
    let id = m.do_semget(IPC_PRIVATE, 1, SemFlags::empty(), 1, 0, 0, 0).unwrap();
    assert_eq!(m.do_semop(id, &[op(1, 1)], 55, 55, 0), Err(Errno::EFBIG));
    assert!(m.get_set(id).unwrap().is_attached(55));
    assert_eq!(m.do_semop(id, &[op(0, -1)], 56, 56, 0), Err(Errno::EAGAIN));
    assert!(m.get_set(id).unwrap().is_attached(56));
}

#[test]
fn semop_records_pid_and_time() {
    let mut m = SemManager::new();
    let id = m.do_semget(IPC_PRIVATE, 2, SemFlags::empty(), 1, 0, 0, 0).unwrap();
    assert_eq!(m.do_semop(id, &[op(1, 2)], 77, 78, 1234), Ok(()));
    assert_eq!(m.do_semctl(id, 1, GETPID, 0, 0), Ok(SemctlReply::Value(77)));
    assert_eq!(m.do_semctl(id, 0, GETPID, 0, 0), Ok(SemctlReply::Value(1)));
    match m.do_semctl(id, 0, IPC_STAT, 0x1000, 0) {
        Ok(SemctlReply::Stat(st)) => assert_eq!(st.sem_otime, 1234),
        other => panic!("unexpected {:?}", other),
    }
}

#[test]
fn semctl_unknown_set_is_einval() {
    let mut m = SemManager::new();
    assert_eq!(m.do_semctl(9, 0, GETVAL, 0, 0), Err(Errno::EINVAL));
    assert_eq!(m.do_semctl(9, 0, IPC_RMID, 0, 0), Err(Errno::EINVAL));
}

#[test]
fn semctl_setval_getval() {
    let mut m = SemManager::new();
    let id = m.do_semget(IPC_PRIVATE, 2, SemFlags::empty(), 1, 0, 0, 0).unwrap();
    assert_eq!(m.do_semctl(id, 1, SETVAL, 9, 300), Ok(SemctlReply::Value(0)));
    assert_eq!(m.do_semctl(id, 1, GETVAL, 0, 0), Ok(SemctlReply::Value(9)));
    assert_eq!(m.do_semctl(id, 2, SETVAL, 9, 300), Err(Errno::ERANGE));
    assert_eq!(m.do_semctl(id, 2, GETVAL, 0, 0), Err(Errno::ERANGE));
    assert_eq!(m.do_semctl(id, 2, GETPID, 0, 0), Err(Errno::ERANGE));
    // A value above i32::MAX wraps to a negative one.
    assert_eq!(m.do_semctl(id, 0, SETVAL, 0x8000_0000, 300), Err(Errno::EINVAL));
    // Only the low 32 bits count.
    assert_eq!(m.do_semctl(id, 0, SETVAL, 0x1_0000_0005, 300), Ok(SemctlReply::Value(0)));
    assert_eq!(m.do_semctl(id, 0, GETVAL, 0, 0), Ok(SemctlReply::Value(5)));
    match m.do_semctl(id, 0, IPC_STAT, 1, 0) {
        Ok(SemctlReply::Stat(st)) => assert_eq!(st.sem_ctime, 300),
        other => panic!("unexpected {:?}", other),
    }
}

#[test]
fn semctl_ipc_stat() {
    let mut m = SemManager::new();
    let id = m.do_semget(42, 3, creat(), 1, 1000, 2000, 77).unwrap();
    assert_eq!(m.do_semctl(id, 0, IPC_STAT, 0, 0), Err(Errno::EFAULT));
    match m.do_semctl(id, 0, IPC_STAT, 0x1000, 0) {
        Ok(SemctlReply::Stat(st)) => {
            assert_eq!(st.sem_perm.key, 42);
            assert_eq!(st.sem_perm.uid, 1000);
            assert_eq!(st.sem_perm.gid, 2000);
            assert_eq!(st.sem_perm.cuid, 1000);
            assert_eq!(st.sem_perm.cgid, 2000);
            assert_eq!(st.sem_perm.mode, 0o666);
            assert_eq!(st.sem_perm.seq, 0);
            assert_eq!(st.sem_otime, 0);
            assert_eq!(st.sem_ctime, 77);
            assert_eq!(st.sem_nsems, 3);
        }
        other => panic!("unexpected {:?}", other),
    }
}

#[test]
fn semctl_unsupported_commands_are_einval() {
    let mut m = SemManager::new();
    let id = m.do_semget(IPC_PRIVATE, 1, SemFlags::empty(), 1, 0, 0, 0).unwrap();
    for cmd in [IPC_SET, IPC_INFO, GETALL, 99] {
        assert_eq!(m.do_semctl(id, 0, cmd, 0, 0), Err(Errno::EINVAL));
    }
}

#[test]
fn semctl_rmid_removes_and_frees() {
    let mut m = SemManager::new();
    let id = m.do_semget(42, 1, creat(), 1, 0, 0, 0).unwrap();
    assert_eq!(m.do_semctl(id, 0, IPC_RMID, 0, 0), Ok(SemctlReply::Value(0)));
    assert!(m.get_set(id).is_none());
    assert_eq!(m.do_semctl(id, 0, GETVAL, 0, 0), Err(Errno::EINVAL));
    assert_eq!(m.do_semop(id, &[op(0, 1)], 1, 1, 0), Err(Errno::EINVAL));
    assert_eq!(m.do_semget(42, 1, SemFlags::empty(), 1, 0, 0, 0), Err(Errno::ENOENT));
}

#[test]
fn detach_removes_the_process_from_every_set() {
    let mut m = SemManager::new();
    let a = m.do_semget(IPC_PRIVATE, 1, SemFlags::empty(), 1, 0, 0, 0).unwrap();
    let b = m.do_semget(IPC_PRIVATE, 1, SemFlags::empty(), 1, 0, 0, 0).unwrap();
    assert_eq!(m.do_semop(a, &[op(0, 1)], 9, 9, 0), Ok(()));
    assert_eq!(m.do_semop(b, &[op(0, 1)], 9, 9, 0), Ok(()));
    assert_eq!(m.do_semop(b, &[op(0, 1)], 8, 8, 0), Ok(()));
    m.detach_sem_when_process_exit(9);
    assert!(!m.get_set(a).unwrap().is_attached(9));
    assert!(!m.get_set(b).unwrap().is_attached(9));
    assert!(m.get_set(b).unwrap().is_attached(8));
    assert_eq!(m.do_semctl(b, 0, GETVAL, 0, 0), Ok(SemctlReply::Value(2)));
}

#[test]
fn clean_removes_every_set_and_frees_every_id() {
    let mut m = SemManager::new();
    for _ in 0..SHMMNI {
        m.do_semget(IPC_PRIVATE, 1, SemFlags::empty(), 1, 0, 0, 0).unwrap();
    }
    m.clean_when_libos_exit();
    assert_eq!(m.num_sets(), 0);
    // Every identifier is free again; the search goes on after the last one.
    assert_eq!(m.do_semget(IPC_PRIVATE, 1, SemFlags::empty(), 1, 0, 0, 0), Ok(0));
    let mut n = 1;
    while m.do_semget(IPC_PRIVATE, 1, SemFlags::empty(), 1, 0, 0, 0).is_ok() {
        n += 1;
    }
    assert_eq!(n, SHMMNI);
}

#[test]
fn manager_id_allocation_and_release() {
    let mut m = SemManager::new();
    assert_eq!(m.get_new_ipcid(), Ok(0));
    assert_eq!(m.free_ipcid(&0), Ok(()));
    assert_eq!(m.get_new_ipcid(), Ok(1));
}

#[test]
fn semop_fits_detects_overflow() {
    let mut m = SemManager::new();
    let id = m.do_semget(IPC_PRIVATE, 2, SemFlags::empty(), 1, 0, 0, 0).unwrap();
    assert!(m.semop_fits(id, &[op(0, 1)], 1, 1));
    assert!(!m.semop_fits(id, &[op(0, i16::MIN)], 1, 1));
    assert_eq!(m.do_semctl(id, 0, SETVAL, i32::MAX as usize, 0), Ok(SemctlReply::Value(0)));
    assert!(!m.semop_fits(id, &[op(0, 1)], 1, 1));
    // Lowering first makes room.
    assert!(m.semop_fits(id, &[op(0, -1), op(0, 1)], 1, 1));
    // An operation that waits stops the call: what follows cannot overflow.
    assert!(m.semop_fits(id, &[op(1, -1), op(0, 1)], 1, 1));
    // Invalid numbers or sizes are answered with an error, not an overflow.
    assert!(m.semop_fits(id, &[op(0, 1), op(5, 1)], 1, 1));
    assert!(m.semop_fits(id, &[], 1, 1));
    assert!(m.semop_fits(77, &[op(0, 1)], 1, 1));
}
