use sysv_sem::errno::Errno;
use sysv_sem::ipc_util::{IpcIdManager, SHMMNI};

#[test]
fn ids_start_at_zero_and_count_up() {
    let mut m = IpcIdManager::new();
    assert_eq!(m.get_new_ipcid(), Ok(0));
    assert_eq!(m.get_new_ipcid(), Ok(1));
    assert_eq!(m.get_new_ipcid(), Ok(2));
}

#[test]
fn freed_id_is_not_reused_before_wrapping() {
    let mut m = IpcIdManager::new();
    assert_eq!(m.get_new_ipcid(), Ok(0));
    assert_eq!(m.get_new_ipcid(), Ok(1));
    assert_eq!(m.free_ipcid(&0), Ok(()));
    assert_eq!(m.get_new_ipcid(), Ok(2));
}

#[test]
fn all_ids_taken_gives_enospc() {
    let mut m = IpcIdManager::new();
    for i in 0..SHMMNI {
        assert_eq!(m.get_new_ipcid(), Ok(i));
    }
    assert_eq!(m.get_new_ipcid(), Err(Errno::ENOSPC));
    assert_eq!(m.get_new_ipcid(), Err(Errno::ENOSPC));
}

#[test]
fn search_wraps_around_to_freed_id() {
    let mut m = IpcIdManager::new();
    for i in 0..SHMMNI {
        assert_eq!(m.get_new_ipcid(), Ok(i));
    }
    assert_eq!(m.free_ipcid(&7), Ok(()));
    assert_eq!(m.free_ipcid(&3), Ok(()));
    // The search starts after the last id handed out (SHMMNI - 1), wraps to
    // 0, and finds 3 first.
    assert_eq!(m.get_new_ipcid(), Ok(3));
    assert_eq!(m.get_new_ipcid(), Ok(7));
    assert_eq!(m.get_new_ipcid(), Err(Errno::ENOSPC));
}

#[test]
fn release_then_allocate_restores_count() {
    let mut m = IpcIdManager::new();
    let id = m.get_new_ipcid().unwrap();
    assert_eq!(m.free_ipcid(&id), Ok(()));
    // Every id is free again: SHMMNI more can be taken.
    let mut taken = 0;
    while m.get_new_ipcid().is_ok() {
        taken += 1;
    }
    assert_eq!(taken, SHMMNI);
}

#[test]
fn errno_codes() {
    assert_eq!(Errno::EAGAIN.code(), 11);
    assert_eq!(Errno::EFAULT.code(), 14);
    assert_eq!(Errno::EEXIST.code(), 17);
    assert_eq!(Errno::EINVAL.code(), 22);
    assert_eq!(Errno::ENOENT.code(), 2);
    assert_eq!(Errno::ENOSPC.code(), 28);
    assert_eq!(Errno::E2BIG.code(), 7);
    assert_eq!(Errno::EFBIG.code(), 27);
    assert_eq!(Errno::ERANGE.code(), 34);
}
