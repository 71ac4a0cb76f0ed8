use sysv_sem::errno::Errno;
use sysv_sem::ipc_util::{GETVAL, IPC_PRIVATE, IPC_RMID, IPC_STAT, SETVAL};
use sysv_sem::sem::{sembuf_t, SemManager};
use sysv_sem::syscalls::{do_semctl, do_semget, do_semop};

fn op(sem_num: u16, sem_op: i16) -> sembuf_t {
    sembuf_t { sem_num, sem_op, sem_flg: 0 }
}

#[test]
fn semget_rejects_unknown_flag_bits() {
    let mut m = SemManager::new();
    // Permission bits are not flags of semget here.
    assert_eq!(do_semget(&mut m, 42, 1, 0o1666, 1, 0, 0, 0), Err(Errno::EINVAL));
    assert_eq!(m.num_sets(), 0);
    assert_eq!(do_semget(&mut m, 42, 1, 0o1000, 1, 0, 0, 0), Ok(0));
    assert_eq!(do_semget(&mut m, 42, 1, 0o3000, 1, 0, 0, 0), Err(Errno::EEXIST));
}

#[test]
fn semget_negative_nsems_is_einval() {
    let mut m = SemManager::new();
    assert_eq!(do_semget(&mut m, 42, -1, 0o1000, 1, 0, 0, 0), Err(Errno::EINVAL));
    assert_eq!(do_semget(&mut m, IPC_PRIVATE, -1, 0, 1, 0, 0, 0), Err(Errno::EINVAL));
    assert_eq!(do_semget(&mut m, 42, 2, 0o1000, 1, 0, 0, 0), Ok(1));
    assert_eq!(do_semget(&mut m, 42, -1, 0, 1, 0, 0, 0), Err(Errno::EINVAL));
}

#[test]
fn semop_without_operations_answers_zero() {
    let mut m = SemManager::new();
    assert_eq!(do_semop(&mut m, 5, &[], 1, 1, 0), Ok(0));
}

#[test]
fn semop_answers_zero_or_the_error() {
    let mut m = SemManager::new();
    let id = do_semget(&mut m, IPC_PRIVATE, 1, 0, 1, 0, 0, 0).unwrap() as i32;
    assert_eq!(do_semop(&mut m, id, &[op(0, 2)], 1, 1, 0), Ok(0));
    assert_eq!(do_semop(&mut m, id, &[op(0, -3)], 1, 1, 0), Err(Errno::EAGAIN));
    assert_eq!(do_semop(&mut m, id + 1, &[op(0, 1)], 1, 1, 0), Err(Errno::EINVAL));
}

#[test]
fn semctl_answers_zero_and_hands_out_stat() {
    let mut m = SemManager::new();
    let id = do_semget(&mut m, 42, 4, 0o1000, 1, 10, 20, 30).unwrap() as i32;
    assert_eq!(do_semctl(&mut m, id, 0, SETVAL as i32, 6, 31), Ok(None));
    // GETVAL's value does not reach the caller of the system call.
    assert_eq!(do_semctl(&mut m, id, 0, GETVAL as i32, 0, 32), Ok(None));
    let st = do_semctl(&mut m, id, 0, IPC_STAT as i32, 0x1000, 33).unwrap().unwrap();
    assert_eq!(st.sem_nsems, 4);
    assert_eq!(st.sem_perm.key, 42);
    assert_eq!(st.sem_ctime, 31);
    assert_eq!(do_semctl(&mut m, id, -1, GETVAL as i32, 0, 32), Err(Errno::ERANGE));
    assert_eq!(do_semctl(&mut m, id, 0, IPC_RMID as i32, 0, 34), Ok(None));
    assert_eq!(do_semctl(&mut m, id, 0, GETVAL as i32, 0, 35), Err(Errno::EINVAL));
}
