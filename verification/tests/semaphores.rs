use sysv_sem::errno::Errno;
use sysv_sem::sem::{sembuf_t, SemFlags, SemSet, Semaphore, WaiterQueue, SEMMSL};

fn op(sem_num: u16, sem_op: i16) -> sembuf_t {
    sembuf_t { sem_num, sem_op, sem_flg: 0 }
}

#[test]
fn flags_from_bits_accepts_only_known_bits() {
    assert_eq!(SemFlags::from_bits(0).map(|f| f.bits()), Some(0));
    assert_eq!(SemFlags::from_bits(0o1000).map(|f| f.bits()), Some(0o1000));
    assert_eq!(SemFlags::from_bits(0o3000).map(|f| f.bits()), Some(0o3000));
    assert!(SemFlags::from_bits(0o1666).is_none());
    assert!(SemFlags::from_bits(0o4000).is_none());
}

#[test]
fn flags_contains() {
    let both = SemFlags::ipc_creat().union(SemFlags::ipc_excl());
    assert!(both.contains(SemFlags::ipc_creat()));
    assert!(both.contains(SemFlags::ipc_excl()));
    assert!(!SemFlags::ipc_creat().contains(SemFlags::ipc_excl()));
    assert!(SemFlags::empty().contains(SemFlags::empty()));
}

#[test]
fn waiter_queue_is_fifo() {
    let mut q = WaiterQueue::new();
    assert!(q.is_empty());
    q.reset_and_enqueue(5);
    q.reset_and_enqueue(9);
    assert_eq!(q.len(), 2);
    assert_eq!(q.dequeue_and_wake_one(), Some(5));
    assert_eq!(q.dequeue_and_wake_one(), Some(9));
    assert_eq!(q.dequeue_and_wake_one(), None);
    assert!(q.is_empty());
}

#[test]
fn semaphore_new() {
    let s = Semaphore::new(3, 42);
    assert_eq!(s.value(), 3);
    assert_eq!(s.last_pid(), 42);
    assert_eq!(s.num_waiters(), 0);
}

#[test]
fn try_wake_takes_one_unit_per_waiter() {
    let mut s = Semaphore::new(2, 1);
    s.wait(10);
    s.wait(11);
    s.wait(12);
    assert_eq!(s.try_wake(), vec![10, 11]);
    assert_eq!(s.value(), 0);
    assert_eq!(s.num_waiters(), 1);
}

#[test]
fn try_wake_stops_when_no_waiter_is_left() {
    let mut s = Semaphore::new(5, 1);
    s.wait(10);
    assert_eq!(s.try_wake(), vec![10]);
    assert_eq!(s.value(), 4);
    assert_eq!(s.num_waiters(), 0);
}

#[test]
fn try_wake_with_zero_or_negative_value_wakes_nobody() {
    let mut s = Semaphore::new(0, 1);
    s.wait(10);
    assert_eq!(s.try_wake(), Vec::<u32>::new());
    let mut n = Semaphore::new(-3, 1);
    n.wait(10);
    assert_eq!(n.try_wake(), Vec::<u32>::new());
    assert_eq!(n.value(), -3);
}

#[test]
fn semset_new_rejects_bad_sizes() {
    assert_eq!(SemSet::new(1, 5, 0, 0o666, 1, 2, 3, 4).err(), Some(Errno::EINVAL));
    assert_eq!(SemSet::new(1, 5, SEMMSL + 1, 0o666, 1, 2, 3, 4).err(), Some(Errno::EINVAL));
    let s = SemSet::new(1, 5, SEMMSL, 0o666, 1, 2, 3, 4).unwrap();
    assert_eq!(s.nsems(), SEMMSL);
    assert_eq!(s.semid(), 1);
    assert_eq!(s.key(), 5);
    assert_eq!(s.getval(SEMMSL - 1), Ok(0));
    assert_eq!(s.otime(), 0);
}

#[test]
fn semset_check_perm_always_passes() {
    let s = SemSet::new(1, 5, 1, 0o666, 1, 2, 3, 4).unwrap();
    assert_eq!(s.check_perm(), Ok(()));
}

#[test]
fn semset_attach_and_detach() {
    let mut s = SemSet::new(1, 5, 1, 0o666, 1, 2, 3, 4).unwrap();
    s.attach_pid(77);
    assert!(s.is_attached(77));
    s.detach_pid(&77);
    assert!(!s.is_attached(77));
}

#[test]
fn semset_getval_setval_errors() {
    let mut s = SemSet::new(1, 5, 2, 0o666, 1, 2, 3, 4).unwrap();
    assert_eq!(s.getval(2), Err(Errno::ERANGE));
    assert_eq!(s.setval(2, 1, 9), Err(Errno::ERANGE));
    assert_eq!(s.setval(0, -1, 9), Err(Errno::EINVAL));
    assert_eq!(s.setval(1, 7, 9), Ok(()));
    assert_eq!(s.getval(1), Ok(7));
    assert_eq!(s.getval(0), Ok(0));
}

#[test]
fn semset_semop_out_of_range_changes_nothing() {
    let mut s = SemSet::new(1, 5, 2, 0o666, 1, 2, 3, 4).unwrap();
    // The first operation is valid, but the second names no semaphore:
    // nothing is carried out.
    assert_eq!(s.do_semop(&[op(0, 1), op(2, 1)], 8, 8, 50), Err(Errno::EFBIG));
    assert_eq!(s.getval(0), Ok(0));
    assert_eq!(s.otime(), 0);
}

#[test]
fn semset_semop_success_sets_otime() {
    let mut s = SemSet::new(1, 5, 2, 0o666, 1, 2, 3, 4).unwrap();
    assert_eq!(s.do_semop(&[op(0, 3), op(1, 2), op(0, -1)], 8, 8, 50), Ok(()));
    assert_eq!(s.getval(0), Ok(2));
    assert_eq!(s.getval(1), Ok(2));
    assert_eq!(s.otime(), 50);
}

#[test]
fn semset_semop_wait_keeps_earlier_operations() {
    let mut s = SemSet::new(1, 5, 2, 0o666, 1, 2, 3, 4).unwrap();
    // Raising semaphore 0 happens; lowering semaphore 1 must wait.
    assert_eq!(s.do_semop(&[op(0, 4), op(1, -1), op(0, 1)], 8, 80, 50), Err(Errno::EAGAIN));
    assert_eq!(s.getval(0), Ok(4));
    assert_eq!(s.getval(1), Ok(0));
    assert_eq!(s.num_waiters(1), Some(1));
    assert_eq!(s.num_waiters(0), Some(0));
    assert_eq!(s.num_waiters(2), None);
    assert_eq!(s.otime(), 0);
}

#[test]
fn semset_wait_for_zero() {
    let mut s = SemSet::new(1, 5, 1, 0o666, 1, 2, 3, 4).unwrap();
    assert_eq!(s.do_semop(&[op(0, 0)], 8, 8, 50), Ok(()));
    assert_eq!(s.do_semop(&[op(0, 1)], 8, 8, 51), Ok(()));
    assert_eq!(s.do_semop(&[op(0, 0)], 8, 8, 52), Err(Errno::EAGAIN));
    assert_eq!(s.num_waiters(0), Some(1));
    assert_eq!(s.otime(), 51);
}

#[test]
fn semset_raise_wakes_waiters() {
    let mut s = SemSet::new(1, 5, 1, 0o666, 1, 2, 3, 4).unwrap();
    assert_eq!(s.do_semop(&[op(0, -1)], 8, 80, 50), Err(Errno::EAGAIN));
    assert_eq!(s.do_semop(&[op(0, -1)], 9, 90, 51), Err(Errno::EAGAIN));
    assert_eq!(s.num_waiters(0), Some(2));
    // Raising by 3 wakes both waiters, each taking one unit.
    assert_eq!(s.do_semop(&[op(0, 3)], 7, 70, 52), Ok(()));
    assert_eq!(s.getval(0), Ok(1));
    assert_eq!(s.num_waiters(0), Some(0));
}

#[test]
fn semset_setval_wakes_waiters() {
    let mut s = SemSet::new(1, 5, 1, 0o666, 1, 2, 3, 4).unwrap();
    assert_eq!(s.do_semop(&[op(0, -2)], 8, 80, 50), Err(Errno::EAGAIN));
    assert_eq!(s.setval(0, 5, 60), Ok(()));
    assert_eq!(s.getval(0), Ok(4));
    assert_eq!(s.num_waiters(0), Some(0));
}
