use rcore_os::sync::semaphore::Semaphore;

fn need_matrix(threads: usize, resources: usize, value: usize) -> Vec<Vec<usize>> {
    let mut m = Vec::new();
    for _ in 0..threads {
        m.push(vec![value; resources]);
    }
    m
}

#[test]
fn new_semaphore_has_its_count() {
    let s = Semaphore::new(3);
    assert_eq!(s.get_count(), 3);
    assert!(s.waiting().is_empty());
    assert_eq!(s.allocation(0), 0);
    assert_eq!(s.allocation(1), 0);
    assert_eq!(s.allocation(2), 0);
}

#[test]
fn down_without_blocking_grants_a_unit() {
    let mut s = Semaphore::new(2);
    let mut need = need_matrix(3, 2, 1);
    let blocked = s.down(1, 0, true, &mut need);
    assert!(!blocked);
    assert_eq!(s.get_count(), 1);
    assert_eq!(s.allocation(1), 1);
    assert_eq!(need[1][0], 0);
    assert_eq!(need[0][0], 1);
    assert_eq!(need[1][1], 1);
}

#[test]
fn down_without_detection_keeps_no_record() {
    let mut s = Semaphore::new(1);
    let mut need = need_matrix(2, 1, 1);
    assert!(!s.down(1, 0, false, &mut need));
    assert_eq!(s.allocation(0), 0);
    assert_eq!(s.allocation(1), 0);
    assert_eq!(s.allocation(2), 0);
    assert_eq!(need, need_matrix(2, 1, 1));
}

#[test]
fn down_blocks_when_nothing_is_free() {
    let mut s = Semaphore::new(0);
    let mut need = need_matrix(3, 1, 1);
    assert!(s.down(2, 0, true, &mut need));
    assert_eq!(s.get_count(), -1);
    assert_eq!(s.waiting(), vec![2]);
    assert_eq!(s.allocation(0), 0);
    assert_eq!(s.allocation(1), 0);
    assert_eq!(s.allocation(2), 0);
    assert_eq!(need[2][0], 1);
}

#[test]
fn up_wakes_first_waiter_and_hands_over_the_unit() {
    let mut s = Semaphore::new(1);
    let mut need = need_matrix(3, 1, 1);
    assert!(!s.down(0, 0, true, &mut need));
    assert!(s.down(1, 0, true, &mut need));
    assert!(s.down(2, 0, true, &mut need));
    assert_eq!(s.get_count(), -2);
    let woken = s.up(0, 0, true, &mut need);
    assert_eq!(woken, Some(1));
    assert_eq!(s.get_count(), -1);
    assert_eq!(s.allocation(0), 0);
    assert_eq!(s.allocation(1), 1);
    assert_eq!(need[1][0], 0);
    assert_eq!(need[2][0], 1);
    let woken = s.up(1, 0, true, &mut need);
    assert_eq!(woken, Some(2));
    assert_eq!(s.get_count(), 0);
    assert_eq!(s.allocation(1), 0);
    assert_eq!(s.allocation(2), 1);
    let woken = s.up(2, 0, true, &mut need);
    assert_eq!(woken, None);
    assert_eq!(s.get_count(), 1);
    assert_eq!(s.allocation(0), 0);
    assert_eq!(s.allocation(1), 0);
    assert_eq!(s.allocation(2), 0);
}

#[test]
fn up_without_waiters_only_counts() {
    let mut s = Semaphore::new(2);
    let mut need = need_matrix(1, 1, 0);
    assert_eq!(s.up(0, 0, false, &mut need), None);
    assert_eq!(s.get_count(), 3);
}

#[test]
fn up_keeps_other_units_of_the_same_thread() {
    let mut s = Semaphore::new(3);
    let mut need = need_matrix(1, 1, 5);
    assert!(!s.down(0, 0, true, &mut need));
    assert!(!s.down(0, 0, true, &mut need));
    assert_eq!(s.allocation(0), 2);
    assert_eq!(s.up(0, 0, true, &mut need), None);
    assert_eq!(s.allocation(0), 1);
    assert_eq!(need[0][0], 3);
}

#[test]
fn down_then_up_restores_the_semaphore() {
    let mut s = Semaphore::new(2);
    let mut need = need_matrix(2, 1, 4);
    assert!(!s.down(1, 0, true, &mut need));
    assert_eq!(s.up(1, 0, true, &mut need), None);
    assert_eq!(s.get_count(), 2);
    assert_eq!(s.allocation(0), 0);
    assert_eq!(s.allocation(1), 0);
    assert_eq!(s.allocation(2), 0);
    assert!(s.waiting().is_empty());
}

#[test]
fn up_wakes_without_detection_too() {
    let mut s = Semaphore::new(0);
    let mut need = need_matrix(2, 1, 1);
    assert!(s.down(1, 0, false, &mut need));
    assert_eq!(s.up(0, 0, false, &mut need), Some(1));
    assert_eq!(s.get_count(), 0);
    assert_eq!(s.allocation(0), 0);
    assert_eq!(s.allocation(1), 0);
    assert_eq!(s.allocation(2), 0);
    assert_eq!(need, need_matrix(2, 1, 1));
}

#[test]
fn blocked_waiters_are_woken_in_order() {
    let mut s = Semaphore::new(0);
    let mut need = need_matrix(4, 1, 1);
    assert!(s.down(1, 0, false, &mut need));
    assert!(s.down(2, 0, false, &mut need));
    assert!(s.down(3, 0, false, &mut need));
    assert_eq!(s.up(0, 0, false, &mut need), Some(1));
    assert_eq!(s.up(0, 0, false, &mut need), Some(2));
    assert_eq!(s.up(0, 0, false, &mut need), Some(3));
    assert_eq!(s.up(0, 0, false, &mut need), None);
    assert_eq!(s.get_count(), 1);
}

#[test]
fn waiting_threads_match_negative_count() {
    let mut s = Semaphore::new(1);
    let mut need = need_matrix(5, 1, 1);
    for tid in 0..5 {
        s.down(tid, 0, false, &mut need);
        let waiting = if s.get_count() < 0 { (-s.get_count()) as usize } else { 0 };
        assert_eq!(s.waiting().len(), waiting);
    }
    assert_eq!(s.get_count(), -4);
}

#[test]
fn units_held_plus_free_stay_constant() {
    let mut s = Semaphore::new(2);
    let mut need = need_matrix(4, 1, 3);
    let units = |s: &Semaphore| -> isize {
        let held: usize = (0..4).map(|t| s.allocation(t)).sum();
        held as isize + s.get_count().max(0)
    };
    assert_eq!(units(&s), 2);
    assert!(!s.down(0, 0, true, &mut need));
    assert_eq!(units(&s), 2);
    assert!(!s.down(1, 0, true, &mut need));
    assert_eq!(units(&s), 2);
    assert!(s.down(2, 0, true, &mut need));
    assert_eq!(units(&s), 2);
    assert_eq!(s.up(0, 0, true, &mut need), Some(2));
    assert_eq!(units(&s), 2);
    assert_eq!(s.allocation(2), 1);
    assert_eq!(s.up(1, 0, true, &mut need), None);
    assert_eq!(units(&s), 2);
}
