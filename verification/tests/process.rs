use rcore_os::syscall::process::{
    exec_arg_continue, sys_exec, time_val_bytes,
    sys_fork, sys_get_time, sys_getpid, sys_kill, sys_mmap, sys_munmap, sys_set_priority,
    sys_spawn, sys_waitpid, sys_yield, ChildProc, MapRequest, TimeVal, WaitOutcome,
    CLOCK_FREQ, PAGE_SIZE,
};

fn child(pid: usize, is_zombie: bool, exit_code: i32) -> ChildProc {
    ChildProc { pid, is_zombie, exit_code }
}

#[test]
fn yield_returns_zero() {
    assert_eq!(sys_yield(), 0);
}

#[test]
fn getpid_returns_pid() {
    assert_eq!(sys_getpid(42), 42);
}

#[test]
fn fork_clears_child_a0() {
    let mut regs = [7usize; 32];
    assert_eq!(sys_fork(&mut regs, 12), 12);
    assert_eq!(regs[10], 0);
    assert_eq!(regs[9], 7);
    assert_eq!(regs[11], 7);
}

#[test]
fn get_time_splits_seconds() {
    assert_eq!(sys_get_time(0), TimeVal { sec: 0, usec: 0 });
    assert_eq!(sys_get_time(CLOCK_FREQ), TimeVal { sec: 1, usec: 0 });
    assert_eq!(sys_get_time(2 * CLOCK_FREQ + CLOCK_FREQ / 2), TimeVal { sec: 2, usec: 500000 });
    assert_eq!(sys_get_time(12499999), TimeVal { sec: 0, usec: 999999 });
    assert_eq!(sys_get_time(13), TimeVal { sec: 0, usec: 1 });
}

#[test]
fn get_time_matches_microsecond_count() {
    for ticks in [1usize, 99, 12_500_001, 987_654_321, 1 << 40] {
        let tv = sys_get_time(ticks);
        let micros = (ticks as u128) * 1_000_000 / (CLOCK_FREQ as u128);
        assert_eq!((tv.sec as u128) * 1_000_000 + tv.usec as u128, micros);
        assert!(tv.usec < 1_000_000);
    }
}

#[test]
fn mmap_rejects_unaligned_start() {
    assert_eq!(sys_mmap(PAGE_SIZE + 1, PAGE_SIZE, 1), None);
}

#[test]
fn mmap_rejects_bad_prot() {
    assert_eq!(sys_mmap(0, PAGE_SIZE, 0), None);
    assert_eq!(sys_mmap(0, PAGE_SIZE, 8), None);
    assert_eq!(sys_mmap(0, PAGE_SIZE, 9), None);
}

#[test]
fn mmap_builds_permission() {
    assert_eq!(
        sys_mmap(0x1000, 0x3000, 1),
        Some(MapRequest { start: 0x1000, end: 0x4000, permission: 16 | 2 })
    );
    assert_eq!(
        sys_mmap(0x2000, 5, 3),
        Some(MapRequest { start: 0x2000, end: 0x2005, permission: 16 | 2 | 4 })
    );
    assert_eq!(
        sys_mmap(0, 0x1000, 7),
        Some(MapRequest { start: 0, end: 0x1000, permission: 16 | 2 | 4 | 8 })
    );
    assert_eq!(
        sys_mmap(0, 0x1000, 4),
        Some(MapRequest { start: 0, end: 0x1000, permission: 16 | 8 })
    );
}

#[test]
fn munmap_checks_alignment() {
    assert_eq!(sys_munmap(0x1000, 0x2000), Some((0x1000, 0x3000)));
    assert_eq!(sys_munmap(0x1001, 0x2000), None);
    assert_eq!(sys_munmap(0x1000, 0x2001), None);
}

#[test]
fn set_priority_rejects_small() {
    let mut pass = 16usize;
    assert_eq!(sys_set_priority(1, &mut pass), -1);
    assert_eq!(sys_set_priority(-5, &mut pass), -1);
    assert_eq!(pass, 16);
}

#[test]
fn set_priority_stores_value() {
    let mut pass = 16usize;
    assert_eq!(sys_set_priority(2, &mut pass), 2);
    assert_eq!(pass, 2);
    assert_eq!(sys_set_priority(100, &mut pass), 100);
    assert_eq!(pass, 100);
}

#[test]
fn kill_sets_signal() {
    assert_eq!(sys_kill(Some(0), 1 << 2), Some(1 << 2));
    assert_eq!(sys_kill(Some(1 << 4), 1 << 11), Some((1 << 4) | (1 << 11)));
}

#[test]
fn kill_rejects_unknown_signal_or_process() {
    assert_eq!(sys_kill(Some(0), 1), None);
    assert_eq!(sys_kill(Some(0), 1 << 3), None);
    assert_eq!(sys_kill(None, 1 << 2), None);
}

#[test]
fn waitpid_without_child_returns_minus_one() {
    let mut children = vec![child(3, true, 0)];
    let w = sys_waitpid(&mut children, 4);
    assert_eq!(w, WaitOutcome::NoChild);
    assert_eq!(w.return_value(), -1);
    assert_eq!(children.len(), 1);
    let mut none: Vec<ChildProc> = Vec::new();
    assert_eq!(sys_waitpid(&mut none, -1), WaitOutcome::NoChild);
}

#[test]
fn waitpid_running_child_returns_minus_two() {
    let mut children = vec![child(3, false, 0), child(4, true, 1)];
    let w = sys_waitpid(&mut children, 3);
    assert_eq!(w, WaitOutcome::Running);
    assert_eq!(w.return_value(), -2);
    assert_eq!(children.len(), 2);
}

#[test]
fn waitpid_reaps_named_child() {
    let mut children = vec![child(3, false, 0), child(4, true, 17)];
    let w = sys_waitpid(&mut children, 4);
    assert_eq!(w, WaitOutcome::Exited { pid: 4, exit_code: 17 });
    assert_eq!(w.return_value(), 4);
    assert_eq!(children, vec![child(3, false, 0)]);
}

#[test]
fn waitpid_any_reaps_first_zombie() {
    let mut children = vec![child(3, false, 0), child(4, true, 1), child(5, true, 2)];
    assert_eq!(sys_waitpid(&mut children, -1), WaitOutcome::Exited { pid: 4, exit_code: 1 });
    assert_eq!(sys_waitpid(&mut children, -1), WaitOutcome::Exited { pid: 5, exit_code: 2 });
    assert_eq!(sys_waitpid(&mut children, -1), WaitOutcome::Running);
    assert_eq!(children, vec![child(3, false, 0)]);
}

#[test]
fn spawn_records_child() {
    let mut children = vec![child(3, false, 0)];
    assert_eq!(sys_spawn(&mut children, Some(child(8, false, 0))), 8);
    assert_eq!(children, vec![child(3, false, 0), child(8, false, 0)]);
    assert_eq!(sys_spawn(&mut children, None), -1);
    assert_eq!(children.len(), 2);
}

#[test]
fn waitpid_reaped_child_cannot_be_reaped_again() {
    let mut children = vec![child(3, true, 5), child(4, true, 6)];
    assert_eq!(sys_waitpid(&mut children, 3), WaitOutcome::Exited { pid: 3, exit_code: 5 });
    assert_eq!(sys_waitpid(&mut children, 3), WaitOutcome::NoChild);
    assert_eq!(children, vec![child(4, true, 6)]);
}

#[test]
fn mmap_permission_is_user_plus_shifted_prot() {
    for prot in 1usize..=7 {
        let req = sys_mmap(0, PAGE_SIZE, prot).unwrap();
        assert_eq!(req.permission, 16 | ((prot as u8) << 1));
    }
    for prot in [0usize, 8, 15, 1 << 20] {
        assert_eq!(sys_mmap(0, PAGE_SIZE, prot), None);
    }
}

#[test]
fn exec_stops_at_null_and_returns_argc() {
    assert!(exec_arg_continue(0x1000));
    assert!(!exec_arg_continue(0));
    assert_eq!(sys_exec(true, 3), 3);
    assert_eq!(sys_exec(true, 0), 0);
    assert_eq!(sys_exec(false, 3), -1);
}

#[test]
fn time_val_layout_is_little_endian() {
    let tv = TimeVal { sec: 0x0102, usec: 999_999 };
    let bytes = time_val_bytes(&tv);
    let mut expected = Vec::new();
    expected.extend_from_slice(&0x0102u64.to_le_bytes());
    expected.extend_from_slice(&999_999u64.to_le_bytes());
    assert_eq!(bytes, expected);
}
