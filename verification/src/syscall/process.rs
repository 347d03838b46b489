//! Process system calls: waiting for children, signals, time, memory
//! mapping requests and scheduling priority.
//!
//! The scheduler, the memory sets and the process table stay with the
//! caller; these functions take the plain values a call reads and return
//! what it answers and what must change.
use vstd::arithmetic::div_mod::lemma_div_multiples_vanish_fancy;
use vstd::arithmetic::div_mod::lemma_fundamental_div_mod;
use vstd::prelude::*;

use crate::syscall::fs::{le_bytes, push_le};

verus! {

/// Size of a page in bytes.
pub const PAGE_SIZE: usize = 4096;

/// Frequency of the timer in ticks per second.
pub const CLOCK_FREQ: usize = 12500000;

/// Microseconds per second.
pub const MICRO_PER_SEC: usize = 1000000;

/// Page permission bit: readable.
pub const MAP_PERM_R: u8 = 2;

/// Page permission bit: writable.
pub const MAP_PERM_W: u8 = 4;

/// Page permission bit: executable.
pub const MAP_PERM_X: u8 = 8;

/// Page permission bit: accessible from user mode.
pub const MAP_PERM_U: u8 = 16;

/// Every signal a process can be sent: SIGINT, SIGILL, SIGABRT, SIGFPE and
/// SIGSEGV (bits 2, 4, 6, 8 and 11).
pub const SIGNAL_FLAGS_ALL: u32 = 0x954;

/// Seconds and microseconds.
#[derive(Clone, Copy, Debug, PartialEq, Eq)]
pub struct TimeVal {
    /// Whole seconds.
    pub sec: usize,
    /// Microseconds within the second.
    pub usec: usize,
}

/// The `yield` system call: the caller is suspended by the scheduler and the
/// call reports success.
pub fn sys_yield() -> (r: isize)
    ensures
        r == 0,
{
    0
}

/// The `getpid` system call for a process with identifier `pid`.
pub fn sys_getpid(pid: usize) -> (r: isize)
    ensures
        r == pid as isize,
{
    pid as isize
}

/// Whether the `exec` system call reads another argument after the
/// argument-pointer word `word`: the list of argument pointers ends at the
/// first null word.
pub fn exec_arg_continue(word: usize) -> (more: bool)
    ensures
        more == (word != 0),
{
    word != 0
}

/// The result of the `exec` system call, given whether the program could be
/// opened and the number of arguments read: the argument count (which the
/// new program finds as its first register), or -1.
pub fn sys_exec(opened: bool, argc: usize) -> (r: isize)
    requires
        argc <= isize::MAX,
    ensures
        r == (if opened {
            argc as isize
        } else {
            -1isize
        }),
{
    if opened {
        argc as isize
    } else {
        -1
    }
}

/// The `fork` system call, given the new child's identifier and the general
/// registers of its first thread: the child sees 0 as the call's result
/// (register `a0`, index 10), the parent sees the child's identifier.
pub fn sys_fork(child_regs: &mut [usize; 32], new_pid: usize) -> (r: isize)
    ensures
        r == new_pid as isize,
        final(child_regs)@ == old(child_regs)@.update(10, 0usize),
{
    child_regs[10] = 0;
    new_pid as isize
}

/// The `get_time` system call for a timer reading of `ticks`.
pub fn sys_get_time(ticks: usize) -> (tv: TimeVal)
    ensures
        tv.sec == ticks / CLOCK_FREQ,
        tv.usec == (ticks % CLOCK_FREQ) * MICRO_PER_SEC / (CLOCK_FREQ as int),
{
    let rem: u64 = (ticks % CLOCK_FREQ) as u64;
    assert(rem * 1000000 < 12500000 * 1000000) by (nonlinear_arith)
        requires
            rem < 12500000,
    ;
    let usec: u64 = rem * 1000000u64 / 12500000u64;
    assert(usec < 1000000) by (nonlinear_arith)
        requires
            rem < 12500000,
            usec == rem * 1000000 / 12500000,
    ;
    TimeVal { sec: ticks / CLOCK_FREQ, usec: usec as usize }
}

/// The bytes of a time value as it lies in memory on the kernel's 64-bit
/// little-endian target.
pub open spec fn time_val_layout(tv: TimeVal) -> Seq<u8> {
    le_bytes(tv.sec as u64, 8) + le_bytes(tv.usec as u64, 8)
}

/// Where the fields of a time value lie: the seconds at bytes 0 to 7 and the
/// microseconds at bytes 8 to 15, each least significant byte first.
pub proof fn lemma_time_val_layout_fields(tv: TimeVal)
    ensures
        time_val_layout(tv).len() == 16,
        forall|i: int|
            0 <= i < 8 ==> #[trigger] time_val_layout(tv)[i] == le_bytes(tv.sec as u64, 8)[i],
        forall|i: int|
            0 <= i < 8 ==> #[trigger] time_val_layout(tv)[8 + i] == le_bytes(tv.usec as u64, 8)[i],
{
}

/// The bytes of a time value as `get_time` copies them to the caller.
pub fn time_val_bytes(tv: &TimeVal) -> (bytes: Vec<u8>)
    ensures
        bytes@ == time_val_layout(*tv),
        bytes@.len() == 16,
{
    let mut bytes: Vec<u8> = Vec::new();
    push_le(&mut bytes, tv.sec as u64, 8);
    push_le(&mut bytes, tv.usec as u64, 8);
    bytes
}

/// The time value for `ticks` is the tick count converted to microseconds,
/// rounded down, split into whole seconds and less than a second.
pub proof fn lemma_time_val_is_exact(ticks: usize)
    ensures
        ({
            let sec = ticks / CLOCK_FREQ;
            let usec = (ticks % CLOCK_FREQ) * MICRO_PER_SEC / (CLOCK_FREQ as int);
            &&& usec < MICRO_PER_SEC
            &&& sec * MICRO_PER_SEC + usec == ticks * MICRO_PER_SEC / (CLOCK_FREQ as int)
        }),
{
    let f: int = CLOCK_FREQ as int;
    let m: int = MICRO_PER_SEC as int;
    let t: int = ticks as int;
    let q: int = t / f;
    let r: int = t % f;
    lemma_fundamental_div_mod(t, f);
    let y: int = r * m;
    assert(0 <= y < f * m) by (nonlinear_arith)
        requires
            0 <= r < f,
            m > 0,
            y == r * m,
    ;
    lemma_fundamental_div_mod(y, f);
    assert(y / f < m) by (nonlinear_arith)
        requires
            0 <= y < f * m,
            f > 0,
            y == f * (y / f) + y % f,
            0 <= y % f,
    ;
    assert(t * m == f * (q * m + y / f) + y % f) by (nonlinear_arith)
        requires
            t == f * q + r,
            y == r * m,
            y == f * (y / f) + y % f,
    ;
    lemma_div_multiples_vanish_fancy(q * m + y / f, y % f, f);
}

/// Whether `prot` is an acceptable protection for `mmap`: no bit other than
/// read (1), write (2) and execute (4), and at least one of them.
pub open spec fn prot_valid(prot: usize) -> bool {
    &&& prot & !0x7usize == 0
    &&& prot & 0x7usize != 0
}

/// The page permission that `mmap` uses for protection `prot`: user access
/// plus read, write and execute as bits 0, 1 and 2 of `prot` ask (each moved
/// up by one place).
pub open spec fn map_permission(prot: usize) -> u8 {
    MAP_PERM_U | (((prot & 0x7usize) as u8) << 1u8)
}

/// A request to map the pages of `[start, end)` with permission bits
/// `permission`.
#[derive(Clone, Copy, Debug, PartialEq, Eq)]
pub struct MapRequest {
    /// First address of the range.
    pub start: usize,
    /// End of the range (exclusive).
    pub end: usize,
    /// Page permission bits.
    pub permission: u8,
}

/// The `mmap` system call's checks: returns the mapping to make, or `None`
/// when the call fails with -1 (`start` not page aligned, or `prot` not
/// acceptable). The caller's memory set makes the mapping and answers.
pub fn sys_mmap(start: usize, len: usize, prot: usize) -> (r: Option<MapRequest>)
    requires
        start % PAGE_SIZE == 0 && prot_valid(prot) ==> start + len <= usize::MAX,
    ensures
        r is Some <==> start % PAGE_SIZE == 0 && prot_valid(prot),
        r matches Some(req) ==> req == (MapRequest {
            start,
            end: (start + len) as usize,
            permission: map_permission(prot),
        }),
{
    if start % PAGE_SIZE != 0 {
        return None;
    }
    if (prot & !0x7usize != 0) || (prot & 0x7usize == 0) {
        return None;
    }
    let mut permission: u8 = MAP_PERM_U;
    if prot & 0x1usize != 0 {
        permission = permission | MAP_PERM_R;
    }
    if prot & 0x2usize != 0 {
        permission = permission | MAP_PERM_W;
    }
    if prot & 0x4usize != 0 {
        permission = permission | MAP_PERM_X;
    }
    assert(permission == 16u8 | (((prot & 0x7usize) as u8) << 1u8)) by (bit_vector)
        requires
            permission == (if prot & 4usize != 0 {
                (if prot & 2usize != 0 {
                    (if prot & 1usize != 0 { 16u8 | 2u8 } else { 16u8 }) | 4u8
                } else {
                    (if prot & 1usize != 0 { 16u8 | 2u8 } else { 16u8 })
                }) | 8u8
            } else {
                (if prot & 2usize != 0 {
                    (if prot & 1usize != 0 { 16u8 | 2u8 } else { 16u8 }) | 4u8
                } else {
                    (if prot & 1usize != 0 { 16u8 | 2u8 } else { 16u8 })
                })
            }),
    ;
    Some(MapRequest { start, end: start + len, permission })
}

/// An acceptable protection is a number from 1 to 7; the permission it
/// gives is always accessible from user mode, and is readable, writable or
/// executable exactly when the protection asks for reading (1), writing (2)
/// or executing (4).
pub proof fn lemma_prot_permission(prot: usize)
    ensures
        prot_valid(prot) <==> 1 <= prot <= 7,
        map_permission(prot) & MAP_PERM_U != 0,
        (map_permission(prot) & MAP_PERM_R != 0) == (prot & 1usize != 0),
        (map_permission(prot) & MAP_PERM_W != 0) == (prot & 2usize != 0),
        (map_permission(prot) & MAP_PERM_X != 0) == (prot & 4usize != 0),
{
    assert(prot & !0x7usize == 0 && prot & 0x7usize != 0 <==> 1 <= prot <= 7) by (bit_vector);
    let p = map_permission(prot);
    assert({
        &&& p & 16u8 != 0
        &&& (p & 2u8 != 0) == (prot & 1usize != 0)
        &&& (p & 4u8 != 0) == (prot & 2usize != 0)
        &&& (p & 8u8 != 0) == (prot & 4usize != 0)
    }) by (bit_vector)
        requires
            p == 16u8 | (((prot & 0x7usize) as u8) << 1u8),
    ;
}

/// The `munmap` system call's checks: returns the range `[start, end)` to
/// unmap, or `None` when the call fails with -1 (`start` or `len` not page
/// aligned). The caller's memory set removes the mapping and answers.
pub fn sys_munmap(start: usize, len: usize) -> (r: Option<(usize, usize)>)
    requires
        start % PAGE_SIZE == 0 && len % PAGE_SIZE == 0 ==> start + len <= usize::MAX,
    ensures
        r is Some <==> start % PAGE_SIZE == 0 && len % PAGE_SIZE == 0,
        r matches Some(range) ==> range == (start, (start + len) as usize),
{
    if start % PAGE_SIZE != 0 || len % PAGE_SIZE != 0 {
        return None;
    }
    Some((start, start + len))
}

/// The `set_priority` system call: a priority below 2 is refused with -1;
/// otherwise the thread's `pass` becomes `prio` and the call returns it.
pub fn sys_set_priority(prio: isize, pass: &mut usize) -> (r: isize)
    ensures
        prio < 2 ==> r == -1 && *final(pass) == *old(pass),
        prio >= 2 ==> r == prio && *final(pass) == prio,
{
    if prio < 2 {
        return -1;
    }
    *pass = prio as usize;
    prio
}

/// The `kill` system call, given the pending signals of the target process
/// (`None` when no process has that identifier): returns the target's new
/// pending signals, or `None` when the call fails with -1 (no such process,
/// or `signal` holds a bit that names no signal).
pub fn sys_kill(target_signals: Option<u32>, signal: u32) -> (r: Option<u32>)
    ensures
        r == (match target_signals {
            Some(s) => if signal & !SIGNAL_FLAGS_ALL == 0 {
                Some(s | signal)
            } else {
                None::<u32>
            },
            None => None::<u32>,
        }),
{
    match target_signals {
        Some(signals) => {
            if signal & !SIGNAL_FLAGS_ALL == 0 {
                Some(signals | signal)
            } else {
                None
            }
        },
        None => None,
    }
}

/// A child process as its parent sees it.
#[derive(Clone, Copy, Debug, PartialEq, Eq)]
pub struct ChildProc {
    /// Process identifier.
    pub pid: usize,
    /// Whether the child has exited and waits to be reaped.
    pub is_zombie: bool,
    /// Exit code of the child (meaningful once it has exited).
    pub exit_code: i32,
}

/// Child `c` is one that `waitpid(pid, ..)` asks for: any child for -1,
/// otherwise the child with that identifier.
pub open spec fn pid_matches(pid: isize, c: ChildProc) -> bool {
    pid == -1 || (pid as usize) == c.pid
}

/// Some child of `children` is one that `waitpid(pid, ..)` asks for.
pub open spec fn has_match(children: Seq<ChildProc>, pid: isize) -> bool {
    exists|i: int| 0 <= i < children.len() && pid_matches(pid, #[trigger] children[i])
}

/// Child `c` can be reaped by `waitpid(pid, ..)`.
pub open spec fn reapable(pid: isize, c: ChildProc) -> bool {
    c.is_zombie && pid_matches(pid, c)
}

/// `k` is the first child of `children` that `waitpid(pid, ..)` can reap.
pub open spec fn is_first_reapable(children: Seq<ChildProc>, pid: isize, k: int) -> bool {
    &&& 0 <= k < children.len()
    &&& reapable(pid, children[k])
    &&& forall|j: int| 0 <= j < k ==> !reapable(pid, #[trigger] children[j])
}

/// Position of the first child that `waitpid(pid, ..)` can reap, or -1.
pub open spec fn first_reapable(children: Seq<ChildProc>, pid: isize) -> int {
    if exists|k: int| is_first_reapable(children, pid, k) {
        choose|k: int| is_first_reapable(children, pid, k)
    } else {
        -1
    }
}

/// What `waitpid` found.
#[derive(Clone, Copy, Debug, PartialEq, Eq)]
pub enum WaitOutcome {
    /// No child is the one asked for (the call returns -1).
    NoChild,
    /// The child asked for has not exited yet (the call returns -2).
    Running,
    /// A child exited and has been reaped (the call returns its identifier
    /// and stores its exit code for the caller).
    Exited { pid: usize, exit_code: i32 },
}

/// The value that `waitpid` returns for an outcome.
pub open spec fn wait_return(w: WaitOutcome) -> isize {
    match w {
        WaitOutcome::NoChild => -1isize,
        WaitOutcome::Running => -2isize,
        WaitOutcome::Exited { pid, .. } => pid as isize,
    }
}

impl WaitOutcome {
    /// The value that `waitpid` returns for this outcome.
    pub fn return_value(&self) -> (r: isize)
        ensures
            r == wait_return(*self),
    {
        match self {
            WaitOutcome::NoChild => -1,
            WaitOutcome::Running => -2,
            WaitOutcome::Exited { pid, .. } => *pid as isize,
        }
    }
}

proof fn lemma_first_reapable_unique(children: Seq<ChildProc>, pid: isize, i: int, k: int)
    requires
        is_first_reapable(children, pid, i),
        is_first_reapable(children, pid, k),
    ensures
        i == k,
{
    if i < k {
        assert(!reapable(pid, children[i]));
    } else if k < i {
        assert(!reapable(pid, children[k]));
    }
}

/// The first reapable child is well defined whenever some child is
/// reapable.
pub proof fn lemma_first_reapable(children: Seq<ChildProc>, pid: isize)
    ensures
        (exists|i: int| 0 <= i < children.len() && reapable(pid, #[trigger] children[i])) ==> is_first_reapable(children, pid, first_reapable(children, pid)),
        !(exists|i: int| 0 <= i < children.len() && reapable(pid, #[trigger] children[i])) ==> first_reapable(children, pid) == -1,
{
    if exists|i: int| 0 <= i < children.len() && reapable(pid, #[trigger] children[i]) {
        let i = choose|i: int| 0 <= i < children.len() && reapable(pid, #[trigger] children[i]);
        lemma_exists_first_reapable(children, pid, i);
    }
}

proof fn lemma_exists_first_reapable(children: Seq<ChildProc>, pid: isize, i: int)
    requires
        0 <= i < children.len(),
        reapable(pid, children[i]),
    ensures
        exists|k: int| is_first_reapable(children, pid, k),
    decreases i,
{
    if forall|j: int| 0 <= j < i ==> !reapable(pid, #[trigger] children[j]) {
        assert(is_first_reapable(children, pid, i));
    } else {
        let j = choose|j: int| 0 <= j < i && reapable(pid, #[trigger] children[j]);
        lemma_exists_first_reapable(children, pid, j);
    }
}

/// Which children `waitpid(-1, ..)` looks at and which one it reaps: it asks
/// for any child, so some child is asked for exactly when there is one; when
/// some child has exited, the one reaped is the first child that has exited,
/// whatever its exit code; when none has, none is reaped.
pub proof fn lemma_waitpid_any_choice(children: Seq<ChildProc>)
    ensures
        has_match(children, -1isize) <==> children.len() > 0,
        (exists|i: int| 0 <= i < children.len() && (#[trigger] children[i]).is_zombie) ==> {
            let k = first_reapable(children, -1isize);
            &&& 0 <= k < children.len()
            &&& children[k].is_zombie
            &&& forall|j: int| 0 <= j < k ==> !(#[trigger] children[j]).is_zombie
        },
        !(exists|i: int| 0 <= i < children.len() && (#[trigger] children[i]).is_zombie)
            ==> first_reapable(children, -1isize) == -1,
{
    lemma_first_reapable(children, -1isize);
    if children.len() > 0 {
        assert(pid_matches(-1isize, children[0]));
    }
    if exists|i: int| 0 <= i < children.len() && (#[trigger] children[i]).is_zombie {
        let i = choose|i: int| 0 <= i < children.len() && (#[trigger] children[i]).is_zombie;
        assert(reapable(-1isize, children[i]));
        let k = first_reapable(children, -1isize);
        assert forall|j: int| 0 <= j < k implies !(#[trigger] children[j]).is_zombie by {
            assert(!reapable(-1isize, children[j]));
        }
    } else {
        assert forall|i: int| 0 <= i < children.len() implies !reapable(-1isize, #[trigger] children[i]) by {
            assert(!children[i].is_zombie);
        }
    }
}

/// Which children `waitpid(pid, ..)` looks at and which one it reaps for a
/// `pid` other than -1: some child is asked for exactly when one has
/// identifier `pid`; when such a child has exited, the one reaped is the
/// first such child that has exited, whatever its exit code; when none has,
/// none is reaped.
pub proof fn lemma_waitpid_pid_choice(children: Seq<ChildProc>, pid: isize)
    requires
        pid != -1,
    ensures
        has_match(children, pid) <==> exists|i: int|
            0 <= i < children.len() && (#[trigger] children[i]).pid == (pid as usize),
        (exists|i: int|
            0 <= i < children.len() && (#[trigger] children[i]).is_zombie && children[i].pid == (
            pid as usize)) ==> {
            let k = first_reapable(children, pid);
            &&& 0 <= k < children.len()
            &&& children[k].is_zombie
            &&& children[k].pid == (pid as usize)
            &&& forall|j: int|
                0 <= j < k ==> !((#[trigger] children[j]).is_zombie && children[j].pid == (
                pid as usize))
        },
        !(exists|i: int|
            0 <= i < children.len() && (#[trigger] children[i]).is_zombie && children[i].pid == (
            pid as usize)) ==> first_reapable(children, pid) == -1,
{
    lemma_first_reapable(children, pid);
    if has_match(children, pid) {
        let i = choose|i: int| 0 <= i < children.len() && pid_matches(pid, #[trigger] children[i]);
        assert(children[i].pid == (pid as usize));
    }
    if exists|i: int| 0 <= i < children.len() && (#[trigger] children[i]).pid == (pid as usize) {
        let i = choose|i: int|
            0 <= i < children.len() && (#[trigger] children[i]).pid == (pid as usize);
        assert(pid_matches(pid, children[i]));
    }
    if exists|i: int|
        0 <= i < children.len() && (#[trigger] children[i]).is_zombie && children[i].pid == (
        pid as usize) {
        let i = choose|i: int|
            0 <= i < children.len() && (#[trigger] children[i]).is_zombie && children[i].pid == (
            pid as usize);
        assert(reapable(pid, children[i]));
        let k = first_reapable(children, pid);
        assert forall|j: int|
            0 <= j < k implies !((#[trigger] children[j]).is_zombie && children[j].pid == (
            pid as usize)) by {
            assert(!reapable(pid, children[j]));
        }
    } else {
        assert forall|i: int| 0 <= i < children.len() implies !reapable(pid, #[trigger] children[i]) by {
            assert(!(children[i].is_zombie && children[i].pid == (pid as usize)));
        }
    }
}

/// The values `waitpid` returns: -1 without such a child, -2 while it runs,
/// the child's identifier once reaped.
pub proof fn lemma_wait_return_values(pid: usize, exit_code: i32)
    ensures
        wait_return(WaitOutcome::NoChild) == -1,
        wait_return(WaitOutcome::Running) == -2,
        wait_return(WaitOutcome::Exited { pid, exit_code }) == pid as isize,
{
}

/// The `waitpid` system call for `pid` (-1 for any child): when no child is
/// the one asked for, the outcome is `NoChild`; otherwise the first such
/// child that has exited is removed from `children` and reported, and when
/// none has exited the outcome is `Running`.
pub fn sys_waitpid(children: &mut Vec<ChildProc>, pid: isize) -> (w: WaitOutcome)
    ensures
        !has_match(old(children)@, pid) ==> w == WaitOutcome::NoChild && final(children)@ == old(
            children,
        )@,
        has_match(old(children)@, pid) && first_reapable(old(children)@, pid) < 0 ==> w
            == WaitOutcome::Running && final(children)@ == old(children)@,
        has_match(old(children)@, pid) && first_reapable(old(children)@, pid) >= 0 ==> {
            let k = first_reapable(old(children)@, pid);
            &&& w == WaitOutcome::Exited {
                pid: old(children)@[k].pid,
                exit_code: old(children)@[k].exit_code,
            }
            &&& final(children)@ == old(children)@.remove(k)
        },
{
    let n = children.len();
    let mut i: usize = 0;
    let mut found = false;
    while i < n
        invariant
            n == children@.len(),
            i <= n,
            found ==> has_match(children@, pid),
            !found ==> forall|j: int| 0 <= j < i ==> !pid_matches(pid, #[trigger] children@[j]),
        decreases n - i,
    {
        if pid == -1 || (pid as usize) == children[i].pid {
            found = true;
            proof {
                assert(pid_matches(pid, children@[i as int]));
            }
        }
        i = i + 1;
    }
    if !found {
        return WaitOutcome::NoChild;
    }
    proof {
        lemma_first_reapable(children@, pid);
    }
    let mut k: usize = 0;
    while k < n
        invariant
            n == children@.len(),
            children@ == old(children)@,
            k <= n,
            forall|j: int| 0 <= j < k ==> !reapable(pid, #[trigger] children@[j]),
        decreases n - k,
    {
        let c = children[k];
        if c.is_zombie && (pid == -1 || (pid as usize) == c.pid) {
            proof {
                assert(is_first_reapable(children@, pid, k as int));
                lemma_first_reapable_unique(children@, pid, k as int, first_reapable(children@, pid));
            }
            let child = children.remove(k);
            return WaitOutcome::Exited { pid: child.pid, exit_code: child.exit_code };
        }
        k = k + 1;
    }
    WaitOutcome::Running
}

/// When children have distinct identifiers, the child that `waitpid(pid, ..)`
/// reaps for a specific `pid` is the only one with that identifier, so a
/// second `waitpid(pid, ..)` finds no such child.
pub proof fn lemma_reaped_child_is_gone(children: Seq<ChildProc>, pid: isize)
    requires
        pid != -1,
        first_reapable(children, pid) >= 0,
        forall|i: int, j: int|
            0 <= i < j < children.len() ==> #[trigger] children[i].pid != #[trigger] children[j].pid,
    ensures
        !has_match(children.remove(first_reapable(children, pid)), pid),
{
    let k = first_reapable(children, pid);
    lemma_first_reapable(children, pid);
    let rest = children.remove(k);
    assert forall|i: int| 0 <= i < rest.len() implies !pid_matches(pid, #[trigger] rest[i]) by {
        if i < k {
            assert(children[i].pid != children[k].pid);
        } else {
            assert(rest[i] == children[i + 1]);
            assert(children[k].pid != children[i + 1].pid);
        }
    }
}

/// The `spawn` system call, given the new child (or `None` when the program
/// could not be opened): records the child and returns its identifier, or
/// returns -1.
pub fn sys_spawn(children: &mut Vec<ChildProc>, spawned: Option<ChildProc>) -> (r: isize)
    ensures
        match spawned {
            Some(c) => r == c.pid as isize && final(children)@ == old(children)@.push(c),
            None => r == -1 && final(children)@ == old(children)@,
        },
{
    match spawned {
        Some(child) => {
            children.push(child);
            child.pid as isize
        },
        None => -1,
    }
}

} // verus!
