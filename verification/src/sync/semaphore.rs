//! Counting semaphore with optional bookkeeping for deadlock detection.
//!
//! Blocked tasks are identified by their thread id. When deadlock detection
//! is switched on for an operation, the semaphore records how many units each
//! thread holds (`allocations`) and lowers that thread's entry in the
//! process's `need` matrix for the resource when it is granted a unit.
use std::collections::BTreeMap;
use std::collections::VecDeque;
use vstd::prelude::*;

verus! {

/// Abstract state of a semaphore: the counter, the queue of blocked thread
/// ids (front first), and the number of units each thread holds.
pub type SemView = (int, Seq<usize>, Map<usize, usize>);

/// Number of threads that must be waiting for a counter value.
pub open spec fn waiting_for(count: int) -> nat {
    if count < 0 {
        (-count) as nat
    } else {
        0
    }
}

/// Number of units that `tid` holds according to `held`.
pub open spec fn held_by(held: Map<usize, usize>, tid: usize) -> nat {
    if held.contains_key(tid) {
        held[tid] as nat
    } else {
        0
    }
}

/// `held` after `tid` is granted one more unit.
pub open spec fn grant(held: Map<usize, usize>, tid: usize) -> Map<usize, usize> {
    held.insert(tid, (held_by(held, tid) + 1) as usize)
}

/// `held` after `tid` gives one unit back; a thread that holds nothing any
/// more disappears from the map.
pub open spec fn release(held: Map<usize, usize>, tid: usize) -> Map<usize, usize> {
    if held[tid] == 1 {
        held.remove(tid)
    } else {
        held.insert(tid, (held[tid] - 1) as usize)
    }
}

/// Well-formedness of an abstract semaphore state: exactly as many threads
/// wait as the counter is below zero, and every recorded holder holds at
/// least one unit.
pub open spec fn sem_wf(s: SemView) -> bool {
    &&& s.1.len() == waiting_for(s.0)
    &&& s.2.dom().finite()
    &&& forall|t: usize| #[trigger] s.2.contains_key(t) ==> s.2[t] > 0
}

/// The abstract effect of `down` by thread `tid`.
pub open spec fn down_view(s: SemView, tid: usize, deadlock_detect: bool) -> SemView {
    let count = s.0 - 1;
    if count < 0 {
        (count, s.1.push(tid), s.2)
    } else if deadlock_detect {
        (count, s.1, grant(s.2, tid))
    } else {
        (count, s.1, s.2)
    }
}

/// Whether `down` from state `s` blocks the caller.
pub open spec fn down_blocks(s: SemView) -> bool {
    s.0 - 1 < 0
}

/// Whether `up` from state `s` wakes the thread at the front of the queue.
pub open spec fn up_wakes(s: SemView) -> bool {
    s.0 + 1 <= 0
}

/// The abstract effect of `up` by thread `tid`.
pub open spec fn up_view(s: SemView, tid: usize, deadlock_detect: bool) -> SemView {
    let count = s.0 + 1;
    let held = if deadlock_detect {
        release(s.2, tid)
    } else {
        s.2
    };
    if count <= 0 {
        let woken = s.1[0];
        (count, s.1.drop_first(), if deadlock_detect {
            grant(held, woken)
        } else {
            held
        })
    } else {
        (count, s.1, held)
    }
}

/// The `need` matrix after thread `tid` is granted one unit of `res_id`.
pub open spec fn need_granted(need: Seq<Seq<usize>>, tid: usize, res_id: usize) -> Seq<
    Seq<usize>,
> {
    need.update(tid as int, need[tid as int].update(res_id as int, (need[tid as int][res_id as int] - 1) as usize))
}

/// Whether `need` has a positive entry for thread `tid` and resource `res_id`.
pub open spec fn need_positive(need: Seq<Seq<usize>>, tid: usize, res_id: usize) -> bool {
    &&& tid < need.len()
    &&& res_id < need[tid as int].len()
    &&& need[tid as int][res_id as int] > 0
}

/// `down` keeps a well-formed state well-formed.
pub proof fn lemma_down_preserves_wf(s: SemView, tid: usize, deadlock_detect: bool)
    requires
        sem_wf(s),
        deadlock_detect && !down_blocks(s) ==> held_by(s.2, tid) < usize::MAX,
    ensures
        sem_wf(down_view(s, tid, deadlock_detect)),
{
    let t = down_view(s, tid, deadlock_detect);
    assert forall|k: usize| #[trigger] t.2.contains_key(k) implies t.2[k] > 0 by {
        if k != tid {
            assert(s.2.contains_key(k));
        }
    }
}

/// `up` keeps a well-formed state well-formed.
pub proof fn lemma_up_preserves_wf(s: SemView, tid: usize, deadlock_detect: bool)
    requires
        sem_wf(s),
        deadlock_detect ==> s.2.contains_key(tid),
        deadlock_detect && up_wakes(s) ==> held_by(release(s.2, tid), s.1[0]) < usize::MAX,
    ensures
        sem_wf(up_view(s, tid, deadlock_detect)),
{
    let t = up_view(s, tid, deadlock_detect);
    let held = if deadlock_detect {
        release(s.2, tid)
    } else {
        s.2
    };
    assert forall|k: usize| #[trigger] held.contains_key(k) implies held[k] > 0 by {
        assert(s.2.contains_key(k));
    }
    if s.0 + 1 <= 0 {
        let w = s.1[0];
        assert forall|k: usize| #[trigger] t.2.contains_key(k) implies t.2[k] > 0 by {
            if k != w {
                assert(held.contains_key(k));
            }
        }
    }
}

/// A `down` that does not block, followed by an `up` by the same thread,
/// leaves the semaphore exactly as it was.
pub proof fn lemma_down_up_restores(s: SemView, tid: usize, deadlock_detect: bool)
    requires
        sem_wf(s),
        s.0 > 0,
        deadlock_detect ==> held_by(s.2, tid) < usize::MAX,
    ensures
        !down_blocks(s),
        !up_wakes(down_view(s, tid, deadlock_detect)),
        up_view(down_view(s, tid, deadlock_detect), tid, deadlock_detect) == s,
{
    let d = down_view(s, tid, deadlock_detect);
    let u = up_view(d, tid, deadlock_detect);
    if deadlock_detect {
        assert(u.2 =~= s.2);
    }
}

/// When no unit is free and nobody waits, a `down` by `waiter` blocks it and
/// the next `up` (by any thread `giver`) wakes exactly `waiter`, hands the
/// unit over to it and brings the semaphore back to zero with nobody waiting.
pub proof fn lemma_blocked_down_is_woken_by_up(
    s: SemView,
    waiter: usize,
    giver: usize,
    deadlock_detect: bool,
)
    requires
        sem_wf(s),
        s.0 == 0,
    ensures
        down_blocks(s),
        up_wakes(down_view(s, waiter, deadlock_detect)),
        down_view(s, waiter, deadlock_detect).1[0] == waiter,
        up_view(down_view(s, waiter, deadlock_detect), giver, deadlock_detect) == (
            0int,
            Seq::<usize>::empty(),
            if deadlock_detect {
                grant(release(s.2, giver), waiter)
            } else {
                s.2
            },
        ),
{
    let d = down_view(s, waiter, deadlock_detect);
    assert(s.1.len() == 0);
    assert(d.1 =~= seq![waiter]);
    assert(d.1.drop_first() =~= Seq::<usize>::empty());
}

/// Blocked threads are woken in the order in which they blocked: from a
/// state with no free unit and nobody waiting, after `first` and then
/// `second` block, the next `up` wakes `first` and the one after it wakes
/// `second`.
pub proof fn lemma_wake_order(
    s: SemView,
    first: usize,
    second: usize,
    giver: usize,
    deadlock_detect: bool,
)
    requires
        sem_wf(s),
        s.0 == 0,
    ensures
        ({
            let d1 = down_view(s, first, deadlock_detect);
            let d2 = down_view(d1, second, deadlock_detect);
            let u1 = up_view(d2, giver, deadlock_detect);
            &&& down_blocks(s)
            &&& down_blocks(d1)
            &&& up_wakes(d2)
            &&& d2.1[0] == first
            &&& up_wakes(u1)
            &&& u1.1[0] == second
        }),
{
    let d1 = down_view(s, first, deadlock_detect);
    let d2 = down_view(d1, second, deadlock_detect);
    assert(s.1.len() == 0);
    assert(d2.1 =~= seq![first, second]);
    assert(d2.1.drop_first() =~= seq![second]);
}

/// A well-formed state has as many waiting threads as the counter is below
/// zero, none when it is not below zero, and every recorded holder holds at
/// least one unit.
pub proof fn lemma_wf_meaning(s: SemView)
    requires
        sem_wf(s),
    ensures
        s.0 < 0 ==> s.1.len() == -s.0,
        s.0 >= 0 ==> s.1.len() == 0,
        forall|k: usize| #[trigger] s.2.contains_key(k) ==> s.2[k] >= 1,
        s.2.dom().finite(),
{
}

/// What `down` by `tid` does: the counter drops by one; when no unit was
/// free (counter at most zero) the caller blocks and joins the back of the
/// queue, whatever the queue held, and nobody's units change; otherwise the
/// queue stays as it is and, with deadlock detection, the caller's units go
/// up by one and nobody else's change.
pub proof fn lemma_down_effect(s: SemView, tid: usize, deadlock_detect: bool)
    requires
        sem_wf(s),
    ensures
        down_view(s, tid, deadlock_detect).0 == s.0 - 1,
        down_blocks(s) <==> s.0 <= 0,
        s.0 <= 0 ==> down_view(s, tid, deadlock_detect).1 == s.1.push(tid),
        s.0 <= 0 ==> down_view(s, tid, deadlock_detect).2 == s.2,
        s.0 > 0 ==> down_view(s, tid, deadlock_detect).1 == s.1,
        s.0 > 0 && !deadlock_detect ==> down_view(s, tid, deadlock_detect).2 == s.2,
        s.0 > 0 && deadlock_detect && (s.2.contains_key(tid) ==> s.2[tid] < usize::MAX) ==> down_view(
            s,
            tid,
            deadlock_detect,
        ).2 == s.2.insert(
            tid,
            (if s.2.contains_key(tid) {
                s.2[tid] + 1
            } else {
                1
            }) as usize,
        ),
{
}

/// What `up` by `tid` does: the counter rises by one; when threads were
/// waiting (counter below zero) exactly the front one leaves the queue and
/// the rest keep their order, whatever the queue's length; otherwise the
/// queue stays as it is. With deadlock detection the caller gives one unit
/// back (dropping out of the record when it held one) and a woken thread is
/// granted one; without it nobody's units change.
pub proof fn lemma_up_effect(s: SemView, tid: usize, deadlock_detect: bool)
    requires
        sem_wf(s),
        deadlock_detect ==> s.2.contains_key(tid),
    ensures
        up_view(s, tid, deadlock_detect).0 == s.0 + 1,
        up_wakes(s) <==> s.0 < 0,
        s.0 < 0 ==> s.1.len() > 0 && up_view(s, tid, deadlock_detect).1 == s.1.drop_first(),
        s.0 >= 0 ==> up_view(s, tid, deadlock_detect).1 == s.1,
        !deadlock_detect ==> up_view(s, tid, deadlock_detect).2 == s.2,
        ({
            let given_back = if s.2[tid] == 1 {
                s.2.remove(tid)
            } else {
                s.2.insert(tid, (s.2[tid] - 1) as usize)
            };
            &&& deadlock_detect && s.0 >= 0 ==> up_view(s, tid, deadlock_detect).2 == given_back
            &&& deadlock_detect && s.0 < 0 ==> up_view(s, tid, deadlock_detect).2
                == given_back.insert(
                s.1[0],
                (if given_back.contains_key(s.1[0]) {
                    given_back[s.1[0]] + 1
                } else {
                    1
                }) as usize,
            )
        }),
{
}

/// Granting a unit lowers exactly the `need` entry of that thread and
/// resource by one.
pub proof fn lemma_need_granted(need: Seq<Seq<usize>>, tid: usize, res_id: usize)
    requires
        tid < need.len(),
        res_id < need[tid as int].len(),
        need[tid as int][res_id as int] > 0,
    ensures
        need_positive(need, tid, res_id),
        need_granted(need, tid, res_id).len() == need.len(),
        forall|i: int|
            0 <= i < need.len() ==> (#[trigger] need_granted(need, tid, res_id)[i]).len()
                == need[i].len(),
        need_granted(need, tid, res_id)[tid as int][res_id as int] == need[tid as int][res_id as int]
            - 1,
        forall|i: int, j: int|
            0 <= i < need.len() && 0 <= j < need[i].len() && (i != tid || j != res_id) ==> #[trigger] need_granted(
                need,
                tid,
                res_id,
            )[i][j] == need[i][j],
{
}

/// Sum of `m[k]` over the keys `k` in `keys`.
pub open spec fn sum_over(keys: Set<usize>, m: Map<usize, usize>) -> int {
    keys.fold(0int, |acc: int, k: usize| acc + m[k])
}

/// Total number of units held according to `held`.
pub open spec fn total_held(held: Map<usize, usize>) -> int {
    sum_over(held.dom(), held)
}

/// Units of a semaphore that are held or free.
pub open spec fn units(s: SemView) -> int {
    total_held(s.2) + if s.0 > 0 {
        s.0
    } else {
        0
    }
}

proof fn lemma_sum_step(keys: Set<usize>, m: Map<usize, usize>, k: usize)
    requires
        keys.finite(),
        !keys.contains(k),
    ensures
        sum_over(keys.insert(k), m) == sum_over(keys, m) + m[k],
{
    let f = |acc: int, x: usize| acc + m[x];
    assert(vstd::set::fold::is_fun_commutative(f));
    vstd::set::fold::lemma_fold_insert(keys, 0int, f, k);
}

proof fn lemma_sum_agree(keys: Set<usize>, m1: Map<usize, usize>, m2: Map<usize, usize>)
    requires
        keys.finite(),
        forall|k: usize| keys.contains(k) ==> m1[k] == m2[k],
    ensures
        sum_over(keys, m1) == sum_over(keys, m2),
    decreases keys.len(),
{
    if keys.len() == 0 {
        assert(keys =~= Set::<usize>::empty());
        vstd::set::fold::lemma_fold_empty(0int, |acc: int, x: usize| acc + m1[x]);
        vstd::set::fold::lemma_fold_empty(0int, |acc: int, x: usize| acc + m2[x]);
    } else {
        let a = keys.choose();
        let rest = keys.remove(a);
        assert(rest.insert(a) =~= keys);
        lemma_sum_agree(rest, m1, m2);
        lemma_sum_step(rest, m1, a);
        lemma_sum_step(rest, m2, a);
    }
}

/// Setting the entry of `k` to `v` changes the total by the difference.
proof fn lemma_total_insert(m: Map<usize, usize>, k: usize, v: usize)
    requires
        m.dom().finite(),
    ensures
        total_held(m.insert(k, v)) == total_held(m) - held_by(m, k) + v,
{
    let n = m.insert(k, v);
    let rest = m.dom().remove(k);
    assert(n.dom() =~= rest.insert(k));
    lemma_sum_agree(rest, m, n);
    lemma_sum_step(rest, n, k);
    if m.dom().contains(k) {
        assert(m.dom() =~= rest.insert(k));
        lemma_sum_step(rest, m, k);
    } else {
        assert(m.dom() =~= rest);
    }
}

/// Removing the entry of `k` lowers the total by that entry.
proof fn lemma_total_remove(m: Map<usize, usize>, k: usize)
    requires
        m.dom().finite(),
        m.dom().contains(k),
    ensures
        total_held(m.remove(k)) == total_held(m) - m[k],
{
    let n = m.remove(k);
    let rest = m.dom().remove(k);
    assert(n.dom() =~= rest);
    assert(m.dom() =~= rest.insert(k));
    lemma_sum_agree(rest, m, n);
    lemma_sum_step(rest, m, k);
}

/// The total held is zero for no holders; adding a new holder adds its
/// units; changing a holder's units changes the total by the difference; and
/// removing a holder subtracts its units.
pub proof fn lemma_total_held_laws(m: Map<usize, usize>, k: usize, v: usize)
    requires
        m.dom().finite(),
    ensures
        total_held(Map::<usize, usize>::empty()) == 0,
        !m.contains_key(k) ==> total_held(m.insert(k, v)) == total_held(m) + v,
        m.contains_key(k) ==> total_held(m.insert(k, v)) == total_held(m) - m[k] + v,
        m.contains_key(k) ==> total_held(m.remove(k)) == total_held(m) - m[k],
{
    let f = |acc: int, x: usize| acc + Map::<usize, usize>::empty()[x];
    assert(Map::<usize, usize>::empty().dom() =~= Set::<usize>::empty());
    vstd::set::fold::lemma_fold_empty(0int, f);
    lemma_total_insert(m, k, v);
    if m.contains_key(k) {
        lemma_total_remove(m, k);
    }
}

/// With deadlock detection, `down` keeps the units held plus the free
/// units unchanged.
pub proof fn lemma_down_conserves_units(s: SemView, tid: usize)
    requires
        sem_wf(s),
        !down_blocks(s) ==> held_by(s.2, tid) < usize::MAX,
    ensures
        units(down_view(s, tid, true)) == units(s),
{
    if !down_blocks(s) {
        lemma_total_insert(s.2, tid, (held_by(s.2, tid) + 1) as usize);
    }
}

/// With deadlock detection, `up` by a thread that holds a unit keeps the
/// units held plus the free units unchanged.
pub proof fn lemma_up_conserves_units(s: SemView, tid: usize)
    requires
        sem_wf(s),
        s.2.contains_key(tid),
        up_wakes(s) ==> held_by(release(s.2, tid), s.1[0]) < usize::MAX,
    ensures
        units(up_view(s, tid, true)) == units(s),
{
    let held = release(s.2, tid);
    if s.2[tid] == 1 {
        lemma_total_remove(s.2, tid);
    } else {
        lemma_total_insert(s.2, tid, (s.2[tid] - 1) as usize);
    }
    if up_wakes(s) {
        let w = s.1[0];
        lemma_total_insert(held, w, (held_by(held, w) + 1) as usize);
    }
}

/// Inner state of a semaphore.
pub struct SemaphoreInner {
    /// Available units; a negative value counts the blocked threads.
    pub(crate) count: isize,
    /// Thread ids of the blocked threads, in the order in which they blocked.
    pub(crate) wait_queue: VecDeque<usize>,
    /// Units held per thread id (kept only by deadlock-detecting operations).
    pub(crate) allocations: BTreeMap<usize, usize>,
}

impl View for SemaphoreInner {
    type V = SemView;

    closed spec fn view(&self) -> SemView {
        (self.count as int, self.wait_queue@, self.allocations@)
    }
}

impl SemaphoreInner {
    fn with_count(count: isize) -> (s: Self)
        requires
            count >= 0,
        ensures
            s@ == (count as int, Seq::<usize>::empty(), Map::<usize, usize>::empty()),
            sem_wf(s@),
    {
        let s = SemaphoreInner {
            count,
            wait_queue: VecDeque::new(),
            allocations: BTreeMap::new(),
        };
        proof {
            assert(s@.2 =~= Map::<usize, usize>::empty());
        }
        s
    }

    fn step_up(
        &mut self,
        tid: usize,
        res_id: usize,
        deadlock_detect: bool,
        need: &mut Vec<Vec<usize>>,
    ) -> (woken: Option<usize>)
        requires
            sem_wf(old(self)@),
            old(self)@.0 < isize::MAX,
            deadlock_detect ==> old(self)@.2.contains_key(tid),
            deadlock_detect && up_wakes(old(self)@) ==> {
                &&& need_positive(old(need).deep_view(), old(self)@.1[0], res_id)
                &&& held_by(release(old(self)@.2, tid), old(self)@.1[0]) < usize::MAX
            },
        ensures
            sem_wf(final(self)@),
            final(self)@ == up_view(old(self)@, tid, deadlock_detect),
            woken == (if up_wakes(old(self)@) {
                Some(old(self)@.1[0])
            } else {
                None::<usize>
            }),
            final(need).deep_view() == (if deadlock_detect && up_wakes(old(self)@) {
                need_granted(old(need).deep_view(), old(self)@.1[0], res_id)
            } else {
                old(need).deep_view()
            }),
    {
        proof {
            lemma_up_preserves_wf(old(self)@, tid, deadlock_detect);
        }
        self.count = self.count + 1;
        if deadlock_detect {
            match self.allocations.get(&tid) {
                Some(a) => {
                    let allocation: usize = *a;
                    if allocation == 1 {
                        self.allocations.remove(&tid);
                    } else {
                        self.allocations.insert(tid, allocation - 1);
                    }
                },
                None => {},
            }
        }
        if self.count <= 0 {
            match self.wait_queue.pop_front() {
                Some(task) => {
                    if deadlock_detect {
                        let current: usize = match self.allocations.get(&task) {
                            Some(a) => *a,
                            None => 0,
                        };
                        self.allocations.insert(task, current + 1);
                        need[task][res_id] = need[task][res_id] - 1;
                        proof {
                            assert(need.deep_view() =~~= need_granted(
                                old(need).deep_view(),
                                task,
                                res_id,
                            ));
                        }
                    }
                    return Some(task);
                },
                None => {},
            }
        }
        None
    }

    fn step_down(
        &mut self,
        tid: usize,
        res_id: usize,
        deadlock_detect: bool,
        need: &mut Vec<Vec<usize>>,
    ) -> (blocked: bool)
        requires
            sem_wf(old(self)@),
            old(self)@.0 > isize::MIN,
            deadlock_detect && !down_blocks(old(self)@) ==> {
                &&& need_positive(old(need).deep_view(), tid, res_id)
                &&& held_by(old(self)@.2, tid) < usize::MAX
            },
        ensures
            sem_wf(final(self)@),
            final(self)@ == down_view(old(self)@, tid, deadlock_detect),
            blocked == down_blocks(old(self)@),
            final(need).deep_view() == (if deadlock_detect && !blocked {
                need_granted(old(need).deep_view(), tid, res_id)
            } else {
                old(need).deep_view()
            }),
    {
        proof {
            lemma_down_preserves_wf(old(self)@, tid, deadlock_detect);
        }
        self.count = self.count - 1;
        if self.count < 0 {
            self.wait_queue.push_back(tid);
            true
        } else {
            if deadlock_detect {
                let current: usize = match self.allocations.get(&tid) {
                    Some(a) => *a,
                    None => 0,
                };
                self.allocations.insert(tid, current + 1);
                need[tid][res_id] = need[tid][res_id] - 1;
                proof {
                    assert(need.deep_view() =~~= need_granted(old(need).deep_view(), tid, res_id));
                }
            }
            false
        }
    }
}

/// Semaphore structure.
pub struct Semaphore {
    /// Semaphore inner.
    inner: SemaphoreInner,
}

impl View for Semaphore {
    type V = SemView;

    closed spec fn view(&self) -> SemView {
        self.inner@
    }
}

impl Semaphore {
    /// Every semaphore is well-formed (see [`sem_wf`]).
    #[verifier::type_invariant]
    spec fn inv(self) -> bool {
        sem_wf(self.inner@)
    }

    /// Creates a new semaphore with `res_count` available units.
    pub fn new(res_count: usize) -> (s: Self)
        requires
            res_count <= isize::MAX,
        ensures
            sem_wf(s@),
            s@ == (res_count as int, Seq::<usize>::empty(), Map::<usize, usize>::empty()),
    {
        Semaphore { inner: SemaphoreInner::with_count(res_count as isize) }
    }

    /// Up operation by thread `tid` on resource `res_id`.
    ///
    /// Returns the thread id of the blocked thread that must now be woken, if
    /// any. With deadlock detection on, the caller gives one unit back and the
    /// woken thread is granted one (its `need` entry for `res_id` drops by one).
    pub fn up(
        &mut self,
        tid: usize,
        res_id: usize,
        deadlock_detect: bool,
        need: &mut Vec<Vec<usize>>,
    ) -> (woken: Option<usize>)
        requires
            old(self)@.0 < isize::MAX,
            deadlock_detect ==> old(self)@.2.contains_key(tid),
            deadlock_detect && up_wakes(old(self)@) ==> {
                &&& need_positive(old(need).deep_view(), old(self)@.1[0], res_id)
                &&& held_by(release(old(self)@.2, tid), old(self)@.1[0]) < usize::MAX
            },
        ensures
            sem_wf(old(self)@),
            sem_wf(final(self)@),
            final(self)@ == up_view(old(self)@, tid, deadlock_detect),
            woken == (if up_wakes(old(self)@) {
                Some(old(self)@.1[0])
            } else {
                None::<usize>
            }),
            final(need).deep_view() == (if deadlock_detect && up_wakes(old(self)@) {
                need_granted(old(need).deep_view(), old(self)@.1[0], res_id)
            } else {
                old(need).deep_view()
            }),
    {
        proof {
            use_type_invariant(&*self);
        }
        let mut inner = SemaphoreInner::with_count(0);
        std::mem::swap(&mut inner, &mut self.inner);
        let woken = inner.step_up(tid, res_id, deadlock_detect, need);
        self.inner = inner;
        woken
    }

    /// Down operation by thread `tid` on resource `res_id`.
    ///
    /// Returns `true` when the caller has been queued and must block. With
    /// deadlock detection on, a caller that does not block is granted one unit
    /// (its `need` entry for `res_id` drops by one).
    pub fn down(
        &mut self,
        tid: usize,
        res_id: usize,
        deadlock_detect: bool,
        need: &mut Vec<Vec<usize>>,
    ) -> (blocked: bool)
        requires
            old(self)@.0 > isize::MIN,
            deadlock_detect && !down_blocks(old(self)@) ==> {
                &&& need_positive(old(need).deep_view(), tid, res_id)
                &&& held_by(old(self)@.2, tid) < usize::MAX
            },
        ensures
            sem_wf(old(self)@),
            sem_wf(final(self)@),
            final(self)@ == down_view(old(self)@, tid, deadlock_detect),
            blocked == down_blocks(old(self)@),
            final(need).deep_view() == (if deadlock_detect && !blocked {
                need_granted(old(need).deep_view(), tid, res_id)
            } else {
                old(need).deep_view()
            }),
    {
        proof {
            use_type_invariant(&*self);
        }
        let mut inner = SemaphoreInner::with_count(0);
        std::mem::swap(&mut inner, &mut self.inner);
        let blocked = inner.step_down(tid, res_id, deadlock_detect, need);
        self.inner = inner;
        blocked
    }

    /// Looks up the counter of the semaphore.
    pub fn get_count(&self) -> (count: isize)
        ensures
            count == self@.0,
            sem_wf(self@),
    {
        proof {
            use_type_invariant(self);
        }
        self.inner.count
    }

    /// The blocked threads, front of the queue first.
    pub fn waiting(&self) -> (tids: Vec<usize>)
        ensures
            tids@ == self@.1,
            sem_wf(self@),
    {
        proof {
            use_type_invariant(self);
        }
        let mut tids: Vec<usize> = Vec::new();
        let n = self.inner.wait_queue.len();
        let mut i: usize = 0;
        while i < n
            invariant
                n == self.inner.wait_queue@.len(),
                i <= n,
                tids@ == self.inner.wait_queue@.subrange(0, i as int),
            decreases n - i,
        {
            tids.push(self.inner.wait_queue[i]);
            i = i + 1;
        }
        proof {
            assert(tids@ =~= self.inner.wait_queue@);
        }
        tids
    }

    /// Number of units that thread `tid` holds, as deadlock-detecting
    /// operations recorded them.
    pub fn allocation(&self, tid: usize) -> (units: usize)
        ensures
            units == held_by(self@.2, tid),
            sem_wf(self@),
    {
        proof {
            use_type_invariant(self);
        }
        match self.inner.allocations.get(&tid) {
            Some(a) => *a,
            None => 0,
        }
    }
}

} // verus!
