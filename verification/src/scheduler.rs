//! The decisions of a hart's scheduler: which task runs next, and what is
//! recorded of the tasks in its run queue. Switching contexts, reading the
//! clock and looking at the tasks' states are left to the caller, which
//! hands in the readings and the states and carries out the decision.
use vstd::prelude::*;
use crate::task::{TaskMetadata, TaskState};

verus! {

/// The task id that stands for "no idle task yet".
pub const NO_TASK: u64 = 0xFFFF_FFFF_FFFF_FFFF;

/// `s` rotated left by `k` places: its first `k` items moved to the end.
pub open spec fn rotated(s: Seq<u64>, k: int) -> Seq<u64> {
    s.skip(k) + s.take(k)
}

/// The first `k` from `j` up to `n` for which the task at `k % n` of the
/// order before the turn is ready.
pub open spec fn first_ready(ready: Seq<bool>, n: int, j: int) -> Option<int>
    decreases n + 1 - j,
{
    if j > n || j < 1 {
        None
    } else if ready[j % n] {
        Some(j)
    } else {
        first_ready(ready, n, j + 1)
    }
}

/// The order of the tasks and the task chosen after a round-robin pick,
/// where `ready[i]` says whether the `i`th task of `tasks` is ready: the
/// queue turns by one until a ready task is at its front, which is chosen;
/// after a whole turn without one, the idle task is.
pub open spec fn round_robin(tasks: Seq<u64>, idle: u64, ready: Seq<bool>) -> (Seq<u64>, u64) {
    let n = tasks.len() as int;
    if n == 0 {
        (tasks, idle)
    } else {
        match first_ready(ready, n, 1) {
            Some(k) => (rotated(tasks, k), tasks[k % n]),
            None => (tasks, idle),
        }
    }
}

/// The index of the first `t` in `s`, or the length when there is none.
pub open spec fn first_index(s: Seq<u64>, t: u64) -> int
    decreases s.len(),
{
    if s.len() == 0 {
        0
    } else if s[0] == t {
        0
    } else {
        1 + first_index(s.drop_first(), t)
    }
}

/// The first `t` of `s` is at `first_index`.
pub proof fn lemma_first_index(s: Seq<u64>, t: u64, i: int)
    requires
        0 <= i < s.len(),
        s[i] == t,
        forall|k: int| 0 <= k < i ==> s[k] != t,
    ensures
        first_index(s, t) == i,
    decreases s.len(),
{
    if i > 0 {
        lemma_first_index(s.drop_first(), t, i - 1);
    }
}

/// A round-robin policy: the queued tasks in turn order, and the idle task.
pub struct RoundRobinPolicy {
    tasks: Vec<u64>,
    idle_tid: u64,
}

impl RoundRobinPolicy {
    /// The queued tasks in turn order.
    pub closed spec fn queue(&self) -> Seq<u64> {
        self.tasks@
    }

    /// The idle task.
    pub closed spec fn idle(&self) -> u64 {
        self.idle_tid
    }

    /// A policy with no task and no idle task.
    pub fn new() -> (r: Self)
        ensures
            r.queue() == Seq::<u64>::empty(),
            r.idle() == NO_TASK,
    {
        RoundRobinPolicy { tasks: Vec::new(), idle_tid: NO_TASK }
    }

    /// Picks the next task to run, `ready[i]` saying whether the `i`th
    /// queued task is ready to run.
    pub fn next(&mut self, ready: &Vec<bool>) -> (r: u64)
        requires
            ready@.len() == old(self).queue().len(),
        ensures
            (final(self).queue(), r) == round_robin(old(self).queue(), old(self).idle(), ready@),
            final(self).idle() == old(self).idle(),
    {
        let n = self.tasks.len();
        if n == 0 {
            return self.idle_tid;
        }
        let ghost orig = self.tasks@;
        proof {
            assert(rotated(orig, 0) =~= orig);
        }
        let mut j: usize = 0;
        while j < n
            invariant
                n == orig.len(),
                orig == old(self).tasks@,
                n > 0,
                ready@.len() == n,
                0 <= j <= n,
                self.tasks@ == rotated(orig, j as int),
                self.idle_tid == old(self).idle_tid,
                first_ready(ready@, n as int, j + 1) == first_ready(ready@, n as int, 1),
            decreases n - j,
        {
            let first = self.tasks.remove(0);
            self.tasks.push(first);
            proof {
                assert(self.tasks@ =~= rotated(orig, j + 1)) by {
                    assert forall|i: int| 0 <= i < n implies self.tasks@[i] == rotated(orig, j + 1)[i] by {
                        if i < n - 1 {
                            if j + i + 1 < n {
                                assert(rotated(orig, j as int)[i + 1] == orig[j + i + 1]);
                            } else {
                                assert(rotated(orig, j as int)[i + 1] == orig[j + i + 1 - n]);
                            }
                        } else {
                            assert(rotated(orig, j as int)[0] == if j < n { orig[j as int] } else { orig[0] });
                        }
                    }
                }
            }
            let index = (j + 1) % n;
            if ready[index] {
                proof {
                    if j + 1 < n {
                        vstd::arithmetic::div_mod::lemma_small_mod((j + 1) as nat, n as nat);
                        assert((j + 1) % (n as int) == j + 1);
                        assert(rotated(orig, j + 1)[0] == orig[j + 1]);
                    } else {
                        vstd::arithmetic::div_mod::lemma_mod_self_0(n as int);
                        assert((j + 1) % (n as int) == 0);
                        assert(rotated(orig, j + 1)[0] == orig[0]);
                    }
                }
                return self.tasks[0];
            }
            j = j + 1;
        }
        proof {
            assert(rotated(orig, n as int) =~= orig);
        }
        self.idle_tid
    }

    /// Puts a newly queued task at the back of the turn order.
    pub fn task_enqueued(&mut self, tid: u64)
        ensures
            final(self).queue() == old(self).queue().push(tid),
            final(self).idle() == old(self).idle(),
    {
        self.tasks.push(tid);
    }

    /// Takes a task out of the turn order; it must be queued.
    pub fn task_dequeued(&mut self, tid: u64)
        requires
            old(self).queue().contains(tid),
        ensures
            final(self).queue() == old(self).queue().remove(first_index(old(self).queue(), tid)),
            final(self).idle() == old(self).idle(),
    {
        let ghost q = self.tasks@;
        let mut i: usize = 0;
        while i < self.tasks.len()
            invariant
                self.tasks@ == q,
                q == old(self).tasks@,
                self.idle_tid == old(self).idle_tid,
                q.contains(tid),
                i <= q.len(),
                forall|k: int| 0 <= k < i ==> q[k] != tid,
            decreases q.len() - i,
        {
            if self.tasks[i] == tid {
                proof {
                    lemma_first_index(q, tid, i as int);
                }
                self.tasks.remove(i);
                proof {
                    assert(self.tasks@ == q.remove(i as int));
                }
                return;
            }
            i = i + 1;
        }
        proof {
            let w = choose|w: int| 0 <= w < q.len() && q[w] == tid;
            assert(q[w] != tid);
        }
    }

    /// A priority change does not move a task in round-robin order.
    pub fn task_priority_changed(&mut self, tid: u64, priority: u16)
        ensures
            *final(self) == *old(self),
    {
    }

    /// A preemption does not move a task in round-robin order.
    pub fn task_preempted(&mut self, tid: u64)
        ensures
            *final(self) == *old(self),
    {
    }

    /// Makes `tid` the task to run when no other is ready.
    pub fn idle_task(&mut self, tid: u64)
        ensures
            final(self).queue() == old(self).queue(),
            final(self).idle() == tid,
    {
        self.idle_tid = tid;
    }
}

/// The position of the first entry of the run queue `q` for `tid`, if any.
pub open spec fn position(q: Seq<(u64, TaskMetadata)>, tid: u64) -> Option<int>
    decreases q.len(),
{
    if q.len() == 0 {
        None
    } else if q.last().0 == tid {
        match position(q.drop_last(), tid) {
            Some(i) => Some(i),
            None => Some(q.len() - 1),
        }
    } else {
        position(q.drop_last(), tid)
    }
}

/// What a hart's scheduler decided: go on with the task that ran, or switch
/// to another.
#[derive(Debug, Clone, Copy, PartialEq, Eq, Structural)]
pub enum Decision {
    Continue,
    Switch(u64),
}

/// The run queue after recording that the task at `i` ran until `now`.
pub open spec fn charged(q: Seq<(u64, TaskMetadata)>, i: int, now: u64) -> Seq<(u64, TaskMetadata)> {
    let m = q[i].1;
    q.update(i, (q[i].0, TaskMetadata { run_time: (m.run_time + (now - m.last_scheduled_at)) as u64, ..m }))
}

/// The run queue after recording that the task at `i` was scheduled at
/// `now`.
pub open spec fn stamped(q: Seq<(u64, TaskMetadata)>, i: int, now: u64) -> Seq<(u64, TaskMetadata)> {
    q.update(i, (q[i].0, TaskMetadata { last_scheduled_at: now, ..q[i].1 }))
}

/// The scheduler of one hart: its policy and its run queue of tasks with
/// what it records of them.
pub struct SchedulerInner {
    policy: RoundRobinPolicy,
    run_queue: Vec<(u64, TaskMetadata)>,
}

impl SchedulerInner {
    /// The run queue.
    pub closed spec fn queue(&self) -> Seq<(u64, TaskMetadata)> {
        self.run_queue@
    }

    /// The policy.
    pub closed spec fn policy(&self) -> RoundRobinPolicy {
        self.policy
    }

    /// Every task the policy can pick, the idle task among them, has an
    /// entry in the run queue.
    pub open spec fn wf(&self) -> bool {
        &&& position(self.queue(), self.policy().idle()) is Some
        &&& forall|k: int|
            0 <= k < self.policy().queue().len() ==> #[trigger] position(self.queue(), self.policy().queue()[k])
                is Some
    }

    /// A scheduler with no task.
    pub fn new() -> (r: Self)
        ensures
            r.queue() == Seq::<(u64, TaskMetadata)>::empty(),
            r.policy().queue() == Seq::<u64>::empty(),
            r.policy().idle() == NO_TASK,
    {
        SchedulerInner { policy: RoundRobinPolicy::new(), run_queue: Vec::new() }
    }

    /// The position of `tid` in the run queue.
    fn find(&self, tid: u64) -> (r: Option<usize>)
        ensures
            match r {
                Some(k) => position(self.queue(), tid) == Some(k as int),
                None => position(self.queue(), tid).is_none(),
            },
    {
        let ghost q = self.run_queue@;
        let mut i: usize = 0;
        while i < self.run_queue.len()
            invariant
                q == self.run_queue@,
                i <= q.len(),
                forall|k: int| 0 <= k < i ==> q[k].0 != tid,
            decreases q.len() - i,
        {
            if self.run_queue[i].0 == tid {
                proof {
                    lemma_position_first(q, tid, i as int);
                }
                return Some(i);
            }
            i = i + 1;
        }
        proof {
            lemma_position_none(q, tid);
        }
        None
    }

    /// Queues the task `tid` with fresh metadata, replacing any entry it
    /// had, and puts it at the back of the policy's turn order.
    pub fn enqueue(&mut self, tid: u64)
        ensures
            final(self).queue() == match position(old(self).queue(), tid) {
                Some(i) => old(self).queue().update(i, (tid, TaskMetadata::new_spec())),
                None => old(self).queue().push((tid, TaskMetadata::new_spec())),
            },
            final(self).policy().queue() == old(self).policy().queue().push(tid),
            final(self).policy().idle() == old(self).policy().idle(),
    {
        let meta = TaskMetadata::new();
        proof {
            lemma_position_bound(self.run_queue@, tid);
        }
        match self.find(tid) {
            Some(i) => {
                self.run_queue.set(i, (tid, meta));
            },
            None => {
                self.run_queue.push((tid, meta));
            },
        }
        self.policy.task_enqueued(tid);
    }

    /// Decides what runs after the task `current`, which must be queued:
    /// charges it the time from when it was scheduled to `now_out`, picks
    /// the next task through the policy with `ready[i]` saying whether the
    /// policy's `i`th task is ready, and, when that is another task, stamps
    /// it as scheduled at `now_in` and switches to it.
    pub fn schedule(&mut self, current: u64, now_out: u64, ready: &Vec<bool>, now_in: u64) -> (r: Decision)
        requires
            old(self).wf(),
            position(old(self).queue(), current) is Some,
            ({
                let m = old(self).queue()[position(old(self).queue(), current)->0].1;
                now_out >= m.last_scheduled_at && m.run_time + (now_out - m.last_scheduled_at) <= u64::MAX
            }),
            ready@.len() == old(self).policy().queue().len(),
        ensures
            ({
                let i = position(old(self).queue(), current)->0;
                let q1 = charged(old(self).queue(), i, now_out);
                let (order, next) = round_robin(old(self).policy().queue(), old(self).policy().idle(), ready@);
                &&& final(self).policy().queue() == order
                &&& final(self).policy().idle() == old(self).policy().idle()
                &&& if next != current {
                    &&& r == Decision::Switch(next)
                    &&& final(self).queue() == stamped(q1, position(old(self).queue(), next)->0, now_in)
                } else {
                    &&& r == Decision::Continue
                    &&& final(self).queue() == q1
                }
            }),
    {
        proof {
            lemma_position_bound(self.run_queue@, current);
        }
        let i = match self.find(current) {
            Some(i) => i,
            None => {
                proof {
                    assert(false);
                }
                return Decision::Continue;
            },
        };
        let (tid, m) = self.run_queue[i];
        let charged_meta = TaskMetadata { run_time: m.run_time + (now_out - m.last_scheduled_at), ..m };
        self.run_queue.set(i, (tid, charged_meta));
        let ghost q1 = self.run_queue@;
        let ghost old_queue = old(self).policy().queue();
        let next = self.policy.next(ready);
        proof {
            lemma_position_kept(old(self).queue(), i as int, (tid, charged_meta), next);
            let n = old_queue.len() as int;
            if next != old(self).policy().idle() {
                let k = first_ready(ready@, n, 1)->0;
                lemma_first_ready_range(ready@, n, 1);
                assert(next == old_queue[k % n]);
                assert(position(old(self).queue(), old_queue[k % n]) is Some);
            }
        }
        if next != current {
            proof {
                lemma_position_bound(self.run_queue@, next);
            }
            let j = match self.find(next) {
                Some(j) => j,
                None => {
                    proof {
                        assert(false);
                    }
                    return Decision::Continue;
                },
            };
            let (ntid, nm) = self.run_queue[j];
            self.run_queue.set(j, (ntid, TaskMetadata { last_scheduled_at: now_in, ..nm }));
            Decision::Switch(next)
        } else {
            Decision::Continue
        }
    }

    /// Starts scheduling on this hart: queues the idle task `idle_tid`,
    /// makes it the policy's idle task, and picks the first task to run,
    /// `ready[i]` saying whether the policy's `i`th task, the idle task
    /// last, is ready.
    pub fn begin_scheduling(&mut self, idle_tid: u64, ready: &Vec<bool>) -> (r: u64)
        requires
            forall|k: int|
                0 <= k < old(self).policy().queue().len() ==> #[trigger] position(
                    old(self).queue(),
                    old(self).policy().queue()[k],
                ) is Some,
            ready@.len() == old(self).policy().queue().len() + 1,
        ensures
            final(self).wf(),
            ({
                let q = match position(old(self).queue(), idle_tid) {
                    Some(i) => old(self).queue().update(i, (idle_tid, TaskMetadata::new_spec())),
                    None => old(self).queue().push((idle_tid, TaskMetadata::new_spec())),
                };
                let (order, next) = round_robin(old(self).policy().queue().push(idle_tid), idle_tid, ready@);
                &&& final(self).queue() == q
                &&& final(self).policy().queue() == order
                &&& final(self).policy().idle() == idle_tid
                &&& r == next
            }),
    {
        let ghost q0 = self.run_queue@;
        let ghost p0 = self.policy.tasks@;
        self.enqueue(idle_tid);
        self.policy.idle_task(idle_tid);
        proof {
            lemma_enqueue_positions(q0, self.run_queue@, idle_tid);
            let t2 = p0.push(idle_tid);
            assert forall|k: int| 0 <= k < t2.len() implies #[trigger] position(self.run_queue@, t2[k]) is Some by {
                if k < p0.len() {
                    assert(position(q0, p0[k]) is Some);
                    assert(position(self.run_queue@, p0[k]) is Some);
                }
            }
        }
        let next = self.policy.next(ready);
        proof {
            lemma_rotated_keeps(self.policy.tasks@, p0.push(idle_tid), ready@, idle_tid, self.run_queue@);
        }
        next
    }
}

/// Writing the entry at `i` of a run queue with the same task id keeps the
/// position of every task id.
pub proof fn lemma_position_kept(q: Seq<(u64, TaskMetadata)>, i: int, e: (u64, TaskMetadata), tid: u64)
    requires
        0 <= i < q.len(),
        e.0 == q[i].0,
    ensures
        position(q.update(i, e), tid) == position(q, tid),
    decreases q.len(),
{
    let r = q.update(i, e);
    if i < q.len() - 1 {
        assert(r.drop_last() =~= q.drop_last().update(i, e));
        lemma_position_kept(q.drop_last(), i, e, tid);
    } else {
        assert(r.drop_last() =~= q.drop_last());
    }
}

/// The `k` of `first_ready` lies between 1 and `n`.
pub proof fn lemma_first_ready_range(ready: Seq<bool>, n: int, j: int)
    requires
        first_ready(ready, n, j) is Some,
    ensures
        1 <= first_ready(ready, n, j)->0 <= n,
        first_ready(ready, n, j)->0 >= j,
    decreases n + 1 - j,
{
    if j <= n && j >= 1 && !ready[j % n] {
        lemma_first_ready_range(ready, n, j + 1);
    }
}

/// After queueing `tid`, `tid` and every task id that had an entry have one.
pub proof fn lemma_enqueue_positions(q: Seq<(u64, TaskMetadata)>, q2: Seq<(u64, TaskMetadata)>, tid: u64)
    requires
        q2 == match position(q, tid) {
            Some(i) => q.update(i, (tid, TaskMetadata::new_spec())),
            None => q.push((tid, TaskMetadata::new_spec())),
        },
    ensures
        position(q2, tid) is Some,
        forall|t: u64| position(q, t) is Some ==> #[trigger] position(q2, t) is Some,
{
    lemma_position_bound(q, tid);
    match position(q, tid) {
        Some(i) => {
            assert forall|t: u64| position(q, t) is Some implies #[trigger] position(q2, t) is Some by {
                lemma_position_kept(q, i, (tid, TaskMetadata::new_spec()), t);
            }
            lemma_position_kept(q, i, (tid, TaskMetadata::new_spec()), tid);
        },
        None => {
            assert(q2.drop_last() =~= q);
        },
    }
}

/// The first entry for `tid` is at its position.
pub proof fn lemma_position_first(q: Seq<(u64, TaskMetadata)>, tid: u64, i: int)
    requires
        0 <= i < q.len(),
        q[i].0 == tid,
        forall|k: int| 0 <= k < i ==> q[k].0 != tid,
    ensures
        position(q, tid) == Some(i),
    decreases q.len(),
{
    if i < q.len() - 1 {
        lemma_position_first(q.drop_last(), tid, i);
    } else {
        lemma_position_none(q.drop_last(), tid);
    }
}

/// A queue without an entry for `tid` gives it no position.
pub proof fn lemma_position_none(q: Seq<(u64, TaskMetadata)>, tid: u64)
    requires
        forall|k: int| 0 <= k < q.len() ==> q[k].0 != tid,
    ensures
        position(q, tid).is_none(),
    decreases q.len(),
{
    if q.len() > 0 {
        lemma_position_none(q.drop_last(), tid);
    }
}

/// A position lies inside the queue and holds the task id.
pub proof fn lemma_position_bound(q: Seq<(u64, TaskMetadata)>, tid: u64)
    ensures
        position(q, tid) is Some ==> 0 <= position(q, tid)->0 < q.len() && q[position(q, tid)->0].0 == tid,
    decreases q.len(),
{
    if q.len() > 0 {
        lemma_position_bound(q.drop_last(), tid);
    }
}

/// After a round-robin pick over tasks that all have entries in the run
/// queue `q`, the picked task and every task of the new order have one.
pub proof fn lemma_rotated_keeps(
    order: Seq<u64>,
    tasks: Seq<u64>,
    ready: Seq<bool>,
    idle: u64,
    q: Seq<(u64, TaskMetadata)>,
)
    requires
        forall|k: int| 0 <= k < tasks.len() ==> #[trigger] position(q, tasks[k]) is Some,
        position(q, idle) is Some,
        ready.len() == tasks.len(),
        order == round_robin(tasks, idle, ready).0,
    ensures
        forall|k: int| 0 <= k < order.len() ==> #[trigger] position(q, order[k]) is Some,
        position(q, round_robin(tasks, idle, ready).1) is Some,
{
    let n = tasks.len() as int;
    if n > 0 {
        match first_ready(ready, n, 1) {
            Some(k) => {
                lemma_first_ready_range(ready, n, 1);
                assert(position(q, tasks[k % n]) is Some);
                assert forall|m: int| 0 <= m < order.len() implies #[trigger] position(q, order[m]) is Some by {
                    if m < n - k {
                        assert(order[m] == tasks[k + m]);
                    } else {
                        assert(order[m] == tasks[m - (n - k)]);
                    }
                }
            },
            None => {},
        }
    }
}


/// A round-robin pick runs the idle task or a queued task that is ready,
/// and the turn order it leaves holds the same tasks as before, each as
/// often.
pub proof fn lemma_round_robin_picks_ready(tasks: Seq<u64>, idle: u64, ready: Seq<bool>)
    requires
        ready.len() == tasks.len(),
    ensures
        ({
            let (order, next) = round_robin(tasks, idle, ready);
            &&& next == idle || exists|k: int| 0 <= k < tasks.len() && ready[k] && tasks[k] == next
            &&& order.to_multiset() == tasks.to_multiset()
        }),
{
    let n = tasks.len() as int;
    if n > 0 {
        if let Some(k) = first_ready(ready, n, 1) {
            lemma_first_ready_range(ready, n, 1);
            lemma_first_ready_holds(ready, n, 1);
            vstd::seq_lib::lemma_seq_union_to_multiset_commutative(tasks.skip(k), tasks.take(k));
            assert(tasks.take(k) + tasks.skip(k) =~= tasks);
            let m = k % n;
            assert(0 <= m < n);
            assert(ready[m] && tasks[m] == tasks[k % n]);
            assert(round_robin(tasks, idle, ready).1 == tasks[m]);
            assert(rotated(tasks, k).to_multiset() == tasks.to_multiset());
            assert(round_robin(tasks, idle, ready).0 == rotated(tasks, k));
        }
    }
}

/// The `k` of `first_ready` names a ready task.
pub proof fn lemma_first_ready_holds(ready: Seq<bool>, n: int, j: int)
    requires
        first_ready(ready, n, j) is Some,
    ensures
        ready[first_ready(ready, n, j)->0 % n],
    decreases n + 1 - j,
{
    if j <= n && j >= 1 && !ready[j % n] {
        lemma_first_ready_holds(ready, n, j + 1);
    }
}


/// The tasks that wait on a resource, in the order they began to wait. The
/// caller marks a waiting task blocked and one that is woken ready.
pub struct WaitQueue {
    queue: Vec<u64>,
}

impl WaitQueue {
    /// The waiting tasks, first to wait first.
    pub closed spec fn waiting(&self) -> Seq<u64> {
        self.queue@
    }

    /// A queue with no task waiting.
    pub fn new() -> (r: Self)
        ensures
            r.waiting() == Seq::<u64>::empty(),
    {
        WaitQueue { queue: Vec::new() }
    }

    /// The task `tid` begins to wait, behind every task waiting already.
    pub fn wait(&mut self, tid: u64)
        ensures
            final(self).waiting() == old(self).waiting().push(tid),
    {
        self.queue.push(tid);
    }

    /// Wakes the task that has waited longest, if any.
    pub fn wake_one(&mut self) -> (r: Option<u64>)
        ensures
            old(self).waiting().len() == 0 ==> r.is_none() && final(self).waiting() == old(self).waiting(),
            old(self).waiting().len() > 0 ==> r == Some(old(self).waiting()[0]) && final(self).waiting()
                == old(self).waiting().drop_first(),
    {
        if self.queue.len() == 0 {
            None
        } else {
            let tid = self.queue.remove(0);
            proof {
                assert(self.queue@ =~= old(self).queue@.drop_first());
            }
            Some(tid)
        }
    }

    /// Wakes every waiting task, in the order they began to wait.
    pub fn wake_all(&mut self) -> (r: Vec<u64>)
        ensures
            r@ == old(self).waiting(),
            final(self).waiting() == Seq::<u64>::empty(),
    {
        let mut woken: Vec<u64> = Vec::new();
        std::mem::swap(&mut woken, &mut self.queue);
        woken
    }
}

/// Tasks wake in the order they began to wait: after `wait` of `tid`, the
/// task `wake_one` wakes is the first that was waiting, or `tid` when none
/// was.
pub proof fn lemma_waiters_wake_in_order(waiting: Seq<u64>, tid: u64)
    ensures
        waiting.push(tid)[0] == if waiting.len() == 0 {
            tid
        } else {
            waiting[0]
        },
        waiting.push(tid).drop_first() == if waiting.len() == 0 {
            Seq::<u64>::empty()
        } else {
            waiting.drop_first().push(tid)
        },
{
    assert(waiting.push(tid).drop_first() =~= if waiting.len() == 0 {
        Seq::<u64>::empty()
    } else {
        waiting.drop_first().push(tid)
    });
}

} // verus!
