use lib::scheduler::{Decision, RoundRobinPolicy, SchedulerInner, WaitQueue, NO_TASK};
use lib::tasks::TaskList;

#[test]
fn round_robin_turns_to_the_next_ready_task() {
    let mut policy = RoundRobinPolicy::new();
    assert_eq!(policy.next(&vec![]), NO_TASK);
    policy.idle_task(9);
    policy.task_enqueued(1);
    policy.task_enqueued(2);
    policy.task_enqueued(3);
    // Order 1 2 3: the queue turns once, 2 is ready.
    assert_eq!(policy.next(&vec![true, true, false]), 2);
    // Order 2 3 1: 3 is not ready, 1 is.
    assert_eq!(policy.next(&vec![true, false, true]), 1);
    // Order 1 2 3: nothing is ready, the idle task runs.
    assert_eq!(policy.next(&vec![false, false, false]), 9);
    // A whole turn leaves the order as it was; only the front is ready.
    assert_eq!(policy.next(&vec![true, false, false]), 1);
    policy.task_dequeued(2);
    assert_eq!(policy.next(&vec![true, true]), 3);
}

#[test]
fn scheduler_charges_time_and_switches() {
    let mut s = SchedulerInner::new();
    s.enqueue(5);
    let first = s.begin_scheduling(7, &vec![false, true]);
    // Order 5 7: task 5 is not ready, the idle task 7 is.
    assert_eq!(first, 7);
    // Order 7 5 after the turn: 5 is now ready.
    let d = s.schedule(7, 100, &vec![true, true], 120);
    assert_eq!(d, Decision::Switch(5));
    // Order 5 7: 7 is not ready, so the turn comes back round to 5, which
    // goes on.
    let d = s.schedule(5, 200, &vec![true, false], 210);
    assert_eq!(d, Decision::Continue);
    // Order 5 7 again: 7 is ready.
    let d = s.schedule(5, 300, &vec![true, true], 310);
    assert_eq!(d, Decision::Switch(7));
}

#[test]
fn waiters_wake_in_the_order_they_came() {
    let mut q = WaitQueue::new();
    assert_eq!(q.wake_one(), None);
    q.wait(4);
    q.wait(2);
    q.wait(6);
    assert_eq!(q.wake_one(), Some(4));
    assert_eq!(q.wake_all(), vec![2, 6]);
    assert_eq!(q.wake_one(), None);
}

#[test]
fn task_ids_count_up_and_are_not_reused() {
    let mut list: TaskList<&str> = TaskList::new();
    assert_eq!(list.insert("init"), 1);
    assert_eq!(list.insert_with(|tid| if tid == 2 { "second" } else { "other" }), 2);
    assert_eq!(list.get(2), Some(&"second"));
    assert_eq!(list.remove(1), Some("init"));
    assert_eq!(list.get(1), None);
    assert_eq!(list.insert("third"), 3);
}
