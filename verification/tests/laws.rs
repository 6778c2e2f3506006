use sched_callback::message::MessageType;
use sched_callback::queue::{Effect, SchedQueue};
use sched_callback::task::{PollStep, SchedType, Task};

type Shape = (Option<usize>, SchedType, Option<i128>, bool);

fn shape(t: &Task) -> Shape {
    (t.id(), t.sched_type(), t.timestamp(), t.is_armed())
}

/// An effect with its task, if any, shown by the task's state.
#[derive(Debug, PartialEq)]
enum Seen {
    Send(MessageType),
    AbortRunning,
    Start(Shape),
}

fn seen(effects: &[Effect]) -> Vec<Seen> {
    effects
        .iter()
        .map(|e| match e {
            Effect::Send(m) => Seen::Send(*m),
            Effect::AbortRunning => Seen::AbortRunning,
            Effect::Start(t) => Seen::Start(shape(t)),
        })
        .collect()
}

fn start(id: usize, sched_type: SchedType, ts: i128) -> Seen {
    Seen::Start((Some(id), sched_type, Some(ts), true))
}

fn started(effects: &[Effect]) -> Task {
    for e in effects {
        if let Effect::Start(t) = e {
            return *t;
        }
    }
    panic!("no task started")
}

#[test]
fn new_task_has_no_id_and_no_time() {
    let t = Task::new(SchedType::Delay(5, 3));
    assert_eq!(shape(&t), (None, SchedType::Delay(5, 3), None, false));
}

#[test]
fn timestamp_task_fires_once() {
    let mut t = Task::new(SchedType::Timestamp(700));
    t.ready(10);
    assert_eq!(t.timestamp(), Some(700));
    assert!(t.is_armed());
    t.ready(20);
    assert_eq!(t.timestamp(), None);
}

#[test]
fn delay_task_fires_count_times() {
    let mut t = Task::new(SchedType::Delay(100, 3));
    let nows = [1000i128, 1200, 1500];
    for (k, now) in nows.iter().enumerate() {
        t.ready(*now);
        assert_eq!(t.timestamp(), Some(now + 100));
        assert_eq!(t.sched_type(), SchedType::Delay(100, 2 - k));
    }
    t.ready(2000);
    assert_eq!(t.timestamp(), None);
    assert_eq!(t.sched_type(), SchedType::Delay(100, 0));
    t.ready(3000);
    assert_eq!(t.timestamp(), None);
}

#[test]
fn far_firing_time_is_exact() {
    let delay: u128 = 2 * (u64::MAX as u128);
    let mut t = Task::new(SchedType::Delay(delay, 1));
    t.ready(100);
    assert_eq!(t.timestamp(), Some(100 + delay as i128));
}

#[test]
fn timestamp_before_epoch_keeps_its_order() {
    let mut q = SchedQueue::new();
    q.add(Task::new(SchedType::Timestamp(-50)), 0);
    let (_, effects) = q.add(Task::new(SchedType::Timestamp(-80)), 0);
    assert_eq!(seen(&effects)[3], start(2, SchedType::Timestamp(-80), -80));
}

#[test]
fn timestamp_task_readied_twice_is_back() {
    let mut t = Task::new(SchedType::Timestamp(40));
    t.ready(1);
    t.ready(2);
    assert_eq!(t.timestamp(), None);
    t.ready(3);
    let before = t.timestamp();
    t.ready(4);
    t.ready(5);
    assert_eq!(t.timestamp(), before);
}

#[test]
fn cloned_task_keeps_its_own_state() {
    let t = Task::new(SchedType::Delay(10, 2));
    let mut c = t.clone();
    c.ready(5);
    assert_eq!(shape(&t), (None, SchedType::Delay(10, 2), None, false));
    assert_eq!(shape(&c), (None, SchedType::Delay(10, 1), Some(15), true));
}

#[test]
fn poll_step_decisions() {
    let fresh = Task::new(SchedType::Timestamp(50));
    assert_eq!(fresh.poll_step(100), PollStep::Complete);
    let mut done = Task::new(SchedType::Delay(1, 0));
    done.ready(0);
    assert_eq!(done.poll_step(100), PollStep::Complete);
    let mut t = Task::new(SchedType::Timestamp(50));
    t.ready(0);
    assert_eq!(t.poll_step(20), PollStep::Wait(50));
    assert_eq!(t.poll_step(50), PollStep::Fire);
    assert_eq!(t.poll_step(60), PollStep::Fire);
}

#[test]
fn new_queue_is_empty() {
    let q = SchedQueue::new();
    assert_eq!(q.next_tid(), 1);
    assert!(q.running().is_none());
    assert!(q.pending().is_empty());
    assert!(!q.is_cancelled(1));
}

#[test]
fn first_add_starts_the_task() {
    let mut q = SchedQueue::new();
    let (id, effects) = q.add(Task::new(SchedType::Delay(100, 2)), 1000);
    assert_eq!(id, Some(1));
    assert_eq!(
        seen(&effects),
        vec![
            Seen::Send(MessageType::Add(1, 1000)),
            start(1, SchedType::Delay(100, 1), 1100),
        ]
    );
    assert_eq!(shape(&q.running().unwrap()), (Some(1), SchedType::Delay(100, 1), Some(1100), true));
    assert_eq!(q.next_tid(), 2);
}

#[test]
fn new_tasks_get_fresh_ids() {
    let mut q = SchedQueue::new();
    let mut ids = Vec::new();
    for k in 0..5i128 {
        let (id, _) = q.add(Task::new(SchedType::Timestamp(500 - k)), 0);
        ids.push(id);
    }
    let (none, _) = q.add(Task::new(SchedType::Delay(10, 0)), 0);
    assert_eq!(ids, vec![Some(1), Some(2), Some(3), Some(4), Some(5)]);
    assert_eq!(none, None);
    q.cancel(3);
    assert_eq!(q.next_tid(), 7);
}

#[test]
fn task_without_firing_time_is_not_scheduled() {
    let mut q = SchedQueue::new();
    let (id, effects) = q.add(Task::new(SchedType::Delay(10, 0)), 5);
    assert_eq!(id, None);
    assert!(effects.is_empty());
    assert!(q.running().is_none());
    assert!(q.pending().is_empty());
    assert_eq!(q.next_tid(), 2);
}

#[test]
fn earlier_task_preempts_running() {
    let mut q = SchedQueue::new();
    q.add(Task::new(SchedType::Timestamp(900)), 0);
    let (id, effects) = q.add(Task::new(SchedType::Timestamp(300)), 10);
    assert_eq!(id, Some(2));
    assert_eq!(
        seen(&effects),
        vec![
            Seen::Send(MessageType::Add(2, 10)),
            Seen::AbortRunning,
            Seen::Send(MessageType::Abort(2, 10)),
            start(2, SchedType::Timestamp(300), 300),
        ]
    );
    assert_eq!(q.running().unwrap().id(), Some(2));
    let pending: Vec<Shape> = q.pending().iter().map(shape).collect();
    assert_eq!(pending, vec![(Some(1), SchedType::Timestamp(900), Some(900), true)]);
}

#[test]
fn later_task_waits_in_order() {
    let mut q = SchedQueue::new();
    q.add(Task::new(SchedType::Timestamp(100)), 0);
    let (_, e2) = q.add(Task::new(SchedType::Timestamp(300)), 0);
    let (_, e3) = q.add(Task::new(SchedType::Timestamp(200)), 0);
    assert_eq!(seen(&e2), vec![Seen::Send(MessageType::Add(2, 0))]);
    assert_eq!(seen(&e3), vec![Seen::Send(MessageType::Add(3, 0))]);
    let pending: Vec<i128> = q.pending().iter().map(|t| t.timestamp().unwrap()).collect();
    assert_eq!(pending, vec![300, 200]);
    assert_eq!(q.running().unwrap().timestamp(), Some(100));
}

#[test]
fn equal_times_take_the_latest_added_first() {
    let mut q = SchedQueue::new();
    q.add(Task::new(SchedType::Timestamp(10)), 0);
    q.add(Task::new(SchedType::Timestamp(50)), 0);
    q.add(Task::new(SchedType::Timestamp(50)), 0);
    let ids: Vec<usize> = q.pending().iter().map(|t| t.id().unwrap()).collect();
    assert_eq!(ids, vec![2, 3]);
    let effects = q.next(20);
    assert_eq!(seen(&effects), vec![start(3, SchedType::Timestamp(50), 50)]);
}

#[test]
fn next_starts_earliest() {
    let mut q = SchedQueue::new();
    q.add(Task::new(SchedType::Timestamp(10)), 0);
    q.add(Task::new(SchedType::Timestamp(70)), 0);
    q.add(Task::new(SchedType::Timestamp(40)), 0);
    let effects = q.next(10);
    assert_eq!(seen(&effects), vec![start(3, SchedType::Timestamp(40), 40)]);
    assert_eq!(q.running().unwrap().id(), Some(3));
    for t in q.pending() {
        assert!(t.timestamp().unwrap() >= 40);
    }
}

#[test]
fn next_on_empty_queue_does_nothing() {
    let mut q = SchedQueue::new();
    let effects = q.next(5);
    assert!(effects.is_empty());
    assert!(q.running().is_none());
}

#[test]
fn cancel_reports_whether_new() {
    let mut q = SchedQueue::new();
    assert!(q.cancel(7));
    assert!(q.is_cancelled(7));
    assert!(!q.cancel(7));
    assert!(q.is_cancelled(7));
}

#[test]
fn cancelled_task_is_skipped() {
    let mut q = SchedQueue::new();
    q.add(Task::new(SchedType::Timestamp(10)), 0);
    q.add(Task::new(SchedType::Timestamp(30)), 0);
    q.add(Task::new(SchedType::Timestamp(20)), 0);
    assert!(q.cancel(3));
    let effects = q.next(15);
    assert_eq!(
        seen(&effects),
        vec![
            Seen::Send(MessageType::Cancel(3, 15)),
            start(2, SchedType::Timestamp(30), 30),
        ]
    );
    assert_eq!(q.running().unwrap().id(), Some(2));
    assert!(q.pending().is_empty());
    assert!(!q.is_cancelled(3));
}

#[test]
fn all_cancelled_leaves_queue_idle_and_empty() {
    let mut q = SchedQueue::new();
    q.add(Task::new(SchedType::Timestamp(10)), 0);
    q.add(Task::new(SchedType::Timestamp(20)), 0);
    q.add(Task::new(SchedType::Timestamp(30)), 0);
    q.cancel(2);
    q.cancel(3);
    let effects = q.next(15);
    assert_eq!(
        seen(&effects),
        vec![Seen::Send(MessageType::Cancel(2, 15)), Seen::Send(MessageType::Cancel(3, 15))]
    );
    assert!(q.running().is_none());
    assert!(q.pending().is_empty());
}

#[test]
fn cancelled_new_task_is_not_started() {
    let mut q = SchedQueue::new();
    q.cancel(1);
    let (id, effects) = q.add(Task::new(SchedType::Timestamp(10)), 0);
    assert_eq!(id, Some(1));
    assert_eq!(
        seen(&effects),
        vec![Seen::Send(MessageType::Add(1, 0)), Seen::Send(MessageType::Cancel(1, 0))]
    );
    assert!(q.running().is_none());
}

#[test]
fn finish_reschedules_delay_task() {
    let mut q = SchedQueue::new();
    let (_, effects) = q.add(Task::new(SchedType::Delay(100, 2)), 0);
    let t = started(&effects);
    assert_eq!(t.timestamp(), Some(100));
    let (again_id, effects) = q.finish(t, 100);
    assert_eq!(again_id, Some(1));
    assert_eq!(
        seen(&effects),
        vec![Seen::Send(MessageType::Add(1, 100)), start(1, SchedType::Delay(100, 0), 200)]
    );
    let again = started(&effects);
    let (last_id, effects) = q.finish(again, 200);
    assert_eq!(last_id, None);
    assert!(effects.is_empty());
    assert!(q.running().is_none());
    assert_eq!(q.next_tid(), 2);
}

#[test]
fn one_wait_at_a_time_on_the_earliest_task() {
    let mut q = SchedQueue::new();
    let mut live: Option<Task> = None;
    for (i, ts) in [500i128, 100, 900, 50, 300, 50, 700].iter().enumerate() {
        let (_, effects) = q.add(Task::new(SchedType::Timestamp(*ts)), i as i128);
        for e in &effects {
            match e {
                Effect::AbortRunning => live = None,
                Effect::Start(t) => {
                    assert!(live.is_none());
                    live = Some(*t);
                }
                Effect::Send(_) => {}
            }
        }
        assert_eq!(live.map(|t| shape(&t)), q.running().map(|t| shape(&t)));
        let r = q.running().unwrap().timestamp().unwrap();
        let pending = q.pending();
        for t in &pending {
            assert!(r <= t.timestamp().unwrap());
        }
        for w in pending.windows(2) {
            assert!(w[0].timestamp().unwrap() >= w[1].timestamp().unwrap());
        }
    }
}

#[test]
fn scenario_cancel_then_later_task_runs() {
    // tasks firing at 200, 100 and 300; task 1 is cancelled; once the first
    // fired task is done, the queue skips task 1 and goes on to task 3
    let mut q = SchedQueue::new();
    q.add(Task::new(SchedType::Delay(200, 1)), 0);
    q.add(Task::new(SchedType::Delay(100, 1)), 0);
    q.add(Task::new(SchedType::Delay(300, 1)), 0);
    assert!(q.cancel(1));
    let running = q.running().unwrap();
    assert_eq!(running.id(), Some(2));
    let (_, effects) = q.finish(running, 100);
    assert_eq!(
        seen(&effects),
        vec![Seen::Send(MessageType::Cancel(1, 100)), start(3, SchedType::Delay(300, 0), 300)]
    );
}
