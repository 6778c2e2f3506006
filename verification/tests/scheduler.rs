use sched_callback::message::MessageType;
use sched_callback::queue::{Effect, SchedQueue};
use sched_callback::task::{PollStep, SchedType, Task};

const MS: i128 = 1_000_000;

/// A deterministic runtime for the queue: a virtual clock, a message log, the
/// job currently waiting, and the order in which callbacks ran.
struct Sim {
    queue: SchedQueue,
    now: i128,
    messages: Vec<MessageType>,
    job: Option<Task>,
    job_started: bool,
    fired: Vec<usize>,
}

impl Sim {
    fn new(now: i128) -> Sim {
        Sim {
            queue: SchedQueue::new(),
            now,
            messages: Vec::new(),
            job: None,
            job_started: false,
            fired: Vec::new(),
        }
    }

    fn perform(&mut self, effects: Vec<Effect>) {
        for e in effects {
            match e {
                Effect::Send(m) => self.messages.push(m),
                Effect::AbortRunning => {
                    self.job = None;
                    self.job_started = false;
                }
                Effect::Start(t) => {
                    self.job = Some(t);
                    self.job_started = false;
                }
            }
        }
    }

    fn add(&mut self, task: Task) -> Option<usize> {
        let (id, effects) = self.queue.add(task, self.now);
        self.perform(effects);
        id
    }

    /// Runs the waiting job to its end: it announces the wait, sleeps until the
    /// task's time, runs `on_fire` for the callback, and hands the task back.
    fn step(&mut self, on_fire: &mut dyn FnMut(&mut SchedQueue, usize)) -> bool {
        let task = match self.job {
            Some(t) => t,
            None => return false,
        };
        let id = task.id().unwrap();
        if !self.job_started {
            self.job_started = true;
            self.messages.push(MessageType::WaitStart(id, self.now));
        }
        loop {
            match task.poll_step(self.now) {
                PollStep::Wait(t) => self.now = t,
                PollStep::Fire => {
                    self.fired.push(id);
                    on_fire(&mut self.queue, id);
                    break;
                }
                PollStep::Complete => break,
            }
        }
        self.messages.push(MessageType::WaitEnd(id, self.now));
        self.job = None;
        self.job_started = false;
        let (_, effects) = self.queue.finish(task, self.now);
        self.perform(effects);
        true
    }

    fn run(&mut self, on_fire: &mut dyn FnMut(&mut SchedQueue, usize)) {
        while self.step(on_fire) {}
    }
}

/// Ten tasks with delays 101ms, 100ms, ..., 92ms added one after the other.
fn add_ten(sim: &mut Sim, count: usize) {
    for i in 0..10i128 {
        let id = sim.add(Task::new(SchedType::Delay(((101 - i) * MS) as u128, count)));
        assert_eq!(id, Some(i as usize + 1));
    }
}

#[test]
fn message_test() {
    let mut sim = Sim::new(1_700_000_000_000 * MS);
    add_ten(&mut sim, 1);
    sim.run(&mut |_, _| {});
    let mut length = (0, 0, 0, 0);
    for msg in &sim.messages {
        match msg {
            MessageType::Add(_, _) => length.0 += 1,
            MessageType::WaitStart(_, _) => length.1 += 1,
            MessageType::WaitEnd(_, _) => length.2 += 1,
            MessageType::Abort(_, _) => length.3 += 1,
            _ => {}
        }
    }
    assert_eq!(length.0, 10);
    assert_eq!(length.1, 10);
    assert_eq!(length.2, 10);
    assert_eq!(length.3, 9);
}

#[test]
fn timestamp_test() {
    let start = 1_700_000_000_000 * MS;
    let mut sim = Sim::new(start);
    let reserved_time = start + 500 * MS;
    sim.add(Task::new(SchedType::Timestamp(reserved_time)));
    let mut executed_time = start;
    let job = sim.job.unwrap();
    assert_eq!(job.poll_step(start), PollStep::Wait(reserved_time));
    sim.step(&mut |_, _| {});
    let last = sim.messages.last().copied();
    if let Some(MessageType::WaitEnd(_, t)) = last {
        executed_time = t;
    }
    let diff = executed_time - reserved_time;
    // the callback runs at the reserved time
    assert!(diff < 10 * MS);
    assert_eq!(diff, 0);
    assert_eq!(sim.fired, vec![1]);
    assert!(sim.queue.running().is_none());
}

#[test]
fn delay_test() {
    let mut sim = Sim::new(1_700_000_000_000 * MS);
    add_ten(&mut sim, 2);
    sim.run(&mut |_, _| {});
    let expected = [9, 8, 7, 6, 5, 4, 3, 2, 1, 0, 9, 8, 7, 6, 5, 4, 3, 2, 1, 0];
    let order: Vec<usize> = sim.fired.iter().map(|id| id - 1).collect();
    assert_eq!(order.len(), expected.len());
    for (e, r) in expected.iter().zip(&order) {
        assert_eq!(e, r);
    }
}

#[test]
fn cancel_test() {
    let mut sim = Sim::new(1_700_000_000_000 * MS);
    add_ten(&mut sim, 2);
    // task i's callback cancels the task with id i + 1, that is itself
    sim.run(&mut |q, id| {
        let i = id - 1;
        q.cancel(i + 1);
    });
    let expected = [9, 8, 7, 6, 5, 4, 3, 2, 1, 0];
    let order: Vec<usize> = sim.fired.iter().map(|id| id - 1).collect();
    assert_eq!(order.len(), expected.len());
    for (e, r) in expected.iter().zip(&order) {
        assert_eq!(e, r);
    }
    let cancels = sim.messages.iter().filter(|m| matches!(m, MessageType::Cancel(_, _))).count();
    // in the second round every task is found cancelled and dropped in turn
    assert_eq!(cancels, 10);
    assert!(sim.queue.running().is_none());
    assert!(sim.queue.pending().is_empty());
}
