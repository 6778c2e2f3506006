use vstd::prelude::*;

verus! {

/// When a task fires.
#[derive(Clone, Copy, Debug, PartialEq, Eq, Structural)]
pub enum SchedType {
    /// Fire once, at this time (nanoseconds since the Unix epoch, negative before it).
    Timestamp(i128),
    /// Fire after this delay (nanoseconds) counted from each scheduling, as many
    /// times as the count says.
    Delay(u128, usize),
}

/// A scheduled task: how it is scheduled, and the state that the queue keeps
/// for it (its id, its next firing time, whether it was made ready).
#[derive(Clone, Copy, Debug, PartialEq, Eq, Structural)]
pub struct Task {
    id: Option<usize>,
    sched_type: SchedType,
    timestamp: Option<i128>,
    armed: bool,
}

impl Task {
    /// A `Timestamp(ts)` task fires at `ts` or not at all.
    #[verifier::type_invariant]
    spec fn consistent_schedule(self) -> bool {
        self@.consistent()
    }
}

/// The abstract state of a task: its id (assigned by the queue when first
/// added), how it is scheduled, the time it fires next (if it is to fire
/// again), and whether it has been made ready at least once.
pub struct TaskView {
    pub id: Option<usize>,
    pub sched_type: SchedType,
    pub timestamp: Option<i128>,
    pub armed: bool,
}

impl View for Task {
    type V = TaskView;

    closed spec fn view(&self) -> TaskView {
        TaskView {
            id: self.id,
            sched_type: self.sched_type,
            timestamp: self.timestamp,
            armed: self.armed,
        }
    }
}

/// What polling a task decides at a given time.
#[derive(Clone, Copy, Debug, PartialEq, Eq, Structural)]
pub enum PollStep {
    /// The task is finished without running its callback (never readied, or no firing time).
    Complete,
    /// The firing time has come: run the callback, and the task is finished.
    Fire,
    /// Not yet: poll again once this time has come.
    Wait(i128),
}

impl TaskView {
    /// A `Timestamp(ts)` task has no firing time or fires at `ts`.
    pub open spec fn consistent(self) -> bool {
        self.sched_type matches SchedType::Timestamp(ts) ==> (self.timestamp is None
            || self.timestamp == Some(ts))
    }

    /// `ready` at time `now` stays in range: the delay, and the firing time it
    /// gives, fit an `i128`.
    pub open spec fn can_ready(self, now: i128) -> bool {
        match self.sched_type {
            SchedType::Delay(delay, count) => count > 0 ==> delay <= i128::MAX && now + delay
                <= i128::MAX,
            SchedType::Timestamp(_) => true,
        }
    }

    /// The task as `Task::new` builds it.
    pub open spec fn new_spec(sched_type: SchedType) -> TaskView {
        TaskView { id: None, sched_type, timestamp: None, armed: false }
    }

    /// The task after being made ready at time `now`.
    ///
    /// A `Timestamp` task alternates: with no firing time it gets its timestamp,
    /// with one it loses it. A `Delay` task with a count left fires `delay` after
    /// `now` and uses up one count; with no count left it gets no firing time.
    pub open spec fn ready_spec(self, now: i128) -> TaskView {
        match self.sched_type {
            SchedType::Timestamp(ts) => TaskView {
                timestamp: if self.timestamp is Some { None } else { Some(ts) },
                armed: true,
                ..self
            },
            SchedType::Delay(delay, count) => if count == 0 {
                TaskView { timestamp: None, armed: true, ..self }
            } else {
                TaskView {
                    sched_type: SchedType::Delay(delay, (count - 1) as usize),
                    timestamp: Some((now + delay) as i128),
                    armed: true,
                    ..self
                }
            },
        }
    }

    /// What polling decides at time `now`.
    pub open spec fn poll_spec(self, now: i128) -> PollStep {
        if !self.armed {
            PollStep::Complete
        } else {
            match self.timestamp {
                None => PollStep::Complete,
                Some(ts) => if now >= ts {
                    PollStep::Fire
                } else {
                    PollStep::Wait(ts)
                },
            }
        }
    }
}

impl Task {
    /// A new task with no id and no firing time yet.
    pub fn new(sched_type: SchedType) -> (task: Task)
        ensures
            task@ == TaskView::new_spec(sched_type),
            task@.consistent(),
    {
        Task { id: None, sched_type, timestamp: None, armed: false }
    }

    /// The task's id, once a queue has given it one.
    pub fn id(&self) -> (id: Option<usize>)
        ensures
            id == self@.id,
    {
        self.id
    }

    /// How the task is scheduled; a `Delay` count shows the firings left.
    pub fn sched_type(&self) -> (sched_type: SchedType)
        ensures
            sched_type == self@.sched_type,
    {
        self.sched_type
    }

    /// The time the task fires next, if it is to fire again.
    pub fn timestamp(&self) -> (timestamp: Option<i128>)
        ensures
            timestamp == self@.timestamp,
            self@.consistent(),
    {
        proof {
            use_type_invariant(self);
        }
        self.timestamp
    }

    /// Whether the task has been made ready.
    pub fn is_armed(&self) -> (armed: bool)
        ensures
            armed == self@.armed,
    {
        self.armed
    }

    /// Gives the task its id.
    pub(crate) fn set_id(&mut self, id: usize)
        ensures
            final(self)@ == (TaskView { id: Some(id), ..old(self)@ }),
    {
        proof {
            use_type_invariant(&*self);
        }
        self.id = Some(id);
    }

    /// Computes the next firing time at time `now` (see `TaskView::ready_spec`).
    pub fn ready(&mut self, now: i128)
        requires
            old(self)@.can_ready(now),
        ensures
            final(self)@ == old(self)@.ready_spec(now),
            final(self)@.consistent(),
    {
        proof {
            use_type_invariant(&*self);
        }
        match self.sched_type {
            SchedType::Timestamp(ts) => {
                if self.timestamp.is_some() {
                    self.timestamp = None;
                } else {
                    self.timestamp = Some(ts);
                }
            },
            SchedType::Delay(delay, count) => {
                if count == 0 {
                    self.timestamp = None;
                } else {
                    self.sched_type = SchedType::Delay(delay, count - 1);
                    self.timestamp = Some(now + delay as i128);
                }
            },
        }
        self.armed = true;
    }

    /// Decides what a poll at time `now` does (see `TaskView::poll_spec`).
    pub fn poll_step(&self, now: i128) -> (step: PollStep)
        ensures
            step == self@.poll_spec(now),
    {
        if !self.armed {
            return PollStep::Complete;
        }
        match self.timestamp {
            None => PollStep::Complete,
            Some(ts) => if now >= ts {
                PollStep::Fire
            } else {
                PollStep::Wait(ts)
            },
        }
    }
}

/// The task after being made ready once at each of the times in `nows`, in order.
pub open spec fn ready_all(task: TaskView, nows: Seq<i128>) -> TaskView
    decreases nows.len(),
{
    if nows.len() == 0 {
        task
    } else {
        ready_all(task, nows.drop_last()).ready_spec(nows.last())
    }
}

/// A `Delay(delay, count)` task fires exactly `count` times: after `k <= count`
/// readies its count is `count - k` and, for `k > 0`, it fires `delay` after the
/// last of them; every further ready gives it no firing time.
pub proof fn lemma_delay_fires_count_times(task: TaskView, delay: u128, count: usize, nows: Seq<i128>)
    requires
        task.sched_type == SchedType::Delay(delay, count),
        forall|i: int| 0 <= i < nows.len() ==> nows[i] + delay <= i128::MAX,
    ensures
        nows.len() <= count ==> ready_all(task, nows).sched_type == SchedType::Delay(
            delay,
            (count - nows.len()) as usize,
        ),
        0 < nows.len() <= count ==> ready_all(task, nows).timestamp == Some(
            (nows.last() + delay) as i128,
        ),
        nows.len() > count ==> ready_all(task, nows).sched_type == SchedType::Delay(delay, 0usize),
        nows.len() > count ==> ready_all(task, nows).timestamp is None,
    decreases nows.len(),
{
    if nows.len() > 0 {
        let prefix = nows.drop_last();
        assert forall|i: int| 0 <= i < prefix.len() implies prefix[i] + delay <= i128::MAX by {
            assert(prefix[i] == nows[i]);
        }
        lemma_delay_fires_count_times(task, delay, count, prefix);
    }
}

/// A `Timestamp(ts)` task with no firing time fires once: the first ready gives
/// it firing time `ts`, the second takes it away.
pub proof fn lemma_timestamp_fires_once(task: TaskView, ts: i128, first: i128, second: i128)
    requires
        task.sched_type == SchedType::Timestamp(ts),
        task.timestamp is None,
    ensures
        task.ready_spec(first).timestamp == Some(ts),
        task.ready_spec(first).ready_spec(second).timestamp is None,
{
}

/// Readying a `Timestamp` task twice gives back its firing time: the two
/// readies undo each other.
pub proof fn lemma_timestamp_ready_twice(task: TaskView, first: i128, second: i128)
    requires
        task.consistent(),
        task.sched_type is Timestamp,
    ensures
        task.ready_spec(first).ready_spec(second).timestamp == task.timestamp,
        task.ready_spec(first).ready_spec(second).sched_type == task.sched_type,
        task.ready_spec(first).ready_spec(second).id == task.id,
        task.ready_spec(first).consistent(),
{
}

/// A poll fires a task only when its time has come: an armed task with firing
/// time `ts` fires at any `now >= ts` and, at any earlier `now`, waits until
/// `ts`; a task never readied, or with no firing time, completes without firing.
pub proof fn lemma_poll_fires_on_time(task: TaskView, now: i128)
    ensures
        task.poll_spec(now) == PollStep::Fire <==> (task.armed && task.timestamp is Some && now
            >= task.timestamp.unwrap()),
        task.poll_spec(now) == PollStep::Complete <==> (!task.armed || task.timestamp is None),
        task.armed && task.timestamp is Some && now < task.timestamp.unwrap() ==> task.poll_spec(
            now,
        ) == PollStep::Wait(task.timestamp.unwrap()),
        forall|at: i128| task.poll_spec(now) == PollStep::Wait(at) ==> now < at && task.timestamp
            == Some(at),
{
}

/// Every ready leaves a task armed and its id as it was, and a readied task
/// fires at its own firing time.
pub proof fn lemma_ready_arms(task: TaskView, now: i128)
    ensures
        task.ready_spec(now).armed,
        task.ready_spec(now).id == task.id,
        task.ready_spec(now).timestamp matches Some(ts) ==> task.ready_spec(now).poll_spec(ts)
            == PollStep::Fire,
{
}

} // verus!
