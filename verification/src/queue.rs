use std::collections::BTreeSet;
use vstd::prelude::*;

use crate::message::MessageType;
use crate::task::{Task, TaskView};

verus! {

broadcast use {vstd::std_specs::btree::group_btree_axioms, vstd::laws_cmp::group_laws_cmp};

/// What the runtime does after a step of the queue, in the order given.
#[derive(Clone, Copy, Debug, PartialEq, Eq, Structural)]
pub enum Effect {
    /// Send this message on the scheduler's channel.
    Send(MessageType),
    /// Stop waiting for the task that was being waited on.
    AbortRunning,
    /// Wait for the given task, then run its callback and pass the task to `SchedQueue::finish`.
    Start(Task),
}

/// The abstract form of an effect.
pub enum EffectView {
    Send(MessageType),
    AbortRunning,
    Start(TaskView),
}

impl View for Effect {
    type V = EffectView;

    open spec fn view(&self) -> EffectView {
        match self {
            Effect::Send(m) => EffectView::Send(*m),
            Effect::AbortRunning => EffectView::AbortRunning,
            Effect::Start(t) => EffectView::Start(t@),
        }
    }
}

/// The abstract form of a list of effects.
pub open spec fn effects_view(s: Seq<Effect>) -> Seq<EffectView> {
    s.map_values(|e: Effect| e@)
}

/// The abstract form of a list of tasks.
pub open spec fn tasks_view(s: Seq<Task>) -> Seq<TaskView> {
    s.map_values(|t: Task| t@)
}

/// The abstract state of a queue.
#[verifier::ext_equal]
pub struct QueueView {
    /// The id the next new task gets.
    pub next_tid: usize,
    /// The pending tasks, latest firing time first; the next to run is the last.
    pub tasks: Seq<TaskView>,
    /// The task being waited on, if any.
    pub running: Option<TaskView>,
    /// Ids of tasks cancelled and not yet dropped.
    pub cancelled: Set<usize>,
}

/// The firing time by which tasks are ordered.
pub open spec fn key(t: TaskView) -> i128 {
    match t.timestamp {
        Some(ts) => ts,
        None => 0,
    }
}

/// Latest firing time first.
pub open spec fn sorted_desc(s: Seq<TaskView>) -> bool {
    forall|i: int, j: int| 0 <= i <= j < s.len() ==> key(s[j]) <= key(s[i])
}

/// Where a task firing at `k` goes: after every task, counted from the end, that
/// fires no earlier than `k`. On a sequence sorted latest first this is where a
/// stable sort, latest first, places a task appended at the end.
pub open spec fn insert_pos(s: Seq<TaskView>, k: i128) -> nat
    decreases s.len(),
{
    if s.len() == 0 {
        0
    } else if key(s.last()) >= k {
        s.len()
    } else {
        insert_pos(s.drop_last(), k)
    }
}

/// `s` with `t` inserted by its firing time.
pub open spec fn insert_by_time(s: Seq<TaskView>, t: TaskView) -> Seq<TaskView> {
    s.insert(insert_pos(s, key(t)) as int, t)
}

/// Every task in `s` has an id and a firing time.
pub open spec fn all_scheduled(s: Seq<TaskView>) -> bool {
    forall|i: int| 0 <= i < s.len() ==> (#[trigger] s[i]).id is Some && s[i].timestamp is Some
}

impl QueueView {
    /// The queue's invariant: pending tasks are ordered latest first, every
    /// pending or running task has an id and a firing time, the running task
    /// fires no later than any pending one, and the queue is idle only when
    /// nothing is pending.
    pub open spec fn wf(self) -> bool {
        &&& sorted_desc(self.tasks)
        &&& all_scheduled(self.tasks)
        &&& match self.running {
            Some(r) => {
                &&& r.id is Some
                &&& r.timestamp is Some
                &&& forall|i: int| 0 <= i < self.tasks.len() ==> key(r) <= key(#[trigger] self.tasks[i])
            },
            None => self.tasks.len() == 0,
        }
    }

    /// Taking pending tasks off the queue, earliest first: a task whose id is
    /// cancelled is dropped (its id leaves the cancelled set and a `Cancel`
    /// message goes out) and the next one is taken; the first task not
    /// cancelled becomes the running task and the runtime starts waiting for it.
    /// Stops when a task is started or nothing is pending.
    pub open spec fn start_earliest(self, now: i128) -> (QueueView, Seq<EffectView>)
        decreases self.tasks.len(),
    {
        if self.tasks.len() == 0 {
            (self, Seq::empty())
        } else {
            let t = self.tasks.last();
            let id = t.id.unwrap();
            let rest = QueueView { tasks: self.tasks.drop_last(), ..self };
            if self.cancelled.contains(id) {
                let (q, e) = QueueView { cancelled: self.cancelled.remove(id), ..rest }.start_earliest(
                    now,
                );
                (q, seq![EffectView::Send(MessageType::Cancel(id, now))] + e)
            } else {
                (QueueView { running: Some(t), ..rest }, seq![EffectView::Start(t)])
            }
        }
    }

    /// `next`: the running task is done; take the earliest pending one.
    pub open spec fn next_spec(self, now: i128) -> (QueueView, Seq<EffectView>) {
        QueueView { running: None, ..self }.start_earliest(now)
    }

    /// The id `add` gives `task`: its own, or the next fresh one.
    pub open spec fn assigned_id(self, task: TaskView) -> usize {
        match task.id {
            Some(id) => id,
            None => self.next_tid,
        }
    }

    /// The id counter after `add` of `task`.
    pub open spec fn tid_after(self, task: TaskView) -> usize {
        match task.id {
            Some(_) => self.next_tid,
            None => (self.next_tid + 1) as usize,
        }
    }

    /// `add` at time `now` stays in range: the task's next firing time fits an
    /// `i128` and, for a new task, the id after the one it gets fits a `usize`.
    pub open spec fn can_add(self, task: TaskView, now: i128) -> bool {
        &&& task.can_ready(now)
        &&& task.id is None ==> self.next_tid < usize::MAX
    }

    /// The task as `add` schedules it: with its id, made ready at `now`.
    pub open spec fn readied(self, task: TaskView, now: i128) -> TaskView {
        TaskView { id: Some(self.assigned_id(task)), ..task }.ready_spec(now)
    }

    /// `add`: the task gets its id and is made ready. Without a firing time it
    /// is not scheduled and `None` is returned. Otherwise an `Add` message goes
    /// out and the task joins the pending ones by firing time; if it fires
    /// earlier than the running task, that one stops being waited on
    /// (`AbortRunning`, then an `Abort` message with the new task's id) and goes
    /// back to the pending ones. If then nothing is running, pending tasks are
    /// taken off as `start_earliest` says. The task's id is returned.
    pub open spec fn add_spec(self, task: TaskView, now: i128) -> (QueueView, Option<usize>, Seq<EffectView>) {
        let id = self.assigned_id(task);
        let t = self.readied(task, now);
        let q = QueueView { next_tid: self.tid_after(task), ..self };
        if t.timestamp is None {
            (q, None, Seq::empty())
        } else {
            let added = seq![EffectView::Send(MessageType::Add(id, now))];
            match self.running {
                Some(r) => if key(t) < key(r) {
                    let (q2, e2) = QueueView {
                        running: None,
                        tasks: insert_by_time(insert_by_time(self.tasks, r), t),
                        ..q
                    }.start_earliest(now);
                    (
                        q2,
                        Some(id),
                        added + seq![
                            EffectView::AbortRunning,
                            EffectView::Send(MessageType::Abort(id, now)),
                        ] + e2,
                    )
                } else {
                    (QueueView { tasks: insert_by_time(self.tasks, t), ..q }, Some(id), added)
                },
                None => {
                    let (q2, e2) = QueueView {
                        tasks: insert_by_time(self.tasks, t),
                        ..q
                    }.start_earliest(now);
                    (q2, Some(id), added + e2)
                },
            }
        }
    }

    /// `finish`: the running task has fired; it is added again (rescheduled if
    /// it has firings left), then `next` runs. The result of the `add` is
    /// returned with the effects of both.
    pub open spec fn finish_spec(self, task: TaskView, now: i128) -> (QueueView, Option<usize>, Seq<EffectView>) {
        let (q1, id, e1) = self.add_spec(task, now);
        let (q2, e2) = q1.next_spec(now);
        (q2, id, e1 + e2)
    }

    /// `cancel`: the id joins the cancelled set; the result says whether it was
    /// not there before.
    pub open spec fn cancel_spec(self, id: usize) -> (QueueView, bool) {
        (QueueView { cancelled: self.cancelled.insert(id), ..self }, !self.cancelled.contains(id))
    }
}

/// The task the runtime waits on after performing `effects`, starting from
/// `live`; `None` when a wait would start while another is live.
pub open spec fn track_wait(live: Option<TaskView>, effects: Seq<EffectView>) -> Option<Option<TaskView>>
    decreases effects.len(),
{
    if effects.len() == 0 {
        Some(live)
    } else {
        match effects[0] {
            EffectView::AbortRunning => track_wait(None, effects.drop_first()),
            EffectView::Start(t) => if live is Some {
                None
            } else {
                track_wait(Some(t), effects.drop_first())
            },
            EffectView::Send(_) => track_wait(live, effects.drop_first()),
        }
    }
}

/// The queue and the ids returned after adding each of `tasks`, at the
/// matching time of `nows`, one after the other.
pub open spec fn add_each(q: QueueView, tasks: Seq<TaskView>, nows: Seq<i128>) -> (QueueView, Seq<Option<usize>>)
    decreases tasks.len(),
{
    if tasks.len() == 0 {
        (q, Seq::empty())
    } else {
        let (q1, ids) = add_each(q, tasks.drop_last(), nows.drop_last());
        let (q2, id, _) = q1.add_spec(tasks.last(), nows[tasks.len() - 1]);
        (q2, ids.push(id))
    }
}

/// The position found by `insert_pos`: every task after it fires earlier than
/// `k`, the task just before it fires no earlier.
proof fn lemma_insert_pos(s: Seq<TaskView>, k: i128)
    ensures
        insert_pos(s, k) <= s.len(),
        forall|i: int| insert_pos(s, k) <= i < s.len() ==> key(#[trigger] s[i]) < k,
        insert_pos(s, k) > 0 ==> key(s[insert_pos(s, k) - 1]) >= k,
    decreases s.len(),
{
    if s.len() > 0 && key(s.last()) < k {
        lemma_insert_pos(s.drop_last(), k);
        assert forall|i: int| insert_pos(s, k) <= i < s.len() implies key(#[trigger] s[i]) < k by {
            if i < s.len() - 1 {
                assert(s[i] == s.drop_last()[i]);
            }
        }
    }
}

/// Inserting by firing time keeps a sequence sorted, and the result holds the
/// old tasks and the new one.
proof fn lemma_insert_sorted(s: Seq<TaskView>, t: TaskView)
    requires
        sorted_desc(s),
    ensures
        sorted_desc(insert_by_time(s, t)),
        insert_by_time(s, t).len() == s.len() + 1,
        forall|i: int|
            0 <= i < insert_by_time(s, t).len() ==> #[trigger] insert_by_time(s, t)[i] == t
                || s.contains(insert_by_time(s, t)[i]),
{
    let p = insert_pos(s, key(t)) as int;
    lemma_insert_pos(s, key(t));
    let r = insert_by_time(s, t);
    assert forall|i: int, j: int| 0 <= i <= j < r.len() implies key(r[j]) <= key(r[i]) by {
        if i < p && j < p {
        } else if i < p && j == p {
            assert(key(s[p - 1]) <= key(s[i]));
        } else if i < p {
            assert(r[j] == s[j - 1]);
        } else if i == p && j > p {
            assert(r[j] == s[j - 1]);
        } else if i > p {
            assert(r[i] == s[i - 1]);
            assert(r[j] == s[j - 1]);
        }
    }
    assert forall|i: int| 0 <= i < r.len() implies #[trigger] r[i] == t || s.contains(r[i]) by {
        if i < p {
            assert(r[i] == s[i]);
        } else if i > p {
            assert(r[i] == s[i - 1]);
        }
    }
}

/// Inserting by firing time is a stable insertion into a sequence sorted
/// latest first: the result is sorted, holds exactly the old tasks and the new
/// one, keeps the old tasks in their order, and places the new task after every
/// task firing at the same time or later and before every task firing earlier.
pub proof fn lemma_insert_by_time(s: Seq<TaskView>, t: TaskView)
    requires
        sorted_desc(s),
    ensures
        ({
            let p = insert_pos(s, key(t)) as int;
            let r = insert_by_time(s, t);
            &&& sorted_desc(r)
            &&& r.to_multiset() == s.to_multiset().insert(t)
            &&& 0 <= p <= s.len()
            &&& r[p] == t
            &&& r.remove(p) == s
            &&& forall|i: int| 0 <= i < p ==> key(t) <= key(#[trigger] s[i])
            &&& forall|i: int| p <= i < s.len() ==> key(#[trigger] s[i]) < key(t)
        }),
{
    let p = insert_pos(s, key(t)) as int;
    lemma_insert_pos(s, key(t));
    lemma_insert_sorted(s, t);
    let r = insert_by_time(s, t);
    assert(r.remove(p) =~= s);
    vstd::seq_lib::to_multiset_insert(s, p, t);
    assert forall|i: int| 0 <= i < p implies key(t) <= key(#[trigger] s[i]) by {
        assert(key(s[p - 1]) <= key(s[i]));
    }
}

proof fn lemma_insert_scheduled(s: Seq<TaskView>, t: TaskView)
    requires
        all_scheduled(s),
        t.id is Some,
        t.timestamp is Some,
        sorted_desc(s),
    ensures
        all_scheduled(insert_by_time(s, t)),
        sorted_desc(insert_by_time(s, t)),
{
    lemma_insert_sorted(s, t);
    let r = insert_by_time(s, t);
    assert forall|i: int| 0 <= i < r.len() implies (#[trigger] r[i]).id is Some
        && r[i].timestamp is Some by {
        if r[i] != t {
            assert(s.contains(r[i]));
            let j = choose|j: int| 0 <= j < s.len() && s[j] == r[i];
            assert(s[j].id is Some);
        }
    }
}

/// Taking tasks off a queue whose pending tasks are sorted and scheduled, with
/// nothing running, leaves it well formed; the runtime then waits on exactly
/// the running task; and the id counter is unchanged.
proof fn lemma_start_earliest(q: QueueView, now: i128)
    requires
        q.running is None,
        sorted_desc(q.tasks),
        all_scheduled(q.tasks),
    ensures
        q.start_earliest(now).0.wf(),
        track_wait(None, q.start_earliest(now).1) == Some(q.start_earliest(now).0.running),
        q.start_earliest(now).0.next_tid == q.next_tid,
    decreases q.tasks.len(),
{
    if q.tasks.len() > 0 {
        let t = q.tasks.last();
        assert(q.tasks[q.tasks.len() - 1].id is Some);
        let rest = q.tasks.drop_last();
        assert(sorted_desc(rest));
        assert forall|i: int| 0 <= i < rest.len() implies (#[trigger] rest[i]).id is Some
            && rest[i].timestamp is Some by {
            assert(rest[i] == q.tasks[i]);
        }
        let id = t.id.unwrap();
        if q.cancelled.contains(id) {
            let q1 = QueueView { tasks: rest, cancelled: q.cancelled.remove(id), ..q };
            lemma_start_earliest(q1, now);
            let e = q1.start_earliest(now).1;
            let all = seq![EffectView::Send(MessageType::Cancel(id, now))] + e;
            assert(all.drop_first() =~= e);
            assert(all[0] == EffectView::Send(MessageType::Cancel(id, now)));
            assert(q.start_earliest(now).1 == all);
            assert(track_wait(None, all) == track_wait(None, e));
        } else {
            assert forall|i: int| 0 <= i < rest.len() implies key(t) <= key(#[trigger] rest[i]) by {
                assert(rest[i] == q.tasks[i]);
            }
            let e = seq![EffectView::Start(t)];
            assert(e.drop_first() =~= Seq::<EffectView>::empty());
            assert(track_wait(Some(t), e.drop_first()) == Some(Some(t)));
            assert(track_wait(None, e) == Some(Some(t)));
        }
    }
}

/// Performing effects one list after another tracks the wait as performing
/// them in one list.
proof fn lemma_track_wait_append(live: Option<TaskView>, a: Seq<EffectView>, b: Seq<EffectView>)
    ensures
        track_wait(live, a + b) == match track_wait(live, a) {
            Some(l) => track_wait(l, b),
            None => None,
        },
    decreases a.len(),
{
    if a.len() > 0 {
        assert((a + b).drop_first() =~= a.drop_first() + b);
        assert((a + b)[0] == a[0]);
        match a[0] {
            EffectView::AbortRunning => lemma_track_wait_append(None, a.drop_first(), b),
            EffectView::Start(t) => {
                if live is None {
                    lemma_track_wait_append(Some(t), a.drop_first(), b);
                }
            },
            EffectView::Send(_) => lemma_track_wait_append(live, a.drop_first(), b),
        }
    } else {
        assert(a + b =~= b);
    }
}

proof fn lemma_add(q: QueueView, task: TaskView, now: i128)
    requires
        q.wf(),
    ensures
        q.add_spec(task, now).0.wf(),
        track_wait(q.running, q.add_spec(task, now).2) == Some(q.add_spec(task, now).0.running),
{
    let id = q.assigned_id(task);
    let t = q.readied(task, now);
    let added = seq![EffectView::Send(MessageType::Add(id, now))];
    if t.timestamp is Some {
        lemma_insert_scheduled(q.tasks, t);
        lemma_insert_sorted(q.tasks, t);
        assert(added.drop_first() =~= Seq::<EffectView>::empty());
        assert(track_wait(q.running, added) == Some(q.running)) by {
            assert(track_wait(q.running, added.drop_first()) == Some(q.running));
        }
        match q.running {
            Some(r) => {
                if key(t) < key(r) {
                    lemma_insert_scheduled(q.tasks, r);
                    let s1 = insert_by_time(q.tasks, r);
                    lemma_insert_scheduled(s1, t);
                    let q2 = QueueView {
                        running: None,
                        tasks: insert_by_time(s1, t),
                        next_tid: q.tid_after(task),
                        ..q
                    };
                    lemma_start_earliest(q2, now);
                    let mid = added + seq![
                        EffectView::AbortRunning,
                        EffectView::Send(MessageType::Abort(id, now)),
                    ];
                    let m1 = mid.drop_first();
                    let m2 = m1.drop_first();
                    let m3 = m2.drop_first();
                    assert(m3 =~= Seq::<EffectView>::empty());
                    assert(m2[0] == EffectView::Send(MessageType::Abort(id, now)));
                    assert(m1[0] == EffectView::AbortRunning);
                    assert(track_wait(None, m3) == Some(None::<TaskView>));
                    assert(track_wait(None, m2) == Some(None::<TaskView>));
                    assert(track_wait(Some(r), m1) == Some(None::<TaskView>));
                    assert(track_wait(Some(r), mid) == Some(None::<TaskView>));
                    lemma_track_wait_append(q.running, mid, q2.start_earliest(now).1);
                    assert(q.add_spec(task, now).2 == mid + q2.start_earliest(now).1);
                } else {
                    let s1 = insert_by_time(q.tasks, t);
                    assert forall|i: int| 0 <= i < s1.len() implies key(r) <= key(
                        #[trigger] s1[i],
                    ) by {
                        if s1[i] != t {
                            let j = choose|j: int| 0 <= j < q.tasks.len() && q.tasks[j] == s1[i];
                            assert(key(r) <= key(q.tasks[j]));
                        }
                    }
                }
            },
            None => {
                let q2 = QueueView {
                    tasks: insert_by_time(q.tasks, t),
                    next_tid: q.tid_after(task),
                    ..q
                };
                lemma_start_earliest(q2, now);
                lemma_track_wait_append(None, added, q2.start_earliest(now).1);
                assert(q.add_spec(task, now).2 == added + q2.start_earliest(now).1);
            },
        }
    }
}

/// What `add`, `next` and `next` after `add` give from a well-formed queue:
/// a well-formed queue, and effects that leave the runtime waiting on its
/// running task.
proof fn lemma_step_results(q: QueueView, task: TaskView, now: i128)
    requires
        q.wf(),
    ensures
        q.add_spec(task, now).0.wf(),
        q.next_spec(now).0.wf(),
        q.add_spec(task, now).0.next_spec(now).0.wf(),
        track_wait(q.running, q.add_spec(task, now).2) == Some(q.add_spec(task, now).0.running),
        track_wait(None, q.next_spec(now).1) == Some(q.next_spec(now).0.running),
        track_wait(None, q.add_spec(task, now).0.next_spec(now).1) == Some(
            q.add_spec(task, now).0.next_spec(now).0.running,
        ),
{
    lemma_add(q, task, now);
    lemma_start_earliest(QueueView { running: None, ..q }, now);
    let q1 = q.add_spec(task, now).0;
    lemma_start_earliest(QueueView { running: None, ..q1 }, now);
}

/// Every step keeps the queue well formed: `add`, `next`, `finish` and `cancel`
/// map a well-formed queue to a well-formed one.
pub proof fn lemma_steps_keep_wf(q: QueueView, task: TaskView, id: usize, now: i128)
    requires
        q.wf(),
    ensures
        q.add_spec(task, now).0.wf(),
        q.next_spec(now).0.wf(),
        q.finish_spec(task, now).0.wf(),
        q.cancel_spec(id).0.wf(),
{
    lemma_step_results(q, task, now);
}

/// The runtime waits on one task at a time: performing the effects of `add`
/// from a wait on the running task, or those of `next` once the running task is
/// done, never starts a wait while another is live (a new wait is started only
/// after `AbortRunning`), and leaves the runtime waiting on exactly the queue's
/// running task. `finish` performs the effects of `add` and then those of `next`.
pub proof fn lemma_single_wait(q: QueueView, task: TaskView, now: i128)
    requires
        q.wf(),
    ensures
        track_wait(q.running, q.add_spec(task, now).2) == Some(q.add_spec(task, now).0.running),
        track_wait(None, q.next_spec(now).1) == Some(q.next_spec(now).0.running),
        q.finish_spec(task, now).2 == q.add_spec(task, now).2 + q.add_spec(task, now).0.next_spec(
            now,
        ).1,
        track_wait(None, q.add_spec(task, now).0.next_spec(now).1) == Some(
            q.finish_spec(task, now).0.running,
        ),
{
    lemma_step_results(q, task, now);
}

/// The queue always waits on its earliest task: whenever a task is pending,
/// one is being waited on, and it fires no later than any pending task. So of
/// two scheduled tasks, the one firing earlier is waited on, and fires, first.
pub proof fn lemma_waits_on_earliest(q: QueueView)
    requires
        q.wf(),
    ensures
        q.tasks.len() > 0 ==> q.running is Some,
        q.running matches Some(r) ==> forall|i: int|
            0 <= i < q.tasks.len() ==> key(r) <= key(#[trigger] q.tasks[i]),
        forall|i: int, j: int| 0 <= i <= j < q.tasks.len() ==> key(q.tasks[j]) <= key(q.tasks[i]),
{
}

/// `next` takes the pending task that fires earliest; unless it was cancelled,
/// it becomes the running task and the runtime starts waiting for it.
pub proof fn lemma_next_starts_earliest(q: QueueView, now: i128)
    requires
        q.wf(),
        q.tasks.len() > 0,
        !q.cancelled.contains(q.tasks.last().id.unwrap()),
    ensures
        q.next_spec(now).0.running == Some(q.tasks.last()),
        q.next_spec(now).1 == seq![EffectView::Start(q.tasks.last())],
        q.next_spec(now).0.tasks == q.tasks.drop_last(),
        forall|i: int| 0 <= i < q.tasks.len() ==> key(q.tasks.last()) <= key(#[trigger] q.tasks[i]),
{
}

/// A cancelled task is never started: when it comes off the queue it is
/// dropped, a `Cancel` message goes out, its id leaves the cancelled set, and
/// the queue goes on to the next pending task.
pub proof fn lemma_cancelled_task_skipped(q: QueueView, now: i128)
    requires
        q.wf(),
        q.tasks.len() > 0,
        q.cancelled.contains(q.tasks.last().id.unwrap()),
    ensures
        ({
            let id = q.tasks.last().id.unwrap();
            let rest = QueueView {
                running: None,
                tasks: q.tasks.drop_last(),
                cancelled: q.cancelled.remove(id),
                ..q
            };
            &&& q.next_spec(now).0 == rest.start_earliest(now).0
            &&& q.next_spec(now).1 == seq![EffectView::Send(MessageType::Cancel(id, now))]
                + rest.start_earliest(now).1
            &&& q.tasks.len() > 1 && !q.cancelled.contains(q.tasks[q.tasks.len() - 2].id.unwrap())
                ==> q.next_spec(now).0.running == Some(q.tasks[q.tasks.len() - 2])
        }),
{
}

/// Cancelling is idempotent: a second `cancel` of the same id reports that it
/// was already cancelled and changes nothing.
pub proof fn lemma_cancel_twice(q: QueueView, id: usize)
    ensures
        q.cancel_spec(id).0.cancel_spec(id).1 == false,
        q.cancel_spec(id).0.cancel_spec(id).0 == q.cancel_spec(id).0,
        q.cancel_spec(id).0.cancelled.contains(id),
{
    assert(q.cancel_spec(id).0.cancelled.insert(id) =~= q.cancel_spec(id).0.cancelled);
}

/// Taking tasks off the queue leaves the id counter as it is.
proof fn lemma_start_earliest_tid(q: QueueView, now: i128)
    ensures
        q.start_earliest(now).0.next_tid == q.next_tid,
    decreases q.tasks.len(),
{
    if q.tasks.len() > 0 {
        let id = q.tasks.last().id.unwrap();
        if q.cancelled.contains(id) {
            lemma_start_earliest_tid(
                QueueView { tasks: q.tasks.drop_last(), cancelled: q.cancelled.remove(id), ..q },
                now,
            );
        }
    }
}

/// New tasks get fresh ids: adding new tasks one after the other, the `j`-th
/// gets the counter's value plus `j` (or `None` when it has no firing time), so
/// the ids handed out are distinct and increasing, and the counter advances by
/// the number of tasks. `cancel` leaves the counter as it is.
pub proof fn lemma_fresh_ids(q: QueueView, tasks: Seq<TaskView>, nows: Seq<i128>, id: usize)
    requires
        nows.len() == tasks.len(),
        forall|j: int| 0 <= j < tasks.len() ==> (#[trigger] tasks[j]).id is None,
        q.next_tid + tasks.len() <= usize::MAX,
    ensures
        add_each(q, tasks, nows).0.next_tid == q.next_tid + tasks.len(),
        add_each(q, tasks, nows).1.len() == tasks.len(),
        forall|j: int|
            0 <= j < tasks.len() ==> (#[trigger] add_each(q, tasks, nows).1[j]) is None
                || add_each(q, tasks, nows).1[j] == Some((q.next_tid + j) as usize),
        forall|i: int, j: int|
            0 <= i < j < tasks.len() && add_each(q, tasks, nows).1[i] is Some
                && add_each(q, tasks, nows).1[j] is Some ==> add_each(q, tasks, nows).1[i]
                != add_each(q, tasks, nows).1[j],
        q.cancel_spec(id).0.next_tid == q.next_tid,
    decreases tasks.len(),
{
    if tasks.len() > 0 {
        let prefix = tasks.drop_last();
        assert forall|j: int| 0 <= j < prefix.len() implies (#[trigger] prefix[j]).id is None by {
            assert(prefix[j] == tasks[j]);
        }
        lemma_fresh_ids(q, prefix, nows.drop_last(), id);
        let (q1, ids) = add_each(q, prefix, nows.drop_last());
        assert(tasks.last().id is None);
        assert(q1.next_tid == q.next_tid + prefix.len());
        let (q2, last_id, _) = q1.add_spec(tasks.last(), nows[tasks.len() - 1]);
        let t = q1.readied(tasks.last(), nows[tasks.len() - 1]);
        let q3 = QueueView { next_tid: q1.tid_after(tasks.last()), ..q1 };
        lemma_start_earliest_tid(QueueView { tasks: insert_by_time(q3.tasks, t), ..q3 }, nows[tasks.len() - 1]);
        if q1.running is Some {
            let r = q1.running.unwrap();
            lemma_start_earliest_tid(
                QueueView { running: None, tasks: insert_by_time(insert_by_time(q3.tasks, r), t), ..q3 },
                nows[tasks.len() - 1],
            );
        }
        assert(q2.next_tid == q1.next_tid + 1);
        assert(add_each(q, tasks, nows).0 == q2);
        assert(add_each(q, tasks, nows).1 == ids.push(last_id));
        let all = add_each(q, tasks, nows).1;
        assert forall|j: int| 0 <= j < tasks.len() implies (#[trigger] all[j]) is None || all[j]
            == Some((q.next_tid + j) as usize) by {
            if j < prefix.len() {
                assert(all[j] == ids[j]);
            }
        }
    }
}

/// A task with no firing time left is not scheduled: `add` returns `None`,
/// emits nothing and leaves the queue as it was but for the id counter.
pub proof fn lemma_add_without_firing_time(q: QueueView, task: TaskView, now: i128)
    requires
        q.readied(task, now).timestamp is None,
    ensures
        q.add_spec(task, now).1 is None,
        q.add_spec(task, now).2 == Seq::<EffectView>::empty(),
        q.add_spec(task, now).0 == (QueueView { next_tid: q.tid_after(task), ..q }),
{
}

/// A task that fires earlier than the running one preempts it: the running
/// task stops being waited on and returns to the pending tasks, and unless the
/// new task was cancelled the runtime now waits for the new task.
pub proof fn lemma_earlier_task_preempts(q: QueueView, task: TaskView, now: i128)
    requires
        q.wf(),
        q.running is Some,
        q.readied(task, now).timestamp is Some,
        key(q.readied(task, now)) < key(q.running.unwrap()),
        !q.cancelled.contains(q.assigned_id(task)),
    ensures
        ({
            let t = q.readied(task, now);
            let id = q.assigned_id(task);
            &&& q.add_spec(task, now).0.running == Some(t)
            &&& q.add_spec(task, now).2 == seq![
                EffectView::Send(MessageType::Add(id, now)),
                EffectView::AbortRunning,
                EffectView::Send(MessageType::Abort(id, now)),
                EffectView::Start(t),
            ]
            &&& q.add_spec(task, now).0.tasks == insert_by_time(q.tasks, q.running.unwrap())
        }),
{
    let t = q.readied(task, now);
    let r = q.running.unwrap();
    let s1 = insert_by_time(q.tasks, r);
    lemma_insert_pos(q.tasks, key(r));
    lemma_insert_sorted(q.tasks, r);
    lemma_insert_pos(s1, key(t));
    if q.tasks.len() > 0 {
        assert(key(r) <= key(q.tasks[q.tasks.len() - 1]));
    }
    assert(insert_pos(s1, key(t)) == s1.len()) by {
        assert(s1.last() == r);
    }
    let s2 = insert_by_time(s1, t);
    assert(s2.last() == t);
    assert(s2.drop_last() =~= s1);
    let id = q.assigned_id(task);
    assert(q.add_spec(task, now).2 =~= seq![
        EffectView::Send(MessageType::Add(id, now)),
        EffectView::AbortRunning,
        EffectView::Send(MessageType::Abort(id, now)),
        EffectView::Start(t),
    ]);
}

/// The tasks a queue holds: the pending ones, then the running one.
pub open spec fn scheduled(q: QueueView) -> Seq<TaskView> {
    match q.running {
        Some(r) => q.tasks.push(r),
        None => q.tasks,
    }
}

/// A `Cancel` message for `id` at `now` is among `effects`.
pub open spec fn sends_cancel(effects: Seq<EffectView>, id: usize, now: i128) -> bool {
    effects.contains(EffectView::Send(MessageType::Cancel(id, now)))
}

proof fn lemma_concat_contains<A>(a: Seq<A>, b: Seq<A>, v: A)
    ensures
        (a + b).contains(v) <==> a.contains(v) || b.contains(v),
{
    if (a + b).contains(v) {
        let i = choose|i: int| 0 <= i < (a + b).len() && (a + b)[i] == v;
        if i >= a.len() {
            assert(b[i - a.len()] == v);
        }
    }
    if a.contains(v) {
        let i = choose|i: int| 0 <= i < a.len() && a[i] == v;
        assert((a + b)[i] == v);
    }
    if b.contains(v) {
        let i = choose|i: int| 0 <= i < b.len() && b[i] == v;
        assert((a + b)[a.len() + i] == v);
    }
}

/// What taking tasks off a queue with nothing running does to its tasks and
/// its cancelled set: no task is made up, every task is kept unless its id was
/// cancelled, an id leaves the cancelled set exactly when a `Cancel` message
/// for it goes out, and when the earliest task is not cancelled it is started
/// and nothing else changes.
proof fn lemma_start_earliest_facts(q: QueueView, now: i128)
    requires
        q.running is None,
    ensures
        ({
            let (r, e) = q.start_earliest(now);
            &&& forall|x: TaskView| #[trigger] scheduled(r).contains(x) ==> q.tasks.contains(x)
            &&& forall|x: TaskView|
                #[trigger] q.tasks.contains(x) ==> scheduled(r).contains(x) || q.cancelled.contains(
                    x.id.unwrap(),
                )
            &&& r.cancelled.subset_of(q.cancelled)
            &&& forall|id: usize|
                (q.cancelled.contains(id) && !r.cancelled.contains(id)) <==> #[trigger] sends_cancel(
                    e,
                    id,
                    now,
                )
            &&& q.tasks.len() > 0 && !q.cancelled.contains(q.tasks.last().id.unwrap()) ==> {
                &&& r == (QueueView { tasks: q.tasks.drop_last(), running: Some(q.tasks.last()), ..q })
                &&& e == seq![EffectView::Start(q.tasks.last())]
            }
            &&& r.next_tid == q.next_tid
        }),
    decreases q.tasks.len(),
{
    let (r, e) = q.start_earliest(now);
    if q.tasks.len() == 0 {
        assert forall|id: usize| !sends_cancel(e, id, now) by {}
    } else {
        let t = q.tasks.last();
        let id = t.id.unwrap();
        let rest = q.tasks.drop_last();
        assert(q.tasks =~= rest.push(t));
        assert forall|x: TaskView| #[trigger] rest.contains(x) implies q.tasks.contains(x) by {
            let i = choose|i: int| 0 <= i < rest.len() && rest[i] == x;
            assert(q.tasks[i] == x);
        }
        assert forall|x: TaskView| #[trigger] q.tasks.contains(x) implies rest.contains(x) || x == t by {
            let i = choose|i: int| 0 <= i < q.tasks.len() && q.tasks[i] == x;
            if i < rest.len() {
                assert(rest[i] == x);
            }
        }
        if q.cancelled.contains(id) {
            let q1 = QueueView { tasks: rest, cancelled: q.cancelled.remove(id), ..q };
            lemma_start_earliest_facts(q1, now);
            let e1 = q1.start_earliest(now).1;
            let head = seq![EffectView::Send(MessageType::Cancel(id, now))];
            assert(e == head + e1);
            assert forall|k: usize|
                (q.cancelled.contains(k) && !r.cancelled.contains(k)) <==> #[trigger] sends_cancel(
                    e,
                    k,
                    now,
                ) by {
                lemma_concat_contains(head, e1, EffectView::Send(MessageType::Cancel(k, now)));
                assert(r == q1.start_earliest(now).0);
                assert(sends_cancel(e1, k, now) == (q1.cancelled.contains(k) && !r.cancelled.contains(k)));
                if k == id {
                    assert(!r.cancelled.contains(k));
                    assert(head[0] == EffectView::Send(MessageType::Cancel(k, now)));
                } else {
                    assert(!head.contains(EffectView::Send(MessageType::Cancel(k, now))));
                }
            }
        } else {
            assert(scheduled(r) =~= q.tasks);
            assert forall|k: usize| !#[trigger] sends_cancel(e, k, now) by {
                assert(e[0] == EffectView::Start(t));
            }
        }
    }
}

proof fn lemma_push_contains<A>(s: Seq<A>, a: A)
    ensures
        forall|x: A| #[trigger] s.push(a).contains(x) <==> s.contains(x) || x == a,
        s.push(a).to_multiset() == s.to_multiset().insert(a),
{
    vstd::seq_lib::to_multiset_build(s, a);
    assert forall|x: A| #[trigger] s.push(a).contains(x) <==> s.contains(x) || x == a by {
        if s.push(a).contains(x) {
            let i = choose|i: int| 0 <= i < s.push(a).len() && s.push(a)[i] == x;
            if i < s.len() {
                assert(s[i] == x);
            }
        }
        if s.contains(x) {
            let i = choose|i: int| 0 <= i < s.len() && s[i] == x;
            assert(s.push(a)[i] == x);
        }
        if x == a {
            assert(s.push(a)[s.len() as int] == x);
        }
    }
}

proof fn lemma_insert_contains(s: Seq<TaskView>, t: TaskView)
    requires
        sorted_desc(s),
    ensures
        insert_by_time(s, t).to_multiset() == s.to_multiset().insert(t),
        forall|x: TaskView| #[trigger] insert_by_time(s, t).contains(x) <==> s.contains(x) || x == t,
{
    lemma_insert_by_time(s, t);
    let r = insert_by_time(s, t);
    let p = insert_pos(s, key(t)) as int;
    assert forall|x: TaskView| #[trigger] r.contains(x) <==> s.contains(x) || x == t by {
        if r.contains(x) {
            let i = choose|i: int| 0 <= i < r.len() && r[i] == x;
            if i < p {
                assert(s[i] == x);
            } else if i > p {
                assert(s[i - 1] == x);
            }
        }
        if s.contains(x) {
            let i = choose|i: int| 0 <= i < s.len() && s[i] == x;
            if i < p {
                assert(r[i] == x);
            } else {
                assert(r[i + 1] == x);
            }
        }
        if x == t {
            assert(r[p] == x);
        }
    }
}

/// Adding a task never loses one: if `add` schedules the task, every task
/// held before and the new one are held after, unless dropped for a cancelled
/// id; with no cancelled id among them the tasks held after are exactly those
/// before plus the new one, and the cancelled set is unchanged. No task is made
/// up. When the new task does not fire earlier than the running one, it just
/// joins the pending tasks by firing time and only an `Add` message goes out.
/// When `add` does not schedule it, the tasks held are unchanged.
pub proof fn lemma_add_keeps_tasks(q: QueueView, task: TaskView, now: i128)
    requires
        q.wf(),
    ensures
        ({
            let t = q.readied(task, now);
            let (r, res, e) = q.add_spec(task, now);
            &&& res is Some ==> forall|x: TaskView| #[trigger]
                scheduled(q).push(t).contains(x) ==> scheduled(r).contains(x) || q.cancelled.contains(
                    x.id.unwrap(),
                )
            &&& res is Some && (forall|i: int|
                0 <= i < scheduled(q).push(t).len() ==> !q.cancelled.contains(
                    (#[trigger] scheduled(q).push(t)[i]).id.unwrap(),
                )) ==> scheduled(r).to_multiset() == scheduled(q).to_multiset().insert(t)
                && r.cancelled == q.cancelled
            &&& forall|x: TaskView| #[trigger]
                scheduled(r).contains(x) ==> scheduled(q).push(t).contains(x)
            &&& res is None ==> scheduled(r) == scheduled(q) && e.len() == 0
            &&& res is Some && q.running is Some && key(t) >= key(q.running.unwrap()) ==> {
                &&& r.tasks == insert_by_time(q.tasks, t)
                &&& r.running == q.running
                &&& e == seq![EffectView::Send(MessageType::Add(res.unwrap(), now))]
            }
        }),
{
    let t = q.readied(task, now);
    let qq = QueueView { next_tid: q.tid_after(task), ..q };
    let sq = scheduled(q);
    let a = sq.push(t);
    let r = q.add_spec(task, now).0;
    lemma_push_contains(sq, t);
    let nocancel = forall|i: int|
        0 <= i < a.len() ==> !q.cancelled.contains((#[trigger] a[i]).id.unwrap());
    if t.timestamp is Some {
        match q.running {
            None => {
                assert(sq == q.tasks);
                let s1 = insert_by_time(q.tasks, t);
                lemma_insert_contains(q.tasks, t);
                let q2 = QueueView { tasks: s1, ..qq };
                lemma_start_earliest_facts(q2, now);
                assert(r == q2.start_earliest(now).0);
                assert forall|x: TaskView| #[trigger] a.contains(x) implies s1.contains(x) by {
                    assert(sq.contains(x) || x == t);
                }
                assert(s1 =~= seq![t]);
                if nocancel {
                    assert(a[a.len() - 1] == t);
                    assert(scheduled(r) =~= seq![t]);
                    assert(seq![t] =~= Seq::<TaskView>::empty().push(t));
                    lemma_push_contains(Seq::<TaskView>::empty(), t);
                    assert(q.tasks =~= Seq::<TaskView>::empty());
                }
            },
            Some(rr) => {
                lemma_push_contains(q.tasks, rr);
                if key(t) < key(rr) {
                    let s1 = insert_by_time(q.tasks, rr);
                    lemma_insert_contains(q.tasks, rr);
                    lemma_insert_sorted(q.tasks, rr);
                    let s2 = insert_by_time(s1, t);
                    lemma_insert_contains(s1, t);
                    let q2 = QueueView { running: None, tasks: s2, ..qq };
                    lemma_start_earliest_facts(q2, now);
                    assert(r == q2.start_earliest(now).0);
                    assert forall|x: TaskView| #[trigger] a.contains(x) implies s2.contains(x) by {
                        if sq.contains(x) {
                            assert(q.tasks.contains(x) || x == rr);
                            assert(s1.contains(x));
                        }
                    }
                    if nocancel {
                        assert(s2.contains(s2.last())) by {
                            assert(s2[s2.len() - 1] == s2.last());
                        }
                        let j = choose|j: int| 0 <= j < a.len() && a[j] == s2.last();
                        assert(!q.cancelled.contains(a[j].id.unwrap()));
                        assert(scheduled(r) =~= s2.drop_last().push(s2.last()));
                        assert(scheduled(r) =~= s2);
                    }
                } else {
                    let s1 = insert_by_time(q.tasks, t);
                    lemma_insert_contains(q.tasks, t);
                    lemma_push_contains(s1, rr);
                    assert(scheduled(r) == s1.push(rr));
                    assert forall|x: TaskView| #[trigger] a.contains(x) implies scheduled(r).contains(x) by {
                        if sq.contains(x) {
                            assert(q.tasks.contains(x) || x == rr);
                            if q.tasks.contains(x) {
                                assert(s1.contains(x));
                            }
                        } else {
                            assert(s1.contains(x));
                        }
                    }
                    assert(s1.push(rr).to_multiset() =~= a.to_multiset());
                }
            },
        }
    } else {
        assert(scheduled(r) == sq);
    }
}

/// `next` and `add` take an id out of the cancelled set exactly when they drop
/// a task with that id, which they announce with a `Cancel` message; starting a
/// task that is not cancelled leaves the cancelled set as it was.
pub proof fn lemma_cancel_marks_removed_only_on_drop(q: QueueView, task: TaskView, now: i128)
    requires
        q.wf(),
    ensures
        q.next_spec(now).0.cancelled.subset_of(q.cancelled),
        forall|id: usize|
            (q.cancelled.contains(id) && !q.next_spec(now).0.cancelled.contains(id)) <==> #[trigger]
                sends_cancel(q.next_spec(now).1, id, now),
        q.add_spec(task, now).0.cancelled.subset_of(q.cancelled),
        forall|id: usize|
            (q.cancelled.contains(id) && !q.add_spec(task, now).0.cancelled.contains(id)) <==> #[trigger]
                sends_cancel(q.add_spec(task, now).2, id, now),
{
    lemma_start_earliest_facts(QueueView { running: None, ..q }, now);
    let t = q.readied(task, now);
    let id0 = q.assigned_id(task);
    let qq = QueueView { next_tid: q.tid_after(task), ..q };
    let (r, res, e) = q.add_spec(task, now);
    let added = seq![EffectView::Send(MessageType::Add(id0, now))];
    if t.timestamp is None {
        assert forall|k: usize| !#[trigger] sends_cancel(e, k, now) by {}
    } else {
        match q.running {
            Some(rr) => {
                if key(t) < key(rr) {
                    let q2 = QueueView {
                        running: None,
                        tasks: insert_by_time(insert_by_time(q.tasks, rr), t),
                        ..qq
                    };
                    lemma_start_earliest_facts(q2, now);
                    let mid = added + seq![
                        EffectView::AbortRunning,
                        EffectView::Send(MessageType::Abort(id0, now)),
                    ];
                    let e2 = q2.start_earliest(now).1;
                    assert(e == mid + e2);
                    assert(r == q2.start_earliest(now).0);
                    assert forall|k: usize|
                        (q.cancelled.contains(k) && !r.cancelled.contains(k)) <==> #[trigger] sends_cancel(
                            e,
                            k,
                            now,
                        ) by {
                        let v = EffectView::Send(MessageType::Cancel(k, now));
                        lemma_concat_contains(mid, e2, v);
                        assert(!mid.contains(v)) by {
                            if mid.contains(v) {
                                let i = choose|i: int| 0 <= i < mid.len() && mid[i] == v;
                                assert(mid[0] != v && mid[1] != v && mid[2] != v);
                            }
                        }
                        assert(sends_cancel(e2, k, now) == (q2.cancelled.contains(k)
                            && !r.cancelled.contains(k)));
                    }
                } else {
                    assert forall|k: usize| !#[trigger] sends_cancel(e, k, now) by {
                        let v = EffectView::Send(MessageType::Cancel(k, now));
                        if e.contains(v) {
                            let i = choose|i: int| 0 <= i < e.len() && e[i] == v;
                            assert(e[0] != v);
                        }
                    }
                }
            },
            None => {
                let q2 = QueueView { tasks: insert_by_time(q.tasks, t), ..qq };
                lemma_start_earliest_facts(q2, now);
                let e2 = q2.start_earliest(now).1;
                assert(e == added + e2);
                assert(r == q2.start_earliest(now).0);
                assert forall|k: usize|
                    (q.cancelled.contains(k) && !r.cancelled.contains(k)) <==> #[trigger] sends_cancel(
                        e,
                        k,
                        now,
                    ) by {
                    let v = EffectView::Send(MessageType::Cancel(k, now));
                    lemma_concat_contains(added, e2, v);
                    assert(!added.contains(v)) by {
                        if added.contains(v) {
                            let i = choose|i: int| 0 <= i < added.len() && added[i] == v;
                            assert(added[0] != v);
                        }
                    }
                    assert(sends_cancel(e2, k, now) == (q2.cancelled.contains(k)
                        && !r.cancelled.contains(k)));
                }
            },
        }
    }
}

/// The id counter moves only for new tasks: `add` and `finish` of a task
/// without id advance it by one and give that task the old value, of a task
/// with an id leave it as it is and keep the task's id; `next` and `cancel`
/// leave it as it is.
pub proof fn lemma_id_counter(q: QueueView, task: TaskView, now: i128, id: usize)
    requires
        task.id is None ==> q.next_tid < usize::MAX,
    ensures
        q.add_spec(task, now).0.next_tid == q.next_tid + if task.id is None { 1int } else { 0int },
        q.finish_spec(task, now).0.next_tid == q.next_tid + if task.id is None { 1int } else { 0int },
        q.next_spec(now).0.next_tid == q.next_tid,
        q.cancel_spec(id).0.next_tid == q.next_tid,
        q.add_spec(task, now).1 is Some ==> q.add_spec(task, now).1 == Some(
            if task.id is Some { task.id.unwrap() } else { q.next_tid },
        ),
{
    lemma_start_earliest_tid(QueueView { running: None, ..q }, now);
    let t = q.readied(task, now);
    let qq = QueueView { next_tid: q.tid_after(task), ..q };
    lemma_start_earliest_tid(QueueView { tasks: insert_by_time(qq.tasks, t), ..qq }, now);
    if q.running is Some {
        let rr = q.running.unwrap();
        lemma_start_earliest_tid(
            QueueView { running: None, tasks: insert_by_time(insert_by_time(qq.tasks, rr), t), ..qq },
            now,
        );
    }
    let q1 = q.add_spec(task, now).0;
    lemma_start_earliest_tid(QueueView { running: None, ..q1 }, now);
}

/// `cancel` reports whether the id was not marked before, whatever the queue
/// holds or runs: its result depends on the cancelled set alone. Afterwards the
/// id is marked, and nothing else changes.
pub proof fn lemma_cancel_reports_new_mark(q: QueueView, other: QueueView, id: usize)
    ensures
        q.cancel_spec(id).1 == !q.cancelled.contains(id),
        q.cancel_spec(id).0.cancelled.contains(id),
        q.cancel_spec(id).0.cancelled == q.cancelled.insert(id),
        q.cancel_spec(id).0.tasks == q.tasks,
        q.cancel_spec(id).0.running == q.running,
        q.cancel_spec(id).0.next_tid == q.next_tid,
        other.cancelled == q.cancelled ==> other.cancel_spec(id).1 == q.cancel_spec(id).1,
{
}

/// The queue's state; `SchedQueue` holds it well formed.
struct QueueState {
    tid: usize,
    tasks: Vec<Task>,
    running: Option<Task>,
    tasks_cancelled: BTreeSet<usize>,
}

impl View for QueueState {
    type V = QueueView;

    closed spec fn view(&self) -> QueueView {
        QueueView {
            next_tid: self.tid,
            tasks: tasks_view(self.tasks@),
            running: match self.running {
                Some(t) => Some(t@),
                None => None,
            },
            cancelled: self.tasks_cancelled@,
        }
    }
}

fn key_of(t: &Task) -> (k: i128)
    ensures
        k == key(t@),
{
    match t.timestamp() {
        Some(ts) => ts,
        None => 0,
    }
}

/// The position at which a task firing at `k` joins `tasks`.
fn find_insert_pos(tasks: &Vec<Task>, k: i128) -> (p: usize)
    ensures
        p == insert_pos(tasks_view(tasks@), k),
{
    let ghost v = tasks_view(tasks@);
    let mut i = tasks.len();
    assert(v.take(i as int) =~= v);
    while i > 0 && key_of(&tasks[i - 1]) < k
        invariant
            i <= tasks.len(),
            v == tasks_view(tasks@),
            insert_pos(v.take(i as int), k) == insert_pos(v, k),
        decreases i,
    {
        assert(v.take(i as int).drop_last() =~= v.take(i - 1));
        assert(v.take(i as int).last() == tasks@[i - 1]@);
        i = i - 1;
    }
    if i == 0 {
        assert(v.take(0) =~= Seq::<TaskView>::empty());
    } else {
        assert(v.take(i as int).last() == tasks@[i - 1]@);
    }
    i
}

/// Inserts `t` into `tasks` by firing time.
fn insert_task(tasks: &mut Vec<Task>, t: Task)
    ensures
        tasks_view(final(tasks)@) == insert_by_time(tasks_view(old(tasks)@), t@),
{
    let p = find_insert_pos(tasks, key_of(&t));
    proof {
        lemma_insert_pos(tasks_view(tasks@), key(t@));
    }
    tasks.insert(p, t);
    assert(tasks_view(tasks@) =~= tasks_view(old(tasks)@).insert(p as int, t@));
}

impl QueueState {
    fn empty() -> (q: QueueState)
        ensures
            q@ == (QueueView {
                next_tid: 1,
                tasks: Seq::empty(),
                running: None,
                cancelled: Set::empty(),
            }),
    {
        let q = QueueState {
            tid: 1,
            tasks: Vec::new(),
            running: None,
            tasks_cancelled: BTreeSet::new(),
        };
        assert(tasks_view(q.tasks@) =~= Seq::<TaskView>::empty());
        q
    }

    /// Takes pending tasks off the queue (see `QueueView::start_earliest`).
    fn start_earliest(&mut self, now: i128, effects: &mut Vec<Effect>)
        requires
            all_scheduled(old(self)@.tasks),
        ensures
            final(self)@ == old(self)@.start_earliest(now).0,
            effects_view(final(effects)@) == effects_view(old(effects)@) + old(self)@.start_earliest(
                now,
            ).1,
        decreases old(self)@.tasks.len(),
    {
        let ghost q0 = self@;
        let ghost e0 = effects_view(effects@);
        match self.tasks.pop() {
            Some(t) => {
                assert(self@.tasks =~= q0.tasks.drop_last());
                assert(t@ == q0.tasks.last());
                assert(q0.tasks[q0.tasks.len() - 1].id is Some);
                let id = t.id().unwrap();
                if self.tasks_cancelled.remove(&id) {
                    effects.push(Effect::Send(MessageType::Cancel(id, now)));
                    assert(effects_view(effects@) =~= e0 + seq![
                        EffectView::Send(MessageType::Cancel(id, now)),
                    ]);
                    assert forall|i: int| 0 <= i < self@.tasks.len() implies (
                    #[trigger] self@.tasks[i]).id is Some && self@.tasks[i].timestamp is Some by {
                        assert(self@.tasks[i] == q0.tasks[i]);
                    }
                    let ghost e1 = effects_view(effects@);
                    self.start_earliest(now, effects);
                    let ghost rest = QueueView {
                        tasks: q0.tasks.drop_last(),
                        cancelled: q0.cancelled.remove(id),
                        ..q0
                    };
                    assert(effects_view(effects@) =~= e0 + (seq![
                        EffectView::Send(MessageType::Cancel(id, now)),
                    ] + rest.start_earliest(now).1));
                } else {
                    self.running = Some(t);
                    effects.push(Effect::Start(t));
                    assert(effects_view(effects@) =~= e0 + seq![EffectView::Start(t@)]);
                }
            },
            None => {
                assert(e0 + Seq::<EffectView>::empty() =~= e0);
            },
        }
    }

    /// See `SchedQueue::add`.
    fn add(&mut self, task: Task, now: i128) -> (res: (Option<usize>, Vec<Effect>))
        requires
            old(self)@.wf(),
            old(self)@.can_add(task@, now),
        ensures
            final(self)@ == old(self)@.add_spec(task@, now).0,
            res.0 == old(self)@.add_spec(task@, now).1,
            effects_view(res.1@) == old(self)@.add_spec(task@, now).2,
            final(self)@.wf(),
    {
        let ghost q0 = self@;
        let ghost task0 = task@;
        proof {
            lemma_add(q0, task0, now);
        }
        let mut task = task;
        let task_id: usize;
        match task.id() {
            Some(id) => task_id = id,
            None => {
                task_id = self.tid;
                self.tid = self.tid + 1;
                task.set_id(task_id);
            },
        }
        task.ready(now);
        assert(task@ == q0.readied(task0, now));
        let mut effects: Vec<Effect> = Vec::new();
        match task.timestamp() {
            Some(_) => {
                effects.push(Effect::Send(MessageType::Add(task_id, now)));
            },
            None => {
                assert(effects_view(effects@) =~= Seq::<EffectView>::empty());
                return (None, effects);
            },
        }
        let ghost added = effects_view(effects@);
        assert(added =~= seq![EffectView::Send(MessageType::Add(task_id, now))]);
        let taken = self.running.take();
        match taken {
            Some(r) => {
                if key_of(&task) < key_of(&r) {
                    effects.push(Effect::AbortRunning);
                    insert_task(&mut self.tasks, r);
                    effects.push(Effect::Send(MessageType::Abort(task_id, now)));
                } else {
                    self.running = Some(r);
                }
            },
            None => {},
        }
        insert_task(&mut self.tasks, task);
        if self.running.is_none() {
            let ghost mid = self@;
            let ghost before = effects_view(effects@);
            proof {
                match q0.running {
                    Some(r) => {
                        assert(before =~= added + seq![
                            EffectView::AbortRunning,
                            EffectView::Send(MessageType::Abort(task_id, now)),
                        ]);
                        lemma_insert_scheduled(q0.tasks, r);
                        lemma_insert_scheduled(insert_by_time(q0.tasks, r), task@);
                    },
                    None => {
                        assert(before =~= added);
                        lemma_insert_scheduled(q0.tasks, task@);
                    },
                }
            }
            self.start_earliest(now, &mut effects);
        }
        (Some(task_id), effects)
    }

    /// See `SchedQueue::next`.
    fn next(&mut self, now: i128) -> (effects: Vec<Effect>)
        requires
            old(self)@.wf(),
        ensures
            final(self)@ == old(self)@.next_spec(now).0,
            effects_view(effects@) == old(self)@.next_spec(now).1,
            final(self)@.wf(),
    {
        proof {
            lemma_start_earliest(QueueView { running: None, ..self@ }, now);
        }
        self.running = None;
        let mut effects: Vec<Effect> = Vec::new();
        assert(effects_view(effects@) =~= Seq::<EffectView>::empty());
        self.start_earliest(now, &mut effects);
        assert(Seq::<EffectView>::empty() + old(self)@.next_spec(now).1 =~= old(
            self,
        )@.next_spec(now).1);
        effects
    }
}

/// A task queue. Its pending tasks wait in order of firing time; at most one
/// task is waited on at a time.
pub struct SchedQueue {
    state: QueueState,
}

impl View for SchedQueue {
    type V = QueueView;

    closed spec fn view(&self) -> QueueView {
        self.state@
    }
}

impl SchedQueue {
    #[verifier::type_invariant]
    spec fn well_formed(self) -> bool {
        self.state@.wf()
    }

    /// A queue with no tasks, no cancellations, whose first new task gets id 1.
    pub fn new() -> (q: SchedQueue)
        ensures
            q@ == (QueueView {
                next_tid: 1,
                tasks: Seq::empty(),
                running: None,
                cancelled: Set::empty(),
            }),
            q@.wf(),
    {
        SchedQueue { state: QueueState::empty() }
    }

    /// Schedules `task` at time `now` (see `QueueView::add_spec`). Returns the
    /// task's id, or `None` when the task has no firing time left, together
    /// with the effects to perform.
    pub fn add(&mut self, task: Task, now: i128) -> (res: (Option<usize>, Vec<Effect>))
        requires
            old(self)@.can_add(task@, now),
        ensures
            final(self)@ == old(self)@.add_spec(task@, now).0,
            res.0 == old(self)@.add_spec(task@, now).1,
            effects_view(res.1@) == old(self)@.add_spec(task@, now).2,
            final(self)@.wf(),
    {
        proof {
            use_type_invariant(&*self);
        }
        let mut state = QueueState::empty();
        std::mem::swap(&mut state, &mut self.state);
        let res = state.add(task, now);
        self.state = state;
        res
    }

    /// The running task is done: takes pending tasks off the queue
    /// (see `QueueView::next_spec`).
    pub fn next(&mut self, now: i128) -> (effects: Vec<Effect>)
        ensures
            final(self)@ == old(self)@.next_spec(now).0,
            effects_view(effects@) == old(self)@.next_spec(now).1,
            final(self)@.wf(),
    {
        proof {
            use_type_invariant(&*self);
        }
        let mut state = QueueState::empty();
        std::mem::swap(&mut state, &mut self.state);
        let effects = state.next(now);
        self.state = state;
        effects
    }

    /// The running task `task` has fired at time `now`: adds it again, then
    /// moves on to the next task (see `QueueView::finish_spec`). Returns the
    /// result of adding it again and the effects to perform.
    pub fn finish(&mut self, task: Task, now: i128) -> (res: (Option<usize>, Vec<Effect>))
        requires
            old(self)@.can_add(task@, now),
        ensures
            final(self)@ == old(self)@.finish_spec(task@, now).0,
            res.0 == old(self)@.finish_spec(task@, now).1,
            effects_view(res.1@) == old(self)@.finish_spec(task@, now).2,
            final(self)@.wf(),
    {
        let (id, mut effects) = self.add(task, now);
        let ghost e1 = effects_view(effects@);
        let mut more = self.next(now);
        let ghost e2 = effects_view(more@);
        effects.append(&mut more);
        assert(effects_view(effects@) =~= e1 + e2);
        (id, effects)
    }

    /// Marks the task with id `task_id` as cancelled: when it is next taken off
    /// the queue it is dropped instead of run. Returns whether it was not
    /// already marked.
    pub fn cancel(&mut self, task_id: usize) -> (newly: bool)
        ensures
            final(self)@ == old(self)@.cancel_spec(task_id).0,
            newly == old(self)@.cancel_spec(task_id).1,
            final(self)@.wf(),
    {
        proof {
            use_type_invariant(&*self);
        }
        let mut state = QueueState::empty();
        std::mem::swap(&mut state, &mut self.state);
        let newly = state.tasks_cancelled.insert(task_id);
        self.state = state;
        newly
    }

    /// The id the next new task gets.
    pub fn next_tid(&self) -> (tid: usize)
        ensures
            tid == self@.next_tid,
    {
        self.state.tid
    }

    /// The task being waited on, if any.
    pub fn running(&self) -> (running: Option<Task>)
        ensures
            running matches Some(t) ==> self@.running == Some(t@),
            running is None ==> self@.running is None,
    {
        self.state.running
    }

    /// The pending tasks, latest firing time first.
    pub fn pending(&self) -> (tasks: Vec<Task>)
        ensures
            tasks_view(tasks@) == self@.tasks,
    {
        self.state.tasks.clone()
    }

    /// Whether the id is marked cancelled.
    pub fn is_cancelled(&self, task_id: usize) -> (cancelled: bool)
        ensures
            cancelled == self@.cancelled.contains(task_id),
    {
        self.state.tasks_cancelled.contains(&task_id)
    }
}

} // verus!
