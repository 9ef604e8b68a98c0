//! The task scheduler: tasks due within the first minutes of the game wait in
//! arrival order, later ones wait ordered by their due minute, and a task that
//! repeats comes back after each run.
use vstd::multiset::Multiset;
use vstd::prelude::*;
use std::collections::VecDeque;

use crate::time::{GameClock, ScheduledTime, MINUTES_PER_DAY};

verus! {

broadcast use {vstd::seq_lib::group_to_multiset_ensures, vstd::multiset::group_multiset_axioms};

/// Minutes in a (non-leap) year.
pub const ONE_YEAR_MINUTES: u64 = 525600;

/// Tasks due at or before this minute go to the arrival-order queue.
pub const IMMEDIATE_WINDOW_MINUTES: u64 = 10;

/// What a scheduled task does when it runs.
#[derive(Debug, Clone, Copy, PartialEq, Eq, Structural)]
pub enum TaskKind {
    EconomicTick,
    EventTrigger,
    PolicyResolution,
    DiplomaticPulse,
    /// Checks the scripted event with this index.
    ScriptedEvent(usize),
}

/// How often a repeating task comes back.
#[derive(Debug, Clone, Copy, PartialEq, Eq, Structural)]
pub enum ScheduleSpec {
    EveryMinutes(u64),
    Daily,
}

impl ScheduleSpec {
    pub open spec fn interval_spec(self) -> u64 {
        match self {
            ScheduleSpec::EveryMinutes(n) => n,
            ScheduleSpec::Daily => MINUTES_PER_DAY,
        }
    }

    /// The number of minutes between two runs.
    pub fn interval_minutes(&self) -> (r: u64)
        ensures
            r == self.interval_spec(),
    {
        match self {
            ScheduleSpec::EveryMinutes(n) => *n,
            ScheduleSpec::Daily => MINUTES_PER_DAY,
        }
    }
}

/// A task with the minute at which it is due and, for a repeating task, the
/// number of minutes between runs.
#[derive(Debug, Clone, Copy, PartialEq, Eq, Structural)]
pub struct ScheduledTask {
    pub kind: TaskKind,
    pub execute_at: ScheduledTime,
    pub repeat_every_minutes: Option<u64>,
}

impl ScheduledTask {
    pub fn new(kind: TaskKind, execute_at: u64) -> (r: ScheduledTask)
        ensures
            r.kind == kind,
            r.execute_at.minutes == execute_at,
            r.repeat_every_minutes.is_none(),
    {
        ScheduledTask { kind, execute_at: ScheduledTime::new(execute_at), repeat_every_minutes: None }
    }

    pub fn with_repeat(self, minutes: u64) -> (r: ScheduledTask)
        ensures
            r.kind == self.kind,
            r.execute_at == self.execute_at,
            r.repeat_every_minutes == Some(minutes),
    {
        let mut task = self;
        task.repeat_every_minutes = Some(minutes);
        task
    }

    pub fn with_schedule(self, spec: ScheduleSpec) -> (r: ScheduledTask)
        ensures
            r.kind == self.kind,
            r.execute_at == self.execute_at,
            r.repeat_every_minutes == Some(spec.interval_spec()),
    {
        self.with_repeat(spec.interval_minutes())
    }
}

/// The due minute of a task, as an integer.
pub open spec fn due(t: ScheduledTask) -> int {
    t.execute_at.minutes as int
}

/// A repeating task must come back at least one minute later.
pub open spec fn repeat_ok(t: ScheduledTask) -> bool {
    match t.repeat_every_minutes {
        Some(n) => n >= 1,
        None => true,
    }
}

pub open spec fn all_repeat_ok(s: Seq<ScheduledTask>) -> bool {
    forall|i: int| 0 <= i < s.len() ==> repeat_ok(#[trigger] s[i])
}

/// Tasks in order of due minute (ties in any order).
pub open spec fn sorted_by_due(s: Seq<ScheduledTask>) -> bool {
    forall|i: int, j: int| 0 <= i <= j < s.len() ==> due(#[trigger] s[i]) <= due(#[trigger] s[j])
}

/// The same task, due at another minute.
pub open spec fn moved_to(t: ScheduledTask, minutes: u64) -> ScheduledTask {
    ScheduledTask {
        kind: t.kind,
        execute_at: ScheduledTime { minutes },
        repeat_every_minutes: t.repeat_every_minutes,
    }
}

/// The next run of a task after the one due now: one interval later, for a
/// repeating task whose next due minute still fits in a `u64`.
pub open spec fn next_run(t: ScheduledTask) -> Option<ScheduledTask> {
    match t.repeat_every_minutes {
        Some(n) => if n >= 1 && due(t) + n <= u64::MAX {
            Some(moved_to(t, (due(t) + n) as u64))
        } else {
            None
        },
        None => None,
    }
}

/// The next run of a repeating task is due strictly later.
pub proof fn lemma_next_run_later(t: ScheduledTask)
    ensures
        next_run(t) matches Some(n) ==> due(n) > due(t),
{
}

/// How many minutes, counting both ends, lie between the due minute of `t`
/// and `now`; 0 when `t` is due later.
pub open spec fn pending_span(t: ScheduledTask, now: int) -> nat {
    if due(t) > now {
        0
    } else {
        (now - due(t) + 1) as nat
    }
}

/// Every run of `t` that is due at or before `now`, in order.
pub open spec fn runs_until(t: ScheduledTask, now: int) -> Seq<ScheduledTask>
    decreases pending_span(t, now),
{
    if due(t) > now {
        Seq::empty()
    } else {
        match next_run(t) {
            Some(n) => {
                proof {
                    lemma_next_run_later(t);
                }
                seq![t] + runs_until(n, now)
            },
            None => seq![t],
        }
    }
}

/// What is left of `t` once every run due at or before `now` has been taken:
/// the first later run, if there is one.
pub open spec fn left_after(t: ScheduledTask, now: int) -> Seq<ScheduledTask>
    decreases pending_span(t, now),
{
    if due(t) > now {
        seq![t]
    } else {
        match next_run(t) {
            Some(n) => {
                proof {
                    lemma_next_run_later(t);
                }
                left_after(n, now)
            },
            None => Seq::empty(),
        }
    }
}

/// A task taken from the arrival-order queue comes back one interval later.
pub open spec fn requeued(t: ScheduledTask) -> Seq<ScheduledTask> {
    match next_run(t) {
        Some(n) => seq![n],
        None => Seq::empty(),
    }
}

pub open spec fn runs_fn(now: int) -> spec_fn(ScheduledTask) -> Seq<ScheduledTask> {
    |t: ScheduledTask| runs_until(t, now)
}

pub open spec fn left_fn(now: int) -> spec_fn(ScheduledTask) -> Seq<ScheduledTask> {
    |t: ScheduledTask| left_after(t, now)
}

pub open spec fn requeued_fn() -> spec_fn(ScheduledTask) -> Seq<ScheduledTask> {
    |t: ScheduledTask| requeued(t)
}

/// The tasks that `f` gives for each task of `s`, all together.
pub open spec fn gather(
    s: Seq<ScheduledTask>,
    f: spec_fn(ScheduledTask) -> Seq<ScheduledTask>,
) -> Multiset<ScheduledTask>
    decreases s.len(),
{
    if s.len() == 0 {
        Multiset::empty()
    } else {
        gather(s.drop_last(), f).add(f(s.last()).to_multiset())
    }
}

proof fn lemma_gather_insert(
    s: Seq<ScheduledTask>,
    k: int,
    x: ScheduledTask,
    f: spec_fn(ScheduledTask) -> Seq<ScheduledTask>,
)
    requires
        0 <= k <= s.len(),
    ensures
        gather(s.insert(k, x), f) == gather(s, f).add(f(x).to_multiset()),
    decreases s.len(),
{
    if k == s.len() {
        assert(s.insert(k, x).drop_last() =~= s);
    } else {
        assert(s.insert(k, x).drop_last() =~= s.drop_last().insert(k, x));
        lemma_gather_insert(s.drop_last(), k, x, f);
        assert(gather(s.insert(k, x), f) =~= gather(s, f).add(f(x).to_multiset()));
    }
}

proof fn lemma_gather_first(s: Seq<ScheduledTask>, f: spec_fn(ScheduledTask) -> Seq<ScheduledTask>)
    requires
        s.len() > 0,
    ensures
        gather(s, f) == gather(s.drop_first(), f).add(f(s[0]).to_multiset()),
{
    assert(s.drop_first().insert(0, s[0]) =~= s);
    lemma_gather_insert(s.drop_first(), 0, s[0], f);
}

/// When every task of `s` is due after `now`, none runs and all stay.
proof fn lemma_gather_all_later(s: Seq<ScheduledTask>, now: int)
    requires
        forall|i: int| 0 <= i < s.len() ==> due(#[trigger] s[i]) > now,
    ensures
        gather(s, runs_fn(now)) == Multiset::<ScheduledTask>::empty(),
        gather(s, left_fn(now)) == s.to_multiset(),
    decreases s.len(),
{
    if s.len() > 0 {
        let l = s.last();
        assert(due(s[s.len() - 1]) > now);
        lemma_gather_all_later(s.drop_last(), now);
        assert(runs_until(l, now) =~= Seq::<ScheduledTask>::empty());
        assert(left_after(l, now) =~= seq![l]);
        assert(s.drop_last().push(l) =~= s);
        assert(gather(s, runs_fn(now)) =~= Multiset::<ScheduledTask>::empty());
        assert(gather(s, left_fn(now)) =~= s.to_multiset());
    } else {
        assert(s.to_multiset() =~= Multiset::<ScheduledTask>::empty());
    }
}

/// Puts `t` after every task due no later than it; the order by due minute is kept.
fn insert_by_due(v: &mut Vec<ScheduledTask>, t: ScheduledTask) -> (k: usize)
    requires
        sorted_by_due(old(v)@),
    ensures
        k <= old(v)@.len(),
        final(v)@ == old(v)@.insert(k as int, t),
        sorted_by_due(final(v)@),
{
    let mut k: usize = 0;
    while k < v.len() && v[k].execute_at.minutes <= t.execute_at.minutes
        invariant
            k <= v@.len(),
            forall|i: int| 0 <= i < k ==> due(#[trigger] v@[i]) <= due(t),
        decreases v@.len() - k,
    {
        k = k + 1;
    }
    let ghost before = v@;
    v.insert(k, t);
    proof {
        let after = v@;
        assert forall|i: int, j: int| 0 <= i <= j < after.len() implies due(
            #[trigger] after[i],
        ) <= due(#[trigger] after[j]) by {
            if i < k && j < k {
                assert(after[i] == before[i] && after[j] == before[j]);
            } else if i < k && j == k {
                assert(after[i] == before[i]);
            } else if i < k {
                assert(after[i] == before[i] && after[j] == before[j - 1]);
                assert(due(before[i]) <= due(before[j - 1]));
            } else if i == k && j > k {
                assert(after[j] == before[j - 1]);
                assert(due(before[k as int]) > due(t));
                assert(due(before[k as int]) <= due(before[j - 1]));
            } else if i > k {
                assert(after[i] == before[i - 1] && after[j] == before[j - 1]);
            }
        }
    }
    k
}

fn next_run_exec(t: &ScheduledTask) -> (r: Option<ScheduledTask>)
    ensures
        r == next_run(*t),
{
    match t.repeat_every_minutes {
        Some(n) => {
            if n >= 1 && t.execute_at.minutes <= u64::MAX - n {
                Some(
                    ScheduledTask {
                        kind: t.kind,
                        execute_at: ScheduledTime::new(t.execute_at.minutes + n),
                        repeat_every_minutes: t.repeat_every_minutes,
                    },
                )
            } else {
                None
            }
        },
        None => None,
    }
}

/// A repeating task due at or before `now` runs once per interval up to
/// `now`: `(now - due) / interval + 1` times, its `i`-th run due `i`
/// intervals after the first and of the same kind.
pub proof fn lemma_runs_until_count(t: ScheduledTask, now: int, interval: u64)
    requires
        t.repeat_every_minutes == Some(interval),
        interval >= 1,
        due(t) <= now <= u64::MAX,
    ensures
        runs_until(t, now).len() == (now - due(t)) / (interval as int) + 1,
        forall|i: int|
            0 <= i < runs_until(t, now).len() ==> {
                &&& due(#[trigger] runs_until(t, now)[i]) == due(t) + i * interval
                &&& runs_until(t, now)[i].kind == t.kind
                &&& runs_until(t, now)[i].repeat_every_minutes == t.repeat_every_minutes
            },
    decreases pending_span(t, now),
{
    let d = interval as int;
    if due(t) + d > now {
        vstd::arithmetic::div_mod::lemma_basic_div(now - due(t), d);
        if let Some(n) = next_run(t) {
            assert(runs_until(n, now) =~= Seq::<ScheduledTask>::empty());
            assert(seq![t] + runs_until(n, now) =~= seq![t]);
        }
        assert(runs_until(t, now) =~= seq![t]);
    } else {
        let n = next_run(t)->0;
        assert(due(n) == due(t) + d);
        lemma_runs_until_count(n, now, interval);
        vstd::arithmetic::div_mod::lemma_div_plus_one(now - due(t) - d, d);
        let rs = runs_until(t, now);
        assert(rs == seq![t] + runs_until(n, now));
        assert forall|i: int| 0 <= i < rs.len() implies {
            &&& due(#[trigger] rs[i]) == due(t) + i * interval
            &&& rs[i].kind == t.kind
            &&& rs[i].repeat_every_minutes == t.repeat_every_minutes
        } by {
            if i > 0 {
                assert(rs[i] == runs_until(n, now)[i - 1]);
                assert(due(t) + d + (i - 1) * d == due(t) + i * d) by (nonlinear_arith);
            }
        }
    }
}

/// What taking the tasks due by minute `now` does: `ready` holds first the
/// runs of timed tasks due by then, in order of due minute (each repeating
/// task once per run), then the whole arrival-order queue in arrival order;
/// the arrival-order queue is left empty; the timed tasks left are those due
/// later, the next run of each repeating task that ran, and the next run of
/// each repeating task of the arrival-order queue.
pub open spec fn took_ready(
    before: Scheduler,
    after: Scheduler,
    now: int,
    ready: Seq<ScheduledTask>,
) -> bool {
    let n = ready.len() - before.waiting().len();
    let runs = ready.subrange(0, n);
    &&& after.waiting().len() == 0
    &&& ready.len() >= before.waiting().len()
    &&& ready.subrange(n, ready.len() as int) == before.waiting()
    &&& sorted_by_due(runs)
    &&& forall|i: int| 0 <= i < runs.len() ==> due(#[trigger] runs[i]) <= now
    &&& runs.to_multiset() == gather(before.timed(), runs_fn(now))
    &&& after.timed().to_multiset() == gather(before.timed(), left_fn(now)).add(
        gather(before.waiting(), requeued_fn()),
    )
}

/// What adding `task` does: one due within the first minutes joins the end
/// of the arrival-order queue; any other is put among the timed tasks.
pub open spec fn scheduled(before: Scheduler, after: Scheduler, task: ScheduledTask) -> bool {
    if task.execute_at.minutes <= IMMEDIATE_WINDOW_MINUTES {
        &&& after.waiting() == before.waiting().push(task)
        &&& after.timed() == before.timed()
    } else {
        &&& after.waiting() == before.waiting()
        &&& exists|k: int|
            0 <= k <= before.timed().len() && after.timed() == before.timed().insert(k, task)
    }
}

/// Holds the tasks waiting to run.
#[derive(Debug)]
pub struct Scheduler {
    immediate_queue: VecDeque<ScheduledTask>,
    future_tasks: Vec<ScheduledTask>,
}

impl Scheduler {
    /// The tasks waiting in arrival order, first to run first.
    pub closed spec fn waiting(self) -> Seq<ScheduledTask> {
        self.immediate_queue@
    }

    /// The tasks waiting for their due minute, earliest first.
    pub closed spec fn timed(self) -> Seq<ScheduledTask> {
        self.future_tasks@
    }

    pub open spec fn wf(self) -> bool {
        &&& sorted_by_due(self.timed())
        &&& all_repeat_ok(self.timed())
    }

    pub fn new() -> (r: Scheduler)
        ensures
            r.wf(),
            r.waiting().len() == 0,
            r.timed().len() == 0,
    {
        Scheduler { immediate_queue: VecDeque::new(), future_tasks: Vec::new() }
    }

    /// Adds a task: one due within the first minutes joins the arrival-order
    /// queue, any other joins the tasks ordered by due minute, after those
    /// due no later than it.  A timed task that repeats must come back at
    /// least one minute later.
    pub fn schedule(&mut self, task: ScheduledTask)
        requires
            old(self).wf(),
            task.execute_at.minutes > IMMEDIATE_WINDOW_MINUTES ==> repeat_ok(task),
        ensures
            final(self).wf(),
            scheduled(*old(self), *final(self), task),
    {
        if task.execute_at.minutes <= IMMEDIATE_WINDOW_MINUTES {
            self.immediate_queue.push_back(task);
        } else {
            let k = insert_by_due(&mut self.future_tasks, task);
            proof {
                let before = old(self).future_tasks@;
                assert forall|i: int| 0 <= i < self.future_tasks@.len() implies repeat_ok(
                    #[trigger] self.future_tasks@[i],
                ) by {
                    if i < k {
                        assert(self.future_tasks@[i] == before[i]);
                    } else if i > k {
                        assert(self.future_tasks@[i] == before[i - 1]);
                    }
                }
                assert(self.future_tasks@ == before.insert(k as int, task));
            }
        }
    }

    /// The minute of the next run: `current` while a task waits in arrival
    /// order, else the due minute of the earliest timed task, else nothing.
    pub fn peek_next_minutes(&self, current: u64) -> (r: Option<u64>)
        requires
            self.wf(),
        ensures
            self.waiting().len() > 0 ==> r == Some(current),
            self.waiting().len() == 0 && self.timed().len() > 0 ==> {
                &&& r == Some(self.timed()[0].execute_at.minutes)
                &&& forall|i: int|
                    0 <= i < self.timed().len() ==> r->0 <= (#[trigger] self.timed()[i]).execute_at.minutes
            },
            self.waiting().len() == 0 && self.timed().len() == 0 ==> r.is_none(),
    {
        if self.immediate_queue.len() > 0 {
            Some(current)
        } else if self.future_tasks.len() > 0 {
            proof {
                assert forall|i: int| 0 <= i < self.future_tasks@.len() implies
                    self.future_tasks@[0].execute_at.minutes <= (
                    #[trigger] self.future_tasks@[i]).execute_at.minutes by {
                    assert(due(self.future_tasks@[0]) <= due(self.future_tasks@[i]));
                }
            }
            Some(self.future_tasks[0].execute_at.minutes)
        } else {
            None
        }
    }

    /// Takes every task that is due by the clock's minute. The timed tasks come
    /// first, in order of due minute; a repeating one runs once for each of its
    /// runs due by then and stays with its first later run. Then come all the
    /// tasks of the arrival-order queue, in arrival order; a repeating one comes
    /// back one interval after its due minute, among the timed tasks.
    pub fn next_ready_tasks(&mut self, clock: &GameClock) -> (ready: Vec<ScheduledTask>)
        requires
            old(self).wf(),
        ensures
            final(self).wf(),
            took_ready(*old(self), *final(self), clock@ as int, ready@),
    {
        let now = clock.total_minutes();
        let ghost old_timed = self.future_tasks@;
        let ghost old_waiting = self.immediate_queue@;
        let mut ready: Vec<ScheduledTask> = Vec::new();
        proof {
            assert(ready@.to_multiset() =~= Multiset::<ScheduledTask>::empty());
            assert(ready@.to_multiset().add(gather(old_timed, runs_fn(now as int))) =~= gather(
                old_timed,
                runs_fn(now as int),
            ));
        }
        loop
            invariant
                now == clock@,
                self.immediate_queue@ == old_waiting,
                sorted_by_due(self.future_tasks@),
                all_repeat_ok(self.future_tasks@),
                sorted_by_due(ready@),
                forall|i: int| 0 <= i < ready@.len() ==> due(#[trigger] ready@[i]) <= now,
                forall|i: int, j: int|
                    0 <= i < ready@.len() && 0 <= j < self.future_tasks@.len() ==> due(
                        #[trigger] ready@[i],
                    ) <= due(#[trigger] self.future_tasks@[j]),
                ready@.to_multiset().add(gather(self.future_tasks@, runs_fn(now as int))) == gather(
                    old_timed,
                    runs_fn(now as int),
                ),
                gather(self.future_tasks@, left_fn(now as int)) == gather(
                    old_timed,
                    left_fn(now as int),
                ),
            ensures
                forall|j: int|
                    0 <= j < self.future_tasks@.len() ==> due(#[trigger] self.future_tasks@[j])
                        > now,
            decreases gather(self.future_tasks@, runs_fn(now as int)).len(),
        {
            if self.future_tasks.len() == 0 {
                break;
            }
            if self.future_tasks[0].execute_at.minutes > now {
                proof {
                    assert forall|j: int| 0 <= j < self.future_tasks@.len() implies due(
                        #[trigger] self.future_tasks@[j],
                    ) > now by {
                        assert(due(self.future_tasks@[0]) <= due(self.future_tasks@[j]));
                    }
                }
                break;
            }
            let ghost before = self.future_tasks@;
            let ghost before_ready = ready@;
            let task = self.future_tasks.remove(0);
            ready.push(task);
            let ghost rest = self.future_tasks@;
            proof {
                assert(rest =~= before.drop_first());
                lemma_gather_first(before, runs_fn(now as int));
                lemma_gather_first(before, left_fn(now as int));
                assert forall|i: int| 0 <= i < rest.len() implies due(task) <= due(
                    #[trigger] rest[i],
                ) by {
                    assert(rest[i] == before[i + 1]);
                    assert(due(before[0]) <= due(before[i + 1]));
                }
            }
            match next_run_exec(&task) {
                Some(n) => {
                    let k = insert_by_due(&mut self.future_tasks, n);
                    proof {
                        lemma_gather_insert(rest, k as int, n, runs_fn(now as int));
                        lemma_gather_insert(rest, k as int, n, left_fn(now as int));
                        lemma_next_run_later(task);
                        assert(runs_until(task, now as int) == seq![task] + runs_until(
                            n,
                            now as int,
                        ));
                        assert(left_after(task, now as int) == left_after(n, now as int));
                        vstd::seq_lib::lemma_multiset_commutative(seq![task], runs_until(n, now as int));
                        assert(seq![task].to_multiset() =~= Multiset::<ScheduledTask>::empty().insert(task)) by {
                            assert(seq![task] =~= Seq::<ScheduledTask>::empty().push(task));
                        }
                        assert(gather(before, runs_fn(now as int)) =~= gather(
                            self.future_tasks@,
                            runs_fn(now as int),
                        ).insert(task));
                    }
                },
                None => {
                    proof {
                        assert(runs_until(task, now as int) == seq![task]);
                        assert(left_after(task, now as int) =~= Seq::<ScheduledTask>::empty());
                        assert(seq![task].to_multiset() =~= Multiset::<ScheduledTask>::empty().insert(task)) by {
                            assert(seq![task] =~= Seq::<ScheduledTask>::empty().push(task));
                        }
                        assert(gather(before, runs_fn(now as int)) =~= gather(
                            self.future_tasks@,
                            runs_fn(now as int),
                        ).insert(task));
                    }
                },
            }
            proof {
                let after = self.future_tasks@;
                assert forall|i: int| 0 <= i < after.len() implies repeat_ok(
                    #[trigger] after[i],
                ) && due(task) <= due(after[i]) by {
                    if after.len() > rest.len() {
                        let k = choose|k: int| 0 <= k <= rest.len() && after == rest.insert(k, next_run(task)->0);
                        if i < k {
                            assert(after[i] == rest[i]);
                        } else if i > k {
                            assert(after[i] == rest[i - 1]);
                        }
                    } else {
                        assert(after[i] == rest[i]);
                    }
                }
                assert forall|i: int| 0 <= i < ready@.len() implies due(#[trigger] ready@[i]) <= now by {
                    if i < before_ready.len() {
                        assert(ready@[i] == before_ready[i]);
                    }
                }
                assert(sorted_by_due(ready@)) by {
                    assert forall|i: int, j: int| 0 <= i <= j < ready@.len() implies due(
                        #[trigger] ready@[i],
                    ) <= due(#[trigger] ready@[j]) by {
                        if j < before_ready.len() {
                            assert(ready@[i] == before_ready[i] && ready@[j] == before_ready[j]);
                        } else if i < before_ready.len() {
                            assert(ready@[i] == before_ready[i]);
                            assert(due(before_ready[i]) <= due(before[0]));
                        }
                    }
                }
                assert forall|i: int, j: int|
                    0 <= i < ready@.len() && 0 <= j < after.len() implies due(
                        #[trigger] ready@[i],
                    ) <= due(#[trigger] after[j]) by {
                        if i < before_ready.len() {
                            assert(ready@[i] == before_ready[i]);
                            assert(due(before_ready[i]) <= due(before[0]));
                        }
                        assert(due(task) <= due(after[j]));
                }
                assert(ready@.to_multiset() == before_ready.to_multiset().insert(task));
                assert(ready@.to_multiset().add(gather(after, runs_fn(now as int))) =~= gather(
                    old_timed,
                    runs_fn(now as int),
                ));
            }
        }
        proof {
            lemma_gather_all_later(self.future_tasks@, now as int);
            assert(ready@.to_multiset() =~= gather(old_timed, runs_fn(now as int)));
            assert(old_waiting.subrange(0, 0) =~= Seq::<ScheduledTask>::empty());
        }
        let ghost runs = ready@;
        let mut i: usize = 0;
        while i < self.immediate_queue.len()
            invariant
                self.immediate_queue@ == old_waiting,
                i <= old_waiting.len(),
                ready@ == runs + old_waiting.subrange(0, i as int),
                sorted_by_due(self.future_tasks@),
                all_repeat_ok(self.future_tasks@),
                self.future_tasks@.to_multiset() == gather(old_timed, left_fn(now as int)).add(
                    gather(old_waiting.subrange(0, i as int), requeued_fn()),
                ),
            decreases old_waiting.len() - i,
        {
            let task = self.immediate_queue[i];
            ready.push(task);
            let ghost before = self.future_tasks@;
            match next_run_exec(&task) {
                Some(n) => {
                    let k = insert_by_due(&mut self.future_tasks, n);
                    proof {
                        assert forall|j: int| 0 <= j < self.future_tasks@.len() implies repeat_ok(
                            #[trigger] self.future_tasks@[j],
                        ) by {
                            if j < k {
                                assert(self.future_tasks@[j] == before[j]);
                            } else if j > k {
                                assert(self.future_tasks@[j] == before[j - 1]);
                            }
                        }
                        assert(requeued(task) == seq![n]);
                    }
                },
                None => {
                    proof {
                        assert(requeued(task) =~= Seq::<ScheduledTask>::empty());
                    }
                },
            }
            proof {
                let s = old_waiting.subrange(0, i + 1);
                assert(s.drop_last() =~= old_waiting.subrange(0, i as int));
                assert(s.last() == task);
                assert(ready@ =~= runs + s);
                assert(self.future_tasks@.to_multiset() =~= gather(old_timed, left_fn(now as int)).add(
                    gather(s, requeued_fn()),
                ));
            }
            i = i + 1;
        }
        self.immediate_queue = VecDeque::new();
        proof {
            assert(old_waiting.subrange(0, old_waiting.len() as int) =~= old_waiting);
            let n = ready@.len() - old_waiting.len();
            assert(ready@.subrange(0, n) =~= runs);
            assert(ready@.subrange(n, ready@.len() as int) =~= old_waiting);
        }
        ready
    }
}

/// How many runs a task has by minute `now`: none before it is due; once it
/// is due, one per interval up to `now` for a task that repeats, else one.
pub open spec fn run_count(t: ScheduledTask, now: int) -> int {
    if due(t) > now {
        0
    } else {
        match t.repeat_every_minutes {
            Some(n) => if n >= 1 {
                (now - due(t)) / (n as int) + 1
            } else {
                1
            },
            None => 1,
        }
    }
}

/// The runs by minute `now` of all the tasks of `s`.
pub open spec fn total_runs(s: Seq<ScheduledTask>, now: int) -> int
    decreases s.len(),
{
    if s.len() == 0 {
        0
    } else {
        total_runs(s.drop_last(), now) + run_count(s.last(), now)
    }
}

proof fn lemma_runs_len(t: ScheduledTask, now: int)
    requires
        0 <= now <= u64::MAX,
    ensures
        runs_until(t, now).len() == run_count(t, now),
{
    if due(t) <= now {
        match t.repeat_every_minutes {
            Some(n) => {
                if n >= 1 {
                    lemma_runs_until_count(t, now, n);
                } else {
                    assert(next_run(t) is None);
                }
            },
            None => {},
        }
    }
}

proof fn lemma_gather_runs_len(s: Seq<ScheduledTask>, now: int)
    requires
        0 <= now <= u64::MAX,
    ensures
        gather(s, runs_fn(now)).len() == total_runs(s, now),
    decreases s.len(),
{
    if s.len() > 0 {
        lemma_gather_runs_len(s.drop_last(), now);
        lemma_runs_len(s.last(), now);
        runs_until(s.last(), now).to_multiset_ensures();
    }
}

/// One call of `next_ready_tasks` at minute `now` returns the whole
/// arrival-order queue and, for each timed task, as many tasks as it has runs
/// by `now`: none before it is due, one for a task that does not repeat, and
/// `(now - due) / interval + 1` for one that repeats.
pub proof fn lemma_ready_count(before: Scheduler, after: Scheduler, now: int, ready: Seq<ScheduledTask>)
    requires
        took_ready(before, after, now, ready),
        0 <= now <= u64::MAX,
    ensures
        ready.len() == before.waiting().len() + total_runs(before.timed(), now),
{
    let n = ready.len() - before.waiting().len();
    let runs = ready.subrange(0, n);
    lemma_gather_runs_len(before.timed(), now);
    runs.to_multiset_ensures();
}

/// A timed task that does not repeat, at any call: the call returns it
/// exactly when it is due by `now`; otherwise it stays among the timed tasks.
/// Beside it, the call returns and keeps just what it would for the other
/// tasks.  Applied call after call, such a task stays until the first call
/// whose clock reaches its due minute, which returns it, and no later call
/// returns it again.
pub proof fn lemma_timed_task_take(
    s1: Scheduler,
    s2: Scheduler,
    rest: Seq<ScheduledTask>,
    k: int,
    task: ScheduledTask,
    now: int,
    ready: Seq<ScheduledTask>,
)
    requires
        0 <= k <= rest.len(),
        s1.timed() == rest.insert(k, task),
        task.repeat_every_minutes is None,
        took_ready(s1, s2, now, ready),
    ensures
        ({
            let n = ready.len() - s1.waiting().len();
            &&& ready.subrange(0, n).to_multiset() == gather(rest, runs_fn(now)).add(
                if due(task) <= now {
                    Multiset::singleton(task)
                } else {
                    Multiset::empty()
                },
            )
            &&& s2.timed().to_multiset() == gather(rest, left_fn(now)).add(
                gather(s1.waiting(), requeued_fn()),
            ).add(
                if due(task) > now {
                    Multiset::singleton(task)
                } else {
                    Multiset::empty()
                },
            )
        }),
{
    lemma_gather_insert(rest, k, task, runs_fn(now));
    lemma_gather_insert(rest, k, task, left_fn(now));
    assert(next_run(task) is None);
    assert(seq![task].to_multiset() =~= Multiset::singleton(task)) by {
        assert(seq![task] =~= Seq::<ScheduledTask>::empty().push(task));
    }
    assert(Seq::<ScheduledTask>::empty().to_multiset() =~= Multiset::<ScheduledTask>::empty());
    if due(task) <= now {
        assert(runs_until(task, now) == seq![task]);
        assert(left_after(task, now) =~= Seq::<ScheduledTask>::empty());
    } else {
        assert(runs_until(task, now) =~= Seq::<ScheduledTask>::empty());
        assert(left_after(task, now) == seq![task]);
    }
    assert(s2.timed().to_multiset() =~= gather(rest, left_fn(now)).add(
        gather(s1.waiting(), requeued_fn()),
    ).add(
        if due(task) > now {
            Multiset::singleton(task)
        } else {
            Multiset::empty()
        },
    ));
}

/// The timed tasks of a scheduler hold a task exactly when they are some
/// other tasks with it put in at some place, so `lemma_timed_task_take`
/// applies to every task among them, call after call.
pub proof fn lemma_timed_task_split(s: Scheduler, task: ScheduledTask)
    requires
        s.timed().contains(task),
    ensures
        exists|rest: Seq<ScheduledTask>, k: int|
            0 <= k <= rest.len() && s.timed() == rest.insert(k, task),
{
    let t = s.timed();
    let k = choose|k: int| 0 <= k < t.len() && t[k] == task;
    let rest = t.remove(k);
    assert(t =~= rest.insert(k, task));
}

/// Adding a task and then taking the tasks due by minute `now`: a task due
/// within the first minutes comes out of that very call, last, whatever the
/// clock shows.  A later task that does not repeat comes out of the call
/// exactly when it is due by `now`; otherwise it stays among the timed tasks
/// for a later call (see `lemma_timed_task_take`).  Beside it, the call
/// returns and keeps just what it would have without the task.
pub proof fn lemma_schedule_then_take(
    s0: Scheduler,
    s1: Scheduler,
    s2: Scheduler,
    task: ScheduledTask,
    now: int,
    ready: Seq<ScheduledTask>,
)
    requires
        scheduled(s0, s1, task),
        took_ready(s1, s2, now, ready),
    ensures
        task.execute_at.minutes <= IMMEDIATE_WINDOW_MINUTES ==> {
            &&& ready.len() > 0
            &&& ready.last() == task
            &&& ready.subrange(ready.len() - s1.waiting().len(), ready.len() as int) == s0.waiting().push(
                task,
            )
        },
        task.execute_at.minutes > IMMEDIATE_WINDOW_MINUTES && task.repeat_every_minutes is None
            ==> {
            let n = ready.len() - s0.waiting().len();
            &&& ready.subrange(0, n).to_multiset() == gather(s0.timed(), runs_fn(now)).add(
                if due(task) <= now {
                    Multiset::singleton(task)
                } else {
                    Multiset::empty()
                },
            )
            &&& s2.timed().to_multiset() == gather(s0.timed(), left_fn(now)).add(
                gather(s0.waiting(), requeued_fn()),
            ).add(
                if due(task) > now {
                    Multiset::singleton(task)
                } else {
                    Multiset::empty()
                },
            )
        },
{
    if task.execute_at.minutes <= IMMEDIATE_WINDOW_MINUTES {
        let w = s1.waiting();
        assert(ready.subrange(ready.len() - w.len(), ready.len() as int) == w);
        assert(w.len() > 0);
        assert(ready[ready.len() - 1] == w[w.len() - 1]);
    } else if task.repeat_every_minutes is None {
        let k = choose|k: int|
            0 <= k <= s0.timed().len() && s1.timed() == s0.timed().insert(k, task);
        lemma_timed_task_take(s1, s2, s0.timed(), k, task, now, ready);
    }
}

impl Default for Scheduler {
    fn default() -> (r: Scheduler)
        ensures
            r.wf(),
            r.waiting().len() == 0,
            r.timed().len() == 0,
    {
        Scheduler::new()
    }
}

} // verus!
