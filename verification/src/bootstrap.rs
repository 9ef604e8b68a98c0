//! The tasks a new game starts with.
use vstd::multiset::Multiset;
use vstd::prelude::*;

use crate::events::ScriptedEventEngine;
use crate::scheduler::{
    repeat_ok, ScheduleSpec, ScheduledTask, Scheduler, TaskKind, IMMEDIATE_WINDOW_MINUTES,
};
use crate::time::{ScheduledTime, MINUTES_PER_DAY};

verus! {

broadcast use {vstd::seq_lib::group_to_multiset_ensures, vstd::multiset::group_multiset_axioms};

/// Minutes of one base simulation tick.
pub const BASE_TICK_MINUTES: u64 = 60;

/// A task due at `at` that comes back every `every` minutes.
pub open spec fn repeating(kind: TaskKind, at: u64, every: u64) -> ScheduledTask {
    ScheduledTask {
        kind,
        execute_at: ScheduledTime { minutes: at },
        repeat_every_minutes: Some(every),
    }
}

/// The four tasks of every game: the economic tick every base tick, the
/// event check every four, the policy resolution daily and the diplomatic
/// pulse every six, each first due one interval in.
pub open spec fn core_tasks() -> Seq<ScheduledTask> {
    seq![
        repeating(TaskKind::EconomicTick, 60, 60),
        repeating(TaskKind::EventTrigger, 240, 240),
        repeating(TaskKind::PolicyResolution, 1440, 1440),
        repeating(TaskKind::DiplomaticPulse, 360, 360),
    ]
}

/// All the tasks that a scheduler holds, in either queue.
pub open spec fn all_tasks(s: Scheduler) -> Multiset<ScheduledTask> {
    s.waiting().to_multiset().add(s.timed().to_multiset())
}

fn schedule_counted(scheduler: &mut Scheduler, task: ScheduledTask)
    requires
        old(scheduler).wf(),
        repeat_ok(task),
    ensures
        final(scheduler).wf(),
        all_tasks(*final(scheduler)) == all_tasks(*old(scheduler)).insert(task),
        task.execute_at.minutes > IMMEDIATE_WINDOW_MINUTES ==> final(scheduler).waiting() == old(
            scheduler,
        ).waiting(),
{
    scheduler.schedule(task);
    proof {
        assert(all_tasks(*scheduler) =~= all_tasks(*old(scheduler)).insert(task));
    }
}

/// Schedules the four tasks of every game (see `core_tasks`); all are due
/// later than the first minutes, so all wait for their due minute.
pub fn register_core_tasks(scheduler: &mut Scheduler)
    requires
        old(scheduler).wf(),
    ensures
        final(scheduler).wf(),
        final(scheduler).waiting() == old(scheduler).waiting(),
        all_tasks(*final(scheduler)) == all_tasks(*old(scheduler)).add(core_tasks().to_multiset()),
{
    let ghost start = all_tasks(*scheduler);
    let t1 = ScheduledTask::new(TaskKind::EconomicTick, BASE_TICK_MINUTES).with_schedule(
        ScheduleSpec::EveryMinutes(BASE_TICK_MINUTES),
    );
    let t2 = ScheduledTask::new(TaskKind::EventTrigger, BASE_TICK_MINUTES * 4).with_schedule(
        ScheduleSpec::EveryMinutes(BASE_TICK_MINUTES * 4),
    );
    let t3 = ScheduledTask::new(TaskKind::PolicyResolution, MINUTES_PER_DAY).with_schedule(
        ScheduleSpec::Daily,
    );
    let t4 = ScheduledTask::new(TaskKind::DiplomaticPulse, BASE_TICK_MINUTES * 6).with_schedule(
        ScheduleSpec::EveryMinutes(BASE_TICK_MINUTES * 6),
    );
    schedule_counted(scheduler, t1);
    schedule_counted(scheduler, t2);
    schedule_counted(scheduler, t3);
    schedule_counted(scheduler, t4);
    proof {
        let ts = core_tasks();
        assert(ts =~= Seq::<ScheduledTask>::empty().push(t1).push(t2).push(t3).push(t4));
        assert(Seq::<ScheduledTask>::empty().to_multiset() =~= Multiset::<ScheduledTask>::empty());
        assert(all_tasks(*scheduler) =~= start.add(core_tasks().to_multiset()));
    }
}

/// The task that checks scripted event `idx`: first due after the template's
/// initial delay, then every check interval.
pub open spec fn scripted_task<D>(engine: ScriptedEventEngine<D>, idx: int) -> ScheduledTask {
    repeating(
        TaskKind::ScriptedEvent(idx as usize),
        engine.templates_spec()[idx].delay_spec(),
        engine.templates_spec()[idx].check_spec(),
    )
}

pub open spec fn scripted_tasks<D>(engine: ScriptedEventEngine<D>, n: int) -> Seq<ScheduledTask> {
    Seq::new(n as nat, |i: int| scripted_task(engine, i))
}

/// Schedules one task for each scripted event of the engine, in template
/// order (see `scripted_task`).
pub fn register_scripted_events<D>(scheduler: &mut Scheduler, engine: &ScriptedEventEngine<D>)
    requires
        old(scheduler).wf(),
        engine.wf(),
    ensures
        final(scheduler).wf(),
        all_tasks(*final(scheduler)) == all_tasks(*old(scheduler)).add(
            scripted_tasks(*engine, engine.templates_spec().len() as int).to_multiset(),
        ),
{
    let n = engine.len();
    let mut idx: usize = 0;
    proof {
        assert(scripted_tasks(*engine, 0).to_multiset() =~= Multiset::<ScheduledTask>::empty());
    }
    while idx < n
        invariant
            idx <= n,
            n == engine.templates_spec().len(),
            engine.wf(),
            scheduler.wf(),
            all_tasks(*scheduler) == all_tasks(*old(scheduler)).add(
                scripted_tasks(*engine, idx as int).to_multiset(),
            ),
        decreases n - idx,
    {
        let task = ScheduledTask::new(
            TaskKind::ScriptedEvent(idx),
            engine.initial_delay_minutes(idx),
        ).with_schedule(ScheduleSpec::EveryMinutes(engine.check_minutes(idx)));
        schedule_counted(scheduler, task);
        proof {
            assert(task == scripted_task(*engine, idx as int));
            assert(scripted_tasks(*engine, idx + 1) =~= scripted_tasks(*engine, idx as int).push(task));
            assert(all_tasks(*scheduler) =~= all_tasks(*old(scheduler)).add(
                scripted_tasks(*engine, idx + 1).to_multiset(),
            ));
        }
        idx = idx + 1;
    }
}

} // verus!
