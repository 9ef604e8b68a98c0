use realgeopolitics::bootstrap::{register_core_tasks, register_scripted_events, BASE_TICK_MINUTES};
use realgeopolitics::events::{compile_template, EventTemplateRaw, ScriptedEventEngine};
use realgeopolitics::scheduler::{
    ScheduleSpec, ScheduledTask, Scheduler, TaskKind, ONE_YEAR_MINUTES,
};
use realgeopolitics::simulation::SimulationClock;
use realgeopolitics::time::{days_in_month, is_leap_year, CalendarDate, GameClock, ScheduledTime};

fn clock_at(minutes: u64) -> GameClock {
    let mut clock = GameClock::new();
    clock.advance_minutes(minutes);
    clock
}

#[test]
fn scheduler_returns_ready_tasks_by_time() {
    let mut scheduler = Scheduler::new();
    scheduler.schedule(ScheduledTask::new(TaskKind::EconomicTick, 5));
    scheduler.schedule(ScheduledTask::new(TaskKind::EventTrigger, 120));
    scheduler.schedule(ScheduledTask::new(
        TaskKind::PolicyResolution,
        ONE_YEAR_MINUTES + 120,
    ));

    let clock = clock_at(5);
    let ready_now = scheduler.next_ready_tasks(&clock);
    assert_eq!(ready_now.len(), 1);
    assert_eq!(ready_now[0].kind, TaskKind::EconomicTick);

    let later_clock = clock_at(180);
    let ready_later = scheduler.next_ready_tasks(&later_clock);
    assert_eq!(ready_later.len(), 1);
    assert_eq!(ready_later[0].kind, TaskKind::EventTrigger);

    let yearly_clock = clock_at(ONE_YEAR_MINUTES + 240);
    let ready_after_year = scheduler.next_ready_tasks(&yearly_clock);
    assert!(ready_after_year
        .iter()
        .any(|task| task.kind == TaskKind::PolicyResolution));
}

#[test]
fn repeating_schedule_spec_requeues_task() {
    let mut scheduler = Scheduler::new();
    scheduler.schedule(
        ScheduledTask::new(TaskKind::EconomicTick, 5).with_schedule(ScheduleSpec::EveryMinutes(60)),
    );

    let clock = clock_at(5);
    let ready_first = scheduler.next_ready_tasks(&clock);
    assert_eq!(ready_first.len(), 1);
    assert_eq!(ready_first[0].kind, TaskKind::EconomicTick);

    let later_clock = clock_at(65);
    let ready_second = scheduler.next_ready_tasks(&later_clock);
    assert_eq!(ready_second.len(), 1);
    assert_eq!(ready_second[0].kind, TaskKind::EconomicTick);
    assert!(ready_second[0].execute_at.minutes >= 60);
}

#[test]
fn repeating_task_catches_up_once_per_interval() {
    let mut scheduler = Scheduler::new();
    scheduler.schedule(ScheduledTask::new(TaskKind::DiplomaticPulse, 100).with_repeat(30));
    scheduler.schedule(ScheduledTask::new(TaskKind::EventTrigger, 150));
    let ready = scheduler.next_ready_tasks(&clock_at(200));
    let times: Vec<u64> = ready.iter().map(|t| t.execute_at.minutes).collect();
    assert_eq!(times, vec![100, 130, 150, 160, 190]);
    assert_eq!(ready[2].kind, TaskKind::EventTrigger);
    assert_eq!(scheduler.peek_next_minutes(200), Some(220));
    assert!(scheduler.next_ready_tasks(&clock_at(219)).is_empty());
    let ready = scheduler.next_ready_tasks(&clock_at(220));
    assert_eq!(ready.len(), 1);
    assert_eq!(ready[0].execute_at, ScheduledTime::new(220));
}

#[test]
fn immediate_tasks_follow_timed_ones_in_arrival_order() {
    let mut scheduler = Scheduler::new();
    scheduler.schedule(ScheduledTask::new(TaskKind::EventTrigger, 9));
    scheduler.schedule(ScheduledTask::new(TaskKind::EconomicTick, 50));
    scheduler.schedule(ScheduledTask::new(TaskKind::PolicyResolution, 0));
    assert_eq!(scheduler.peek_next_minutes(0), Some(0));
    let ready = scheduler.next_ready_tasks(&clock_at(60));
    let kinds: Vec<TaskKind> = ready.iter().map(|t| t.kind).collect();
    assert_eq!(
        kinds,
        vec![TaskKind::EconomicTick, TaskKind::EventTrigger, TaskKind::PolicyResolution]
    );
    assert_eq!(scheduler.peek_next_minutes(60), None);
}

#[test]
fn game_clock_saturates() {
    let mut clock = GameClock::default();
    assert_eq!(clock.advance_minutes(30), 30);
    assert_eq!(clock.total_minutes(), 30);
    clock.advance_minutes(u64::MAX);
    assert_eq!(clock.total_minutes(), u64::MAX);
}

#[test]
fn calendar_handles_month_year_and_leap_days() {
    let mut date = CalendarDate::from_start();
    date.advance_days(31);
    assert_eq!(date, CalendarDate::new(2025, 2, 1));
    date.advance_days(28);
    assert_eq!(date, CalendarDate::new(2025, 3, 1));
    let mut date = CalendarDate::new(2024, 2, 28);
    date.advance_days(1);
    assert_eq!(date, CalendarDate::new(2024, 2, 29));
    let mut date = CalendarDate::new(2025, 12, 31);
    date.advance_days(1);
    assert_eq!(date, CalendarDate::new(2026, 1, 1));
    let mut date = CalendarDate::from_start();
    date.advance_days(365);
    assert_eq!(date, CalendarDate::new(2026, 1, 1));
    assert!(is_leap_year(2000));
    assert!(!is_leap_year(1900));
    assert_eq!(days_in_month(2023, 2), 28);
    assert_eq!(days_in_month(2025, 13), 30);
}

fn core_clock() -> SimulationClock {
    let mut scheduler = Scheduler::new();
    register_core_tasks(&mut scheduler);
    SimulationClock::new(scheduler)
}

#[test]
fn next_event_minutes_reports_difference() {
    let clock = core_clock();
    let next = clock.next_event_in_minutes().unwrap();
    assert!(next > 0);
    assert_eq!(next, BASE_TICK_MINUTES);
}

#[test]
fn time_status_reflects_clock_and_next_event() {
    let mut clock = core_clock();
    clock.advance(75);
    assert!(clock.simulation_minutes() >= 74);
    assert!(clock.next_event_in_minutes().is_some());
    assert_eq!(clock.calendar_date().day, 1);
}

#[test]
fn simulation_clock_turns_the_calendar_by_whole_days() {
    let mut clock = core_clock();
    let ready = clock.advance(1000);
    let kinds: Vec<TaskKind> = ready.iter().map(|t| t.kind).collect();
    assert_eq!(kinds.iter().filter(|k| **k == TaskKind::EconomicTick).count(), 16);
    assert_eq!(kinds.iter().filter(|k| **k == TaskKind::EventTrigger).count(), 4);
    assert_eq!(kinds.iter().filter(|k| **k == TaskKind::DiplomaticPulse).count(), 2);
    assert_eq!(kinds.iter().filter(|k| **k == TaskKind::PolicyResolution).count(), 0);
    assert_eq!(clock.calendar_date(), CalendarDate::new(2025, 1, 1));
    let ready = clock.advance(440);
    assert!(ready.iter().any(|t| t.kind == TaskKind::PolicyResolution));
    assert_eq!(clock.calendar_date(), CalendarDate::new(2025, 1, 2));
    clock.advance(1440 * 31);
    assert_eq!(clock.calendar_date(), CalendarDate::new(2025, 2, 2));
    assert_eq!(clock.simulation_minutes(), 1440 * 32);
}

#[test]
fn into_bootstrap_populates_all_dependencies() {
    let raw: EventTemplateRaw<f64> = EventTemplateRaw {
        id: "debt_crisis".to_string(),
        name: "Debt Crisis".to_string(),
        description: "desc".to_string(),
        condition: "debt_ratio > 90".to_string(),
        check_minutes: 120,
        initial_delay_minutes: 30,
        cooldown_minutes: 720,
        effects: Vec::new(),
    };
    let template = match compile_template(0, raw) {
        Ok(t) => t,
        Err(_) => panic!("template"),
    };
    let engine = ScriptedEventEngine::with_templates(vec![template], 2);
    let mut scheduler = Scheduler::new();
    register_core_tasks(&mut scheduler);
    register_scripted_events(&mut scheduler, &engine);
    assert!(engine.len() > 0);
    assert!(scheduler.peek_next_minutes(0).is_some());

    let clock = clock_at(BASE_TICK_MINUTES);
    let ready = scheduler.next_ready_tasks(&clock);
    assert!(
        ready.iter().any(|task| matches!(task.kind, TaskKind::EconomicTick)),
        "EconomicTick should be scheduled at first tick"
    );
    assert!(ready.iter().any(|task| task.kind == TaskKind::ScriptedEvent(0)));
}

#[test]
fn advancing_in_two_steps_equals_one_step() {
    let mut stepwise = CalendarDate::new(2024, 1, 30);
    stepwise.advance_days(40);
    stepwise.advance_days(400);
    let mut at_once = CalendarDate::new(2024, 1, 30);
    at_once.advance_days(440);
    assert_eq!(stepwise, at_once);
    assert_eq!(at_once, CalendarDate::new(2025, 4, 14));
}

#[test]
fn calendar_counts_thirty_days_in_months_outside_the_year() {
    let mut date = CalendarDate::new(2025, 13, 30);
    date.advance_days(1);
    assert_eq!(date, CalendarDate::new(2025, 14, 1));
    let mut date = CalendarDate::new(2025, 0, 29);
    date.advance_days(3);
    assert_eq!(date, CalendarDate::new(2025, 1, 2));
    let mut date = CalendarDate::new(2025, 40, 45);
    date.advance_days(0);
    assert_eq!(date, CalendarDate::new(2025, 40, 45));
}

#[test]
fn one_call_returns_every_run_due_by_the_clock() {
    let mut scheduler = Scheduler::new();
    scheduler.schedule(ScheduledTask::new(TaskKind::EconomicTick, 5));
    scheduler.schedule(ScheduledTask::new(TaskKind::EventTrigger, 100));
    scheduler.schedule(ScheduledTask::new(TaskKind::DiplomaticPulse, 60).with_repeat(60));
    let ready = scheduler.next_ready_tasks(&clock_at(240));
    // 1 waiting + 1 non-repeating + (240 - 60) / 60 + 1 runs of the repeating task.
    assert_eq!(ready.len(), 1 + 1 + 4);
    let pulses: Vec<u64> = ready
        .iter()
        .filter(|t| t.kind == TaskKind::DiplomaticPulse)
        .map(|t| t.execute_at.minutes)
        .collect();
    assert_eq!(pulses, vec![60, 120, 180, 240]);
    assert_eq!(ready.last().map(|t| t.kind), Some(TaskKind::EconomicTick));
}

#[test]
fn a_later_task_comes_out_once_when_due() {
    let mut scheduler = Scheduler::new();
    scheduler.schedule(ScheduledTask::new(TaskKind::PolicyResolution, 500));
    assert!(scheduler.next_ready_tasks(&clock_at(240)).is_empty());
    let ready = scheduler.next_ready_tasks(&clock_at(600));
    assert_eq!(ready.len(), 1);
    assert_eq!(ready[0].kind, TaskKind::PolicyResolution);
    assert!(scheduler.next_ready_tasks(&clock_at(700)).is_empty());
    scheduler.schedule(ScheduledTask::new(TaskKind::EventTrigger, 3));
    let ready = scheduler.next_ready_tasks(&clock_at(0));
    assert_eq!(ready.len(), 1);
    assert_eq!(ready[0].kind, TaskKind::EventTrigger);
}

#[test]
fn an_early_task_may_repeat_every_zero_minutes() {
    let mut scheduler = Scheduler::new();
    scheduler.schedule(ScheduledTask::new(TaskKind::EventTrigger, 2).with_repeat(0));
    let ready = scheduler.next_ready_tasks(&clock_at(50));
    assert_eq!(ready.len(), 1);
    assert!(scheduler.next_ready_tasks(&clock_at(100)).is_empty());
}
