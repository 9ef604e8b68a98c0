use realgeopolitics::politics::{
    clamp_metric, clamp_relation, clamp_resource, downgrade_rating, inferred_rating,
    process_event_trigger, CountryVitals, CreditRating, Relations,
};
use realgeopolitics::systems::SystemsFacade;

fn vitals(name: &str, stability: i32, approval: i32) -> CountryVitals {
    CountryVitals {
        name: name.to_string(),
        stability,
        military: 55,
        approval,
        resources: 70,
    }
}

#[test]
fn clamps_keep_each_range() {
    assert_eq!(clamp_metric(-5), 0);
    assert_eq!(clamp_metric(150), 100);
    assert_eq!(clamp_metric(42), 42);
    assert_eq!(clamp_relation(-250), -100);
    assert_eq!(clamp_relation(i32::MAX), 100);
    assert_eq!(clamp_resource(201), 200);
    assert_eq!(clamp_resource(i32::MIN), 0);
}

#[test]
fn credit_ratings_step_down_and_bottom_out() {
    assert_eq!(downgrade_rating(CreditRating::AAA), CreditRating::AA);
    assert_eq!(downgrade_rating(CreditRating::BBB), CreditRating::BB);
    assert_eq!(downgrade_rating(CreditRating::D), CreditRating::D);
    assert_eq!(CreditRating::AAA.tier(), 9);
    assert_eq!(CreditRating::BBB.tier(), 6);
    assert_eq!(CreditRating::D.tier(), 0);
    assert_eq!(inferred_rating(65, 10), CreditRating::A);
    assert_eq!(inferred_rating(50, 60), CreditRating::BBB);
    assert_eq!(inferred_rating(45, 55), CreditRating::BB);
}

#[test]
fn scheduled_task_event_trigger_penalises_low_stability() {
    let mut countries = vec![vitals("Asteria", 30, 50), vitals("Borealis", 55, 45)];
    let reports = process_event_trigger(&mut countries);
    assert!(reports.iter().any(|r| r.contains("国民支持が低下しました")));
    assert!(countries[0].approval < 50);
    assert_eq!(countries[0].approval, 48);
    assert_eq!(countries[1].approval, 45);
    assert_eq!(reports.len(), 1);
}

#[test]
fn event_trigger_protests_lower_stability() {
    let mut countries = vec![vitals("Asteria", 60, 20), vitals("Borealis", 0, 1)];
    let reports = process_event_trigger(&mut countries);
    assert_eq!(
        reports,
        vec![
            "Asteria では抗議活動が発生し、安定度がわずかに悪化しました。".to_string(),
            "Borealis で治安不安が高まり、国民支持が低下しました。".to_string(),
        ]
    );
    assert_eq!(countries[0].stability, 59);
    assert_eq!(countries[1].approval, 0);
    assert_eq!(countries[1].stability, 0);
}

#[test]
fn relations_start_at_fifty_without_self_relation() {
    let relations = Relations::initialise(3);
    assert_eq!(relations.len(), 3);
    assert_eq!(relations.get(0, 0), None);
    assert_eq!(relations.get(0, 2), Some(50));
    assert_eq!(relations.get(2, 1), Some(50));
}

#[test]
fn scheduled_task_diplomatic_pulse_adjusts_relations() {
    let mut relations = Relations::initialise(2);
    relations.adjust_bilateral(0, 1, 40, 40);
    assert_eq!(relations.get(0, 1), Some(90));
    let log = relations.pulse();
    assert_eq!(log, vec![(0, 1, -1)]);
    let relation = relations.get(0, 1).unwrap();
    assert!(relation < 90);
    assert_eq!(relations.get(1, 0), Some(89));
}

#[test]
fn pulse_moves_low_relations_up() {
    let mut relations = Relations::initialise(3);
    relations.adjust_bilateral(0, 1, -150, -30);
    relations.adjust_bilateral(1, 2, -25, 0);
    let log = relations.pulse();
    assert_eq!(log, vec![(0, 1, 2), (1, 2, 1)]);
    assert_eq!(relations.get(0, 1), Some(-98));
    assert_eq!(relations.get(1, 0), Some(22));
    assert_eq!(relations.get(1, 2), Some(26));
    assert_eq!(relations.get(2, 1), Some(51));
    assert_eq!(relations.get(0, 2), Some(50));
}

#[test]
fn improve_and_penalise_move_both_directions() {
    let mut relations = Relations::initialise(3);
    relations.improve_relations(1, 5, 3);
    assert_eq!(relations.get(1, 0), Some(55));
    assert_eq!(relations.get(0, 1), Some(53));
    assert_eq!(relations.get(0, 2), Some(50));
    relations.penalise_after_military(1, -7);
    assert_eq!(relations.get(1, 2), Some(48));
    assert_eq!(relations.get(2, 1), Some(50));
    relations.penalise_after_military(0, 0);
    assert_eq!(relations.get(0, 1), Some(50));
}

#[test]
fn ensure_fiscal_prepared_tracks_state() {
    let mut facade = SystemsFacade::new();
    assert!(facade.ensure_fiscal_prepared());
    assert!(!facade.ensure_fiscal_prepared());
    facade.finish_fiscal_cycle();
    assert!(facade.ensure_fiscal_prepared());
}

#[test]
fn process_economic_tick_resets_preparation_when_not_prepared() {
    let mut facade = SystemsFacade::new();
    let prepared_here = facade.begin_economic_tick();
    assert!(prepared_here);
    facade.end_economic_tick(prepared_here);
    assert!(facade.ensure_fiscal_prepared());
}

#[test]
fn process_economic_tick_preserves_prepared_state_when_already_prepared() {
    let mut facade = SystemsFacade::new();
    assert!(facade.ensure_fiscal_prepared());
    let prepared_here = facade.begin_economic_tick();
    assert!(!prepared_here);
    facade.end_economic_tick(prepared_here);
    assert!(!facade.ensure_fiscal_prepared());
}

#[test]
fn relations_stay_within_bounds_under_repeated_moves() {
    let mut relations = Relations::initialise(3);
    for _ in 0..10 {
        relations.improve_relations(0, 40, 40);
        relations.pulse();
    }
    for i in 0..3 {
        for j in 0..3 {
            if let Some(v) = relations.get(i, j) {
                assert!((-100..=100).contains(&v));
            }
        }
    }
    assert_eq!(relations.get(0, 1), Some(99));
    for _ in 0..10 {
        relations.penalise_after_military(2, i32::MIN);
    }
    assert_eq!(relations.get(2, 0), Some(-100));
    assert_eq!(relations.get(1, 1), None);
}
