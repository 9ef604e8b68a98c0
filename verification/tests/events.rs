use realgeopolitics::condition::{parse_condition, CompareOp, Comparison, ConditionExpr, MetricKey};
use realgeopolitics::events::{
    compile_template, format_reports, CompiledEventTemplate, EventEffectRaw, EventTemplateRaw,
    MetricField, ScriptedEventEngine, ScriptedEventInstance, ScriptedEventReport, TemplateProblem,
};
use realgeopolitics::politics::clamp_metric;

/// The metric values of a sample country, as the caller of the library sees them.
struct SampleCountry {
    name: String,
    stability: i32,
    approval: i32,
    gdp: f64,
    debt: f64,
}

fn sample_country(name: &str) -> SampleCountry {
    SampleCountry {
        name: name.to_string(),
        stability: 50,
        approval: 45,
        gdp: 500.0,
        debt: 0.0,
    }
}

fn metric_value(country: &SampleCountry, key: MetricKey) -> f64 {
    match key {
        MetricKey::Stability => country.stability as f64,
        MetricKey::Approval => country.approval as f64,
        MetricKey::Gdp => country.gdp,
        MetricKey::Debt => country.debt,
        MetricKey::DebtRatio => {
            if country.gdp <= f64::EPSILON {
                0.0
            } else {
                country.debt / country.gdp * 100.0
            }
        }
        _ => 0.0,
    }
}

fn decide(comparison: &Comparison<String>, country: &SampleCountry) -> bool {
    let value = metric_value(country, comparison.metric);
    let threshold: f64 = comparison.value.parse().unwrap();
    match comparison.op {
        CompareOp::Lt => value < threshold,
        CompareOp::Le => value <= threshold,
        CompareOp::Gt => value > threshold,
        CompareOp::Ge => value >= threshold,
        CompareOp::Eq => (value - threshold).abs() < f64::EPSILON,
        CompareOp::Ne => (value - threshold).abs() >= f64::EPSILON,
    }
}

fn holds(expr: &ConditionExpr<String>, country: &SampleCountry) -> bool {
    let results: Vec<bool> = expr.comparisons().iter().map(|c| decide(c, country)).collect();
    expr.evaluate(&results)
}

fn apply_adjustments(template: &CompiledEventTemplate<f64>, country: &mut SampleCountry) -> Vec<String> {
    for (metric, delta) in template.metric_adjustments() {
        match metric {
            MetricField::Approval => {
                country.approval = clamp_metric((country.approval as f64 + delta).round() as i32)
            }
            MetricField::Stability => {
                country.stability = clamp_metric((country.stability as f64 + delta).round() as i32)
            }
            _ => {}
        }
    }
    template.report_messages(&country.name)
}

fn approval_push_raw() -> EventTemplateRaw<f64> {
    EventTemplateRaw {
        id: "approval_push".to_string(),
        name: "Approval Push".to_string(),
        description: "desc".to_string(),
        condition: "approval >= 40".to_string(),
        check_minutes: 60,
        initial_delay_minutes: 5,
        cooldown_minutes: 120,
        effects: vec![
            EventEffectRaw::AdjustMetric {
                metric: "approval".to_string(),
                delta: 10.0,
            },
            EventEffectRaw::Report {
                message: "{country} improved approval".to_string(),
            },
        ],
    }
}

#[test]
fn format_reports_replaces_all_placeholders() {
    let mut report = ScriptedEventReport::new("{country} gains {amount}".to_string());
    report.add_placeholder("{country}", "Testland");
    report.add_placeholder("{amount}", "10%");

    let formatted = format_reports(&[report]);
    assert_eq!(formatted, vec!["Testland gains 10%".to_string()]);
}

#[test]
fn format_reports_applies_placeholders_in_order() {
    let mut report = ScriptedEventReport::new("{a} and {a}".to_string());
    report.add_placeholder("{a}", "{b}");
    report.add_placeholder("{b}", "x");
    assert_eq!(report.template(), "{a} and {a}");
    assert_eq!(report.placeholders().len(), 2);
    let plain = ScriptedEventReport::new("no tokens".to_string());
    let formatted = format_reports(&[report, plain]);
    assert_eq!(formatted, vec!["x and x".to_string(), "no tokens".to_string()]);
}

#[test]
fn compile_template_rejects_zero_check_minutes() {
    let raw: EventTemplateRaw<f64> = EventTemplateRaw {
        id: "invalid".to_string(),
        name: "Invalid".to_string(),
        description: "desc".to_string(),
        condition: "approval > 0".to_string(),
        check_minutes: 0,
        initial_delay_minutes: 0,
        cooldown_minutes: 60,
        effects: Vec::new(),
    };
    let err = match compile_template(3, raw) {
        Err(e) => e,
        Ok(_) => panic!("check_minutes == 0 should be rejected"),
    };
    assert!(err.message().contains("check_minutes"));
    assert_eq!(err.source_index, 3);
}

#[test]
fn compile_template_reports_bad_condition_and_metric() {
    let mut raw = approval_push_raw();
    raw.condition = "approval >> 3".to_string();
    match compile_template(1, raw) {
        Err(e) => assert!(matches!(e.problem, TemplateProblem::Condition(_))),
        Ok(_) => panic!("bad condition should be rejected"),
    }
    let mut raw = approval_push_raw();
    raw.effects.push(EventEffectRaw::AdjustMetric {
        metric: "Approval".to_string(),
        delta: 1.0,
    });
    match compile_template(2, raw) {
        Err(e) => match e.problem {
            TemplateProblem::UnknownMetric(name) => assert_eq!(name, "Approval"),
            _ => panic!("unexpected problem"),
        },
        Ok(_) => panic!("unknown metric should be rejected"),
    }
}

#[test]
fn compiled_template_exposes_metadata_and_effects() {
    let template = match compile_template(0, approval_push_raw()) {
        Ok(t) => t,
        Err(_) => panic!("valid template should compile"),
    };
    assert_eq!(template.check_minutes(), 60);
    assert_eq!(template.initial_delay_minutes(), 5);
    assert_eq!(template.id(), "approval_push");

    let mut country = sample_country("Testland");
    assert!(template.can_trigger(holds(template.condition(), &country), None, 300));
    let reports = apply_adjustments(&template, &mut country);
    assert_eq!(reports.len(), 1);
    assert_eq!(reports[0], "Testland improved approval");
    assert_eq!(country.approval, 55);

    assert!(
        !template.can_trigger(holds(template.condition(), &country), Some(300), 360),
        "cooldown should prevent immediate re-trigger"
    );
}

#[test]
fn cooldown_boundary_and_clock_going_back() {
    let template = match compile_template(0, approval_push_raw()) {
        Ok(t) => t,
        Err(_) => panic!("valid template should compile"),
    };
    assert_eq!(template.cooldown_minutes(), 120);
    assert!(!template.can_trigger(true, Some(300), 419));
    assert!(template.can_trigger(true, Some(300), 420));
    assert!(!template.can_trigger(true, Some(300), 200));
    assert!(!template.can_trigger(false, None, 1000));
}

#[test]
fn engine_execute_applies_effects_and_respects_cooldown() {
    let template = match compile_template(0, approval_push_raw()) {
        Ok(t) => t,
        Err(_) => panic!("valid template should compile"),
    };
    let mut engine = ScriptedEventEngine::with_templates(vec![template], 1);

    assert_eq!(engine.len(), 1);
    assert_eq!(engine.check_minutes(0), 60);
    assert_eq!(engine.initial_delay_minutes(0), 5);
    assert_eq!(engine.description_of("approval_push"), Some("desc"));

    let mut countries = vec![sample_country("Testland")];
    let holds_now: Vec<bool> = countries
        .iter()
        .map(|c| holds(engine.template(0).condition(), c))
        .collect();
    let fired = engine.execute(0, &holds_now, 300);
    let mut reports = Vec::new();
    for idx in fired {
        let template = engine.template(0);
        reports.extend(apply_adjustments(template, &mut countries[idx]));
    }
    assert_eq!(reports.len(), 1);
    assert_eq!(reports[0], "Testland improved approval");
    assert_eq!(countries[0].approval, 55);

    let holds_later: Vec<bool> = countries
        .iter()
        .map(|c| holds(engine.template(0).condition(), c))
        .collect();
    let fired_second = engine.execute(0, &holds_later, 360);
    assert!(fired_second.is_empty());
    assert_eq!(countries[0].approval, 55);
}

#[test]
fn engine_expands_instance_capacity_for_additional_countries() {
    let raw: EventTemplateRaw<f64> = EventTemplateRaw {
        id: "broad_effect".to_string(),
        name: "Broad Effect".to_string(),
        description: "desc".to_string(),
        condition: "approval >= 0".to_string(),
        check_minutes: 30,
        initial_delay_minutes: 0,
        cooldown_minutes: 30,
        effects: vec![EventEffectRaw::AdjustMetric {
            metric: "approval".to_string(),
            delta: 5.0,
        }],
    };
    let template = match compile_template(0, raw) {
        Ok(t) => t,
        Err(_) => panic!("template should compile"),
    };
    let mut engine = ScriptedEventEngine::with_templates(vec![template], 1);

    let mut countries = vec![sample_country("Alpha"), sample_country("Beta")];
    let baseline_alpha = countries[0].approval;
    let baseline_beta = countries[1].approval;
    let holds_now: Vec<bool> = countries
        .iter()
        .map(|c| holds(engine.template(0).condition(), c))
        .collect();
    let fired = engine.execute(0, &holds_now, 45);
    let mut reports = Vec::new();
    for idx in fired {
        let template = engine.template(0);
        reports.extend(apply_adjustments(template, &mut countries[idx]));
    }
    assert!(reports.is_empty());
    assert_eq!(countries[0].approval, baseline_alpha + 5);
    assert_eq!(countries[1].approval, baseline_beta + 5);
}

#[test]
fn engine_finds_templates_by_id_or_name() {
    let template = match compile_template(0, approval_push_raw()) {
        Ok(t) => t,
        Err(_) => panic!("valid template should compile"),
    };
    let engine = ScriptedEventEngine::with_templates(vec![template], 0);
    assert_eq!(engine.find_index("APPROVAL_PUSH"), Some(0));
    assert_eq!(engine.find_index("approval push"), Some(0));
    assert_eq!(engine.find_index("other"), None);
    assert_eq!(engine.description_of("other"), None);
}

#[test]
fn instance_marks_only_fired_countries() {
    let mut instance = ScriptedEventInstance::new(1);
    let fired = instance.fire(&vec![true, false, true], 100, 50);
    assert_eq!(fired, vec![0, 2]);
    let fired = instance.fire(&vec![true, true, true], 120, 50);
    assert_eq!(fired, vec![1]);
    let fired = instance.fire(&vec![true, true, true], 150, 50);
    assert_eq!(fired, vec![0, 2]);
}

#[test]
fn metric_fields_match_exact_names() {
    assert_eq!(MetricField::from_str("cash_reserve"), Some(MetricField::CashReserve));
    assert_eq!(MetricField::from_str("Debt"), None);
    assert_eq!(MetricField::Gdp.name(), "gdp");
}

#[test]
fn parse_condition_supports_and_or_grouping() {
    let evaluator = match parse_condition("stability > 50 && (approval >= 45 || debt_ratio < 60)") {
        Ok(e) => e,
        Err(_) => panic!("condition should parse"),
    };
    let mut country = SampleCountry {
        name: "Testland".to_string(),
        stability: 55,
        approval: 48,
        gdp: 600.0,
        debt: 0.0,
    };
    assert!(holds(&evaluator, &country));
    country.approval = 40;
    assert!(holds(&evaluator, &country));
    country.stability = 40;
    assert!(!holds(&evaluator, &country));
}

#[test]
fn parse_condition_rejects_unknown_metric() {
    match parse_condition("unknown_metric > 0") {
        Ok(_) => panic!("should fail"),
        Err(err) => {
            assert!(err.message().contains("未知の条件メトリクス"));
        }
    }
}
