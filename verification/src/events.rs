//! Scripted events: templates compiled from their raw form, the per-country
//! cooldown that each keeps, the engine that holds them, and the reports whose
//! placeholders are filled in.
//!
//! Deciding a template's condition for a country compares metric values with
//! the numbers of the condition; the caller does that and hands the outcome
//! in. The amount by which an effect moves a metric is of a type `D` that the
//! caller picks and applies.
use vstd::prelude::*;

use crate::condition::{
    condition_message, parse_condition, parse_condition_spec, ConditionError, ConditionExpr, SError as CSError, SExpr,
};
use crate::text::{
    append_str, chars_of, decimal_spec, decimal_text, lower_seq, replace, replace_all, seq_eq, string_of, to_lower,
};

verus! {

/// Minutes between two checks of a template when its source gives none.
pub const DEFAULT_CHECK_MINUTES: u64 = 120;

/// Minutes a country waits before a template fires for it again, when the
/// source gives none.
pub const DEFAULT_COOLDOWN_MINUTES: u64 = 720;

// ---------------------------------------------------------------------------
// Reports with placeholders

pub open spec fn fill_placeholders(template: Seq<char>, pairs: Seq<(Seq<char>, Seq<char>)>) -> Seq<char>
    decreases pairs.len(),
{
    if pairs.len() == 0 {
        template
    } else {
        let (token, value) = pairs.last();
        replace_all(fill_placeholders(template, pairs.drop_last()), token, value)
    }
}

#[derive(Debug, Clone)]
pub struct Placeholder {
    pub token: String,
    pub value: String,
}

/// A report text and the placeholders to fill in, in the order they were added.
#[derive(Debug, Clone)]
pub struct ScriptedEventReport {
    template: String,
    placeholders: Vec<Placeholder>,
}

pub open spec fn pairs_of(ps: Seq<Placeholder>) -> Seq<(Seq<char>, Seq<char>)> {
    ps.map_values(|p: Placeholder| (p.token@, p.value@))
}

impl ScriptedEventReport {
    pub closed spec fn template_text(self) -> Seq<char> {
        self.template@
    }

    pub closed spec fn pairs(self) -> Seq<(Seq<char>, Seq<char>)> {
        pairs_of(self.placeholders@)
    }

    /// The text that the report reads once filled in.
    pub open spec fn filled(self) -> Seq<char> {
        fill_placeholders(self.template_text(), self.pairs())
    }

    pub fn new(template: String) -> (r: ScriptedEventReport)
        ensures
            r.template_text() == template@,
            r.pairs().len() == 0,
    {
        ScriptedEventReport { template, placeholders: Vec::new() }
    }

    pub fn add_placeholder(&mut self, token: &str, value: &str)
        ensures
            final(self).template_text() == old(self).template_text(),
            final(self).pairs() == old(self).pairs().push((token@, value@)),
    {
        let ghost before = self.placeholders@;
        let p = Placeholder { token: string_of(&chars_of(token)), value: string_of(&chars_of(value)) };
        self.placeholders.push(p);
        proof {
            assert(pairs_of(self.placeholders@) =~= pairs_of(before).push((token@, value@)));
        }
    }

    pub fn template(&self) -> (r: &str)
        ensures
            r@ == self.template_text(),
    {
        self.template.as_str()
    }

    pub fn placeholders(&self) -> (r: &[Placeholder])
        ensures
            pairs_of(r@) == self.pairs(),
    {
        self.placeholders.as_slice()
    }

    fn fill(&self) -> (r: String)
        ensures
            r@ == self.filled(),
    {
        let mut message = chars_of(self.template.as_str());
        let mut i: usize = 0;
        while i < self.placeholders.len()
            invariant
                i <= self.placeholders@.len(),
                message@ == fill_placeholders(self.template_text(), self.pairs().take(i as int)),
            decreases self.placeholders@.len() - i,
        {
            let p = &self.placeholders[i];
            message = replace(&message, &chars_of(p.token.as_str()), &chars_of(p.value.as_str()));
            proof {
                let ps = self.pairs();
                assert(ps.take(i + 1).drop_last() =~= ps.take(i as int));
                assert(ps.take(i + 1).last() == (p.token@, p.value@));
            }
            i = i + 1;
        }
        proof {
            assert(self.pairs().take(self.placeholders@.len() as int) =~= self.pairs());
        }
        string_of(&message)
    }
}

/// Each report with its placeholders filled in, in turn and in the order they
/// were added, every occurrence of a token replaced by its value.
pub fn format_reports(reports: &[ScriptedEventReport]) -> (r: Vec<String>)
    ensures
        r@.len() == reports@.len(),
        forall|i: int| 0 <= i < reports@.len() ==> (#[trigger] r@[i])@ == reports@[i].filled(),
{
    let mut out: Vec<String> = Vec::new();
    let mut i: usize = 0;
    while i < reports.len()
        invariant
            i <= reports@.len(),
            out@.len() == i,
            forall|k: int| 0 <= k < i ==> (#[trigger] out@[k])@ == reports@[k].filled(),
        decreases reports@.len() - i,
    {
        out.push(reports[i].fill());
        i = i + 1;
    }
    out
}

// ---------------------------------------------------------------------------
// Metrics that effects move

#[derive(Debug, Clone, Copy, PartialEq, Eq, Structural)]
pub enum MetricField {
    Stability,
    Approval,
    Military,
    Resources,
    Gdp,
    Debt,
    CashReserve,
}

pub open spec fn metric_field_name(f: MetricField) -> Seq<char> {
    match f {
        MetricField::Stability => "stability"@,
        MetricField::Approval => "approval"@,
        MetricField::Military => "military"@,
        MetricField::Resources => "resources"@,
        MetricField::Gdp => "gdp"@,
        MetricField::Debt => "debt"@,
        MetricField::CashReserve => "cash_reserve"@,
    }
}

/// The metric with exactly this name.
pub open spec fn metric_field_from_name(name: Seq<char>) -> Option<MetricField> {
    if name == metric_field_name(MetricField::Stability) {
        Some(MetricField::Stability)
    } else if name == metric_field_name(MetricField::Approval) {
        Some(MetricField::Approval)
    } else if name == metric_field_name(MetricField::Military) {
        Some(MetricField::Military)
    } else if name == metric_field_name(MetricField::Resources) {
        Some(MetricField::Resources)
    } else if name == metric_field_name(MetricField::Gdp) {
        Some(MetricField::Gdp)
    } else if name == metric_field_name(MetricField::Debt) {
        Some(MetricField::Debt)
    } else if name == metric_field_name(MetricField::CashReserve) {
        Some(MetricField::CashReserve)
    } else {
        None
    }
}

impl MetricField {
    pub fn name(self) -> (r: &'static str)
        ensures
            r@ == metric_field_name(self),
    {
        match self {
            MetricField::Stability => "stability",
            MetricField::Approval => "approval",
            MetricField::Military => "military",
            MetricField::Resources => "resources",
            MetricField::Gdp => "gdp",
            MetricField::Debt => "debt",
            MetricField::CashReserve => "cash_reserve",
        }
    }

    /// The metric with exactly the name `value` (case counts).
    pub fn from_str(value: &str) -> (r: Option<MetricField>)
        ensures
            r == metric_field_from_name(value@),
    {
        let v = chars_of(value);
        if seq_eq(&v, &chars_of(MetricField::Stability.name())) {
            Some(MetricField::Stability)
        } else if seq_eq(&v, &chars_of(MetricField::Approval.name())) {
            Some(MetricField::Approval)
        } else if seq_eq(&v, &chars_of(MetricField::Military.name())) {
            Some(MetricField::Military)
        } else if seq_eq(&v, &chars_of(MetricField::Resources.name())) {
            Some(MetricField::Resources)
        } else if seq_eq(&v, &chars_of(MetricField::Gdp.name())) {
            Some(MetricField::Gdp)
        } else if seq_eq(&v, &chars_of(MetricField::Debt.name())) {
            Some(MetricField::Debt)
        } else if seq_eq(&v, &chars_of(MetricField::CashReserve.name())) {
            Some(MetricField::CashReserve)
        } else {
            None
        }
    }
}

// ---------------------------------------------------------------------------
// Templates

/// An effect as its source gives it.
#[derive(Debug, Clone)]
pub enum EventEffectRaw<D> {
    AdjustMetric { metric: String, delta: D },
    Report { message: String },
}

/// A template as its source gives it.
#[derive(Debug, Clone)]
pub struct EventTemplateRaw<D> {
    pub id: String,
    pub name: String,
    pub description: String,
    pub condition: String,
    pub check_minutes: u64,
    pub initial_delay_minutes: u64,
    pub cooldown_minutes: u64,
    pub effects: Vec<EventEffectRaw<D>>,
}

#[derive(Debug, Clone)]
pub enum CompiledEffect<D> {
    AdjustMetric { metric: MetricField, delta: D },
    Report { message: String },
}

/// Why a template does not compile.
#[derive(Debug, Clone)]
pub enum TemplateProblem<T> {
    /// A template must be checked at least once a minute.
    ZeroCheckMinutes,
    /// The condition does not parse.
    Condition(ConditionError<T>),
    /// An effect names no metric; it holds the name.
    UnknownMetric(T),
}

/// A template that did not compile, with its place among the sources.
#[derive(Debug, Clone)]
pub struct TemplateError<T> {
    pub source_index: usize,
    pub problem: TemplateProblem<T>,
}

/// Whether a raw effect compiles to `c`: the same message, or the metric it
/// names with the same amount.
pub open spec fn effect_compiles_to<D>(e: EventEffectRaw<D>, c: CompiledEffect<D>) -> bool {
    match e {
        EventEffectRaw::AdjustMetric { metric, delta } => metric_field_from_name(metric@) matches Some(
            f,
        ) && c == CompiledEffect::AdjustMetric { metric: f, delta },
        EventEffectRaw::Report { message } => c matches CompiledEffect::Report { message: m }
            && m@ == message@,
    }
}

pub open spec fn effect_ok<D>(e: EventEffectRaw<D>) -> bool {
    match e {
        EventEffectRaw::AdjustMetric { metric, .. } => metric_field_from_name(metric@) is Some,
        EventEffectRaw::Report { .. } => true,
    }
}

/// The index of the first effect that names no metric, if any.
pub open spec fn first_bad_effect<D>(es: Seq<EventEffectRaw<D>>) -> Option<int>
    decreases es.len(),
{
    if es.len() == 0 {
        None
    } else if !effect_ok(es[0]) {
        Some(0)
    } else {
        match first_bad_effect(es.drop_first()) {
            Some(i) => Some(i + 1),
            None => None,
        }
    }
}

pub open spec fn bad_metric_name<D>(e: EventEffectRaw<D>) -> Seq<char> {
    match e {
        EventEffectRaw::AdjustMetric { metric, .. } => metric@,
        EventEffectRaw::Report { .. } => Seq::empty(),
    }
}

pub struct CompiledEventTemplate<D> {
    id: String,
    name: String,
    description: String,
    check_minutes: u64,
    initial_delay_minutes: u64,
    cooldown_minutes: u64,
    condition: ConditionExpr<String>,
    effects: Vec<CompiledEffect<D>>,
}

/// A country with no earlier firing, or one whose last firing lies at least
/// the cooldown before `now`, may fire again.
pub open spec fn cooldown_over(last: Option<u64>, now: u64, cooldown: u64) -> bool {
    match last {
        None => true,
        Some(t) => now >= t && now - t >= cooldown,
    }
}

impl<D> CompiledEventTemplate<D> {
    pub closed spec fn id_text(self) -> Seq<char> {
        self.id@
    }

    pub closed spec fn name_text(self) -> Seq<char> {
        self.name@
    }

    pub closed spec fn description_text(self) -> Seq<char> {
        self.description@
    }

    pub closed spec fn check_spec(self) -> u64 {
        self.check_minutes
    }

    pub closed spec fn delay_spec(self) -> u64 {
        self.initial_delay_minutes
    }

    pub closed spec fn cooldown_spec(self) -> u64 {
        self.cooldown_minutes
    }

    pub closed spec fn condition_spec(self) -> SExpr {
        self.condition@
    }

    pub closed spec fn effects_spec(self) -> Seq<CompiledEffect<D>> {
        self.effects@
    }

    pub fn id(&self) -> (r: &str)
        ensures
            r@ == self.id_text(),
    {
        self.id.as_str()
    }

    pub fn name(&self) -> (r: &str)
        ensures
            r@ == self.name_text(),
    {
        self.name.as_str()
    }

    pub fn description(&self) -> (r: &str)
        ensures
            r@ == self.description_text(),
    {
        self.description.as_str()
    }

    pub fn check_minutes(&self) -> (r: u64)
        ensures
            r == self.check_spec(),
    {
        self.check_minutes
    }

    pub fn initial_delay_minutes(&self) -> (r: u64)
        ensures
            r == self.delay_spec(),
    {
        self.initial_delay_minutes
    }

    pub fn cooldown_minutes(&self) -> (r: u64)
        ensures
            r == self.cooldown_spec(),
    {
        self.cooldown_minutes
    }

    /// The trigger condition; the caller decides its comparisons for a country.
    pub fn condition(&self) -> (r: &ConditionExpr<String>)
        ensures
            r@ == self.condition_spec(),
    {
        &self.condition
    }

    pub fn effects(&self) -> (r: &Vec<CompiledEffect<D>>)
        ensures
            r@ == self.effects_spec(),
    {
        &self.effects
    }

    /// Whether the template fires for a country whose condition came out as
    /// `condition_holds` and which last fired at `last` (if ever).
    pub fn can_trigger(&self, condition_holds: bool, last: Option<u64>, now: u64) -> (r: bool)
        ensures
            r == (condition_holds && cooldown_over(last, now, self.cooldown_spec())),
    {
        if !condition_holds {
            return false;
        }
        match last {
            Some(t) => now >= t && now - t >= self.cooldown_minutes,
            None => true,
        }
    }

    /// The report effects' messages for a country, in order, with
    /// `{country}` replaced by its name.
    pub fn report_messages(&self, country_name: &str) -> (r: Vec<String>)
        ensures
            r@.map_values(|s: String| s@) == report_texts(self.effects_spec(), country_name@),
    {
        let mut out: Vec<String> = Vec::new();
        let mut i: usize = 0;
        let token = chars_of("{country}");
        let name = chars_of(country_name);
        while i < self.effects.len()
            invariant
                i <= self.effects@.len(),
                token@ == "{country}"@,
                name@ == country_name@,
                out@.map_values(|s: String| s@) == report_texts(self.effects@.take(i as int), country_name@),
            decreases self.effects@.len() - i,
        {
            let ghost before = out@;
            match &self.effects[i] {
                CompiledEffect::Report { message } => {
                    let text = replace(&chars_of(message.as_str()), &token, &name);
                    out.push(string_of(&text));
                },
                CompiledEffect::AdjustMetric { .. } => {},
            }
            proof {
                let es = self.effects@;
                assert(es.take(i + 1).drop_last() =~= es.take(i as int));
                assert(es.take(i + 1).last() == es[i as int]);
                assert(out@.map_values(|s: String| s@) =~= report_texts(es.take(i + 1), country_name@));
            }
            i = i + 1;
        }
        proof {
            assert(self.effects@.take(self.effects@.len() as int) =~= self.effects@);
        }
        out
    }
}

/// The messages of the report effects, in order, for a country of the given name.
pub open spec fn report_texts<D>(es: Seq<CompiledEffect<D>>, country_name: Seq<char>) -> Seq<Seq<char>>
    decreases es.len(),
{
    if es.len() == 0 {
        Seq::empty()
    } else {
        let rest = report_texts(es.drop_last(), country_name);
        match es.last() {
            CompiledEffect::Report { message } => rest.push(
                replace_all(message@, "{country}"@, country_name),
            ),
            CompiledEffect::AdjustMetric { .. } => rest,
        }
    }
}

impl<D: Copy> CompiledEventTemplate<D> {
    /// The metric effects, in order: each metric and the amount to move it by.
    pub fn metric_adjustments(&self) -> (r: Vec<(MetricField, D)>)
        ensures
            r@ == adjustments_of(self.effects_spec()),
    {
        let mut out: Vec<(MetricField, D)> = Vec::new();
        let mut i: usize = 0;
        while i < self.effects.len()
            invariant
                i <= self.effects@.len(),
                out@ == adjustments_of(self.effects@.take(i as int)),
            decreases self.effects@.len() - i,
        {
            match &self.effects[i] {
                CompiledEffect::AdjustMetric { metric, delta } => {
                    out.push((*metric, *delta));
                },
                CompiledEffect::Report { .. } => {},
            }
            proof {
                let es = self.effects@;
                assert(es.take(i + 1).drop_last() =~= es.take(i as int));
                assert(es.take(i + 1).last() == es[i as int]);
            }
            i = i + 1;
        }
        proof {
            assert(self.effects@.take(self.effects@.len() as int) =~= self.effects@);
        }
        out
    }
}

pub open spec fn adjustments_of<D>(es: Seq<CompiledEffect<D>>) -> Seq<(MetricField, D)>
    decreases es.len(),
{
    if es.len() == 0 {
        Seq::empty()
    } else {
        let rest = adjustments_of(es.drop_last());
        match es.last() {
            CompiledEffect::AdjustMetric { metric, delta } => rest.push((metric, delta)),
            CompiledEffect::Report { .. } => rest,
        }
    }
}

/// Compiles a template: it must be checked at least once a minute, its
/// condition must parse, and each metric effect must name a metric; the first
/// of these that fails is the error, else the template keeps every field and
/// each effect compiles in order.
pub fn compile_template<D>(source_index: usize, raw: EventTemplateRaw<D>) -> (r: Result<
    CompiledEventTemplate<D>,
    TemplateError<String>,
>)
    ensures
        raw.check_minutes == 0 ==> (r matches Err(e) && e.source_index == source_index
            && e.problem is ZeroCheckMinutes),
        (raw.check_minutes > 0 && parse_condition_spec(raw.condition@) is Err) ==> (r matches Err(e)
            && e.source_index == source_index && (e.problem matches TemplateProblem::Condition(ce)
            && parse_condition_spec(raw.condition@) == Err::<SExpr, CSError>(ce@))),
        (raw.check_minutes > 0 && parse_condition_spec(raw.condition@) is Ok && first_bad_effect(
            raw.effects@,
        ) is Some) ==> (r matches Err(e) && e.source_index == source_index
            && (e.problem matches TemplateProblem::UnknownMetric(n) && n@ == bad_metric_name(
            raw.effects@[first_bad_effect(raw.effects@)->0],
        ))),
        (raw.check_minutes > 0 && parse_condition_spec(raw.condition@) is Ok && first_bad_effect(
            raw.effects@,
        ) is None) ==> (r matches Ok(t) && {
            &&& t.id_text() == raw.id@
            &&& t.name_text() == raw.name@
            &&& t.description_text() == raw.description@
            &&& t.check_spec() == raw.check_minutes
            &&& t.delay_spec() == raw.initial_delay_minutes
            &&& t.cooldown_spec() == raw.cooldown_minutes
            &&& parse_condition_spec(raw.condition@) == Ok::<SExpr, CSError>(t.condition_spec())
            &&& t.effects_spec().len() == raw.effects@.len()
            &&& forall|i: int|
                0 <= i < raw.effects@.len() ==> effect_compiles_to(
                    #[trigger] raw.effects@[i],
                    t.effects_spec()[i],
                )
        }),
{
    let ghost all = raw.effects@;
    let EventTemplateRaw {
        id,
        name,
        description,
        condition,
        check_minutes,
        initial_delay_minutes,
        cooldown_minutes,
        effects,
    } = raw;
    if check_minutes == 0 {
        return Err(TemplateError { source_index, problem: TemplateProblem::ZeroCheckMinutes });
    }
    let expr = match parse_condition(condition.as_str()) {
        Ok(e) => e,
        Err(e) => {
            return Err(TemplateError { source_index, problem: TemplateProblem::Condition(e) });
        },
    };
    let mut rest = effects;
    let mut compiled: Vec<CompiledEffect<D>> = Vec::new();
    let ghost mut k: int = 0;
    proof {
        assert(all.skip(0) =~= all);
    }
    while rest.len() > 0
        invariant
            0 <= k <= all.len(),
            all == raw.effects@,
            check_minutes == raw.check_minutes,
            check_minutes > 0,
            parse_condition_spec(raw.condition@) == Ok::<SExpr, CSError>(expr@),
            rest@ == all.skip(k),
            compiled@.len() == k,
            forall|j: int| 0 <= j < k ==> effect_compiles_to(#[trigger] all[j], compiled@[j]),
            first_bad_effect(all) == match first_bad_effect(all.skip(k)) {
                Some(i) => Some(i + k),
                None => None::<int>,
            },
        decreases rest@.len(),
    {
        let ghost before = rest@;
        let e = rest.remove(0);
        proof {
            assert(before[0] == all[k]);
            assert(before.drop_first() =~= all.skip(k + 1));
        }
        match e {
            EventEffectRaw::AdjustMetric { metric, delta } => {
                match MetricField::from_str(metric.as_str()) {
                    Some(f) => {
                        compiled.push(CompiledEffect::AdjustMetric { metric: f, delta });
                    },
                    None => {
                        proof {
                            assert(first_bad_effect(all.skip(k)) == Some(0int));
                        }
                        return Err(
                            TemplateError { source_index, problem: TemplateProblem::UnknownMetric(metric) },
                        );
                    },
                }
            },
            EventEffectRaw::Report { message } => {
                compiled.push(CompiledEffect::Report { message });
            },
        }
        proof {
            assert(effect_ok(all[k]));
            k = k + 1;
        }
    }
    proof {
        assert(k == all.len());
    }
    Ok(
        CompiledEventTemplate {
            id,
            name,
            description,
            check_minutes,
            initial_delay_minutes,
            cooldown_minutes,
            condition: expr,
            effects: compiled,
        },
    )
}

// ---------------------------------------------------------------------------
// Firing, country by country

/// The minute at which each country last saw a template fire, if ever.
#[derive(Debug)]
pub struct ScriptedEventInstance {
    last_triggered: Vec<Option<u64>>,
}

/// Which countries fire: those whose condition holds and whose cooldown is over.
pub open spec fn fired_countries(
    holds: Seq<bool>,
    last: Seq<Option<u64>>,
    now: u64,
    cooldown: u64,
) -> Seq<usize>
    decreases holds.len(),
{
    if holds.len() == 0 {
        Seq::empty()
    } else {
        let i = holds.len() - 1;
        let rest = fired_countries(holds.drop_last(), last, now, cooldown);
        if holds[i] && cooldown_over(last[i], now, cooldown) {
            rest.push(i as usize)
        } else {
            rest
        }
    }
}

/// The last firing of each country after one round: `now` for those that
/// fired, as before for the others (none for a country not tracked before).
pub open spec fn after_round(
    holds: Seq<bool>,
    last: Seq<Option<u64>>,
    now: u64,
    cooldown: u64,
    i: int,
) -> Option<u64> {
    let before = if i < last.len() {
        last[i]
    } else {
        None
    };
    if i < holds.len() && holds[i] && cooldown_over(before, now, cooldown) {
        Some(now)
    } else {
        before
    }
}

/// The last firings, padded with "never" up to `n` countries.
pub open spec fn padded(last: Seq<Option<u64>>, n: int) -> Seq<Option<u64>> {
    Seq::new(
        if last.len() >= n {
            last.len()
        } else {
            n as nat
        },
        |i: int|
            if i < last.len() {
                last[i]
            } else {
                None
            },
    )
}

impl ScriptedEventInstance {
    pub closed spec fn last(self) -> Seq<Option<u64>> {
        self.last_triggered@
    }

    pub fn new(country_count: usize) -> (r: ScriptedEventInstance)
        ensures
            r.last() == Seq::new(country_count as nat, |i: int| None::<u64>),
    {
        let mut v: Vec<Option<u64>> = Vec::new();
        let mut i: usize = 0;
        while i < country_count
            invariant
                i <= country_count,
                v@ == Seq::new(i as nat, |j: int| None::<u64>),
            decreases country_count - i,
        {
            v.push(None);
            i = i + 1;
            assert(v@ =~= Seq::new(i as nat, |j: int| None::<u64>));
        }
        ScriptedEventInstance { last_triggered: v }
    }

    /// Tracks at least `country_count` countries; new ones never fired.
    pub fn ensure_capacity(&mut self, country_count: usize)
        ensures
            final(self).last() == padded(old(self).last(), country_count as int),
    {
        while self.last_triggered.len() < country_count
            invariant
                old(self).last().len() <= self.last_triggered@.len(),
                self.last_triggered@.len() <= country_count || self.last_triggered@.len()
                    == old(self).last().len(),
                forall|i: int|
                    0 <= i < self.last_triggered@.len() ==> #[trigger] self.last_triggered@[i] == (
                    if i < old(self).last().len() {
                        old(self).last()[i]
                    } else {
                        None
                    }),
            decreases country_count - self.last_triggered@.len(),
        {
            self.last_triggered.push(None);
        }
        proof {
            assert(self.last_triggered@ =~= padded(old(self).last(), country_count as int));
        }
    }

    /// Fires for each country whose condition holds and whose cooldown is
    /// over, marks it as fired at `now`, and gives the countries that fired.
    pub fn fire(&mut self, holds: &Vec<bool>, now: u64, cooldown: u64) -> (r: Vec<usize>)
        ensures
            r@ == fired_countries(holds@, padded(old(self).last(), holds@.len() as int), now, cooldown),
            final(self).last().len() == padded(old(self).last(), holds@.len() as int).len(),
            forall|i: int|
                0 <= i < final(self).last().len() ==> #[trigger] final(self).last()[i]
                    == after_round(holds@, old(self).last(), now, cooldown, i),
    {
        self.ensure_capacity(holds.len());
        let ghost start = self.last_triggered@;
        let mut fired: Vec<usize> = Vec::new();
        let mut i: usize = 0;
        while i < holds.len()
            invariant
                i <= holds@.len(),
                start == padded(old(self).last(), holds@.len() as int),
                start.len() >= holds@.len(),
                self.last_triggered@.len() == start.len(),
                fired@ == fired_countries(holds@.take(i as int), start, now, cooldown),
                forall|j: int|
                    0 <= j < start.len() ==> #[trigger] self.last_triggered@[j] == (if j < i {
                        after_round(holds@, old(self).last(), now, cooldown, j)
                    } else {
                        start[j]
                    }),
            decreases holds@.len() - i,
        {
            let last = self.last_triggered[i];
            let ready = match last {
                Some(t) => now >= t && now - t >= cooldown,
                None => true,
            };
            proof {
                assert(holds@.take(i + 1).drop_last() =~= holds@.take(i as int));
            }
            if holds[i] && ready {
                fired.push(i);
                self.last_triggered.set(i, Some(now));
            }
            i = i + 1;
        }
        proof {
            assert(holds@.take(holds@.len() as int) =~= holds@);
            assert forall|j: int| 0 <= j < self.last_triggered@.len() implies #[trigger] self.last_triggered@[j]
                == after_round(holds@, old(self).last(), now, cooldown, j) by {
                if j >= holds@.len() {
                    assert(start[j] == (if j < old(self).last().len() {
                        old(self).last()[j]
                    } else {
                        None
                    }));
                }
            }
        }
        fired
    }
}

/// The templates of the game and, for each, the last firing per country.
pub struct ScriptedEventEngine<D> {
    templates: Vec<CompiledEventTemplate<D>>,
    instances: Vec<ScriptedEventInstance>,
}

impl<D> ScriptedEventEngine<D> {
    pub closed spec fn templates_spec(self) -> Seq<CompiledEventTemplate<D>> {
        self.templates@
    }

    /// The last firing per country of template `idx`.
    pub closed spec fn last_of(self, idx: int) -> Seq<Option<u64>> {
        self.instances@[idx].last()
    }

    pub closed spec fn wf(self) -> bool {
        &&& self.instances@.len() == self.templates@.len()
        &&& forall|i: int| 0 <= i < self.templates@.len() ==> (#[trigger] self.templates@[i]).check_spec() >= 1
    }

    pub fn with_templates(templates: Vec<CompiledEventTemplate<D>>, country_count: usize) -> (r: ScriptedEventEngine<D>)
        requires
            forall|i: int| 0 <= i < templates@.len() ==> (#[trigger] templates@[i]).check_spec() >= 1,
        ensures
            r.wf(),
            r.templates_spec() == templates@,
            forall|i: int|
                0 <= i < templates@.len() ==> #[trigger] r.last_of(i) == Seq::new(
                    country_count as nat,
                    |j: int| None::<u64>,
                ),
    {
        let mut instances: Vec<ScriptedEventInstance> = Vec::new();
        let mut i: usize = 0;
        while i < templates.len()
            invariant
                i <= templates@.len(),
                instances@.len() == i,
                forall|k: int|
                    0 <= k < i ==> (#[trigger] instances@[k]).last() == Seq::new(
                        country_count as nat,
                        |j: int| None::<u64>,
                    ),
            decreases templates@.len() - i,
        {
            instances.push(ScriptedEventInstance::new(country_count));
            i = i + 1;
        }
        ScriptedEventEngine { templates, instances }
    }

    pub fn len(&self) -> (r: usize)
        ensures
            r == self.templates_spec().len(),
    {
        self.templates.len()
    }

    pub fn template(&self, idx: usize) -> (r: &CompiledEventTemplate<D>)
        requires
            idx < self.templates_spec().len(),
        ensures
            *r == self.templates_spec()[idx as int],
    {
        &self.templates[idx]
    }

    pub fn check_minutes(&self, idx: usize) -> (r: u64)
        requires
            idx < self.templates_spec().len(),
        ensures
            r == self.templates_spec()[idx as int].check_spec(),
            self.wf() ==> r >= 1,
    {
        self.templates[idx].check_minutes()
    }

    pub fn initial_delay_minutes(&self, idx: usize) -> (r: u64)
        requires
            idx < self.templates_spec().len(),
        ensures
            r == self.templates_spec()[idx as int].delay_spec(),
    {
        self.templates[idx].initial_delay_minutes()
    }

    /// The first template whose id or name equals `id`, ASCII case ignored.
    pub fn find_index(&self, id: &str) -> (r: Option<usize>)
        ensures
            match first_named(self.templates_spec(), lower_seq(id@)) {
                Some(k) => r matches Some(i) && i as int == k && 0 <= k < self.templates_spec().len(),
                None => r.is_none(),
            },
    {
        let needle = to_lower(&chars_of(id));
        let mut i: usize = 0;
        proof {
            assert(self.templates@.skip(0) =~= self.templates@);
            lemma_first_named_bound(self.templates@, needle@);
        }
        while i < self.templates.len()
            invariant
                i <= self.templates@.len(),
                needle@ == lower_seq(id@),
                first_named(self.templates@, needle@) == match first_named(self.templates@.skip(i as int), needle@) {
                    Some(k) => Some(k + i),
                    None => None::<int>,
                },
            decreases self.templates@.len() - i,
        {
            let t = &self.templates[i];
            proof {
                assert(self.templates@.skip(i as int)[0] == *t);
                assert(self.templates@.skip(i as int).drop_first() =~= self.templates@.skip(i + 1));
            }
            if seq_eq(&to_lower(&chars_of(t.id())), &needle) || seq_eq(&to_lower(&chars_of(t.name())), &needle) {
                return Some(i);
            }
            i = i + 1;
        }
        None
    }

    /// The description of the template that `find_index` finds.
    pub fn description_of(&self, id: &str) -> (r: Option<&str>)
        ensures
            match first_named(self.templates_spec(), lower_seq(id@)) {
                Some(k) => r matches Some(d) && d@ == self.templates_spec()[k].description_text(),
                None => r.is_none(),
            },
    {
        match self.find_index(id) {
            Some(k) => {
                let d = self.templates[k].description();
                proof {
                    let kk = first_named(self.templates@, lower_seq(id@))->0;
                    assert(kk == k as int);
                    assert(d@ == self.templates@[k as int].description_text());
                }
                Some(d)
            },
            None => None,
        }
    }

    /// Runs template `idx` for each country: `holds` says whose condition
    /// holds; the countries that fire are given back and marked as fired now.
    pub fn execute(&mut self, idx: usize, holds: &Vec<bool>, now: u64) -> (r: Vec<usize>)
        requires
            old(self).wf(),
            idx < old(self).templates_spec().len(),
        ensures
            final(self).wf(),
            final(self).templates_spec() == old(self).templates_spec(),
            r@ == fired_countries(
                holds@,
                padded(old(self).last_of(idx as int), holds@.len() as int),
                now,
                old(self).templates_spec()[idx as int].cooldown_spec(),
            ),
            forall|i: int|
                0 <= i < final(self).last_of(idx as int).len() ==> #[trigger] final(self).last_of(idx as int)[i]
                    == after_round(
                    holds@,
                    old(self).last_of(idx as int),
                    now,
                    old(self).templates_spec()[idx as int].cooldown_spec(),
                    i,
                ),
            forall|k: int|
                0 <= k < old(self).templates_spec().len() && k != idx ==> #[trigger] final(self).last_of(k)
                    == old(self).last_of(k),
    {
        let cooldown = self.templates[idx].cooldown_minutes();
        let mut instance = self.instances.remove(idx);
        let fired = instance.fire(holds, now, cooldown);
        self.instances.insert(idx, instance);
        proof {
            assert forall|k: int|
                0 <= k < old(self).templates_spec().len() && k != idx implies #[trigger] self.last_of(k)
                    == old(self).last_of(k) by {
                if k < idx {
                    assert(self.instances@[k] == old(self).instances@[k]);
                } else {
                    assert(self.instances@[k] == old(self).instances@[k]);
                }
            }
        }
        fired
    }
}

/// The index of the first template whose id or name lower-cased is `needle`.
pub open spec fn first_named<D>(ts: Seq<CompiledEventTemplate<D>>, needle: Seq<char>) -> Option<int>
    decreases ts.len(),
{
    if ts.len() == 0 {
        None
    } else if lower_seq(ts[0].id_text()) == needle || lower_seq(ts[0].name_text()) == needle {
        Some(0)
    } else {
        match first_named(ts.drop_first(), needle) {
            Some(k) => Some(k + 1),
            None => None,
        }
    }
}

pub proof fn lemma_first_named_bound<D>(ts: Seq<CompiledEventTemplate<D>>, needle: Seq<char>)
    ensures
        first_named(ts, needle) matches Some(k) ==> 0 <= k < ts.len(),
    decreases ts.len(),
{
    if ts.len() > 0 {
        lemma_first_named_bound(ts.drop_first(), needle);
    }
}

/// A country that fired at minute `t` may fire again exactly from minute
/// `t + cooldown` on.
pub proof fn lemma_cooldown_window(t: u64, later: u64, cooldown: u64)
    ensures
        cooldown_over(Some(t), later, cooldown) <==> later >= t + cooldown,
{
}

/// The message shown for a template that does not compile.
pub open spec fn template_message(source_index: usize, problem: TemplateProblem<String>) -> Seq<char> {
    "イベントテンプレート "@ + decimal_spec(source_index as nat) + " のコンパイルに失敗しました: "@
        + match problem {
        TemplateProblem::ZeroCheckMinutes => "check_minutes は 1 以上である必要があります"@,
        TemplateProblem::Condition(e) => condition_message(e@),
        TemplateProblem::UnknownMetric(n) => "未知のメトリクス '"@ + n@ + "' が指定されました"@,
    }
}

impl TemplateError<String> {
    /// The message shown when the template does not compile.
    pub fn message(&self) -> (r: String)
        ensures
            r@ == template_message(self.source_index, self.problem),
    {
        let mut out: Vec<char> = Vec::new();
        append_str(&mut out, "イベントテンプレート ");
        let digits = decimal_text(self.source_index);
        let ghost head = out@;
        let mut i: usize = 0;
        while i < digits.len()
            invariant
                i <= digits@.len(),
                out@ == head + digits@.take(i as int),
            decreases digits@.len() - i,
        {
            out.push(digits[i]);
            i = i + 1;
            assert(digits@.take(i as int) == digits@.take(i - 1).push(digits@[i - 1]));
        }
        assert(digits@.take(digits@.len() as int) == digits@);
        append_str(&mut out, " のコンパイルに失敗しました: ");
        match &self.problem {
            TemplateProblem::ZeroCheckMinutes => {
                append_str(&mut out, "check_minutes は 1 以上である必要があります");
            },
            TemplateProblem::Condition(e) => {
                let m = e.message();
                append_str(&mut out, m.as_str());
            },
            TemplateProblem::UnknownMetric(n) => {
                append_str(&mut out, "未知のメトリクス '");
                append_str(&mut out, n.as_str());
                append_str(&mut out, "' が指定されました");
            },
        }
        assert(out@ =~= template_message(self.source_index, self.problem));
        string_of(&out)
    }
}

} // verus!
