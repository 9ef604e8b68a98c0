//! The whole-number side of the countries: metric bounds, credit ratings,
//! unrest after a scheduled event check, and the relations between countries.
use vstd::prelude::*;

use crate::text::{chars_of, string_of};

verus! {

pub const MAX_RELATION: i32 = 100;
pub const MIN_RELATION: i32 = -100;
pub const MAX_METRIC: i32 = 100;
pub const MIN_METRIC: i32 = 0;
pub const MAX_RESOURCES: i32 = 200;
pub const MIN_RESOURCES: i32 = 0;

/// Relation value between two countries when the game starts.
pub const INITIAL_RELATION: i32 = 50;

pub open spec fn clamp_spec(v: int, lo: int, hi: int) -> int {
    if v < lo {
        lo
    } else if v > hi {
        hi
    } else {
        v
    }
}

fn clamp_wide(v: i64, lo: i32, hi: i32) -> (r: i32)
    requires
        lo <= hi,
    ensures
        r == clamp_spec(v as int, lo as int, hi as int),
{
    if v < lo as i64 {
        lo
    } else if v > hi as i64 {
        hi
    } else {
        v as i32
    }
}

pub fn clamp_metric(value: i32) -> (r: i32)
    ensures
        r == clamp_spec(value as int, MIN_METRIC as int, MAX_METRIC as int),
{
    clamp_wide(value as i64, MIN_METRIC, MAX_METRIC)
}

pub fn clamp_relation(value: i32) -> (r: i32)
    ensures
        r == clamp_spec(value as int, MIN_RELATION as int, MAX_RELATION as int),
{
    clamp_wide(value as i64, MIN_RELATION, MAX_RELATION)
}

pub fn clamp_resource(value: i32) -> (r: i32)
    ensures
        r == clamp_spec(value as int, MIN_RESOURCES as int, MAX_RESOURCES as int),
{
    clamp_wide(value as i64, MIN_RESOURCES, MAX_RESOURCES)
}

/// Clamping lands in the range and leaves a value already in it alone.
pub proof fn lemma_clamp_range(v: int, lo: int, hi: int)
    requires
        lo <= hi,
    ensures
        lo <= clamp_spec(v, lo, hi) <= hi,
        lo <= v <= hi ==> clamp_spec(v, lo, hi) == v,
        clamp_spec(clamp_spec(v, lo, hi), lo, hi) == clamp_spec(v, lo, hi),
{
}

// ---------------------------------------------------------------------------
// Credit ratings

#[derive(Debug, Clone, Copy, PartialEq, Eq, Structural)]
pub enum CreditRating {
    AAA,
    AA,
    A,
    BBB,
    BB,
    B,
    CCC,
    CC,
    C,
    D,
}

/// Where a rating stands: 9 for AAA down to 0 for D.
pub open spec fn tier_spec(r: CreditRating) -> int {
    match r {
        CreditRating::AAA => 9,
        CreditRating::AA => 8,
        CreditRating::A => 7,
        CreditRating::BBB => 6,
        CreditRating::BB => 5,
        CreditRating::B => 4,
        CreditRating::CCC => 3,
        CreditRating::CC => 2,
        CreditRating::C => 1,
        CreditRating::D => 0,
    }
}

/// One step down; D stays D.
pub open spec fn downgrade_spec(r: CreditRating) -> CreditRating {
    match r {
        CreditRating::AAA => CreditRating::AA,
        CreditRating::AA => CreditRating::A,
        CreditRating::A => CreditRating::BBB,
        CreditRating::BBB => CreditRating::BB,
        CreditRating::BB => CreditRating::B,
        CreditRating::B => CreditRating::CCC,
        CreditRating::CCC => CreditRating::CC,
        CreditRating::CC => CreditRating::C,
        CreditRating::C => CreditRating::D,
        CreditRating::D => CreditRating::D,
    }
}

impl CreditRating {
    /// The tier that conditions compare as `credit_rating_tier`.
    pub fn tier(self) -> (r: u8)
        ensures
            r as int == tier_spec(self),
    {
        match self {
            CreditRating::AAA => 9,
            CreditRating::AA => 8,
            CreditRating::A => 7,
            CreditRating::BBB => 6,
            CreditRating::BB => 5,
            CreditRating::B => 4,
            CreditRating::CCC => 3,
            CreditRating::CC => 2,
            CreditRating::C => 1,
            CreditRating::D => 0,
        }
    }
}

pub fn downgrade_rating(rating: CreditRating) -> (r: CreditRating)
    ensures
        r == downgrade_spec(rating),
{
    match rating {
        CreditRating::AAA => CreditRating::AA,
        CreditRating::AA => CreditRating::A,
        CreditRating::A => CreditRating::BBB,
        CreditRating::BBB => CreditRating::BB,
        CreditRating::BB => CreditRating::B,
        CreditRating::B => CreditRating::CCC,
        CreditRating::CCC => CreditRating::CC,
        CreditRating::CC => CreditRating::C,
        CreditRating::C => CreditRating::D,
        CreditRating::D => CreditRating::D,
    }
}

/// A downgrade lowers the tier by exactly one, except at D, which it keeps.
pub proof fn lemma_downgrade_tier(r: CreditRating)
    ensures
        r != CreditRating::D ==> tier_spec(downgrade_spec(r)) == tier_spec(r) - 1,
        r == CreditRating::D ==> downgrade_spec(r) == CreditRating::D,
        0 <= tier_spec(r) <= 9,
{
}

/// The rating a country starts with: A when approval is at least 65, else
/// BBB when stability is at least 60, else BB.
pub fn inferred_rating(approval: i32, stability: i32) -> (r: CreditRating)
    ensures
        r == if approval >= 65 {
            CreditRating::A
        } else if stability >= 60 {
            CreditRating::BBB
        } else {
            CreditRating::BB
        },
{
    if approval >= 65 {
        CreditRating::A
    } else if stability >= 60 {
        CreditRating::BBB
    } else {
        CreditRating::BB
    }
}

#[derive(Debug, Clone, Copy, PartialEq, Eq, Structural)]
pub enum RevenueKind {
    Taxation,
    ResourceExport,
    Trade,
    Aid,
    Other,
}

#[derive(Debug, Clone, Copy, PartialEq, Eq, Structural)]
pub enum ExpenseKind {
    Infrastructure,
    Military,
    Welfare,
    Diplomacy,
    DebtService,
    Administration,
    Research,
    Other,
}

// ---------------------------------------------------------------------------
// Unrest

/// The whole-number metrics of a country, with its name.
#[derive(Debug, Clone)]
pub struct CountryVitals {
    pub name: String,
    pub stability: i32,
    pub military: i32,
    pub approval: i32,
    pub resources: i32,
}

/// A country with stability under 35 loses 2 approval; otherwise one with
/// approval under 30 loses 1 stability; both kept within the metric range.
pub open spec fn unrest_after(v: CountryVitals) -> (int, int) {
    if v.stability < 35 {
        (v.stability as int, clamp_spec(v.approval - 2, MIN_METRIC as int, MAX_METRIC as int))
    } else if v.approval < 30 {
        (clamp_spec(v.stability - 1, MIN_METRIC as int, MAX_METRIC as int), v.approval as int)
    } else {
        (v.stability as int, v.approval as int)
    }
}

/// The report for a country after the event check, if anything happened.
pub open spec fn unrest_report(v: CountryVitals) -> Seq<Seq<char>> {
    if v.stability < 35 {
        seq![v.name@ + " で治安不安が高まり、国民支持が低下しました。"@]
    } else if v.approval < 30 {
        seq![v.name@ + " では抗議活動が発生し、安定度がわずかに悪化しました。"@]
    } else {
        Seq::empty()
    }
}

pub open spec fn unrest_reports(vs: Seq<CountryVitals>) -> Seq<Seq<char>>
    decreases vs.len(),
{
    if vs.len() == 0 {
        Seq::empty()
    } else {
        unrest_reports(vs.drop_last()) + unrest_report(vs.last())
    }
}

fn named_message(name: &String, suffix: &str) -> (r: String)
    ensures
        r@ == name@ + suffix@,
{
    let mut out = chars_of(name.as_str());
    let tail = chars_of(suffix);
    let mut i: usize = 0;
    let ghost start = out@;
    while i < tail.len()
        invariant
            i <= tail@.len(),
            out@ == start + tail@.take(i as int),
        decreases tail@.len() - i,
    {
        out.push(tail[i]);
        i = i + 1;
        assert(tail@.take(i as int) == tail@.take(i - 1).push(tail@[i - 1]));
    }
    assert(tail@.take(tail@.len() as int) == tail@);
    string_of(&out)
}

/// The scheduled event check: unrest in each country, as `unrest_after`
/// says, with one report per country it touched, in country order.
pub fn process_event_trigger(countries: &mut Vec<CountryVitals>) -> (r: Vec<String>)
    ensures
        final(countries)@.len() == old(countries)@.len(),
        forall|i: int|
            0 <= i < old(countries)@.len() ==> {
                let (s, a) = unrest_after(old(countries)@[i]);
                &&& (#[trigger] final(countries)@[i]).stability == s
                &&& final(countries)@[i].approval == a
                &&& final(countries)@[i].name == old(countries)@[i].name
                &&& final(countries)@[i].military == old(countries)@[i].military
                &&& final(countries)@[i].resources == old(countries)@[i].resources
            },
        r@.map_values(|s: String| s@) == unrest_reports(old(countries)@),
{
    let mut reports: Vec<String> = Vec::new();
    let mut i: usize = 0;
    while i < countries.len()
        invariant
            i <= countries@.len(),
            countries@.len() == old(countries)@.len(),
            forall|k: int|
                0 <= k < old(countries)@.len() ==> {
                    let (s, a) = unrest_after(old(countries)@[k]);
                    &&& k < i ==> (#[trigger] countries@[k]).stability == s && countries@[k].approval == a
                        && countries@[k].name == old(countries)@[k].name && countries@[k].military
                        == old(countries)@[k].military && countries@[k].resources == old(
                        countries,
                    )@[k].resources
                    &&& k >= i ==> countries@[k] == old(countries)@[k]
                },
            reports@.map_values(|s: String| s@) == unrest_reports(old(countries)@.take(i as int)),
        decreases countries@.len() - i,
    {
        let ghost before = reports@.map_values(|s: String| s@);
        let ghost c = countries@[i as int];
        let mut country = CountryVitals {
            name: countries[i].name.clone(),
            stability: countries[i].stability,
            military: countries[i].military,
            approval: countries[i].approval,
            resources: countries[i].resources,
        };
        if country.stability < 35 {
            country.approval = clamp_wide(country.approval as i64 - 2, MIN_METRIC, MAX_METRIC);
            reports.push(named_message(&country.name, " で治安不安が高まり、国民支持が低下しました。"));
        } else if country.approval < 30 {
            country.stability = clamp_wide(country.stability as i64 - 1, MIN_METRIC, MAX_METRIC);
            reports.push(named_message(&country.name, " では抗議活動が発生し、安定度がわずかに悪化しました。"));
        }
        countries.set(i, country);
        proof {
            let vs = old(countries)@;
            assert(vs.take(i + 1).drop_last() =~= vs.take(i as int));
            assert(vs.take(i + 1).last() == c);
            assert(reports@.map_values(|s: String| s@) =~= before + unrest_report(c));
        }
        i = i + 1;
    }
    proof {
        assert(old(countries)@.take(old(countries)@.len() as int) =~= old(countries)@);
    }
    reports
}

// ---------------------------------------------------------------------------
// Relations

/// A relation moved by `delta` and kept within the relation range; an absent
/// relation stays absent.
pub open spec fn moved(x: Option<i32>, delta: int) -> Option<i32> {
    match x {
        Some(v) => Some(clamp_spec(v + delta, MIN_RELATION as int, MAX_RELATION as int) as i32),
        None => None,
    }
}

/// How a diplomatic pulse moves a relation: down by 1 above 75, up by 2 below
/// -60, up by 1 below 30, else not at all.
pub open spec fn pulse_adjustment(v: i32) -> i32 {
    if v > 75 {
        -1i32
    } else if v < -60 {
        2i32
    } else if v < 30 {
        1i32
    } else {
        0i32
    }
}

pub open spec fn adjustment_of(x: Option<i32>) -> i32 {
    match x {
        Some(v) => pulse_adjustment(v),
        None => 0,
    }
}

/// The relation of `i` toward `j` after a pulse: the pair is moved, both
/// ways, by the adjustment that the relation of the lower index toward the
/// higher calls for.
pub open spec fn pulsed(t: Seq<Seq<Option<i32>>>, i: int, j: int) -> Option<i32> {
    let a = if i < j {
        adjustment_of(t[i][j])
    } else {
        adjustment_of(t[j][i])
    };
    if i != j && a != 0 {
        moved(t[i][j], a as int)
    } else {
        t[i][j]
    }
}

/// The adjustments a pulse makes for the pairs of row `i` from column `j` on.
pub open spec fn row_log(t: Seq<Seq<Option<i32>>>, i: int, j: int, n: int) -> Seq<(usize, usize, i32)>
    decreases n - j,
{
    if j >= n {
        Seq::empty()
    } else {
        let a = adjustment_of(t[i][j]);
        let here = if a != 0 {
            seq![(i as usize, j as usize, a)]
        } else {
            Seq::empty()
        };
        here + row_log(t, i, j + 1, n)
    }
}

/// The adjustments a pulse makes, pair by pair (lower index first, then
/// higher), for the rows from `i` on.
pub open spec fn pulse_log(t: Seq<Seq<Option<i32>>>, i: int, n: int) -> Seq<(usize, usize, i32)>
    decreases n - i,
{
    if i >= n {
        Seq::empty()
    } else {
        row_log(t, i, i + 1, n) + pulse_log(t, i + 1, n)
    }
}

pub open spec fn square(t: Seq<Seq<Option<i32>>>) -> bool {
    forall|i: int| 0 <= i < t.len() ==> (#[trigger] t[i]).len() == t.len()
}

/// The relation of each country toward each other one; a country has none
/// toward itself.
#[derive(Debug, Clone)]
pub struct Relations {
    table: Vec<Vec<Option<i32>>>,
}

pub open spec fn rows_view(t: Seq<Vec<Option<i32>>>) -> Seq<Seq<Option<i32>>> {
    t.map_values(|r: Vec<Option<i32>>| r@)
}

/// Toward-zero halving, as integer division does it.
pub open spec fn half_toward_zero(d: int) -> int {
    if d >= 0 {
        d / 2
    } else {
        -((-d) / 2)
    }
}

impl View for Relations {
    type V = Seq<Seq<Option<i32>>>;

    closed spec fn view(&self) -> Seq<Seq<Option<i32>>> {
        rows_view(self.table@)
    }
}

impl Relations {
    pub open spec fn wf(self) -> bool {
        square(self@)
    }

    /// Every country starts at 50 toward every other one.
    pub fn initialise(count: usize) -> (r: Relations)
        ensures
            r.wf(),
            r@.len() == count,
            forall|i: int, j: int|
                0 <= i < count && 0 <= j < count ==> #[trigger] r@[i][j] == if i == j {
                    None::<i32>
                } else {
                    Some(INITIAL_RELATION)
                },
    {
        let mut table: Vec<Vec<Option<i32>>> = Vec::new();
        let mut i: usize = 0;
        while i < count
            invariant
                i <= count,
                table@.len() == i,
                forall|k: int| 0 <= k < i ==> (#[trigger] table@[k])@.len() == count,
                forall|k: int, j: int|
                    0 <= k < i && 0 <= j < count ==> #[trigger] table@[k]@[j] == if k == j {
                        None::<i32>
                    } else {
                        Some(INITIAL_RELATION)
                    },
            decreases count - i,
        {
            let mut row: Vec<Option<i32>> = Vec::new();
            let mut j: usize = 0;
            while j < count
                invariant
                    j <= count,
                    row@.len() == j,
                    forall|m: int|
                        0 <= m < j ==> #[trigger] row@[m] == if i as int == m {
                            None::<i32>
                        } else {
                            Some(INITIAL_RELATION)
                        },
                decreases count - j,
            {
                if i == j {
                    row.push(None);
                } else {
                    row.push(Some(INITIAL_RELATION));
                }
                j = j + 1;
            }
            table.push(row);
            i = i + 1;
        }
        Relations { table }
    }

    pub fn len(&self) -> (r: usize)
        ensures
            r == self@.len(),
    {
        self.table.len()
    }

    /// The relation of `i` toward `j`, if there is one.
    pub fn get(&self, i: usize, j: usize) -> (r: Option<i32>)
        requires
            self.wf(),
            i < self@.len(),
            j < self@.len(),
        ensures
            r == self@[i as int][j as int],
    {
        assert(self@[i as int] == self.table@[i as int]@);
        self.table[i][j]
    }

    fn move_one(&mut self, i: usize, j: usize, delta: i32)
        requires
            old(self).wf(),
            i < old(self)@.len(),
            j < old(self)@.len(),
        ensures
            final(self).wf(),
            final(self)@ == old(self)@.update(
                i as int,
                old(self)@[i as int].update(j as int, moved(old(self)@[i as int][j as int], delta as int)),
            ),
    {
        let ghost before = self.table@;
        let mut row = self.table.remove(i);
        assert(row@ == old(self)@[i as int]);
        match row[j] {
            Some(v) => {
                let nv = clamp_wide(v as i64 + delta as i64, MIN_RELATION, MAX_RELATION);
                row.set(j, Some(nv));
            },
            None => {},
        }
        proof {
            assert(row@ =~= before[i as int]@.update(j as int, moved(before[i as int]@[j as int], delta as int)));
        }
        self.table.insert(i, row);
        proof {
            assert(self.table@ =~= before.update(i as int, row));
            assert(rows_view(self.table@) =~= rows_view(before).update(
                i as int,
                rows_view(before)[i as int].update(j as int, moved(rows_view(before)[i as int][j as int], delta as int)),
            ));
        }
    }

    /// Moves the relation of `a` toward `b` by `delta_a` and that of `b`
    /// toward `a` by `delta_b`, each kept within the relation range.
    pub fn adjust_bilateral(&mut self, a: usize, b: usize, delta_a: i32, delta_b: i32)
        requires
            old(self).wf(),
            a < old(self)@.len(),
            b < old(self)@.len(),
            a != b,
        ensures
            final(self).wf(),
            final(self)@.len() == old(self)@.len(),
            forall|i: int, j: int|
                0 <= i < old(self)@.len() && 0 <= j < old(self)@.len() ==> #[trigger] final(self)@[i][j]
                    == if i == a && j == b {
                    moved(old(self)@[i][j], delta_a as int)
                } else if i == b && j == a {
                    moved(old(self)@[i][j], delta_b as int)
                } else {
                    old(self)@[i][j]
                },
    {
        self.move_one(a, b, delta_a);
        self.move_one(b, a, delta_b);
    }

    /// Moves the relations of `idx` with every other country: its own by
    /// `delta_primary`, theirs toward it by `delta_secondary`.
    pub fn improve_relations(&mut self, idx: usize, delta_primary: i32, delta_secondary: i32)
        requires
            old(self).wf(),
            idx < old(self)@.len(),
        ensures
            final(self).wf(),
            final(self)@.len() == old(self)@.len(),
            forall|i: int, j: int|
                0 <= i < old(self)@.len() && 0 <= j < old(self)@.len() ==> #[trigger] final(self)@[i][j]
                    == if i == idx && j != idx {
                    moved(old(self)@[i][j], delta_primary as int)
                } else if j == idx && i != idx {
                    moved(old(self)@[i][j], delta_secondary as int)
                } else {
                    old(self)@[i][j]
                },
    {
        self.move_all(idx, delta_primary, delta_secondary);
    }

    fn move_all(&mut self, idx: usize, d1: i32, d2: i32)
        requires
            old(self).wf(),
            idx < old(self)@.len(),
        ensures
            final(self).wf(),
            final(self)@.len() == old(self)@.len(),
            forall|i: int, j: int|
                0 <= i < old(self)@.len() && 0 <= j < old(self)@.len() ==> #[trigger] final(self)@[i][j]
                    == if i == idx && j != idx {
                    moved(old(self)@[i][j], d1 as int)
                } else if j == idx && i != idx {
                    moved(old(self)@[i][j], d2 as int)
                } else {
                    old(self)@[i][j]
                },
    {
        let n = self.table.len();
        let mut p: usize = 0;
        while p < n
            invariant
                p <= n,
                n == old(self)@.len(),
                idx < n,
                self.wf(),
                self@.len() == n,
                forall|i: int, j: int|
                    0 <= i < n && 0 <= j < n ==> #[trigger] self@[i][j] == if i == idx && j != idx
                        && j < p {
                        moved(old(self)@[i][j], d1 as int)
                    } else if j == idx && i != idx && i < p {
                        moved(old(self)@[i][j], d2 as int)
                    } else {
                        old(self)@[i][j]
                    },
            decreases n - p,
        {
            if p != idx {
                self.adjust_bilateral(idx, p, d1, d2);
            }
            p = p + 1;
        }
    }

    /// After a military build-up by `idx`: if `delta` is not zero, its
    /// relations with every other country move by `delta`, theirs toward it
    /// by half of `delta` (rounded toward zero).
    pub fn penalise_after_military(&mut self, idx: usize, delta: i32)
        requires
            old(self).wf(),
            idx < old(self)@.len(),
        ensures
            final(self).wf(),
            final(self)@.len() == old(self)@.len(),
            forall|i: int, j: int|
                0 <= i < old(self)@.len() && 0 <= j < old(self)@.len() ==> #[trigger] final(self)@[i][j]
                    == if delta != 0 && i == idx && j != idx {
                    moved(old(self)@[i][j], delta as int)
                } else if delta != 0 && j == idx && i != idx {
                    moved(old(self)@[i][j], half_toward_zero(delta as int))
                } else {
                    old(self)@[i][j]
                },
    {
        if delta == 0 {
            return;
        }
        let wide: i64 = delta as i64;
        let half: i64 = if wide >= 0 {
            wide / 2
        } else {
            -((-wide) / 2)
        };
        self.move_all(idx, delta, half as i32);
    }

    /// The diplomatic pulse: for each pair, lower index first, the relation
    /// of the lower toward the higher decides an adjustment (see
    /// `pulse_adjustment`), which moves the pair both ways. Gives the
    /// adjustments made, as (lower, higher, amount), in that order.
    pub fn pulse(&mut self) -> (r: Vec<(usize, usize, i32)>)
        requires
            old(self).wf(),
        ensures
            final(self).wf(),
            final(self)@.len() == old(self)@.len(),
            forall|i: int, j: int|
                0 <= i < old(self)@.len() && 0 <= j < old(self)@.len() ==> #[trigger] final(self)@[i][j]
                    == pulsed(old(self)@, i, j),
            r@ == pulse_log(old(self)@, 0, old(self)@.len() as int),
    {
        let n = self.table.len();
        let ghost t = self@;
        let mut log: Vec<(usize, usize, i32)> = Vec::new();
        let mut idx: usize = 0;
        while idx < n
            invariant
                idx <= n,
                n == t.len(),
                t == old(self)@,
                square(t),
                self.wf(),
                self@.len() == n,
                forall|i: int, j: int|
                    0 <= i < n && 0 <= j < n ==> #[trigger] self@[i][j] == if (i < idx || j < idx) {
                        pulsed(t, i, j)
                    } else {
                        t[i][j]
                    },
                log@ + pulse_log(t, idx as int, n as int) == pulse_log(t, 0, n as int),
            decreases n - idx,
        {
            let mut other: usize = idx + 1;
            proof {
                assert(pulse_log(t, idx as int, n as int) == row_log(t, idx as int, idx + 1, n as int) + pulse_log(t, idx + 1, n as int));
                assert(log@ + row_log(t, idx as int, idx + 1, n as int) + pulse_log(t, idx + 1, n as int) =~= pulse_log(t, 0, n as int));
            }
            while other < n
                invariant
                    idx < n,
                    idx < other <= n,
                    n == t.len(),
                    t == old(self)@,
                    square(t),
                    self.wf(),
                    self@.len() == n,
                    forall|i: int, j: int|
                        0 <= i < n && 0 <= j < n ==> #[trigger] self@[i][j] == if (i < idx || j < idx)
                            || (i == idx && j < other && j > idx) || (j == idx && i < other && i > idx) {
                            pulsed(t, i, j)
                        } else {
                            t[i][j]
                        },
                    log@ + row_log(t, idx as int, other as int, n as int) + pulse_log(t, idx + 1, n as int)
                        == pulse_log(t, 0, n as int),
                decreases n - other,
            {
                assert(self@[idx as int] == self.table@[idx as int]@);
                let current = self.table[idx][other];
                proof {
                    assert(current == t[idx as int][other as int]);
                }
                let adjustment: i32 = match current {
                    Some(v) => if v > 75 {
                        -1
                    } else if v < -60 {
                        2
                    } else if v < 30 {
                        1
                    } else {
                        0
                    },
                    None => 0,
                };
                let ghost before_log = log@;
                if adjustment != 0 {
                    self.adjust_bilateral(idx, other, adjustment, adjustment);
                    log.push((idx, other, adjustment));
                }
                proof {
                    assert(row_log(t, idx as int, other as int, n as int) == (if adjustment != 0 {
                        seq![(idx, other, adjustment)]
                    } else {
                        Seq::empty()
                    }) + row_log(t, idx as int, other + 1, n as int));
                    if adjustment != 0 {
                        assert(log@ =~= before_log + seq![(idx, other, adjustment)]);
                    } else {
                        assert(log@ =~= before_log + Seq::<(usize, usize, i32)>::empty());
                    }
                    assert(log@ + row_log(t, idx as int, other + 1, n as int) + pulse_log(t, idx + 1, n as int)
                        =~= pulse_log(t, 0, n as int));
                }
                other = other + 1;
            }
            proof {
                assert(row_log(t, idx as int, n as int, n as int) =~= Seq::<(usize, usize, i32)>::empty());
                assert(log@ + pulse_log(t, idx + 1, n as int) =~= pulse_log(t, 0, n as int));
            }
            idx = idx + 1;
        }
        proof {
            assert(pulse_log(t, n as int, n as int) =~= Seq::<(usize, usize, i32)>::empty());
            assert(log@ =~= pulse_log(t, 0, n as int));
        }
        log
    }
}

pub open spec fn relation_in_range(x: Option<i32>) -> bool {
    match x {
        Some(v) => MIN_RELATION <= v <= MAX_RELATION,
        None => true,
    }
}

/// Moving a relation always lands within -100 to 100.
pub proof fn lemma_moved_in_range(x: Option<i32>, delta: int)
    ensures
        relation_in_range(moved(x, delta)),
{
}

/// A pulse keeps every relation within -100 to 100, and leaves a country
/// without a relation toward itself.
pub proof fn lemma_pulse_keeps_range(t: Seq<Seq<Option<i32>>>, i: int, j: int)
    requires
        square(t),
        0 <= i < t.len(),
        0 <= j < t.len(),
        relation_in_range(t[i][j]),
    ensures
        relation_in_range(pulsed(t, i, j)),
        t[i][i].is_none() ==> pulsed(t, i, i).is_none(),
{
}

/// A pulse moves the two directions of a pair by the same amount: when both
/// relations exist and lie in range away from the bounds, their difference
/// is kept.
pub proof fn lemma_pulse_moves_pair_alike(t: Seq<Seq<Option<i32>>>, i: int, j: int)
    requires
        square(t),
        0 <= i < j < t.len(),
        t[i][j] is Some,
        t[j][i] is Some,
        MIN_RELATION + 2 <= t[i][j]->0 <= MAX_RELATION - 2,
        MIN_RELATION + 2 <= t[j][i]->0 <= MAX_RELATION - 2,
    ensures
        (pulsed(t, i, j)->0 - t[i][j]->0) == (pulsed(t, j, i)->0 - t[j][i]->0),
        pulsed(t, i, j)->0 - t[i][j]->0 == adjustment_of(t[i][j]),
{
}

} // verus!
