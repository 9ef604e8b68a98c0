//! Industry sectors: their categories and ids, the catalog that holds one
//! definition per id, the registry that resolves what a player types to an id,
//! and the reporter that gathers messages of a tick.
use vstd::prelude::*;

use crate::text::{
    append_str, chars_of, is_blank, lemma_lower_unchanged, lemma_trim_unchanged, lower_seq, seq_eq, string_of,
    to_lower, trim, trim_chars, is_ws,
};

verus! {

#[derive(Debug, Clone, Copy, PartialEq, Eq, Structural, Hash, PartialOrd, Ord)]
pub enum IndustryCategory {
    Primary,
    Secondary,
    Tertiary,
    Energy,
}

/// The name of a category, as `as_str` gives it.
pub open spec fn category_name(c: IndustryCategory) -> Seq<char> {
    match c {
        IndustryCategory::Primary => "primary"@,
        IndustryCategory::Secondary => "secondary"@,
        IndustryCategory::Tertiary => "tertiary"@,
        IndustryCategory::Energy => "energy"@,
    }
}

/// The category that a normalised (trimmed, lower-cased) text names: its
/// English name, its Japanese name, or its number from 1 to 4.
pub open spec fn category_from_text(t: Seq<char>) -> Option<IndustryCategory> {
    if t == "primary"@ || t == "一次"@ || t == "1"@ {
        Some(IndustryCategory::Primary)
    } else if t == "secondary"@ || t == "二次"@ || t == "2"@ {
        Some(IndustryCategory::Secondary)
    } else if t == "tertiary"@ || t == "三次"@ || t == "3"@ {
        Some(IndustryCategory::Tertiary)
    } else if t == "energy"@ || t == "エネルギー"@ || t == "4"@ {
        Some(IndustryCategory::Energy)
    } else {
        None
    }
}

/// What went wrong with a sector or a category.
#[derive(Debug, Clone, PartialEq, Eq)]
pub enum IndustryError<T> {
    /// The text names no category; it holds the normalised text.
    UnknownCategory(T),
    /// The sector token is empty or white space only.
    EmptySectorToken,
    /// The key after `category:` is empty.
    EmptySectorKey,
    /// No sector of the given category has the key; it holds the token.
    SectorNotInCategory(T),
    /// No sector has the key; it holds the token.
    SectorNotFound(T),
    /// Sectors of several categories have the key; it holds the token.
    AmbiguousSector(T),
    /// The catalog already holds a sector with this id.
    DuplicateSector { key: T, category: IndustryCategory },
}

pub type SError = IndustryError<Seq<char>>;

impl View for IndustryError<String> {
    type V = SError;

    open spec fn view(&self) -> SError {
        match self {
            IndustryError::UnknownCategory(t) => IndustryError::UnknownCategory(t@),
            IndustryError::EmptySectorToken => IndustryError::EmptySectorToken,
            IndustryError::EmptySectorKey => IndustryError::EmptySectorKey,
            IndustryError::SectorNotInCategory(t) => IndustryError::SectorNotInCategory(t@),
            IndustryError::SectorNotFound(t) => IndustryError::SectorNotFound(t@),
            IndustryError::AmbiguousSector(t) => IndustryError::AmbiguousSector(t@),
            IndustryError::DuplicateSector { key, category } => IndustryError::DuplicateSector {
                key: key@,
                category: *category,
            },
        }
    }
}

/// The message shown for an error.
pub open spec fn industry_message(e: SError) -> Seq<char> {
    match e {
        IndustryError::UnknownCategory(t) => "未知の産業カテゴリです: "@ + t,
        IndustryError::EmptySectorToken => "セクターを指定してください。"@,
        IndustryError::EmptySectorKey => "セクターキーが空です。"@,
        IndustryError::SectorNotInCategory(t) => "指定されたセクターは存在しません: "@ + t,
        IndustryError::SectorNotFound(t) => "セクターが見つかりません: "@ + t,
        IndustryError::AmbiguousSector(t) => "セクター名が複数カテゴリに存在します: "@ + t
            + " (category:key 形式で指定してください)"@,
        IndustryError::DuplicateSector { key, category } => "セクター定義が重複しています: "@ + key
            + " ("@ + category_name(category) + ")"@,
    }
}

impl IndustryError<String> {
    /// The message shown to the player.
    pub fn message(&self) -> (r: String)
        ensures
            r@ == industry_message(self@),
    {
        let mut out: Vec<char> = Vec::new();
        match self {
            IndustryError::UnknownCategory(t) => {
                append_str(&mut out, "未知の産業カテゴリです: ");
                append_str(&mut out, t.as_str());
            },
            IndustryError::EmptySectorToken => {
                append_str(&mut out, "セクターを指定してください。");
            },
            IndustryError::EmptySectorKey => {
                append_str(&mut out, "セクターキーが空です。");
            },
            IndustryError::SectorNotInCategory(t) => {
                append_str(&mut out, "指定されたセクターは存在しません: ");
                append_str(&mut out, t.as_str());
            },
            IndustryError::SectorNotFound(t) => {
                append_str(&mut out, "セクターが見つかりません: ");
                append_str(&mut out, t.as_str());
            },
            IndustryError::AmbiguousSector(t) => {
                append_str(&mut out, "セクター名が複数カテゴリに存在します: ");
                append_str(&mut out, t.as_str());
                append_str(&mut out, " (category:key 形式で指定してください)");
            },
            IndustryError::DuplicateSector { key, category } => {
                append_str(&mut out, "セクター定義が重複しています: ");
                append_str(&mut out, key.as_str());
                append_str(&mut out, " (");
                append_str(&mut out, category.as_str());
                append_str(&mut out, ")");
            },
        }
        assert(out@ =~= industry_message(self@));
        string_of(&out)
    }
}

impl IndustryCategory {
    /// Every category, in the order primary, secondary, tertiary, energy.
    pub fn iter() -> (r: Vec<IndustryCategory>)
        ensures
            r@ == seq![
                IndustryCategory::Primary,
                IndustryCategory::Secondary,
                IndustryCategory::Tertiary,
                IndustryCategory::Energy,
            ],
    {
        vec![
            IndustryCategory::Primary,
            IndustryCategory::Secondary,
            IndustryCategory::Tertiary,
            IndustryCategory::Energy,
        ]
    }

    pub fn as_str(self) -> (r: &'static str)
        ensures
            r@ == category_name(self),
    {
        match self {
            IndustryCategory::Primary => "primary",
            IndustryCategory::Secondary => "secondary",
            IndustryCategory::Tertiary => "tertiary",
            IndustryCategory::Energy => "energy",
        }
    }

    /// The category that `s` names once trimmed and ASCII lower-cased.
    pub fn from_str(s: &str) -> (r: Result<IndustryCategory, IndustryError<String>>)
        ensures
            match category_from_text(lower_seq(trim(s@))) {
                Some(c) => r == Ok::<IndustryCategory, IndustryError<String>>(c),
                None => r matches Err(e) && e@ == IndustryError::UnknownCategory(
                    lower_seq(trim(s@)),
                ),
            },
    {
        let normalized = to_lower(&trim_chars(&chars_of(s)));
        Self::from_normalized(&normalized)
    }

    fn from_normalized(t: &Vec<char>) -> (r: Result<IndustryCategory, IndustryError<String>>)
        ensures
            match category_from_text(t@) {
                Some(c) => r == Ok::<IndustryCategory, IndustryError<String>>(c),
                None => r matches Err(e) && e@ == IndustryError::UnknownCategory(t@),
            },
    {
        if seq_eq(t, &chars_of("primary")) || seq_eq(t, &chars_of("一次")) || seq_eq(
            t,
            &chars_of("1"),
        ) {
            Ok(IndustryCategory::Primary)
        } else if seq_eq(t, &chars_of("secondary")) || seq_eq(t, &chars_of("二次")) || seq_eq(
            t,
            &chars_of("2"),
        ) {
            Ok(IndustryCategory::Secondary)
        } else if seq_eq(t, &chars_of("tertiary")) || seq_eq(t, &chars_of("三次")) || seq_eq(
            t,
            &chars_of("3"),
        ) {
            Ok(IndustryCategory::Tertiary)
        } else if seq_eq(t, &chars_of("energy")) || seq_eq(t, &chars_of("エネルギー")) || seq_eq(
            t,
            &chars_of("4"),
        ) {
            Ok(IndustryCategory::Energy)
        } else {
            Err(IndustryError::UnknownCategory(string_of(t)))
        }
    }
}

/// Reading the name of a category gives the category back.
pub proof fn lemma_category_name_round_trip(c: IndustryCategory)
    ensures
        category_from_text(lower_seq(trim(category_name(c)))) == Some(c),
{
    reveal_strlit("primary");
    reveal_strlit("secondary");
    reveal_strlit("tertiary");
    reveal_strlit("energy");
    reveal_strlit("一次");
    reveal_strlit("二次");
    reveal_strlit("三次");
    reveal_strlit("エネルギー");
    reveal_strlit("1");
    reveal_strlit("2");
    reveal_strlit("3");
    reveal_strlit("4");
    let n = category_name(c);
    lemma_trim_unchanged(n);
    lemma_lower_unchanged(n);
}

/// A sector: its category and its key within the category.
#[derive(Debug, Clone, PartialEq, Eq, Hash)]
pub struct SectorId {
    pub category: IndustryCategory,
    pub key: String,
}

/// A sector id as plain values.
pub type SectorKey = (IndustryCategory, Seq<char>);

impl View for SectorId {
    type V = SectorKey;

    open spec fn view(&self) -> SectorKey {
        (self.category, self.key@)
    }
}

pub open spec fn keys_of(ids: Seq<SectorId>) -> Seq<SectorKey> {
    ids.map_values(|id: SectorId| id@)
}

impl SectorId {
    pub fn new(category: IndustryCategory, key: &str) -> (r: SectorId)
        ensures
            r@ == (category, key@),
    {
        SectorId { category, key: string_of(&chars_of(key)) }
    }

    /// A copy of this id.
    pub fn duplicate(&self) -> (r: SectorId)
        ensures
            r@ == self@,
    {
        SectorId { category: self.category, key: self.key.clone() }
    }
}

/// How one sector depends on another.
#[derive(Debug, Clone, Copy, PartialEq, Eq, Structural, Hash)]
pub enum DependencyKind {
    Input,
    Cost,
    Demand,
}

impl Default for DependencyKind {
    fn default() -> (r: DependencyKind)
        ensures
            r == DependencyKind::Input,
    {
        DependencyKind::Input
    }
}

/// The sector that a dependency names: its own category if it gives one, else
/// the category of the sector that depends on it.
pub fn resolve_dependency_sector(
    sector: &str,
    category: Option<IndustryCategory>,
    fallback_category: IndustryCategory,
) -> (r: SectorId)
    ensures
        r@ == (
            match category {
                Some(c) => c,
                None => fallback_category,
            },
            sector@,
        ),
{
    let c = match category {
        Some(c) => c,
        None => fallback_category,
    };
    SectorId::new(c, sector)
}

/// One definition for each sector id, in the order they were added.
pub struct IndustryCatalog<D> {
    sectors: Vec<(SectorId, D)>,
}

pub open spec fn has_key(keys: Seq<SectorKey>, k: SectorKey) -> bool {
    exists|i: int| 0 <= i < keys.len() && keys[i] == k
}

pub open spec fn distinct_keys(keys: Seq<SectorKey>) -> bool {
    forall|i: int, j: int| 0 <= i < j < keys.len() ==> keys[i] != keys[j]
}

impl<D> IndustryCatalog<D> {
    /// The ids of the catalog, in the order they were added.
    pub closed spec fn keys(self) -> Seq<SectorKey> {
        self.sectors@.map_values(|e: (SectorId, D)| e.0@)
    }

    /// The definitions, in the same order as the ids.
    pub closed spec fn definitions(self) -> Seq<D> {
        self.sectors@.map_values(|e: (SectorId, D)| e.1)
    }

    pub open spec fn wf(self) -> bool {
        &&& distinct_keys(self.keys())
        &&& self.definitions().len() == self.keys().len()
    }

    pub fn new() -> (r: IndustryCatalog<D>)
        ensures
            r.wf(),
            r.keys().len() == 0,
    {
        let r = IndustryCatalog { sectors: Vec::new() };
        assert(r.keys() =~= Seq::<SectorKey>::empty());
        r
    }

    /// Adds the definition of a sector; an id already in the catalog is refused.
    pub fn insert_sector(&mut self, id: SectorId, definition: D) -> (r: Result<
        (),
        IndustryError<String>,
    >)
        requires
            old(self).wf(),
        ensures
            final(self).wf(),
            has_key(old(self).keys(), id@) ==> {
                &&& r matches Err(e) && e@ == IndustryError::DuplicateSector {
                    key: id.key@,
                    category: id.category,
                }
                &&& final(self).keys() == old(self).keys()
                &&& final(self).definitions() == old(self).definitions()
            },
            !has_key(old(self).keys(), id@) ==> {
                &&& r is Ok
                &&& final(self).keys() == old(self).keys().push(id@)
                &&& final(self).definitions() == old(self).definitions().push(definition)
            },
    {
        let mut i: usize = 0;
        while i < self.sectors.len()
            invariant
                i <= self.sectors@.len(),
                self == old(self),
                old(self).wf(),
                forall|m: int| 0 <= m < i ==> self.keys()[m] != id@,
            decreases self.sectors@.len() - i,
        {
            let e = &self.sectors[i];
            if e.0.category == id.category && seq_eq(&chars_of(e.0.key.as_str()), &chars_of(id.key.as_str())) {
                assert(self.keys()[i as int] == id@);
                return Err(IndustryError::DuplicateSector { key: id.key.clone(), category: id.category });
            }
            assert(self.keys()[i as int] != id@);
            i = i + 1;
        }
        let ghost before = self.sectors@;
        self.sectors.push((id, definition));
        proof {
            assert(self.keys() =~= old(self).keys().push(id@));
            assert(self.definitions() =~= old(self).definitions().push(definition));
            assert(!has_key(old(self).keys(), id@));
        }
        Ok(())
    }

    /// The definition of a sector, if the catalog holds it.
    pub fn get(&self, id: &SectorId) -> (r: Option<&D>)
        requires
            self.wf(),
        ensures
            has_key(self.keys(), id@) ==> exists|i: int|
                0 <= i < self.keys().len() && self.keys()[i] == id@ && r == Some(
                    &self.definitions()[i],
                ),
            !has_key(self.keys(), id@) ==> r.is_none(),
    {
        let mut i: usize = 0;
        while i < self.sectors.len()
            invariant
                i <= self.sectors@.len(),
                forall|m: int| 0 <= m < i ==> self.keys()[m] != id@,
            decreases self.sectors@.len() - i,
        {
            let e = &self.sectors[i];
            if e.0.category == id.category && seq_eq(&chars_of(e.0.key.as_str()), &chars_of(id.key.as_str())) {
                assert(self.keys()[i as int] == id@);
                return Some(&e.1);
            }
            assert(self.keys()[i as int] != id@);
            i = i + 1;
        }
        None
    }

    /// The ids and definitions, in the order they were added.
    pub fn sectors(&self) -> (r: &Vec<(SectorId, D)>)
        ensures
            r@.map_values(|e: (SectorId, D)| e.0@) == self.keys(),
            r@.map_values(|e: (SectorId, D)| e.1) == self.definitions(),
    {
        &self.sectors
    }

    /// The ids of the sectors of one category, in the order they were added.
    pub fn sectors_by_category(&self, category: IndustryCategory) -> (r: Vec<SectorId>)
        ensures
            keys_of(r@) == self.keys().filter(|k: SectorKey| k.0 == category),
    {
        let mut out: Vec<SectorId> = Vec::new();
        let mut i: usize = 0;
        while i < self.sectors.len()
            invariant
                i <= self.sectors@.len(),
                keys_of(out@) == self.keys().take(i as int).filter(|k: SectorKey| k.0 == category),
            decreases self.sectors@.len() - i,
        {
            let ghost before = out@;
            if self.sectors[i].0.category == category {
                out.push(self.sectors[i].0.duplicate());
            }
            proof {
                let ks = self.keys();
                assert(ks.take(i + 1).drop_last() =~= ks.take(i as int));
                assert(ks.take(i + 1).last() == ks[i as int]);
                reveal(Seq::filter);
                assert(keys_of(out@) =~= ks.take(i + 1).filter(|k: SectorKey| k.0 == category));
            }
            i = i + 1;
        }
        proof {
            reveal(Seq::filter);
            assert(self.keys().take(self.sectors@.len() as int) =~= self.keys());
        }
        out
    }
}

/// Characters that part a category from a key in a sector token.
pub open spec fn is_sector_sep(c: char) -> bool {
    c == ':' || c == '/'
}

/// The index of the first separator of `s`, or its length if there is none.
pub open spec fn sep_pos(s: Seq<char>) -> nat
    decreases s.len(),
{
    if s.len() == 0 {
        0
    } else if is_sector_sep(s[0]) {
        0
    } else {
        1 + sep_pos(s.drop_first())
    }
}

/// Texts in dictionary order, character by character.  This is the order in
/// which `str` compares, since UTF-8 keeps the order of code points.
pub open spec fn text_less(a: Seq<char>, b: Seq<char>) -> bool
    decreases a.len(),
{
    if a.len() == 0 {
        b.len() > 0
    } else if b.len() == 0 {
        false
    } else if a[0] != b[0] {
        a[0] < b[0]
    } else {
        text_less(a.drop_first(), b.drop_first())
    }
}

/// `id` is of the given category and its key equals `lowered_key` without
/// regard to ASCII case.
pub open spec fn in_category_with_key(id: SectorKey, category: IndustryCategory, lowered_key: Seq<char>) -> bool {
    id.0 == category && lower_seq(id.1) == lowered_key
}

/// Among the ids of the given category whose key equals `lowered_key` with
/// ASCII case ignored, the one whose key comes first in dictionary order (of
/// equal keys, the one listed first).
pub open spec fn least_in_category(
    ids: Seq<SectorKey>,
    category: IndustryCategory,
    lowered_key: Seq<char>,
) -> Option<SectorKey>
    decreases ids.len(),
{
    if ids.len() == 0 {
        None
    } else {
        let best = least_in_category(ids.drop_last(), category, lowered_key);
        let x = ids.last();
        if in_category_with_key(x, category, lowered_key) {
            match best {
                Some(b) => if text_less(x.1, b.1) {
                    Some(x)
                } else {
                    Some(b)
                },
                None => Some(x),
            }
        } else {
            best
        }
    }
}

/// The ids whose key equals `lowered_key` without regard to ASCII case, in
/// registry order.
pub open spec fn key_hits(ids: Seq<SectorKey>, lowered_key: Seq<char>) -> Seq<SectorKey>
    decreases ids.len(),
{
    if ids.len() == 0 {
        Seq::empty()
    } else {
        let rest = key_hits(ids.drop_last(), lowered_key);
        if lower_seq(ids.last().1) == lowered_key {
            rest.push(ids.last())
        } else {
            rest
        }
    }
}

/// A sector token taken apart: with a separator, the category it names and
/// the key after it; without one, the bare key. Both keep the trimmed token.
#[derive(Debug, Clone)]
pub enum SectorToken<T> {
    Qualified { category: IndustryCategory, key: T, raw: T },
    Bare { raw: T },
}

pub type SSectorToken = SectorToken<Seq<char>>;

/// How a sector token is taken apart. The token is trimmed; empty, it is
/// refused. With a separator, the part before it names the category and the
/// part after it, up to any further separator and trimmed, is the key, which
/// must not be empty. Without one, the token is the key.
pub open spec fn sector_token_spec(token: Seq<char>) -> Result<SSectorToken, SError> {
    let raw = trim(token);
    if raw.len() == 0 {
        Err(IndustryError::EmptySectorToken)
    } else if sep_pos(raw) < raw.len() {
        let first = raw.take(sep_pos(raw) as int);
        let rest = raw.skip(sep_pos(raw) + 1int);
        let key = trim(rest.take(sep_pos(rest) as int));
        match category_from_text(lower_seq(trim(first))) {
            None => Err(IndustryError::UnknownCategory(lower_seq(trim(first)))),
            Some(c) => if key.len() == 0 {
                Err(IndustryError::EmptySectorKey)
            } else {
                Ok(SectorToken::Qualified { category: c, key, raw })
            },
        }
    } else {
        Ok(SectorToken::Bare { raw })
    }
}

/// A bare key must belong to exactly one sector (ASCII case ignored).
pub open spec fn resolve_bare(ids: Seq<SectorKey>, raw: Seq<char>) -> Result<SectorKey, SError> {
    let hits = key_hits(ids, lower_seq(raw));
    if hits.len() == 0 {
        Err(IndustryError::SectorNotFound(raw))
    } else if hits.len() == 1 {
        Ok(hits[0])
    } else {
        Err(IndustryError::AmbiguousSector(raw))
    }
}

/// What the registry resolves a sector token to: with a category, the sector
/// of it with the key (ASCII case ignored) whose key comes first in
/// dictionary order; else see `resolve_bare`.
pub open spec fn resolve_spec(ids: Seq<SectorKey>, token: Seq<char>) -> Result<SectorKey, SError> {
    match sector_token_spec(token) {
        Err(e) => Err(e),
        Ok(SectorToken::Qualified { category, key, raw }) => match least_in_category(
            ids,
            category,
            lower_seq(key),
        ) {
            Some(k) => Ok(k),
            None => Err(IndustryError::SectorNotInCategory(raw)),
        },
        Ok(SectorToken::Bare { raw }) => resolve_bare(ids, raw),
    }
}

/// What a catalog resolves a sector token to: with a category, the id made of
/// it and the key, if the catalog holds exactly that id; else see
/// `resolve_bare`.
pub open spec fn catalog_resolve_spec(ids: Seq<SectorKey>, token: Seq<char>) -> Result<SectorKey, SError> {
    match sector_token_spec(token) {
        Err(e) => Err(e),
        Ok(SectorToken::Qualified { category, key, raw }) => if has_key(ids, (category, key)) {
            Ok((category, key))
        } else {
            Err(IndustryError::SectorNotInCategory(raw))
        },
        Ok(SectorToken::Bare { raw }) => resolve_bare(ids, raw),
    }
}

pub open spec fn sector_token_view(r: Result<SectorToken<Vec<char>>, IndustryError<String>>) -> Result<
    SSectorToken,
    SError,
> {
    match r {
        Ok(SectorToken::Qualified { category, key, raw }) => Ok(
            SectorToken::Qualified { category, key: key@, raw: raw@ },
        ),
        Ok(SectorToken::Bare { raw }) => Ok(SectorToken::Bare { raw: raw@ }),
        Err(e) => Err(e@),
    }
}

pub open spec fn resolve_view(r: Result<SectorId, IndustryError<String>>) -> Result<SectorKey, SError> {
    match r {
        Ok(id) => Ok(id@),
        Err(e) => Err(e@),
    }
}

/// The index of the first separator in `s` from `from` on, or its length.
fn find_sep(s: &Vec<char>, from: usize) -> (r: usize)
    requires
        from <= s@.len(),
    ensures
        r == from + sep_pos(s@.skip(from as int)),
        r <= s@.len(),
{
    let mut i: usize = from;
    while i < s.len() && s[i] != ':' && s[i] != '/'
        invariant
            from <= i <= s@.len(),
            sep_pos(s@.skip(from as int)) == (i - from) + sep_pos(s@.skip(i as int)),
        decreases s@.len() - i,
    {
        assert(s@.skip(i as int).drop_first() =~= s@.skip(i + 1));
        i = i + 1;
    }
    i
}

fn slice(s: &Vec<char>, from: usize, to: usize) -> (r: Vec<char>)
    requires
        from <= to <= s@.len(),
    ensures
        r@ == s@.subrange(from as int, to as int),
{
    let mut out: Vec<char> = Vec::new();
    let mut k: usize = from;
    while k < to
        invariant
            from <= k <= to <= s@.len(),
            out@ == s@.subrange(from as int, k as int),
        decreases to - k,
    {
        out.push(s[k]);
        k = k + 1;
    }
    out
}

/// Takes a sector token apart as `sector_token_spec` says.
pub fn parse_sector_token(token: &str) -> (r: Result<SectorToken<Vec<char>>, IndustryError<String>>)
    ensures
        sector_token_view(r) == sector_token_spec(token@),
{
    let raw = trim_chars(&chars_of(token));
    if raw.len() == 0 {
        return Err(IndustryError::EmptySectorToken);
    }
    let p = find_sep(&raw, 0);
    proof {
        assert(raw@.skip(0) =~= raw@);
    }
    if p < raw.len() {
        let first = slice(&raw, 0, p);
        let q = find_sep(&raw, p + 1);
        let second = slice(&raw, p + 1, q);
        proof {
            assert(first@ =~= raw@.take(sep_pos(raw@) as int));
            let rest = raw@.skip(sep_pos(raw@) + 1int);
            assert(second@ =~= rest.take(sep_pos(rest) as int));
        }
        let category = match IndustryCategory::from_str(string_of(&first).as_str()) {
            Ok(c) => c,
            Err(e) => {
                return Err(e);
            },
        };
        let key = trim_chars(&second);
        if key.len() == 0 {
            return Err(IndustryError::EmptySectorKey);
        }
        Ok(SectorToken::Qualified { category, key, raw })
    } else {
        Ok(SectorToken::Bare { raw })
    }
}

/// The one id whose key equals `raw` with ASCII case ignored (see `resolve_bare`).
fn resolve_bare_in(ids: &Vec<SectorId>, raw: &Vec<char>) -> (r: Result<SectorId, IndustryError<String>>)
    ensures
        resolve_view(r) == resolve_bare(keys_of(ids@), raw@),
{
    let lowered = to_lower(raw);
    let ghost ks = keys_of(ids@);
    let mut hits: Vec<usize> = Vec::new();
    let mut i: usize = 0;
    while i < ids.len()
        invariant
            i <= ids@.len(),
            ks == keys_of(ids@),
            lowered@ == lower_seq(raw@),
            hits@.len() == key_hits(ks.take(i as int), lowered@).len(),
            forall|m: int|
                0 <= m < hits@.len() ==> #[trigger] hits@[m] < ids@.len() && ks[hits@[m] as int]
                    == key_hits(ks.take(i as int), lowered@)[m],
        decreases ids@.len() - i,
    {
        proof {
            assert(ks.take(i + 1).drop_last() =~= ks.take(i as int));
            assert(ks.take(i + 1).last() == ks[i as int]);
        }
        if seq_eq(&to_lower(&chars_of(ids[i].key.as_str())), &lowered) {
            hits.push(i);
        }
        i = i + 1;
    }
    proof {
        assert(ks.take(ids@.len() as int) =~= ks);
    }
    if hits.len() == 0 {
        Err(IndustryError::SectorNotFound(string_of(raw)))
    } else if hits.len() == 1 {
        Ok(ids[hits[0]].duplicate())
    } else {
        Err(IndustryError::AmbiguousSector(string_of(raw)))
    }
}

/// Whether `a` comes before `b` in dictionary order.
fn text_less_exec(a: &Vec<char>, b: &Vec<char>) -> (r: bool)
    ensures
        r == text_less(a@, b@),
{
    let mut i: usize = 0;
    assert(a@.skip(0) =~= a@);
    assert(b@.skip(0) =~= b@);
    while i < a.len() && i < b.len()
        invariant
            i <= a@.len(),
            i <= b@.len(),
            forall|k: int| 0 <= k < i ==> a@[k] == b@[k],
            text_less(a@, b@) == text_less(a@.skip(i as int), b@.skip(i as int)),
        decreases a@.len() - i,
    {
        if a[i] != b[i] {
            return a[i] < b[i];
        }
        proof {
            assert(a@.skip(i as int).drop_first() =~= a@.skip(i + 1));
            assert(b@.skip(i as int).drop_first() =~= b@.skip(i + 1));
        }
        i = i + 1;
    }
    i < b.len()
}

/// Resolves what a player types to a sector id.
#[derive(Debug, Clone)]
pub struct SectorRegistry {
    ids: Vec<SectorId>,
}

impl SectorRegistry {
    /// The ids the registry knows, in registry order.
    pub closed spec fn keys(self) -> Seq<SectorKey> {
        keys_of(self.ids@)
    }

    /// A registry of every sector of the catalog, in catalog order.
    pub fn from_catalog<D>(catalog: &IndustryCatalog<D>) -> (r: SectorRegistry)
        ensures
            r.keys() == catalog.keys(),
    {
        let entries = catalog.sectors();
        let mut ids: Vec<SectorId> = Vec::new();
        let mut i: usize = 0;
        while i < entries.len()
            invariant
                i <= entries@.len(),
                entries@.map_values(|e: (SectorId, D)| e.0@) == catalog.keys(),
                keys_of(ids@) == catalog.keys().take(i as int),
                ids@.len() == i,
            decreases entries@.len() - i,
        {
            let ghost before = ids@;
            let id = entries[i].0.duplicate();
            ids.push(id);
            proof {
                assert(catalog.keys()[i as int] == entries@[i as int].0@);
                assert(ids@ == before.push(id));
                assert forall|m: int| 0 <= m < i + 1 implies #[trigger] keys_of(ids@)[m] == catalog.keys().take(i + 1)[m] by {
                    if m < i {
                        assert(ids@[m] == before[m]);
                        assert(keys_of(before)[m] == catalog.keys().take(i as int)[m]);
                    }
                }
                assert(keys_of(ids@) =~= catalog.keys().take(i + 1));
            }
            i = i + 1;
        }
        proof {
            assert(catalog.keys().take(entries@.len() as int) =~= catalog.keys());
        }
        SectorRegistry { ids }
    }

    /// Resolves a sector token as `resolve_spec` says.
    pub fn resolve(&self, token: &str) -> (r: Result<SectorId, IndustryError<String>>)
        ensures
            resolve_view(r) == resolve_spec(self.keys(), token@),
    {
        match parse_sector_token(token) {
            Err(e) => Err(e),
            Ok(SectorToken::Qualified { category, key, raw }) => {
                let lowered = to_lower(&key);
                let ghost ks = self.keys();
                let mut best: Option<usize> = None;
                let mut best_key: Vec<char> = Vec::new();
                let mut i: usize = 0;
                while i < self.ids.len()
                    invariant
                        i <= self.ids@.len(),
                        ks == self.keys(),
                        ks == keys_of(self.ids@),
                        sector_token_spec(token@) == Ok::<SSectorToken, SError>(
                            SectorToken::Qualified { category, key: key@, raw: raw@ },
                        ),
                        lowered@ == lower_seq(key@),
                        match best {
                            Some(b) => b < i && least_in_category(ks.take(i as int), category, lowered@)
                                == Some(ks[b as int]) && best_key@ == ks[b as int].1,
                            None => least_in_category(ks.take(i as int), category, lowered@) is None,
                        },
                    decreases self.ids@.len() - i,
                {
                    proof {
                        assert(ks.take(i + 1).drop_last() =~= ks.take(i as int));
                        assert(ks.take(i + 1).last() == ks[i as int]);
                        assert(ks[i as int] == self.ids@[i as int]@);
                    }
                    let id = &self.ids[i];
                    if id.category == category && seq_eq(&to_lower(&chars_of(id.key.as_str())), &lowered) {
                        let this_key = chars_of(id.key.as_str());
                        match best {
                            None => {
                                best = Some(i);
                                best_key = this_key;
                            },
                            Some(_) => {
                                if text_less_exec(&this_key, &best_key) {
                                    best = Some(i);
                                    best_key = this_key;
                                }
                            },
                        }
                    }
                    i = i + 1;
                }
                proof {
                    assert(ks.take(self.ids@.len() as int) =~= ks);
                }
                match best {
                    Some(b) => Ok(self.ids[b].duplicate()),
                    None => Err(IndustryError::SectorNotInCategory(string_of(&raw))),
                }
            },
            Ok(SectorToken::Bare { raw }) => resolve_bare_in(&self.ids, &raw),
        }
    }

    /// Every id of the registry, in registry order.
    pub fn iter(&self) -> (r: Vec<SectorId>)
        ensures
            keys_of(r@) == self.keys(),
    {
        let mut out: Vec<SectorId> = Vec::new();
        let mut i: usize = 0;
        while i < self.ids.len()
            invariant
                i <= self.ids@.len(),
                keys_of(out@) == self.keys().take(i as int),
                out@.len() == i,
            decreases self.ids@.len() - i,
        {
            let ghost before = out@;
            let id = self.ids[i].duplicate();
            out.push(id);
            proof {
                assert(self.keys()[i as int] == self.ids@[i as int]@);
                assert forall|m: int| 0 <= m < i + 1 implies #[trigger] keys_of(out@)[m] == self.keys().take(i + 1)[m] by {
                    if m < i {
                        assert(out@[m] == before[m]);
                        assert(keys_of(before)[m] == self.keys().take(i as int)[m]);
                    }
                }
                assert(keys_of(out@) =~= self.keys().take(i + 1));
            }
            i = i + 1;
        }
        proof {
            assert(self.keys().take(self.ids@.len() as int) =~= self.keys());
        }
        out
    }
}

pub open spec fn texts_of(v: Seq<String>) -> Seq<Seq<char>> {
    v.map_values(|s: String| s@)
}

/// Gathers the messages of one industry tick, leaving out blank ones.
#[derive(Debug)]
pub struct Reporter {
    entries: Vec<String>,
}

impl Reporter {
    /// The messages gathered so far, in order.
    pub closed spec fn reports(self) -> Seq<Seq<char>> {
        texts_of(self.entries@)
    }

    pub fn new() -> (r: Reporter)
        ensures
            r.reports().len() == 0,
    {
        Reporter { entries: Vec::new() }
    }

    /// Keeps `message` unless it is empty or white space only.
    pub fn push(&mut self, message: &str)
        ensures
            trim(message@).len() == 0 ==> final(self).reports() == old(self).reports(),
            trim(message@).len() > 0 ==> final(self).reports() == old(self).reports().push(
                message@,
            ),
    {
        let text = chars_of(message);
        if is_blank(&text) {
            return;
        }
        let ghost before = self.entries@;
        let s = string_of(&text);
        self.entries.push(s);
        proof {
            assert(texts_of(self.entries@) =~= texts_of(before).push(message@));
        }
    }

    /// The messages gathered, in order.
    pub fn into_reports(self) -> (r: Vec<String>)
        ensures
            texts_of(r@) == self.reports(),
    {
        self.entries
    }
}

impl Default for Reporter {
    fn default() -> (r: Reporter)
        ensures
            r.reports().len() == 0,
    {
        Reporter::new()
    }
}

impl<D> Default for IndustryCatalog<D> {
    fn default() -> (r: IndustryCatalog<D>)
        ensures
            r.wf(),
            r.keys().len() == 0,
    {
        IndustryCatalog::new()
    }
}

/// Resolves a sector token against a catalog, as `catalog_resolve_spec` says.
pub fn resolve_sector_token<D>(catalog: &IndustryCatalog<D>, token: &str) -> (r: Result<
    SectorId,
    IndustryError<String>,
>)
    requires
        catalog.wf(),
    ensures
        resolve_view(r) == catalog_resolve_spec(catalog.keys(), token@),
{
    match parse_sector_token(token) {
        Err(e) => Err(e),
        Ok(SectorToken::Qualified { category, key, raw }) => {
            let id = SectorId { category, key: string_of(&key) };
            if catalog.get(&id).is_some() {
                Ok(id)
            } else {
                Err(IndustryError::SectorNotInCategory(string_of(&raw)))
            }
        },
        Ok(SectorToken::Bare { raw }) => {
            let registry = SectorRegistry::from_catalog(catalog);
            resolve_bare_in(&registry.ids, &raw)
        },
    }
}

/// The file name of a `/`-separated path, as `Path::file_name` gives it: the
/// last component once trailing separators and `.` components are passed
/// over; none for an empty path, a root, a lone `.` or a path that ends in
/// `..`.
pub open spec fn file_name_spec(path: Seq<char>) -> Option<Seq<char>>
    decreases path.len(),
{
    if path.len() == 0 {
        None
    } else if path.last() == '/' {
        file_name_spec(path.drop_last())
    } else {
        let cut = last_index_of(path, '/') + 1;
        let seg = path.skip(cut);
        if seg == seq!['.'] {
            proof {
                lemma_last_index_bound(path, '/');
            }
            file_name_spec(path.take(cut))
        } else if seg == seq!['.', '.'] {
            None
        } else {
            Some(seg)
        }
    }
}

/// The extension of a path, as `Path::extension` gives it: the text after
/// the last `.` of its file name, unless that `.` starts the name.
pub open spec fn extension_spec(path: Seq<char>) -> Option<Seq<char>> {
    match file_name_spec(path) {
        None => None,
        Some(name) => {
            let dot = last_index_of(name, '.');
            if dot <= 0 {
                None
            } else {
                Some(name.skip(dot + 1))
            }
        },
    }
}

pub open spec fn last_index_of(s: Seq<char>, c: char) -> int
    decreases s.len(),
{
    if s.len() == 0 {
        -1
    } else if s.last() == c {
        s.len() - 1
    } else {
        last_index_of(s.drop_last(), c)
    }
}

pub proof fn lemma_last_index_bound(s: Seq<char>, c: char)
    ensures
        -1 <= last_index_of(s, c) < s.len(),
        last_index_of(s, c) >= 0 ==> s[last_index_of(s, c)] == c,
        forall|k: int| last_index_of(s, c) < k < s.len() ==> s[k] != c,
    decreases s.len(),
{
    if s.len() > 0 && s.last() != c {
        lemma_last_index_bound(s.drop_last(), c);
        assert forall|k: int| last_index_of(s, c) < k < s.len() implies s[k] != c by {
            if k < s.len() - 1 {
                assert(s[k] == s.drop_last()[k]);
            }
        }
    }
}

/// One past the index of the last `c` in `s`, or 0 when there is none.
fn after_last(s: &Vec<char>, c: char) -> (r: usize)
    ensures
        r == last_index_of(s@, c) + 1,
{
    let mut i: usize = s.len();
    assert(s@.take(i as int) =~= s@);
    while i > 0
        invariant
            i <= s@.len(),
            last_index_of(s@, c) == last_index_of(s@.take(i as int), c),
        decreases i,
    {
        if s[i - 1] == c {
            return i;
        }
        assert(s@.take(i as int).drop_last() =~= s@.take(i - 1));
        i = i - 1;
    }
    0
}

/// The file name of a path, as `file_name_spec` says.
fn file_name_of(p: &Vec<char>) -> (r: Option<Vec<char>>)
    ensures
        match file_name_spec(p@) {
            None => r is None,
            Some(n) => r matches Some(v) && v@ == n,
        },
{
    let mut end: usize = p.len();
    assert(p@.take(end as int) =~= p@);
    while end > 0
        invariant
            end <= p@.len(),
            file_name_spec(p@) == file_name_spec(p@.take(end as int)),
        decreases end,
    {
        let q = slice(p, 0, end);
        assert(q@ =~= p@.take(end as int));
        if q[end - 1] == '/' {
            assert(q@.drop_last() =~= p@.take(end - 1));
            end = end - 1;
        } else {
            proof {
                lemma_last_index_bound(q@, '/');
            }
            let cut = after_last(&q, '/');
            let seg = slice(&q, cut, end);
            assert(seg@ =~= q@.skip(cut as int));
            let dot = vec!['.'];
            assert(dot@ =~= seq!['.']);
            if seq_eq(&seg, &dot) {
                assert(q@.take(cut as int) =~= p@.take(cut as int));
                end = cut;
            } else {
                let dots = vec!['.', '.'];
                assert(dots@ =~= seq!['.', '.']);
                if seq_eq(&seg, &dots) {
                    return None;
                }
                return Some(seg);
            }
        }
    }
    None
}

/// Whether a catalog file is YAML: its extension is `yaml` or `yml`.
pub fn is_yaml_file(path: &str) -> (r: bool)
    ensures
        r == (extension_spec(path@) == Some("yaml"@) || extension_spec(path@) == Some("yml"@)),
{
    let p = chars_of(path);
    let name = match file_name_of(&p) {
        None => {
            return false;
        },
        Some(n) => n,
    };
    proof {
        lemma_last_index_bound(name@, '.');
    }
    let dot_after = after_last(&name, '.');
    if dot_after <= 1 {
        return false;
    }
    let ext = slice(&name, dot_after, name.len());
    assert(ext@ =~= name@.skip(last_index_of(name@, '.') + 1));
    seq_eq(&ext, &chars_of("yaml")) || seq_eq(&ext, &chars_of("yml"))
}

/// In a sequence without repeats, the element pushed last is found only at
/// the last place.
pub proof fn lemma_pushed_only_at_end<A>(s: Seq<A>, x: A, i: int)
    requires
        forall|a: int, b: int| 0 <= a < b < s.push(x).len() ==> s.push(x)[a] != s.push(x)[b],
        0 <= i < s.push(x).len(),
        s.push(x)[i] == x,
    ensures
        i == s.len(),
{
    if i < s.len() {
        assert(s.push(x)[i] != s.push(x)[s.len() as int]);
    }
}

/// Reading a sector back after adding it gives the definition added: in the
/// catalog after a successful `insert_sector`, the one place that holds the
/// id holds that definition.
pub proof fn lemma_get_after_insert<D>(
    before: IndustryCatalog<D>,
    after: IndustryCatalog<D>,
    id: SectorKey,
    definition: D,
    i: int,
)
    requires
        after.wf(),
        after.keys() == before.keys().push(id),
        after.definitions() == before.definitions().push(definition),
        0 <= i < after.keys().len(),
        after.keys()[i] == id,
    ensures
        after.definitions()[i] == definition,
{
    lemma_pushed_only_at_end(before.keys(), id, i);
}

/// Resolving `category:key` finds a sector of that category whose key equals
/// `key` with ASCII case ignored, whenever the registry holds one: for a
/// non-empty key without separators and without white space at its ends,
/// the token made of the category's name, `:` and the key resolves to the
/// such sector whose key comes first in dictionary order.
pub proof fn lemma_resolve_qualified(ids: Seq<SectorKey>, c: IndustryCategory, key: Seq<char>)
    requires
        key.len() > 0,
        !is_ws(key[0]),
        !is_ws(key.last()),
        forall|i: int| 0 <= i < key.len() ==> !is_sector_sep(#[trigger] key[i]),
        exists|m: int| 0 <= m < ids.len() && in_category_with_key(#[trigger] ids[m], c, lower_seq(key)),
    ensures
        least_in_category(ids, c, lower_seq(key)) is Some,
        resolve_spec(ids, category_name(c) + seq![':'] + key) == Ok::<SectorKey, SError>(
            least_in_category(ids, c, lower_seq(key))->0,
        ),
        in_category_with_key(least_in_category(ids, c, lower_seq(key))->0, c, lower_seq(key)),
{
    reveal_strlit("primary");
    reveal_strlit("secondary");
    reveal_strlit("tertiary");
    reveal_strlit("energy");
    let name = category_name(c);
    let token = name + seq![':'] + key;
    assert(token[0] == name[0]);
    assert(token.last() == key.last());
    lemma_trim_unchanged(token);
    assert forall|i: int| 0 <= i < name.len() implies !is_sector_sep(#[trigger] name[i]) by {}
    assert(token =~= name + (seq![':'] + key));
    lemma_sep_pos_prefix(name, seq![':'] + key);
    assert(trim(token) == token);
    assert(sep_pos(token) == name.len());
    assert(token.take(name.len() as int) =~= name);
    assert(token.skip(name.len() + 1int) =~= key);
    lemma_sep_pos_none(key);
    assert(key.take(key.len() as int) =~= key);
    lemma_trim_unchanged(key);
    lemma_category_name_round_trip(c);
    lemma_least_in_category_found(ids, c, lower_seq(key));
    assert(category_from_text(lower_seq(trim(name))) == Some(c));
    assert(sector_token_spec(token) == Ok::<SSectorToken, SError>(
        SectorToken::Qualified { category: c, key, raw: token },
    ));
}

proof fn lemma_sep_pos_prefix(a: Seq<char>, b: Seq<char>)
    requires
        forall|i: int| 0 <= i < a.len() ==> !is_sector_sep(#[trigger] a[i]),
        b.len() > 0,
        is_sector_sep(b[0]),
    ensures
        sep_pos(a + b) == a.len(),
    decreases a.len(),
{
    if a.len() > 0 {
        assert((a + b).drop_first() =~= a.drop_first() + b);
        assert forall|i: int| 0 <= i < a.drop_first().len() implies !is_sector_sep(
            #[trigger] a.drop_first()[i],
        ) by {
            assert(a.drop_first()[i] == a[i + 1]);
        }
        lemma_sep_pos_prefix(a.drop_first(), b);
    } else {
        assert(a + b =~= b);
    }
}

proof fn lemma_sep_pos_none(a: Seq<char>)
    requires
        forall|i: int| 0 <= i < a.len() ==> !is_sector_sep(#[trigger] a[i]),
    ensures
        sep_pos(a) == a.len(),
    decreases a.len(),
{
    if a.len() > 0 {
        assert forall|i: int| 0 <= i < a.drop_first().len() implies !is_sector_sep(
            #[trigger] a.drop_first()[i],
        ) by {
            assert(a.drop_first()[i] == a[i + 1]);
        }
        lemma_sep_pos_none(a.drop_first());
    }
}

proof fn lemma_least_in_category_found(ids: Seq<SectorKey>, c: IndustryCategory, lk: Seq<char>)
    ensures
        match least_in_category(ids, c, lk) {
            Some(found) => in_category_with_key(found, c, lk) && ids.contains(found),
            None => forall|m: int| 0 <= m < ids.len() ==> !in_category_with_key(#[trigger] ids[m], c, lk),
        },
    decreases ids.len(),
{
    if ids.len() > 0 {
        let d = ids.drop_last();
        let x = ids.last();
        lemma_least_in_category_found(d, c, lk);
        assert(ids[ids.len() - 1] == x);
        match least_in_category(ids, c, lk) {
            Some(found) => {
                if found == x && in_category_with_key(x, c, lk) {
                    assert(ids.contains(found));
                } else {
                    let b = least_in_category(d, c, lk)->0;
                    assert(least_in_category(d, c, lk) is Some);
                    assert(found == b);
                    let j = choose|j: int| 0 <= j < d.len() && d[j] == b;
                    assert(ids[j] == b);
                    assert(ids.contains(found));
                }
            },
            None => {
                assert forall|m: int| 0 <= m < ids.len() implies !in_category_with_key(
                    #[trigger] ids[m],
                    c,
                    lk,
                ) by {
                    if m < ids.len() - 1 {
                        assert(d[m] == ids[m]);
                    }
                }
            },
        }
    }
}

proof fn lemma_key_hits_members(ids: Seq<SectorKey>, lk: Seq<char>)
    ensures
        forall|j: int|
            0 <= j < key_hits(ids, lk).len() ==> ids.contains(#[trigger] key_hits(ids, lk)[j])
                && lower_seq(key_hits(ids, lk)[j].1) == lk,
    decreases ids.len(),
{
    if ids.len() > 0 {
        let d = ids.drop_last();
        lemma_key_hits_members(d, lk);
        let h = key_hits(ids, lk);
        assert forall|j: int| 0 <= j < h.len() implies ids.contains(#[trigger] h[j]) && lower_seq(
            h[j].1,
        ) == lk by {
            if j < key_hits(d, lk).len() {
                assert(h[j] == key_hits(d, lk)[j]);
                let i = choose|i: int| 0 <= i < d.len() && d[i] == h[j];
                assert(ids[i] == h[j]);
            } else {
                assert(h[j] == ids.last());
                assert(ids[ids.len() - 1] == h[j]);
            }
        }
    }
}

/// What resolving a token against the sectors `ids` (those of the catalog, for
/// a registry built from one) gives: a token that is blank once trimmed, or
/// whose parts are refused, gives an error; every sector it gives is one of
/// `ids`; a token with a category gives a sector exactly when some sector of
/// that category has its key with ASCII case ignored, and then such a sector;
/// a bare token gives a sector exactly when just one sector has its key with
/// ASCII case ignored, and then that one.
pub proof fn lemma_resolve_law(ids: Seq<SectorKey>, token: Seq<char>)
    ensures
        trim(token).len() == 0 ==> resolve_spec(ids, token) == Err::<SectorKey, SError>(
            IndustryError::EmptySectorToken,
        ),
        sector_token_spec(token) is Err ==> resolve_spec(ids, token) is Err,
        resolve_spec(ids, token) matches Ok(k) ==> ids.contains(k),
        sector_token_spec(token) matches Ok(SectorToken::Qualified { category, key, raw }) ==> {
            &&& (resolve_spec(ids, token) is Ok <==> exists|m: int|
                0 <= m < ids.len() && in_category_with_key(#[trigger] ids[m], category, lower_seq(key)))
            &&& resolve_spec(ids, token) matches Ok(k) ==> in_category_with_key(
                k,
                category,
                lower_seq(key),
            )
        },
        sector_token_spec(token) matches Ok(SectorToken::Bare { raw }) ==> {
            &&& (resolve_spec(ids, token) is Ok <==> key_hits(ids, lower_seq(raw)).len() == 1)
            &&& resolve_spec(ids, token) matches Ok(k) ==> k == key_hits(ids, lower_seq(raw))[0]
                && lower_seq(k.1) == lower_seq(raw)
        },
{
    match sector_token_spec(token) {
        Ok(SectorToken::Qualified { category, key, raw }) => {
            lemma_least_in_category_found(ids, category, lower_seq(key));
        },
        Ok(SectorToken::Bare { raw }) => {
            lemma_key_hits_members(ids, lower_seq(raw));
        },
        Err(_) => {},
    }
}

/// Listing a registry built from a catalog gives every sector id of the
/// catalog exactly once and nothing else: the listed ids are the catalog's,
/// none twice.
pub proof fn lemma_registry_lists_catalog_once<D>(
    catalog: IndustryCatalog<D>,
    registry: SectorRegistry,
    listed: Seq<SectorId>,
)
    requires
        catalog.wf(),
        registry.keys() == catalog.keys(),
        keys_of(listed) == registry.keys(),
    ensures
        forall|k: SectorKey| keys_of(listed).contains(k) <==> catalog.keys().contains(k),
        keys_of(listed).no_duplicates(),
        keys_of(listed).to_multiset() == catalog.keys().to_multiset(),
{
}

/// What resolving a token against a catalog's ids gives: a token that is
/// blank once trimmed, or whose parts are refused, gives an error; every id
/// it gives is an id of the catalog; `category:key` gives exactly the id of
/// that category and key when the catalog holds it, and an error when it does
/// not (even if another category has that key); a bare key gives a sector
/// exactly when just one sector has it with ASCII case ignored.
pub proof fn lemma_catalog_resolve_law(ids: Seq<SectorKey>, token: Seq<char>)
    ensures
        trim(token).len() == 0 ==> catalog_resolve_spec(ids, token) == Err::<SectorKey, SError>(
            IndustryError::EmptySectorToken,
        ),
        sector_token_spec(token) is Err ==> catalog_resolve_spec(ids, token) is Err,
        catalog_resolve_spec(ids, token) matches Ok(k) ==> has_key(ids, k),
        sector_token_spec(token) matches Ok(SectorToken::Qualified { category, key, raw }) ==> {
            &&& (catalog_resolve_spec(ids, token) is Ok <==> has_key(ids, (category, key)))
            &&& catalog_resolve_spec(ids, token) matches Ok(k) ==> k == (category, key)
            &&& !has_key(ids, (category, key)) ==> catalog_resolve_spec(ids, token) == Err::<
                SectorKey,
                SError,
            >(IndustryError::SectorNotInCategory(raw))
        },
        sector_token_spec(token) matches Ok(SectorToken::Bare { raw }) ==> {
            &&& (catalog_resolve_spec(ids, token) is Ok <==> key_hits(ids, lower_seq(raw)).len() == 1)
            &&& catalog_resolve_spec(ids, token) matches Ok(k) ==> lower_seq(k.1) == lower_seq(raw)
        },
{
    match sector_token_spec(token) {
        Ok(SectorToken::Bare { raw }) => {
            lemma_key_hits_members(ids, lower_seq(raw));
            if key_hits(ids, lower_seq(raw)).len() == 1 {
                let k = key_hits(ids, lower_seq(raw))[0];
                let i = choose|i: int| 0 <= i < ids.len() && ids[i] == k;
                assert(has_key(ids, k));
            }
        },
        _ => {},
    }
}

proof fn lemma_text_less_irreflexive(a: Seq<char>)
    ensures
        !text_less(a, a),
    decreases a.len(),
{
    if a.len() > 0 {
        lemma_text_less_irreflexive(a.drop_first());
    }
}

proof fn lemma_text_less_transitive(a: Seq<char>, b: Seq<char>, c: Seq<char>)
    requires
        text_less(a, b),
        text_less(b, c),
    ensures
        text_less(a, c),
    decreases a.len(),
{
    if a.len() > 0 && b.len() > 0 && c.len() > 0 && a[0] == b[0] && b[0] == c[0] {
        lemma_text_less_transitive(a.drop_first(), b.drop_first(), c.drop_first());
    }
}

/// Of the sectors of a category whose key equals a given key with ASCII case
/// ignored, none has a key that comes before the key of the one that
/// `least_in_category` picks (and so the one a qualified token resolves to).
pub proof fn lemma_least_in_category_is_least(
    ids: Seq<SectorKey>,
    c: IndustryCategory,
    lk: Seq<char>,
    m: int,
)
    requires
        0 <= m < ids.len(),
        in_category_with_key(ids[m], c, lk),
    ensures
        least_in_category(ids, c, lk) is Some,
        !text_less(ids[m].1, (least_in_category(ids, c, lk)->0).1),
    decreases ids.len(),
{
    let d = ids.drop_last();
    let x = ids.last();
    if m == ids.len() - 1 {
        lemma_text_less_irreflexive(x.1);
    } else {
        assert(d[m] == ids[m]);
        lemma_least_in_category_is_least(d, c, lk, m);
        let b = least_in_category(d, c, lk)->0;
        if in_category_with_key(x, c, lk) && text_less(x.1, b.1) {
            if text_less(ids[m].1, x.1) {
                lemma_text_less_transitive(ids[m].1, x.1, b.1);
            }
        }
    }
}

} // verus!
