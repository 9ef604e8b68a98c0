//! Trigger conditions of scripted events: a small expression language of
//! metric comparisons joined by `&&`, `||` and parentheses.
//!
//! Parsing is stated against `tokenize_spec` and `parse_condition_spec`, which
//! follow the grammar
//!
//! ```text
//! or         := and ( "||" and )*
//! and        := primary ( "&&" primary )*
//! primary    := "(" or ")" | comparison
//! comparison := IDENT OPERATOR NUMBER
//! ```
//!
//! Numbers are kept as the literal text that the tokenizer accepted; the
//! comparison of a metric's value with it is made by the caller, which hands
//! the outcome of every comparison to `ConditionExpr::evaluate`.
use vstd::prelude::*;

use crate::text::{
    all_digits, append_str, chars_of, decimal_spec, decimal_text, is_ascii_alnum, is_ascii_alpha, is_ascii_digit, lower_seq, seq_eq,
    string_of, to_lower,
};

verus! {

#[derive(Debug, Clone, Copy, PartialEq, Eq)]
pub enum CompareOp {
    Lt,
    Le,
    Gt,
    Ge,
    Eq,
    Ne,
}

/// The metrics that a condition may compare.
#[derive(Debug, Clone, Copy, PartialEq, Eq)]
pub enum MetricKey {
    Stability,
    Approval,
    Military,
    Resources,
    Gdp,
    Debt,
    CashReserve,
    DebtRatio,
    InterestRate,
    CreditRatingTier,
}

pub open spec fn metric_key_name(k: MetricKey) -> Seq<char> {
    match k {
        MetricKey::Stability => "stability"@,
        MetricKey::Approval => "approval"@,
        MetricKey::Military => "military"@,
        MetricKey::Resources => "resources"@,
        MetricKey::Gdp => "gdp"@,
        MetricKey::Debt => "debt"@,
        MetricKey::CashReserve => "cash_reserve"@,
        MetricKey::DebtRatio => "debt_ratio"@,
        MetricKey::InterestRate => "interest_rate"@,
        MetricKey::CreditRatingTier => "credit_rating_tier"@,
    }
}

/// The metric whose name is `name`, if any.
pub open spec fn metric_key_from_name(name: Seq<char>) -> Option<MetricKey> {
    if name == metric_key_name(MetricKey::Stability) {
        Some(MetricKey::Stability)
    } else if name == metric_key_name(MetricKey::Approval) {
        Some(MetricKey::Approval)
    } else if name == metric_key_name(MetricKey::Military) {
        Some(MetricKey::Military)
    } else if name == metric_key_name(MetricKey::Resources) {
        Some(MetricKey::Resources)
    } else if name == metric_key_name(MetricKey::Gdp) {
        Some(MetricKey::Gdp)
    } else if name == metric_key_name(MetricKey::Debt) {
        Some(MetricKey::Debt)
    } else if name == metric_key_name(MetricKey::CashReserve) {
        Some(MetricKey::CashReserve)
    } else if name == metric_key_name(MetricKey::DebtRatio) {
        Some(MetricKey::DebtRatio)
    } else if name == metric_key_name(MetricKey::InterestRate) {
        Some(MetricKey::InterestRate)
    } else if name == metric_key_name(MetricKey::CreditRatingTier) {
        Some(MetricKey::CreditRatingTier)
    } else {
        None
    }
}

/// A token of a condition. `T` is `String` in values and `Seq<char>` in specs.
#[derive(Debug, Clone, PartialEq)]
pub enum Token<T> {
    Ident(T),
    Number(T),
    And,
    Or,
    LParen,
    RParen,
    Operator(CompareOp),
}

/// Why a condition was refused.
#[derive(Debug, Clone, PartialEq)]
pub enum ConditionError<T> {
    /// A single `&`.
    LoneAmpersand,
    /// A single `|`.
    LonePipe,
    /// A single `=`.
    LoneEquals,
    /// A single `!`.
    LoneBang,
    /// A run of digits and dots that is no decimal number.
    InvalidNumber(T),
    /// A character that no token starts with.
    UnexpectedChar(char),
    /// An identifier that names no metric (given in lower case).
    UnknownMetric(T),
    /// A token where a comparison or `(` was expected.
    UnexpectedToken(Token<T>),
    /// The condition ended where a comparison or `(` was expected.
    UnexpectedEnd,
    /// A `)` is missing.
    ExpectedToken,
    /// A comparison does not start with a metric name.
    ExpectedIdent,
    /// A metric name is not followed by a comparison operator.
    ExpectedOperator,
    /// An operator is not followed by a number.
    ExpectedNumber,
    /// Tokens remain after a complete condition.
    TrailingTokens,
}

#[derive(Debug, Clone, PartialEq)]
pub struct Comparison<T> {
    pub metric: MetricKey,
    pub op: CompareOp,
    /// The number, as written.
    pub value: T,
}

#[derive(Debug)]
pub enum ConditionExpr<T> {
    And(Box<ConditionExpr<T>>, Box<ConditionExpr<T>>),
    Or(Box<ConditionExpr<T>>, Box<ConditionExpr<T>>),
    Comparison(Comparison<T>),
}

pub type SToken = Token<Seq<char>>;

pub type SError = ConditionError<Seq<char>>;

pub type SExpr = ConditionExpr<Seq<char>>;

pub open spec fn token_view(t: Token<String>) -> SToken {
    match t {
        Token::Ident(s) => Token::Ident(s@),
        Token::Number(s) => Token::Number(s@),
        Token::And => Token::And,
        Token::Or => Token::Or,
        Token::LParen => Token::LParen,
        Token::RParen => Token::RParen,
        Token::Operator(op) => Token::Operator(op),
    }
}

pub open spec fn tokens_view(ts: Seq<Token<String>>) -> Seq<SToken> {
    ts.map_values(|t: Token<String>| token_view(t))
}

pub open spec fn error_view(e: ConditionError<String>) -> SError {
    match e {
        ConditionError::LoneAmpersand => ConditionError::LoneAmpersand,
        ConditionError::LonePipe => ConditionError::LonePipe,
        ConditionError::LoneEquals => ConditionError::LoneEquals,
        ConditionError::LoneBang => ConditionError::LoneBang,
        ConditionError::InvalidNumber(s) => ConditionError::InvalidNumber(s@),
        ConditionError::UnexpectedChar(c) => ConditionError::UnexpectedChar(c),
        ConditionError::UnknownMetric(s) => ConditionError::UnknownMetric(s@),
        ConditionError::UnexpectedToken(t) => ConditionError::UnexpectedToken(token_view(t)),
        ConditionError::UnexpectedEnd => ConditionError::UnexpectedEnd,
        ConditionError::ExpectedToken => ConditionError::ExpectedToken,
        ConditionError::ExpectedIdent => ConditionError::ExpectedIdent,
        ConditionError::ExpectedOperator => ConditionError::ExpectedOperator,
        ConditionError::ExpectedNumber => ConditionError::ExpectedNumber,
        ConditionError::TrailingTokens => ConditionError::TrailingTokens,
    }
}

pub open spec fn expr_view(e: ConditionExpr<String>) -> SExpr
    decreases e,
{
    match e {
        ConditionExpr::And(l, r) => ConditionExpr::And(
            Box::new(expr_view(*l)),
            Box::new(expr_view(*r)),
        ),
        ConditionExpr::Or(l, r) => ConditionExpr::Or(
            Box::new(expr_view(*l)),
            Box::new(expr_view(*r)),
        ),
        ConditionExpr::Comparison(c) => ConditionExpr::Comparison(
            Comparison { metric: c.metric, op: c.op, value: c.value@ },
        ),
    }
}

impl View for Token<String> {
    type V = SToken;

    open spec fn view(&self) -> SToken {
        token_view(*self)
    }
}

impl View for ConditionError<String> {
    type V = SError;

    open spec fn view(&self) -> SError {
        error_view(*self)
    }
}

impl View for ConditionExpr<String> {
    type V = SExpr;

    open spec fn view(&self) -> SExpr {
        expr_view(*self)
    }
}

// ---------------------------------------------------------------------------
// Tokens
pub open spec fn is_space(c: char) -> bool {
    c == ' ' || c == '\t' || c == '\r' || c == '\n'
}

pub open spec fn is_number_char(c: char) -> bool {
    is_ascii_digit(c) || c == '.'
}

pub open spec fn is_ident_start(c: char) -> bool {
    is_ascii_alpha(c) || c == '_'
}

pub open spec fn is_ident_part(c: char) -> bool {
    is_ascii_alnum(c) || c == '_'
}

pub open spec fn is_operator_char(c: char) -> bool {
    c == '<' || c == '>' || c == '=' || c == '!'
}

pub open spec fn in_run(c: char, number: bool) -> bool {
    if number {
        is_number_char(c)
    } else {
        is_ident_part(c)
    }
}

/// Length of the run of number characters (`number`) or identifier
/// characters (`!number`) that starts at `i`.
pub open spec fn run_len(s: Seq<char>, i: int, number: bool) -> nat
    decreases s.len() - i,
{
    if i < 0 || i >= s.len() || !in_run(s[i], number) {
        0
    } else {
        1 + run_len(s, i + 1, number)
    }
}

pub proof fn lemma_run_len_bound(s: Seq<char>, i: int, number: bool)
    requires
        0 <= i <= s.len(),
    ensures
        i + run_len(s, i, number) <= s.len(),
    decreases s.len() - i,
{
    if i < s.len() && in_run(s[i], number) {
        lemma_run_len_bound(s, i + 1, number);
    }
}

pub open spec fn dot_count(s: Seq<char>) -> nat
    decreases s.len(),
{
    if s.len() == 0 {
        0
    } else {
        dot_count(s.drop_last()) + if s.last() == '.' {
            1nat
        } else {
            0nat
        }
    }
}

/// A run of digits and dots that `f64::from_str` accepts: at most one dot and
/// at least one digit.
pub open spec fn valid_number(lit: Seq<char>) -> bool {
    dot_count(lit) <= 1 && exists|i: int| 0 <= i < lit.len() && is_ascii_digit(#[trigger] lit[i])
}

/// The operator that starts at `i`, with the number of characters it takes.
pub open spec fn operator_at(s: Seq<char>, i: int) -> Result<(CompareOp, int), SError> {
    let first = s[i];
    let eq_next = i + 1 < s.len() && s[i + 1] == '=';
    if first == '<' {
        if eq_next {
            Ok((CompareOp::Le, 2))
        } else {
            Ok((CompareOp::Lt, 1))
        }
    } else if first == '>' {
        if eq_next {
            Ok((CompareOp::Ge, 2))
        } else {
            Ok((CompareOp::Gt, 1))
        }
    } else if first == '=' {
        if eq_next {
            Ok((CompareOp::Eq, 2))
        } else {
            Err(ConditionError::LoneEquals)
        }
    } else {
        if eq_next {
            Ok((CompareOp::Ne, 2))
        } else {
            Err(ConditionError::LoneBang)
        }
    }
}

pub open spec fn prepend(t: SToken, r: Result<Seq<SToken>, SError>) -> Result<Seq<SToken>, SError> {
    match r {
        Ok(ts) => Ok(seq![t] + ts),
        Err(e) => Err(e),
    }
}

pub open spec fn prefixed(out: Seq<SToken>, r: Result<Seq<SToken>, SError>) -> Result<
    Seq<SToken>,
    SError,
> {
    match r {
        Ok(ts) => Ok(out + ts),
        Err(e) => Err(e),
    }
}

/// The tokens of `s` from position `i` on.
pub open spec fn tokenize_from(s: Seq<char>, i: int) -> Result<Seq<SToken>, SError>
    decreases s.len() - i,
{
    if i < 0 || i >= s.len() {
        Ok(Seq::empty())
    } else {
        let c = s[i];
        if is_space(c) {
            tokenize_from(s, i + 1)
        } else if c == '(' {
            prepend(Token::LParen, tokenize_from(s, i + 1))
        } else if c == ')' {
            prepend(Token::RParen, tokenize_from(s, i + 1))
        } else if c == '&' {
            if i + 1 < s.len() && s[i + 1] == '&' {
                prepend(Token::And, tokenize_from(s, i + 2))
            } else {
                Err(ConditionError::LoneAmpersand)
            }
        } else if c == '|' {
            if i + 1 < s.len() && s[i + 1] == '|' {
                prepend(Token::Or, tokenize_from(s, i + 2))
            } else {
                Err(ConditionError::LonePipe)
            }
        } else if is_operator_char(c) {
            match operator_at(s, i) {
                Ok((op, w)) => if w >= 1 {
                    prepend(Token::Operator(op), tokenize_from(s, i + w))
                } else {
                    Err(ConditionError::LoneEquals)
                },
                Err(e) => Err(e),
            }
        } else if is_number_char(c) {
            proof {
                lemma_run_len_bound(s, i, true);
            }
            let n = run_len(s, i, true);
            let lit = s.subrange(i, i + n);
            if !valid_number(lit) {
                Err(ConditionError::InvalidNumber(lit))
            } else if n >= 1 {
                let w: int = if i + n < s.len() && s[i + n] == '%' {
                    n + 1int
                } else {
                    n as int
                };
                prepend(Token::Number(lit), tokenize_from(s, i + w))
            } else {
                Err(ConditionError::InvalidNumber(lit))
            }
        } else if is_ident_start(c) {
            proof {
                lemma_run_len_bound(s, i, false);
            }
            let n = run_len(s, i, false);
            if n >= 1 {
                prepend(Token::Ident(s.subrange(i, i + n)), tokenize_from(s, i + n))
            } else {
                Err(ConditionError::UnexpectedChar(c))
            }
        } else {
            Err(ConditionError::UnexpectedChar(c))
        }
    }
}

/// The tokens of a condition text.
pub open spec fn tokenize_spec(s: Seq<char>) -> Result<Seq<SToken>, SError> {
    tokenize_from(s, 0)
}

pub open spec fn tokens_result_view(r: Result<Vec<Token<String>>, ConditionError<String>>) -> Result<
    Seq<SToken>,
    SError,
> {
    match r {
        Ok(ts) => Ok(tokens_view(ts@)),
        Err(e) => Err(e@),
    }
}

proof fn lemma_prefixed_prepend(out: Seq<SToken>, t: SToken, r: Result<Seq<SToken>, SError>)
    ensures
        prefixed(out, prepend(t, r)) == prefixed(out.push(t), r),
{
    match r {
        Ok(ts) => {
            assert(out + (seq![t] + ts) =~= out.push(t) + ts);
        },
        Err(e) => {},
    }
}

proof fn lemma_run_len(s: Seq<char>, i: int, j: int, number: bool)
    requires
        0 <= i <= j <= s.len(),
        forall|k: int| i <= k < j ==> in_run(#[trigger] s[k], number),
        j == s.len() || !in_run(s[j], number),
    ensures
        run_len(s, i, number) == j - i,
    decreases j - i,
{
    if i < j {
        lemma_run_len(s, i + 1, j, number);
    }
}

impl MetricKey {
    /// The name of the metric in conditions.
    pub fn name(self) -> (r: &'static str)
        ensures
            r@ == metric_key_name(self),
    {
        match self {
            MetricKey::Stability => "stability",
            MetricKey::Approval => "approval",
            MetricKey::Military => "military",
            MetricKey::Resources => "resources",
            MetricKey::Gdp => "gdp",
            MetricKey::Debt => "debt",
            MetricKey::CashReserve => "cash_reserve",
            MetricKey::DebtRatio => "debt_ratio",
            MetricKey::InterestRate => "interest_rate",
            MetricKey::CreditRatingTier => "credit_rating_tier",
        }
    }

    /// The metric named by `value`, compared without regard to ASCII case.
    pub fn from_str(value: &str) -> (r: Result<MetricKey, ConditionError<String>>)
        ensures
            match metric_key_from_name(lower_seq(value@)) {
                Some(k) => r == Ok::<MetricKey, ConditionError<String>>(k),
                None => r matches Err(e) && e@ == ConditionError::<Seq<char>>::UnknownMetric(
                    lower_seq(value@),
                ),
            },
    {
        let lowered = to_lower(&chars_of(value));
        Self::from_lowered(&lowered)
    }

    fn from_lowered(name: &Vec<char>) -> (r: Result<MetricKey, ConditionError<String>>)
        ensures
            match metric_key_from_name(name@) {
                Some(k) => r == Ok::<MetricKey, ConditionError<String>>(k),
                None => r matches Err(e) && e@ == ConditionError::<Seq<char>>::UnknownMetric(
                    name@,
                ),
            },
    {
        if seq_eq(name, &chars_of(MetricKey::Stability.name())) {
            Ok(MetricKey::Stability)
        } else if seq_eq(name, &chars_of(MetricKey::Approval.name())) {
            Ok(MetricKey::Approval)
        } else if seq_eq(name, &chars_of(MetricKey::Military.name())) {
            Ok(MetricKey::Military)
        } else if seq_eq(name, &chars_of(MetricKey::Resources.name())) {
            Ok(MetricKey::Resources)
        } else if seq_eq(name, &chars_of(MetricKey::Gdp.name())) {
            Ok(MetricKey::Gdp)
        } else if seq_eq(name, &chars_of(MetricKey::Debt.name())) {
            Ok(MetricKey::Debt)
        } else if seq_eq(name, &chars_of(MetricKey::CashReserve.name())) {
            Ok(MetricKey::CashReserve)
        } else if seq_eq(name, &chars_of(MetricKey::DebtRatio.name())) {
            Ok(MetricKey::DebtRatio)
        } else if seq_eq(name, &chars_of(MetricKey::InterestRate.name())) {
            Ok(MetricKey::InterestRate)
        } else if seq_eq(name, &chars_of(MetricKey::CreditRatingTier.name())) {
            Ok(MetricKey::CreditRatingTier)
        } else {
            Err(ConditionError::UnknownMetric(string_of(name)))
        }
    }
}

fn in_run_exec(c: char, number: bool) -> (r: bool)
    ensures
        r == in_run(c, number),
{
    if number {
        ('0' <= c && c <= '9') || c == '.'
    } else {
        ('a' <= c && c <= 'z') || ('A' <= c && c <= 'Z') || ('0' <= c && c <= '9') || c == '_'
    }
}

/// The position just past the run that starts at `i`.
fn scan_run(s: &Vec<char>, i: usize, number: bool) -> (j: usize)
    requires
        i <= s.len(),
    ensures
        i <= j <= s.len(),
        j == i + run_len(s@, i as int, number),
        forall|k: int| i <= k < j ==> in_run(#[trigger] s@[k], number),
{
    let mut j = i;
    while j < s.len() && in_run_exec(s[j], number)
        invariant
            i <= j <= s.len(),
            forall|k: int| i <= k < j ==> in_run(#[trigger] s@[k], number),
        decreases s.len() - j,
    {
        j = j + 1;
    }
    proof {
        lemma_run_len(s@, i as int, j as int, number);
    }
    j
}

fn is_valid_number(lit: &Vec<char>) -> (r: bool)
    ensures
        r == valid_number(lit@),
{
    let mut dots: usize = 0;
    let mut digit = false;
    let mut k: usize = 0;
    assert(lit@.take(0) =~= Seq::<char>::empty());
    while k < lit.len()
        invariant
            k <= lit.len(),
            dots == dot_count(lit@.take(k as int)),
            dots <= k,
            digit == exists|m: int| 0 <= m < k && is_ascii_digit(#[trigger] lit@[m]),
        decreases lit.len() - k,
    {
        assert(lit@.take(k + 1).drop_last() =~= lit@.take(k as int));
        if lit[k] == '.' {
            dots = dots + 1;
        }
        if '0' <= lit[k] && lit[k] <= '9' {
            digit = true;
        }
        k = k + 1;
    }
    assert(lit@.take(lit.len() as int) =~= lit@);
    dots <= 1 && digit
}

fn read_operator(s: &Vec<char>, i: usize) -> (r: Result<(CompareOp, usize), ConditionError<String>>)
    requires
        i < s.len(),
        is_operator_char(s@[i as int]),
    ensures
        match operator_at(s@, i as int) {
            Ok((op, w)) => r == Ok::<(CompareOp, usize), ConditionError<String>>((op, w as usize)),
            Err(e) => r matches Err(e2) && e2@ == e,
        },
{
    let first = s[i];
    let eq_next = i + 1 < s.len() && s[i + 1] == '=';
    if first == '<' {
        if eq_next {
            Ok((CompareOp::Le, 2))
        } else {
            Ok((CompareOp::Lt, 1))
        }
    } else if first == '>' {
        if eq_next {
            Ok((CompareOp::Ge, 2))
        } else {
            Ok((CompareOp::Gt, 1))
        }
    } else if first == '=' {
        if eq_next {
            Ok((CompareOp::Eq, 2))
        } else {
            Err(ConditionError::LoneEquals)
        }
    } else {
        if eq_next {
            Ok((CompareOp::Ne, 2))
        } else {
            Err(ConditionError::LoneBang)
        }
    }
}

fn subvec(s: &Vec<char>, i: usize, j: usize) -> (r: Vec<char>)
    requires
        i <= j <= s.len(),
    ensures
        r@ == s@.subrange(i as int, j as int),
{
    let mut out: Vec<char> = Vec::new();
    let mut k = i;
    while k < j
        invariant
            i <= k <= j <= s.len(),
            out@ == s@.subrange(i as int, k as int),
        decreases j - k,
    {
        out.push(s[k]);
        k = k + 1;
        assert(out@ =~= s@.subrange(i as int, k as int));
    }
    out
}

/// `s` reads as condition tokens from its start to its end: white space,
/// brackets, `&&`, `||`, the six comparison operators (`<`, `<=`, `>`, `>=`,
/// `==`, `!=`), numbers (a whole run of digits and dots with at most one dot
/// and at least one digit, then perhaps a `%`) and identifiers (a letter or
/// `_`, then letters, digits and `_`).
pub open spec fn lexes(s: Seq<char>) -> bool
    decreases s.len(),
{
    if s.len() == 0 {
        true
    } else if is_space(s[0]) || s[0] == '(' || s[0] == ')' {
        lexes(s.drop_first())
    } else if s.len() >= 2 && ((s[0] == '&' && s[1] == '&') || (s[0] == '|' && s[1] == '|') || (
    is_operator_char(s[0]) && s[1] == '=')) {
        lexes(s.skip(2))
    } else if s[0] == '<' || s[0] == '>' {
        lexes(s.drop_first())
    } else if is_number_char(s[0]) {
        proof {
            lemma_run_len_bound(s, 0, true);
        }
        let n = run_len(s, 0, true);
        valid_number(s.take(n as int)) && if n < s.len() && s[n as int] == '%' {
            lexes(s.skip(n + 1int))
        } else {
            lexes(s.skip(n as int))
        }
    } else if is_ident_start(s[0]) {
        proof {
            lemma_run_len_bound(s, 0, false);
        }
        lexes(s.skip(run_len(s, 0, false) as int))
    } else {
        false
    }
}

proof fn lemma_run_len_skip(s: Seq<char>, i: int, j: int, number: bool)
    requires
        0 <= i <= j <= s.len(),
    ensures
        run_len(s.skip(i), j - i, number) == run_len(s, j, number),
    decreases s.len() - j,
{
    if j < s.len() {
        assert(s.skip(i)[j - i] == s[j]);
        lemma_run_len_skip(s, i, j + 1, number);
    }
}

proof fn lemma_tokenize_from_lexes(s: Seq<char>, i: int)
    requires
        0 <= i <= s.len(),
    ensures
        tokenize_from(s, i) is Ok <==> lexes(s.skip(i)),
    decreases s.len() - i,
{
    let t = s.skip(i);
    if i < s.len() {
        let c = s[i];
        assert(t[0] == c);
        assert(t.drop_first() =~= s.skip(i + 1));
        if i + 1 < s.len() {
            assert(t[1] == s[i + 1]);
            assert(t.skip(2) =~= s.skip(i + 2));
        }
        if is_space(c) || c == '(' || c == ')' {
            lemma_tokenize_from_lexes(s, i + 1);
        } else if c == '&' || c == '|' {
            if i + 1 < s.len() && s[i + 1] == c {
                lemma_tokenize_from_lexes(s, i + 2);
            }
        } else if is_operator_char(c) {
            if i + 1 < s.len() && s[i + 1] == '=' {
                lemma_tokenize_from_lexes(s, i + 2);
            } else if c == '<' || c == '>' {
                lemma_tokenize_from_lexes(s, i + 1);
            }
        } else if is_number_char(c) {
            lemma_run_len_bound(s, i, true);
            lemma_run_len_skip(s, i, i, true);
            let n = run_len(s, i, true) as int;
            assert(n >= 1);
            assert(t.take(n) =~= s.subrange(i, i + n));
            assert(t.skip(n) =~= s.skip(i + n));
            if i + n < s.len() {
                assert(t[n] == s[i + n]);
                assert(t.skip(n + 1) =~= s.skip(i + n + 1));
            }
            if i + n < s.len() && s[i + n] == '%' {
                lemma_tokenize_from_lexes(s, i + n + 1);
            } else {
                lemma_tokenize_from_lexes(s, i + n);
            }
        } else if is_ident_start(c) {
            lemma_run_len_bound(s, i, false);
            lemma_run_len_skip(s, i, i, false);
            let n = run_len(s, i, false) as int;
            assert(n >= 1);
            assert(t.skip(n) =~= s.skip(i + n));
            lemma_tokenize_from_lexes(s, i + n);
        }
    } else {
        assert(t.len() == 0);
    }
}

/// Tokenizing succeeds exactly on the texts that read as condition tokens
/// from start to end (see `lexes`).
pub proof fn lemma_tokenize_ok_iff_lexes(s: Seq<char>)
    ensures
        tokenize_spec(s) is Ok <==> lexes(s),
{
    lemma_tokenize_from_lexes(s, 0);
    assert(s.skip(0) =~= s);
}

/// Splits a condition text into tokens.
pub fn tokenize(input: &str) -> (r: Result<Vec<Token<String>>, ConditionError<String>>)
    ensures
        tokens_result_view(r) == tokenize_spec(input@),
{
    let s = chars_of(input);
    let mut tokens: Vec<Token<String>> = Vec::new();
    let mut i: usize = 0;
    while i < s.len()
        invariant
            i <= s.len(),
            s@ == input@,
            tokenize_spec(s@) == prefixed(tokens_view(tokens@), tokenize_from(s@, i as int)),
        decreases s.len() - i,
    {
        let ghost out = tokens_view(tokens@);
        let c = s[i];
        if c == ' ' || c == '\t' || c == '\r' || c == '\n' {
            i = i + 1;
        } else if c == '(' {
            proof {
                lemma_prefixed_prepend(out, Token::LParen, tokenize_from(s@, i + 1));
            }
            tokens.push(Token::LParen);
            assert(tokens_view(tokens@) =~= out.push(Token::LParen));
            i = i + 1;
        } else if c == ')' {
            proof {
                lemma_prefixed_prepend(out, Token::RParen, tokenize_from(s@, i + 1));
            }
            tokens.push(Token::RParen);
            assert(tokens_view(tokens@) =~= out.push(Token::RParen));
            i = i + 1;
        } else if c == '&' {
            if i + 1 < s.len() && s[i + 1] == '&' {
                proof {
                    lemma_prefixed_prepend(out, Token::And, tokenize_from(s@, i + 2));
                }
                tokens.push(Token::And);
                assert(tokens_view(tokens@) =~= out.push(Token::And));
                i = i + 2;
            } else {
                return Err(ConditionError::LoneAmpersand);
            }
        } else if c == '|' {
            if i + 1 < s.len() && s[i + 1] == '|' {
                proof {
                    lemma_prefixed_prepend(out, Token::Or, tokenize_from(s@, i + 2));
                }
                tokens.push(Token::Or);
                assert(tokens_view(tokens@) =~= out.push(Token::Or));
                i = i + 2;
            } else {
                return Err(ConditionError::LonePipe);
            }
        } else if c == '<' || c == '>' || c == '=' || c == '!' {
            match read_operator(&s, i) {
                Ok((op, w)) => {
                    proof {
                        lemma_prefixed_prepend(
                            out,
                            Token::Operator(op),
                            tokenize_from(s@, i + w),
                        );
                    }
                    tokens.push(Token::Operator(op));
                    assert(tokens_view(tokens@) =~= out.push(Token::Operator(op)));
                    i = i + w;
                },
                Err(e) => {
                    return Err(e);
                },
            }
        } else if ('0' <= c && c <= '9') || c == '.' {
            let j = scan_run(&s, i, true);
            let lit = subvec(&s, i, j);
            if !is_valid_number(&lit) {
                return Err(ConditionError::InvalidNumber(string_of(&lit)));
            }
            let w: usize = if j < s.len() && s[j] == '%' {
                j - i + 1
            } else {
                j - i
            };
            let text = string_of(&lit);
            proof {
                assert(is_number_char(s@[i as int]));
                lemma_prefixed_prepend(out, Token::Number(lit@), tokenize_from(s@, i + w));
            }
            tokens.push(Token::Number(text));
            assert(tokens_view(tokens@) =~= out.push(Token::Number(lit@)));
            i = i + w;
        } else if ('a' <= c && c <= 'z') || ('A' <= c && c <= 'Z') || c == '_' {
            let j = scan_run(&s, i, false);
            let ident = subvec(&s, i, j);
            let text = string_of(&ident);
            proof {
                assert(in_run(s@[i as int], false));
                lemma_prefixed_prepend(
                    out,
                    Token::Ident(s@.subrange(i as int, j as int)),
                    tokenize_from(s@, j as int),
                );
            }
            tokens.push(Token::Ident(text));
            assert(tokens_view(tokens@) =~= out.push(Token::Ident(s@.subrange(i as int, j as int))));
            i = j;
        } else {
            return Err(ConditionError::UnexpectedChar(c));
        }
    }
    assert(tokens_view(tokens@) + Seq::<SToken>::empty() =~= tokens_view(tokens@));
    Ok(tokens)
}

// ---------------------------------------------------------------------------
// Grammar
/// `comparison := IDENT OPERATOR NUMBER` at position `pos`.
pub open spec fn parse_comparison_spec(ts: Seq<SToken>, pos: int) -> Result<(SExpr, int), SError> {
    if 0 <= pos < ts.len() && ts[pos] is Ident {
        let name = lower_seq(ts[pos]->Ident_0);
        match metric_key_from_name(name) {
            None => Err(ConditionError::UnknownMetric(name)),
            Some(metric) => if pos + 1 < ts.len() && ts[pos + 1] is Operator {
                if pos + 2 < ts.len() && ts[pos + 2] is Number {
                    Ok(
                        (
                            ConditionExpr::Comparison(
                                Comparison {
                                    metric,
                                    op: ts[pos + 1]->Operator_0,
                                    value: ts[pos + 2]->Number_0,
                                },
                            ),
                            pos + 3,
                        ),
                    )
                } else {
                    Err(ConditionError::ExpectedNumber)
                }
            } else {
                Err(ConditionError::ExpectedOperator)
            },
        }
    } else {
        Err(ConditionError::ExpectedIdent)
    }
}

/// `primary := "(" or ")" | comparison`.
pub open spec fn parse_primary_spec(ts: Seq<SToken>, pos: int) -> Result<(SExpr, int), SError>
    decreases ts.len() - pos, 0nat,
{
    if pos < 0 || pos >= ts.len() {
        Err(ConditionError::UnexpectedEnd)
    } else if ts[pos] is LParen {
        match parse_or_spec(ts, pos + 1) {
            Err(e) => Err(e),
            Ok((e, p)) => if 0 <= p < ts.len() && ts[p] is RParen {
                Ok((e, p + 1))
            } else {
                Err(ConditionError::ExpectedToken)
            },
        }
    } else if ts[pos] is Ident {
        parse_comparison_spec(ts, pos)
    } else {
        Err(ConditionError::UnexpectedToken(ts[pos]))
    }
}

/// The `( "&&" primary )*` tail of an `and` whose left operand is `lhs`.
pub open spec fn parse_and_rest_spec(ts: Seq<SToken>, lhs: SExpr, pos: int) -> Result<
    (SExpr, int),
    SError,
>
    decreases ts.len() - pos, 1nat,
{
    if 0 <= pos < ts.len() && ts[pos] is And {
        match parse_primary_spec(ts, pos + 1) {
            Err(e) => Err(e),
            Ok((rhs, p)) => if pos < p <= ts.len() {
                parse_and_rest_spec(ts, ConditionExpr::And(Box::new(lhs), Box::new(rhs)), p)
            } else {
                Err(ConditionError::UnexpectedEnd)
            },
        }
    } else {
        Ok((lhs, pos))
    }
}

/// `and := primary ( "&&" primary )*`, grouping to the left.
pub open spec fn parse_and_spec(ts: Seq<SToken>, pos: int) -> Result<(SExpr, int), SError>
    decreases ts.len() - pos, 2nat,
{
    match parse_primary_spec(ts, pos) {
        Err(e) => Err(e),
        Ok((lhs, p)) => if pos <= p <= ts.len() {
            parse_and_rest_spec(ts, lhs, p)
        } else {
            Err(ConditionError::UnexpectedEnd)
        },
    }
}

/// The `( "||" and )*` tail of an `or` whose left operand is `lhs`.
pub open spec fn parse_or_rest_spec(ts: Seq<SToken>, lhs: SExpr, pos: int) -> Result<
    (SExpr, int),
    SError,
>
    decreases ts.len() - pos, 3nat,
{
    if 0 <= pos < ts.len() && ts[pos] is Or {
        match parse_and_spec(ts, pos + 1) {
            Err(e) => Err(e),
            Ok((rhs, p)) => if pos < p <= ts.len() {
                parse_or_rest_spec(ts, ConditionExpr::Or(Box::new(lhs), Box::new(rhs)), p)
            } else {
                Err(ConditionError::UnexpectedEnd)
            },
        }
    } else {
        Ok((lhs, pos))
    }
}

/// `or := and ( "||" and )*`, grouping to the left.
pub open spec fn parse_or_spec(ts: Seq<SToken>, pos: int) -> Result<(SExpr, int), SError>
    decreases ts.len() - pos, 4nat,
{
    match parse_and_spec(ts, pos) {
        Err(e) => Err(e),
        Ok((lhs, p)) => if pos <= p <= ts.len() {
            parse_or_rest_spec(ts, lhs, p)
        } else {
            Err(ConditionError::UnexpectedEnd)
        },
    }
}

/// A whole token sequence read as one condition.
pub open spec fn parse_tokens_spec(ts: Seq<SToken>) -> Result<SExpr, SError> {
    match parse_or_spec(ts, 0) {
        Err(e) => Err(e),
        Ok((e, p)) => if p == ts.len() {
            Ok(e)
        } else {
            Err(ConditionError::TrailingTokens)
        },
    }
}

/// A condition text read as one condition.
pub open spec fn parse_condition_spec(s: Seq<char>) -> Result<SExpr, SError> {
    match tokenize_spec(s) {
        Err(e) => Err(e),
        Ok(ts) => parse_tokens_spec(ts),
    }
}

pub open spec fn step_view(r: Result<(ConditionExpr<String>, usize), ConditionError<String>>) -> Result<
    (SExpr, int),
    SError,
> {
    match r {
        Ok((e, p)) => Ok((e@, p as int)),
        Err(e) => Err(e@),
    }
}

pub open spec fn progressed(r: Result<(ConditionExpr<String>, usize), ConditionError<String>>, pos: int, len: int) -> bool {
    r matches Ok((_, p)) ==> pos < p <= len
}

fn token_text(s: &String) -> (r: String)
    ensures
        r@ == s@,
{
    string_of(&chars_of(s.as_str()))
}

fn copy_token(t: &Token<String>) -> (r: Token<String>)
    ensures
        r@ == t@,
{
    match t {
        Token::Ident(s) => Token::Ident(token_text(s)),
        Token::Number(s) => Token::Number(token_text(s)),
        Token::And => Token::And,
        Token::Or => Token::Or,
        Token::LParen => Token::LParen,
        Token::RParen => Token::RParen,
        Token::Operator(op) => Token::Operator(*op),
    }
}

fn parse_comparison(tokens: &Vec<Token<String>>, pos: usize) -> (r: Result<
    (ConditionExpr<String>, usize),
    ConditionError<String>,
>)
    requires
        pos < tokens.len(),
    ensures
        step_view(r) == parse_comparison_spec(tokens_view(tokens@), pos as int),
        progressed(r, pos as int, tokens.len() as int),
{
    let ghost ts = tokens_view(tokens@);
    assert(ts[pos as int] == tokens@[pos as int]@);
    let name = match &tokens[pos] {
        Token::Ident(name) => name,
        _ => {
            return Err(ConditionError::ExpectedIdent);
        },
    };
    let metric = match MetricKey::from_str(name.as_str()) {
        Ok(m) => m,
        Err(e) => {
            return Err(e);
        },
    };
    if pos + 1 >= tokens.len() {
        return Err(ConditionError::ExpectedOperator);
    }
    assert(ts[pos + 1] == tokens@[pos + 1]@);
    let op = match &tokens[pos + 1] {
        Token::Operator(op) => *op,
        _ => {
            return Err(ConditionError::ExpectedOperator);
        },
    };
    if pos + 2 >= tokens.len() {
        return Err(ConditionError::ExpectedNumber);
    }
    assert(ts[pos + 2] == tokens@[pos + 2]@);
    let value = match &tokens[pos + 2] {
        Token::Number(v) => token_text(v),
        _ => {
            return Err(ConditionError::ExpectedNumber);
        },
    };
    Ok((ConditionExpr::Comparison(Comparison { metric, op, value }), pos + 3))
}

fn parse_primary(tokens: &Vec<Token<String>>, pos: usize) -> (r: Result<
    (ConditionExpr<String>, usize),
    ConditionError<String>,
>)
    requires
        pos <= tokens.len(),
    ensures
        step_view(r) == parse_primary_spec(tokens_view(tokens@), pos as int),
        progressed(r, pos as int, tokens.len() as int),
    decreases tokens.len() - pos, 0nat,
{
    let ghost ts = tokens_view(tokens@);
    if pos >= tokens.len() {
        return Err(ConditionError::UnexpectedEnd);
    }
    assert(ts[pos as int] == tokens@[pos as int]@);
    match &tokens[pos] {
        Token::LParen => {
            let (e, p) = match parse_or(tokens, pos + 1) {
                Ok(v) => v,
                Err(err) => {
                    return Err(err);
                },
            };
            if p < tokens.len() {
                assert(ts[p as int] == tokens@[p as int]@);
                match &tokens[p] {
                    Token::RParen => {
                        return Ok((e, p + 1));
                    },
                    _ => {},
                }
            }
            Err(ConditionError::ExpectedToken)
        },
        Token::Ident(_) => parse_comparison(tokens, pos),
        other => Err(ConditionError::UnexpectedToken(copy_token(other))),
    }
}

fn parse_and(tokens: &Vec<Token<String>>, pos: usize) -> (r: Result<
    (ConditionExpr<String>, usize),
    ConditionError<String>,
>)
    requires
        pos <= tokens.len(),
    ensures
        step_view(r) == parse_and_spec(tokens_view(tokens@), pos as int),
        progressed(r, pos as int, tokens.len() as int),
    decreases tokens.len() - pos, 2nat,
{
    let ghost ts = tokens_view(tokens@);
    let (mut expr, mut p) = match parse_primary(tokens, pos) {
        Ok(v) => v,
        Err(err) => {
            return Err(err);
        },
    };
    while p < tokens.len() && matches!(tokens[p], Token::And)
        invariant
            pos < p <= tokens.len(),
            ts == tokens_view(tokens@),
            parse_and_spec(ts, pos as int) == parse_and_rest_spec(ts, expr@, p as int),
        decreases tokens.len() - p,
    {
        assert(ts[p as int] == tokens@[p as int]@);
        let (rhs, p2) = match parse_primary(tokens, p + 1) {
            Ok(v) => v,
            Err(err) => {
                return Err(err);
            },
        };
        expr = ConditionExpr::And(Box::new(expr), Box::new(rhs));
        p = p2;
    }
    if p < tokens.len() {
        assert(ts[p as int] == tokens@[p as int]@);
    }
    Ok((expr, p))
}

fn parse_or(tokens: &Vec<Token<String>>, pos: usize) -> (r: Result<
    (ConditionExpr<String>, usize),
    ConditionError<String>,
>)
    requires
        pos <= tokens.len(),
    ensures
        step_view(r) == parse_or_spec(tokens_view(tokens@), pos as int),
        progressed(r, pos as int, tokens.len() as int),
    decreases tokens.len() - pos, 4nat,
{
    let ghost ts = tokens_view(tokens@);
    let (mut expr, mut p) = match parse_and(tokens, pos) {
        Ok(v) => v,
        Err(err) => {
            return Err(err);
        },
    };
    while p < tokens.len() && matches!(tokens[p], Token::Or)
        invariant
            pos < p <= tokens.len(),
            ts == tokens_view(tokens@),
            parse_or_spec(ts, pos as int) == parse_or_rest_spec(ts, expr@, p as int),
        decreases tokens.len() - p,
    {
        assert(ts[p as int] == tokens@[p as int]@);
        let (rhs, p2) = match parse_and(tokens, p + 1) {
            Ok(v) => v,
            Err(err) => {
                return Err(err);
            },
        };
        expr = ConditionExpr::Or(Box::new(expr), Box::new(rhs));
        p = p2;
    }
    if p < tokens.len() {
        assert(ts[p as int] == tokens@[p as int]@);
    }
    Ok((expr, p))
}

pub open spec fn expr_result_view(r: Result<ConditionExpr<String>, ConditionError<String>>) -> Result<
    SExpr,
    SError,
> {
    match r {
        Ok(e) => Ok(e@),
        Err(e) => Err(e@),
    }
}

/// Reads a whole token sequence as one condition.
pub fn parse_tokens(tokens: &Vec<Token<String>>) -> (r: Result<ConditionExpr<String>, ConditionError<String>>)
    ensures
        expr_result_view(r) == parse_tokens_spec(tokens_view(tokens@)),
{
    let (expr, p) = match parse_or(tokens, 0) {
        Ok(v) => v,
        Err(err) => {
            return Err(err);
        },
    };
    if p == tokens.len() {
        Ok(expr)
    } else {
        Err(ConditionError::TrailingTokens)
    }
}

impl ConditionExpr<String> {
    /// Reads a condition text.
    pub fn parse(text: &str) -> (r: Result<ConditionExpr<String>, ConditionError<String>>)
        ensures
            expr_result_view(r) == parse_condition_spec(text@),
    {
        let tokens = match tokenize(text) {
            Ok(ts) => ts,
            Err(err) => {
                return Err(err);
            },
        };
        parse_tokens(&tokens)
    }
}

/// Reads a condition text; see `ConditionExpr::parse`.
pub fn parse_condition(text: &str) -> (r: Result<ConditionExpr<String>, ConditionError<String>>)
    ensures
        expr_result_view(r) == parse_condition_spec(text@),
{
    ConditionExpr::parse(text)
}

// ---------------------------------------------------------------------------
// Laws of the condition language

/// Each of the six operator spellings reads as its comparison: `<` as Lt,
/// `<=` as Le, `>` as Gt, `>=` as Ge, `==` as Eq and `!=` as Ne, taking one or
/// two characters; `=` or `!` alone is refused.
pub proof fn lemma_operator_spellings(s: Seq<char>, i: int)
    requires
        0 <= i < s.len(),
    ensures
        ({
            let two = i + 1 < s.len() && s[i + 1] == '=';
            &&& s[i] == '<' && two ==> operator_at(s, i) == Ok::<(CompareOp, int), SError>((CompareOp::Le, 2))
            &&& s[i] == '<' && !two ==> operator_at(s, i) == Ok::<(CompareOp, int), SError>((CompareOp::Lt, 1))
            &&& s[i] == '>' && two ==> operator_at(s, i) == Ok::<(CompareOp, int), SError>((CompareOp::Ge, 2))
            &&& s[i] == '>' && !two ==> operator_at(s, i) == Ok::<(CompareOp, int), SError>((CompareOp::Gt, 1))
            &&& s[i] == '=' && two ==> operator_at(s, i) == Ok::<(CompareOp, int), SError>((CompareOp::Eq, 2))
            &&& s[i] == '=' && !two ==> operator_at(s, i) == Err::<(CompareOp, int), SError>(
                ConditionError::LoneEquals,
            )
            &&& s[i] == '!' && two ==> operator_at(s, i) == Ok::<(CompareOp, int), SError>((CompareOp::Ne, 2))
            &&& s[i] == '!' && !two ==> operator_at(s, i) == Err::<(CompareOp, int), SError>(
                ConditionError::LoneBang,
            )
        }),
{
}

/// Where the text being tokenized has `!=` at `i`, the token read there is
/// the Ne operator and reading goes on after the two characters; likewise
/// `==` gives Eq, `<=` Le and `>=` Ge.
pub proof fn lemma_two_char_operator_token(s: Seq<char>, i: int)
    requires
        0 <= i,
        i + 1 < s.len(),
        is_operator_char(s[i]),
        s[i + 1] == '=',
    ensures
        tokenize_from(s, i) == prepend(
            Token::Operator(
                if s[i] == '!' {
                    CompareOp::Ne
                } else if s[i] == '=' {
                    CompareOp::Eq
                } else if s[i] == '<' {
                    CompareOp::Le
                } else {
                    CompareOp::Ge
                },
            ),
            tokenize_from(s, i + 2),
        ),
{
}

/// A condition of two joined comparisons holds, for `&&`, exactly when both
/// hold, and for `||` exactly when one does; a comparison holds as its own
/// outcome says.
pub proof fn lemma_eval_connectives(e: SExpr, results: Seq<bool>, off: int)
    ensures
        e matches ConditionExpr::And(l, r) ==> (eval_spec(e, results, off) <==> (eval_spec(
            *l,
            results,
            off,
        ) && eval_spec(*r, results, off + leaf_count(*l)))),
        e matches ConditionExpr::Or(l, r) ==> (eval_spec(e, results, off) <==> (eval_spec(
            *l,
            results,
            off,
        ) || eval_spec(*r, results, off + leaf_count(*l)))),
        e matches ConditionExpr::Comparison(_) ==> eval_spec(e, results, off) == results[off],
{
}

/// A condition whose comparisons all hold holds, and one whose comparisons
/// all fail fails.
pub proof fn lemma_eval_uniform(e: SExpr, results: Seq<bool>, off: int, v: bool)
    requires
        0 <= off,
        off + leaf_count(e) <= results.len(),
        forall|k: int| off <= k < off + leaf_count(e) ==> results[k] == v,
    ensures
        eval_spec(e, results, off) == v,
    decreases e,
{
    match e {
        ConditionExpr::And(l, r) => {
            lemma_eval_uniform(*l, results, off, v);
            lemma_eval_uniform(*r, results, off + leaf_count(*l), v);
        },
        ConditionExpr::Or(l, r) => {
            lemma_eval_uniform(*l, results, off, v);
            lemma_eval_uniform(*r, results, off + leaf_count(*l), v);
        },
        ConditionExpr::Comparison(_) => {},
    }
}

/// Two comparisons joined by `&&` read as their conjunction and by `||` as
/// their disjunction, and the condition read holds as the connective says of
/// the two outcomes.
pub proof fn lemma_two_comparisons(
    a: Seq<char>,
    op1: CompareOp,
    n1: Seq<char>,
    b: Seq<char>,
    op2: CompareOp,
    n2: Seq<char>,
    joined_by_and: bool,
    x: bool,
    y: bool,
)
    requires
        metric_key_from_name(lower_seq(a)) is Some,
        metric_key_from_name(lower_seq(b)) is Some,
    ensures
        ({
            let ts = seq![
                Token::Ident(a),
                Token::Operator(op1),
                Token::Number(n1),
                if joined_by_and {
                    Token::And
                } else {
                    Token::Or
                },
                Token::Ident(b),
                Token::Operator(op2),
                Token::Number(n2),
            ];
            let c1 = ConditionExpr::Comparison(
                Comparison { metric: metric_key_from_name(lower_seq(a))->0, op: op1, value: n1 },
            );
            let c2 = ConditionExpr::Comparison(
                Comparison { metric: metric_key_from_name(lower_seq(b))->0, op: op2, value: n2 },
            );
            &&& joined_by_and ==> parse_tokens_spec(ts) == Ok::<SExpr, SError>(
                ConditionExpr::And(Box::new(c1), Box::new(c2)),
            )
            &&& !joined_by_and ==> parse_tokens_spec(ts) == Ok::<SExpr, SError>(
                ConditionExpr::Or(Box::new(c1), Box::new(c2)),
            )
            &&& parse_tokens_spec(ts) matches Ok(e) && eval_spec(e, seq![x, y], 0) == (if joined_by_and {
                x && y
            } else {
                x || y
            })
        }),
{
    let ts = seq![
        Token::Ident(a),
        Token::Operator(op1),
        Token::Number(n1),
        if joined_by_and {
            Token::And
        } else {
            Token::Or
        },
        Token::Ident(b),
        Token::Operator(op2),
        Token::Number(n2),
    ];
    let c1 = ConditionExpr::Comparison(
        Comparison { metric: metric_key_from_name(lower_seq(a))->0, op: op1, value: n1 },
    );
    let c2 = ConditionExpr::Comparison(
        Comparison { metric: metric_key_from_name(lower_seq(b))->0, op: op2, value: n2 },
    );
    assert(parse_comparison_spec(ts, 0) == Ok::<(SExpr, int), SError>((c1, 3)));
    assert(parse_comparison_spec(ts, 4) == Ok::<(SExpr, int), SError>((c2, 7)));
    assert(parse_primary_spec(ts, 0) == Ok::<(SExpr, int), SError>((c1, 3)));
    assert(parse_primary_spec(ts, 4) == Ok::<(SExpr, int), SError>((c2, 7)));
    if joined_by_and {
        let both = ConditionExpr::And(Box::new(c1), Box::new(c2));
        assert(parse_and_rest_spec(ts, both, 7) == Ok::<(SExpr, int), SError>((both, 7)));
        assert(parse_and_rest_spec(ts, c1, 3) == Ok::<(SExpr, int), SError>((both, 7)));
        assert(parse_and_spec(ts, 0) == Ok::<(SExpr, int), SError>((both, 7)));
        assert(parse_or_rest_spec(ts, both, 7) == Ok::<(SExpr, int), SError>((both, 7)));
        assert(parse_or_spec(ts, 0) == Ok::<(SExpr, int), SError>((both, 7)));
        assert(parse_tokens_spec(ts) == Ok::<SExpr, SError>(both));
        assert(leaf_count(c1) == 1);
        assert(eval_spec(c1, seq![x, y], 0) == x);
        assert(eval_spec(c2, seq![x, y], 1) == y);
        assert(eval_spec(both, seq![x, y], 0) == (x && y));
    } else {
        let either = ConditionExpr::Or(Box::new(c1), Box::new(c2));
        assert(parse_and_rest_spec(ts, c1, 3) == Ok::<(SExpr, int), SError>((c1, 3)));
        assert(parse_and_spec(ts, 0) == Ok::<(SExpr, int), SError>((c1, 3)));
        assert(parse_and_rest_spec(ts, c2, 7) == Ok::<(SExpr, int), SError>((c2, 7)));
        assert(parse_and_spec(ts, 4) == Ok::<(SExpr, int), SError>((c2, 7)));
        assert(parse_or_rest_spec(ts, either, 7) == Ok::<(SExpr, int), SError>((either, 7)));
        assert(parse_or_rest_spec(ts, c1, 3) == Ok::<(SExpr, int), SError>((either, 7)));
        assert(parse_or_spec(ts, 0) == Ok::<(SExpr, int), SError>((either, 7)));
        assert(parse_tokens_spec(ts) == Ok::<SExpr, SError>(either));
        assert(leaf_count(c1) == 1);
        assert(eval_spec(c1, seq![x, y], 0) == x);
        assert(eval_spec(c2, seq![x, y], 1) == y);
        assert(eval_spec(either, seq![x, y], 0) == (x || y));
    }
}

// ---------------------------------------------------------------------------
// Evaluation
pub open spec fn comparison_view(c: Comparison<String>) -> Comparison<Seq<char>> {
    Comparison { metric: c.metric, op: c.op, value: c.value@ }
}

/// Number of comparisons in a condition.
pub open spec fn leaf_count(e: SExpr) -> nat
    decreases e,
{
    match e {
        ConditionExpr::And(l, r) => leaf_count(*l) + leaf_count(*r),
        ConditionExpr::Or(l, r) => leaf_count(*l) + leaf_count(*r),
        ConditionExpr::Comparison(_) => 1,
    }
}

/// The comparisons of a condition, from left to right.
pub open spec fn leaves(e: SExpr) -> Seq<Comparison<Seq<char>>>
    decreases e,
{
    match e {
        ConditionExpr::And(l, r) => leaves(*l) + leaves(*r),
        ConditionExpr::Or(l, r) => leaves(*l) + leaves(*r),
        ConditionExpr::Comparison(c) => seq![c],
    }
}

/// The truth of a condition when its comparisons, from left to right and
/// starting at `off`, came out as `results` says.
pub open spec fn eval_spec(e: SExpr, results: Seq<bool>, off: int) -> bool
    decreases e,
{
    match e {
        ConditionExpr::And(l, r) => eval_spec(*l, results, off) && eval_spec(
            *r,
            results,
            off + leaf_count(*l),
        ),
        ConditionExpr::Or(l, r) => eval_spec(*l, results, off) || eval_spec(
            *r,
            results,
            off + leaf_count(*l),
        ),
        ConditionExpr::Comparison(_) => results[off],
    }
}

pub proof fn lemma_leaves_len(e: SExpr)
    ensures
        leaves(e).len() == leaf_count(e),
    decreases e,
{
    match e {
        ConditionExpr::And(l, r) => {
            lemma_leaves_len(*l);
            lemma_leaves_len(*r);
        },
        ConditionExpr::Or(l, r) => {
            lemma_leaves_len(*l);
            lemma_leaves_len(*r);
        },
        ConditionExpr::Comparison(_) => {},
    }
}

impl ConditionExpr<String> {
    fn collect_leaves(&self, out: &mut Vec<Comparison<String>>)
        ensures
            final(out)@.map_values(|c: Comparison<String>| comparison_view(c)) == old(
                out,
            )@.map_values(|c: Comparison<String>| comparison_view(c)) + leaves(self@),
        decreases self,
    {
        match self {
            ConditionExpr::And(l, r) => {
                let ghost before = out@.map_values(|c: Comparison<String>| comparison_view(c));
                l.collect_leaves(out);
                r.collect_leaves(out);
                assert(before + leaves(l@) + leaves(r@) =~= before + (leaves(l@) + leaves(r@)));
            },
            ConditionExpr::Or(l, r) => {
                let ghost before = out@.map_values(|c: Comparison<String>| comparison_view(c));
                l.collect_leaves(out);
                r.collect_leaves(out);
                assert(before + leaves(l@) + leaves(r@) =~= before + (leaves(l@) + leaves(r@)));
            },
            ConditionExpr::Comparison(c) => {
                let ghost before = out@;
                out.push(Comparison { metric: c.metric, op: c.op, value: token_text(&c.value) });
                assert(out@.map_values(|c: Comparison<String>| comparison_view(c)) =~= before.map_values(
                    |c: Comparison<String>| comparison_view(c),
                ) + seq![comparison_view(*c)]);
            },
        }
    }

    /// The comparisons of the condition, from left to right; the caller
    /// decides each and hands the outcomes to `evaluate`.
    pub fn comparisons(&self) -> (r: Vec<Comparison<String>>)
        ensures
            r@.map_values(|c: Comparison<String>| comparison_view(c)) == leaves(self@),
            r@.len() == leaf_count(self@),
    {
        proof {
            lemma_leaves_len(self@);
        }
        let mut out: Vec<Comparison<String>> = Vec::new();
        self.collect_leaves(&mut out);
        assert(Seq::<Comparison<String>>::empty().map_values(
            |c: Comparison<String>| comparison_view(c),
        ) + leaves(self@) =~= leaves(self@));
        out
    }

    fn evaluate_at(&self, results: &Vec<bool>, off: usize) -> (r: (bool, usize))
        requires
            off + leaf_count(self@) <= results.len(),
        ensures
            r.0 == eval_spec(self@, results@, off as int),
            r.1 == off + leaf_count(self@),
        decreases self,
    {
        match self {
            ConditionExpr::And(l, r) => {
                let (a, mid) = l.evaluate_at(results, off);
                let (b, end) = r.evaluate_at(results, mid);
                (a && b, end)
            },
            ConditionExpr::Or(l, r) => {
                let (a, mid) = l.evaluate_at(results, off);
                let (b, end) = r.evaluate_at(results, mid);
                (a || b, end)
            },
            ConditionExpr::Comparison(_) => (results[off], off + 1),
        }
    }

    /// The truth of the condition, given the outcome of each of its
    /// comparisons in the order of `comparisons`.
    pub fn evaluate(&self, results: &Vec<bool>) -> (r: bool)
        requires
            results.len() == leaf_count(self@),
        ensures
            r == eval_spec(self@, results@, 0),
    {
        self.evaluate_at(results, 0).0
    }
}

pub open spec fn op_name_spec(op: CompareOp) -> Seq<char> {
    match op {
        CompareOp::Lt => "Lt"@,
        CompareOp::Le => "Le"@,
        CompareOp::Gt => "Gt"@,
        CompareOp::Ge => "Ge"@,
        CompareOp::Eq => "Eq"@,
        CompareOp::Ne => "Ne"@,
    }
}

/// Index of the first `.` of `s`, or its length when there is none.
pub open spec fn dot_index(s: Seq<char>) -> nat
    decreases s.len(),
{
    if s.len() == 0 || s[0] == '.' {
        0
    } else {
        1 + dot_index(s.drop_first())
    }
}

/// How many `0` characters `s` starts with.
pub open spec fn lead_zeros(s: Seq<char>) -> nat
    decreases s.len(),
{
    if s.len() == 0 || s[0] != '0' {
        0
    } else {
        1 + lead_zeros(s.drop_first())
    }
}

/// How many `0` characters `s` ends with.
pub open spec fn trail_zeros(s: Seq<char>) -> nat
    decreases s.len(),
{
    if s.len() == 0 || s.last() != '0' {
        0
    } else {
        1 + trail_zeros(s.drop_last())
    }
}

pub open spec fn zeros(n: nat) -> Seq<char> {
    Seq::new(n, |i: int| '0')
}

/// The shortest text of the number `0.sig × 10^(e + 1)` (its significant
/// digits `sig`, the first not `0`, and its decimal exponent `e`) as Rust's
/// `{:?}` writes a float: plain notation with at least one digit after the
/// point, or `d.ddde±x` notation below 1e-4 and from 1e16 on.
pub open spec fn float_text(sig: Seq<char>, e: int) -> Seq<char> {
    let k = sig.len() as int;
    if e >= 16 || e < -4 {
        seq![sig[0]] + (if k > 1 {
            seq!['.'] + sig.skip(1)
        } else {
            Seq::empty()
        }) + seq!['e'] + (if e < 0 {
            seq!['-']
        } else {
            Seq::empty()
        }) + decimal_spec((if e < 0 {
            -e
        } else {
            e
        }) as nat)
    } else if e >= 0 {
        if k <= e + 1 {
            sig + zeros((e + 1 - k) as nat) + seq!['.', '0']
        } else {
            sig.take(e + 1) + seq!['.'] + sig.skip(e + 1)
        }
    } else {
        seq!['0', '.'] + zeros((-e - 1) as nat) + sig
    }
}

/// How a number literal (digits with at most one `.`) is shown: as the float
/// it reads as is shown by `{:?}`.  For a literal of at most 15 significant
/// digits, within the range of normal floats, that float prints back as the
/// literal's own value, which is what this gives for every literal.
pub open spec fn number_text(lit: Seq<char>) -> Seq<char> {
    let p = dot_index(lit) as int;
    let frac = if p < lit.len() {
        lit.skip(p + 1)
    } else {
        Seq::empty()
    };
    let digits = lit.take(p) + frac;
    let nz = digits.skip(lead_zeros(digits) as int);
    if nz.len() == 0 {
        seq!['0', '.', '0']
    } else {
        let t = trail_zeros(nz) as int;
        let sig = nz.take(nz.len() - t);
        float_text(sig, sig.len() - 1 + t - frac.len())
    }
}

/// How a token is shown in messages.
pub open spec fn describe_spec(t: SToken) -> Seq<char> {
    match t {
        Token::Ident(s) => "Ident(\""@ + s + "\")"@,
        Token::Number(s) => "Number("@ + number_text(s) + ")"@,
        Token::And => "And"@,
        Token::Or => "Or"@,
        Token::LParen => "LParen"@,
        Token::RParen => "RParen"@,
        Token::Operator(op) => "Operator("@ + op_name_spec(op) + ")"@,
    }
}

/// The message shown for an error.
pub open spec fn condition_message(e: SError) -> Seq<char> {
    match e {
        ConditionError::LoneAmpersand => "'&' は '&&' として使用してください"@,
        ConditionError::LonePipe => "'|' は '||' として使用してください"@,
        ConditionError::LoneEquals => "'=' は '==' として使用してください"@,
        ConditionError::LoneBang => "'!' は '!=' として使用してください"@,
        ConditionError::InvalidNumber(t) => "数値 '"@ + t + "' の解析に失敗しました: invalid float literal"@,
        ConditionError::UnexpectedChar(c) => "条件式に解釈できない文字 '"@ + seq![c] + "' が含まれています"@,
        ConditionError::UnknownMetric(t) => "未知の条件メトリクス '"@ + t + "' が指定されました"@,
        ConditionError::UnexpectedToken(t) => "予期しないトークン "@ + describe_spec(t) + " が出現しました"@,
        ConditionError::UnexpectedEnd => "条件式が途中で終了しました"@,
        ConditionError::ExpectedToken => "期待したトークンが見つかりませんでした"@,
        ConditionError::ExpectedIdent => "識別子が必要です"@,
        ConditionError::ExpectedOperator => "比較演算子が必要です"@,
        ConditionError::ExpectedNumber => "数値が必要です"@,
        ConditionError::TrailingTokens => "トークンが余っています"@,
    }
}

fn op_name(op: CompareOp) -> (r: &'static str)
    ensures
        r@ == op_name_spec(op),
{
    match op {
        CompareOp::Lt => "Lt",
        CompareOp::Le => "Le",
        CompareOp::Gt => "Gt",
        CompareOp::Ge => "Ge",
        CompareOp::Eq => "Eq",
        CompareOp::Ne => "Ne",
    }
}

fn append_chars(out: &mut Vec<char>, more: &Vec<char>)
    ensures
        final(out)@ == old(out)@ + more@,
{
    let mut i: usize = 0;
    while i < more.len()
        invariant
            i <= more@.len(),
            out@ == old(out)@ + more@.take(i as int),
        decreases more@.len() - i,
    {
        out.push(more[i]);
        i = i + 1;
        assert(more@.take(i as int) =~= more@.take(i - 1).push(more@[i - 1]));
    }
    assert(more@.take(more@.len() as int) =~= more@);
}

fn push_zeros(out: &mut Vec<char>, n: usize)
    ensures
        final(out)@ == old(out)@ + zeros(n as nat),
{
    let mut i: usize = 0;
    while i < n
        invariant
            i <= n,
            out@ == old(out)@ + zeros(i as nat),
        decreases n - i,
    {
        out.push('0');
        i = i + 1;
        assert(zeros(i as nat) =~= zeros((i - 1) as nat).push('0'));
    }
}

fn range_of(v: &Vec<char>, from: usize, to: usize) -> (r: Vec<char>)
    requires
        from <= to <= v@.len(),
    ensures
        r@ == v@.subrange(from as int, to as int),
{
    let mut out: Vec<char> = Vec::new();
    let mut k: usize = from;
    while k < to
        invariant
            from <= k <= to <= v@.len(),
            out@ == v@.subrange(from as int, k as int),
        decreases to - k,
    {
        out.push(v[k]);
        k = k + 1;
    }
    out
}

fn dot_index_exec(v: &Vec<char>) -> (r: usize)
    ensures
        r == dot_index(v@),
        r <= v@.len(),
{
    let mut i: usize = 0;
    assert(v@.skip(0) =~= v@);
    while i < v.len() && v[i] != '.'
        invariant
            i <= v@.len(),
            dot_index(v@) == i + dot_index(v@.skip(i as int)),
        decreases v@.len() - i,
    {
        assert(v@.skip(i as int).drop_first() =~= v@.skip(i + 1));
        i = i + 1;
    }
    i
}

fn lead_zeros_exec(v: &Vec<char>) -> (r: usize)
    ensures
        r == lead_zeros(v@),
        r <= v@.len(),
{
    let mut i: usize = 0;
    assert(v@.skip(0) =~= v@);
    while i < v.len() && v[i] == '0'
        invariant
            i <= v@.len(),
            lead_zeros(v@) == i + lead_zeros(v@.skip(i as int)),
        decreases v@.len() - i,
    {
        assert(v@.skip(i as int).drop_first() =~= v@.skip(i + 1));
        i = i + 1;
    }
    i
}

fn trail_zeros_exec(v: &Vec<char>) -> (r: usize)
    ensures
        r == trail_zeros(v@),
        r <= v@.len(),
{
    let mut n: usize = v.len();
    assert(v@.take(n as int) =~= v@);
    while n > 0 && v[n - 1] == '0'
        invariant
            n <= v@.len(),
            trail_zeros(v@) == (v@.len() - n) + trail_zeros(v@.take(n as int)),
        decreases n,
    {
        assert(v@.take(n as int).drop_last() =~= v@.take(n - 1));
        n = n - 1;
    }
    v.len() - n
}

/// The text of `number_text`, built.
#[verifier::spinoff_prover]
#[verifier::rlimit(60)]
fn number_text_exec(lit: &Vec<char>) -> (r: Vec<char>)
    ensures
        r@ == number_text(lit@),
{
    let p = dot_index_exec(lit);
    let frac: Vec<char> = if p < lit.len() {
        range_of(lit, p + 1, lit.len())
    } else {
        Vec::new()
    };
    let mut digits = range_of(lit, 0, p);
    append_chars(&mut digits, &frac);
    assert(frac@ == (if (p as int) < lit@.len() {
        lit@.skip(p + 1)
    } else {
        Seq::<char>::empty()
    }));
    assert(digits@ == lit@.take(p as int) + frac@);
    let lz = lead_zeros_exec(&digits);
    let nz = range_of(&digits, lz, digits.len());
    assert(nz@ =~= digits@.skip(lz as int));
    let mut out: Vec<char> = Vec::new();
    if nz.len() == 0 {
        out.push('0');
        out.push('.');
        out.push('0');
        assert(out@ =~= seq!['0', '.', '0']);
        return out;
    }
    let t = trail_zeros_exec(&nz);
    proof {
        assert(t < nz@.len()) by {
            lemma_lead_zeros_stop(digits@);
            assert(nz@[0] == digits@[lz as int]);
            assert(nz@[0] != '0');
            lemma_trail_zeros_bound(nz@);
        }
    }
    let sig = range_of(&nz, 0, nz.len() - t);
    assert(sig@ =~= nz@.take(nz@.len() - t));
    let k = sig.len();
    let a = k - 1 + t;
    let b = frac.len();
    let ghost e: int = sig@.len() - 1 + t - frac@.len();
    if (a >= b && a - b >= 16) || (a < b && b - a > 4) {
        out.push(sig[0]);
        if k > 1 {
            out.push('.');
            let rest = range_of(&sig, 1, k);
            assert(rest@ =~= sig@.skip(1));
            append_chars(&mut out, &rest);
        }
        out.push('e');
        let mag: usize = if a >= b {
            a - b
        } else {
            out.push('-');
            b - a
        };
        let ds = decimal_text(mag);
        append_chars(&mut out, &ds);
        assert(out@ =~= float_text(sig@, e));
    } else if a >= b {
        let ep = a - b;
        if k <= ep + 1 {
            append_chars(&mut out, &sig);
            push_zeros(&mut out, ep + 1 - k);
            out.push('.');
            out.push('0');
        } else {
            let head = range_of(&sig, 0, ep + 1);
            let tail = range_of(&sig, ep + 1, k);
            append_chars(&mut out, &head);
            out.push('.');
            append_chars(&mut out, &tail);
            assert(head@ =~= sig@.take(ep + 1));
            assert(tail@ =~= sig@.skip(ep + 1));
        }
        assert(out@ =~= float_text(sig@, e));
    } else {
        out.push('0');
        out.push('.');
        push_zeros(&mut out, b - a - 1);
        append_chars(&mut out, &sig);
        assert(out@ =~= float_text(sig@, e));
    }
    out
}

proof fn lemma_lead_zeros_stop(s: Seq<char>)
    ensures
        lead_zeros(s) <= s.len(),
        lead_zeros(s) < s.len() ==> s[lead_zeros(s) as int] != '0',
    decreases s.len(),
{
    if s.len() > 0 && s[0] == '0' {
        lemma_lead_zeros_stop(s.drop_first());
        if lead_zeros(s) < s.len() {
            assert(s[lead_zeros(s) as int] == s.drop_first()[lead_zeros(s.drop_first()) as int]);
        }
    }
}

proof fn lemma_trail_zeros_bound(s: Seq<char>)
    requires
        s.len() > 0,
        s[0] != '0',
    ensures
        trail_zeros(s) < s.len(),
    decreases s.len(),
{
    if s.len() > 1 && s.last() == '0' {
        assert(s.drop_last()[0] == s[0]);
        lemma_trail_zeros_bound(s.drop_last());
    }
}

impl Token<String> {
    /// The token as it is shown in messages.
    pub fn describe(&self) -> (r: String)
        ensures
            r@ == describe_spec(self@),
    {
        let mut out: Vec<char> = Vec::new();
        match self {
            Token::Ident(s) => {
                append_str(&mut out, "Ident(\"");
                append_str(&mut out, s.as_str());
                append_str(&mut out, "\")");
            },
            Token::Number(s) => {
                append_str(&mut out, "Number(");
                let shown = number_text_exec(&chars_of(s.as_str()));
                append_chars(&mut out, &shown);
                append_str(&mut out, ")");
            },
            Token::And => append_str(&mut out, "And"),
            Token::Or => append_str(&mut out, "Or"),
            Token::LParen => append_str(&mut out, "LParen"),
            Token::RParen => append_str(&mut out, "RParen"),
            Token::Operator(op) => {
                append_str(&mut out, "Operator(");
                append_str(&mut out, op_name(*op));
                append_str(&mut out, ")");
            },
        }
        assert(out@ =~= describe_spec(self@));
        string_of(&out)
    }
}

impl ConditionError<String> {
    /// The message shown to the player.
    pub fn message(&self) -> (r: String)
        ensures
            r@ == condition_message(self@),
    {
        let mut out: Vec<char> = Vec::new();
        match self {
            ConditionError::LoneAmpersand => append_str(&mut out, "'&' は '&&' として使用してください"),
            ConditionError::LonePipe => append_str(&mut out, "'|' は '||' として使用してください"),
            ConditionError::LoneEquals => append_str(&mut out, "'=' は '==' として使用してください"),
            ConditionError::LoneBang => append_str(&mut out, "'!' は '!=' として使用してください"),
            ConditionError::InvalidNumber(t) => {
                append_str(&mut out, "数値 '");
                append_str(&mut out, t.as_str());
                append_str(&mut out, "' の解析に失敗しました: invalid float literal");
            },
            ConditionError::UnexpectedChar(c) => {
                append_str(&mut out, "条件式に解釈できない文字 '");
                out.push(*c);
                append_str(&mut out, "' が含まれています");
            },
            ConditionError::UnknownMetric(t) => {
                append_str(&mut out, "未知の条件メトリクス '");
                append_str(&mut out, t.as_str());
                append_str(&mut out, "' が指定されました");
            },
            ConditionError::UnexpectedToken(t) => {
                append_str(&mut out, "予期しないトークン ");
                let d = t.describe();
                append_str(&mut out, d.as_str());
                append_str(&mut out, " が出現しました");
            },
            ConditionError::UnexpectedEnd => append_str(&mut out, "条件式が途中で終了しました"),
            ConditionError::ExpectedToken => append_str(&mut out, "期待したトークンが見つかりませんでした"),
            ConditionError::ExpectedIdent => append_str(&mut out, "識別子が必要です"),
            ConditionError::ExpectedOperator => append_str(&mut out, "比較演算子が必要です"),
            ConditionError::ExpectedNumber => append_str(&mut out, "数値が必要です"),
            ConditionError::TrailingTokens => append_str(&mut out, "トークンが余っています"),
        }
        assert(out@ =~= condition_message(self@));
        string_of(&out)
    }
}

} // verus!
