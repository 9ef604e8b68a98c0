//! Character-level helpers shared by the command, condition and report code.
//!
//! Text is handled as `Vec<char>` inside the library; each function is stated
//! over the `Seq<char>` view of its arguments.
use vstd::prelude::*;
use vstd::string::StrSliceExecFns;

verus! {

pub open spec fn is_ascii_upper(c: char) -> bool {
    'A' <= c && c <= 'Z'
}

pub open spec fn is_ascii_lower(c: char) -> bool {
    'a' <= c && c <= 'z'
}

pub open spec fn is_ascii_digit(c: char) -> bool {
    '0' <= c && c <= '9'
}

pub open spec fn is_ascii_alpha(c: char) -> bool {
    is_ascii_upper(c) || is_ascii_lower(c)
}

pub open spec fn is_ascii_alnum(c: char) -> bool {
    is_ascii_alpha(c) || is_ascii_digit(c)
}

/// ASCII lower-casing of one character; every other character is kept.
pub open spec fn lower_char(c: char) -> char {
    if is_ascii_upper(c) {
        ((c as u32) + 32) as char
    } else {
        c
    }
}

pub open spec fn lower_seq(s: Seq<char>) -> Seq<char> {
    s.map_values(|c: char| lower_char(c))
}

/// The Unicode `White_Space` property, which `char::is_whitespace` reports.
pub open spec fn is_ws(c: char) -> bool {
    ||| '\u{9}' <= c && c <= '\u{d}'
    ||| c == ' '
    ||| c == '\u{85}'
    ||| c == '\u{a0}'
    ||| c == '\u{1680}'
    ||| '\u{2000}' <= c && c <= '\u{200a}'
    ||| c == '\u{2028}'
    ||| c == '\u{2029}'
    ||| c == '\u{202f}'
    ||| c == '\u{205f}'
    ||| c == '\u{3000}'
}

pub open spec fn all_ws(s: Seq<char>) -> bool {
    forall|i: int| 0 <= i < s.len() ==> is_ws(#[trigger] s[i])
}

/// Removes leading white space.
pub open spec fn trim_start(s: Seq<char>) -> Seq<char>
    decreases s.len(),
{
    if s.len() > 0 && is_ws(s[0]) {
        trim_start(s.drop_first())
    } else {
        s
    }
}

/// Removes trailing white space.
pub open spec fn trim_end(s: Seq<char>) -> Seq<char>
    decreases s.len(),
{
    if s.len() > 0 && is_ws(s.last()) {
        trim_end(s.drop_last())
    } else {
        s
    }
}

/// What `str::trim` leaves of a text.
pub open spec fn trim(s: Seq<char>) -> Seq<char> {
    trim_end(trim_start(s))
}

/// Length of the run of non-white-space characters at the start of `s`.
pub open spec fn word_len(s: Seq<char>) -> nat
    decreases s.len(),
{
    if s.len() == 0 || is_ws(s[0]) {
        0
    } else {
        1 + word_len(s.drop_first())
    }
}

/// The words of a text, as `str::split_whitespace` yields them.
pub open spec fn split_ws(s: Seq<char>) -> Seq<Seq<char>>
    decreases s.len(),
{
    if s.len() == 0 {
        Seq::empty()
    } else if is_ws(s[0]) {
        split_ws(s.drop_first())
    } else {
        proof {
            lemma_word_len_bounds(s);
        }
        seq![s.take(word_len(s) as int)] + split_ws(s.skip(word_len(s) as int))
    }
}

pub proof fn lemma_word_len_bounds(s: Seq<char>)
    ensures
        word_len(s) <= s.len(),
        s.len() > 0 && !is_ws(s[0]) ==> word_len(s) >= 1,
        forall|i: int| 0 <= i < word_len(s) ==> !is_ws(#[trigger] s[i]),
        word_len(s) < s.len() ==> is_ws(s[word_len(s) as int]),
    decreases s.len(),
{
    if s.len() > 0 && !is_ws(s[0]) {
        lemma_word_len_bounds(s.drop_first());
        assert forall|i: int| 0 <= i < word_len(s) implies !is_ws(#[trigger] s[i]) by {
            if i > 0 {
                assert(s[i] == s.drop_first()[i - 1]);
            }
        }
        if word_len(s) < s.len() {
            assert(s[word_len(s) as int] == s.drop_first()[word_len(s.drop_first()) as int]);
        }
    }
}

/// `s` with every occurrence of the empty pattern replaced: `rep` before,
/// between and after all characters.
pub open spec fn replace_empty(s: Seq<char>, rep: Seq<char>) -> Seq<char>
    decreases s.len(),
{
    if s.len() == 0 {
        rep
    } else {
        rep + seq![s[0]] + replace_empty(s.drop_first(), rep)
    }
}

/// `s` with the leftmost non-overlapping occurrences of `pat` replaced by `rep`,
/// as `str::replace` does.
pub open spec fn replace_all(s: Seq<char>, pat: Seq<char>, rep: Seq<char>) -> Seq<char>
    decreases s.len(),
{
    if pat.len() == 0 {
        replace_empty(s, rep)
    } else if s.len() == 0 {
        s
    } else if pat.len() <= s.len() && s.take(pat.len() as int) == pat {
        rep + replace_all(s.skip(pat.len() as int), pat, rep)
    } else {
        seq![s[0]] + replace_all(s.drop_first(), pat, rep)
    }
}

pub open spec fn all_digits(s: Seq<char>) -> bool {
    forall|i: int| 0 <= i < s.len() ==> is_ascii_digit(#[trigger] s[i])
}

pub open spec fn digit_value(c: char) -> nat {
    ((c as u32) - ('0' as u32)) as nat
}

/// Decimal value of a string of digits.
pub open spec fn digits_value(s: Seq<char>) -> nat
    decreases s.len(),
{
    if s.len() == 0 {
        0
    } else {
        digits_value(s.drop_last()) * 10 + digit_value(s.last())
    }
}

/// `usize::from_str`: an optional `+`, then at least one ASCII digit, with a
/// value that fits.
pub open spec fn parse_usize_spec(s: Seq<char>) -> Option<usize> {
    let body = if s.len() > 0 && s[0] == '+' {
        s.drop_first()
    } else {
        s
    };
    if body.len() > 0 && all_digits(body) && digits_value(body) <= usize::MAX {
        Some(digits_value(body) as usize)
    } else {
        None
    }
}

pub fn chars_of(s: &str) -> (r: Vec<char>)
    ensures
        r@ == s@,
{
    broadcast use vstd::string::group_string_axioms;

    let mut out: Vec<char> = Vec::new();
    for c in it: s.chars()
        invariant
            out@ == it.seq().take(it.index()),
            it.seq() == s@,
    {
        out.push(c);
    }
    out
}

/// `String::push`.
#[verifier::external_body]
fn push_char(s: &mut String, c: char)
    ensures
        final(s)@ == old(s)@.push(c),
{
    s.push(c);
}

pub fn string_of(v: &Vec<char>) -> (r: String)
    ensures
        r@ == v@,
{
    let mut out = String::new();
    let mut i: usize = 0;
    while i < v.len()
        invariant
            i <= v.len(),
            out@ == v@.take(i as int),
        decreases v.len() - i,
    {
        push_char(&mut out, v[i]);
        i = i + 1;
        assert(v@.take(i as int) == v@.take((i - 1) as int).push(v@[i - 1]));
    }
    assert(v@.take(v.len() as int) == v@);
    out
}

pub fn lower_char_exec(c: char) -> (r: char)
    ensures
        r == lower_char(c),
{
    if 'A' <= c && c <= 'Z' {
        let b: u8 = c as u8;
        (b + 32) as char
    } else {
        c
    }
}

pub fn to_lower(s: &Vec<char>) -> (r: Vec<char>)
    ensures
        r@ == lower_seq(s@),
{
    let mut out: Vec<char> = Vec::new();
    let mut i: usize = 0;
    while i < s.len()
        invariant
            i <= s.len(),
            out@ == lower_seq(s@.take(i as int)),
        decreases s.len() - i,
    {
        let c = lower_char_exec(s[i]);
        out.push(c);
        i = i + 1;
        assert(lower_seq(s@.take(i as int)) =~= lower_seq(s@.take((i - 1) as int)).push(c));
    }
    assert(s@.take(s.len() as int) == s@);
    out
}

pub fn seq_eq(a: &Vec<char>, b: &Vec<char>) -> (r: bool)
    ensures
        r == (a@ == b@),
{
    if a.len() != b.len() {
        return false;
    }
    let mut i: usize = 0;
    while i < a.len()
        invariant
            i <= a.len(),
            a.len() == b.len(),
            forall|k: int| 0 <= k < i ==> a@[k] == b@[k],
        decreases a.len() - i,
    {
        if a[i] != b[i] {
            return false;
        }
        i = i + 1;
    }
    assert(a@ =~= b@);
    true
}

/// Equality up to ASCII case, as `str::eq_ignore_ascii_case` decides it.
pub fn eq_ignore_case(a: &Vec<char>, b: &Vec<char>) -> (r: bool)
    ensures
        r == (lower_seq(a@) == lower_seq(b@)),
{
    let la = to_lower(a);
    let lb = to_lower(b);
    seq_eq(&la, &lb)
}

pub fn is_ws_exec(c: char) -> (r: bool)
    ensures
        r == is_ws(c),
{
    ('\u{9}' <= c && c <= '\u{d}') || c == ' ' || c == '\u{85}' || c == '\u{a0}' || c
        == '\u{1680}' || ('\u{2000}' <= c && c <= '\u{200a}') || c == '\u{2028}' || c
        == '\u{2029}' || c == '\u{202f}' || c == '\u{205f}' || c == '\u{3000}'
}

proof fn lemma_trim_start_all_ws(s: Seq<char>)
    ensures
        (trim_start(s).len() == 0) == all_ws(s),
        trim_start(s).len() > 0 ==> !is_ws(trim_start(s)[0]),
    decreases s.len(),
{
    if s.len() > 0 && is_ws(s[0]) {
        lemma_trim_start_all_ws(s.drop_first());
        if all_ws(s.drop_first()) {
            assert forall|i: int| 0 <= i < s.len() implies is_ws(#[trigger] s[i]) by {
                if i > 0 {
                    assert(s[i] == s.drop_first()[i - 1]);
                }
            }
        }
        if all_ws(s) {
            assert forall|i: int| 0 <= i < s.drop_first().len() implies is_ws(
                #[trigger] s.drop_first()[i],
            ) by {
                assert(s.drop_first()[i] == s[i + 1]);
            }
        }
    } else if s.len() > 0 {
        assert(!is_ws(s[0]));
    }
}

pub proof fn lemma_trim_empty_iff_all_ws(s: Seq<char>)
    ensures
        (trim(s).len() == 0) == all_ws(s),
{
    lemma_trim_start_all_ws(s);
    lemma_trim_end_empty(trim_start(s));
}

proof fn lemma_trim_end_empty(s: Seq<char>)
    ensures
        (trim_end(s).len() == 0) == (s.len() == 0 || all_ws(s)),
    decreases s.len(),
{
    if s.len() > 0 && is_ws(s.last()) {
        lemma_trim_end_empty(s.drop_last());
        if all_ws(s.drop_last()) {
            assert forall|i: int| 0 <= i < s.len() implies is_ws(#[trigger] s[i]) by {
                if i < s.len() - 1 {
                    assert(s[i] == s.drop_last()[i]);
                }
            }
        }
        if all_ws(s) {
            assert forall|i: int| 0 <= i < s.drop_last().len() implies is_ws(
                #[trigger] s.drop_last()[i],
            ) by {
                assert(s.drop_last()[i] == s[i]);
            }
        }
    } else if s.len() > 0 {
        assert(!is_ws(s[s.len() - 1]));
    }
}

/// Whether a text is empty once trimmed, that is, holds white space only.
pub fn is_blank(s: &Vec<char>) -> (r: bool)
    ensures
        r == (trim(s@).len() == 0),
{
    proof {
        lemma_trim_empty_iff_all_ws(s@);
    }
    let mut i: usize = 0;
    while i < s.len()
        invariant
            i <= s.len(),
            forall|k: int| 0 <= k < i ==> is_ws(#[trigger] s@[k]),
        decreases s.len() - i,
    {
        if !is_ws_exec(s[i]) {
            assert(!is_ws(s@[i as int]));
            proof {
                lemma_trim_empty_iff_all_ws(s@);
            }
            return false;
        }
        i = i + 1;
    }
    true
}

proof fn lemma_word_len_exact(t: Seq<char>, n: int)
    requires
        0 <= n <= t.len(),
        forall|k: int| 0 <= k < n ==> !is_ws(#[trigger] t[k]),
        n == t.len() || is_ws(t[n]),
    ensures
        word_len(t) == n,
    decreases n,
{
    if n > 0 {
        let u = t.drop_first();
        assert forall|k: int| 0 <= k < n - 1 implies !is_ws(#[trigger] u[k]) by {
            assert(u[k] == t[k + 1]);
        }
        if n < t.len() {
            assert(u[n - 1] == t[n]);
        }
        assert(!is_ws(t[0]));
        lemma_word_len_exact(u, n - 1);
    }
}

/// The words of a text, split at white space, as slices of it.
pub fn split_whitespace<'a>(text: &'a str) -> (r: Vec<&'a str>)
    ensures
        r@.map_values(|w: &str| w@) == split_ws(text@),
{
    let s = chars_of(text);
    let mut out: Vec<&'a str> = Vec::new();
    let mut i: usize = 0;
    assert(s@.skip(0) =~= s@);
    while i < s.len()
        invariant
            i <= s.len(),
            s@ == text@,
            out@.map_values(|w: &str| w@) + split_ws(s@.skip(i as int)) == split_ws(s@),
        decreases s.len() - i,
    {
        let ghost t = s@.skip(i as int);
        if is_ws_exec(s[i]) {
            assert(t[0] == s@[i as int]);
            assert(t.drop_first() =~= s@.skip(i + 1));
            i = i + 1;
        } else {
            let mut j: usize = i;
            while j < s.len() && !is_ws_exec(s[j])
                invariant
                    i <= j <= s.len(),
                    forall|k: int| i <= k < j ==> !is_ws(#[trigger] s@[k]),
                decreases s.len() - j,
            {
                j = j + 1;
            }
            let word = text.substring_char(i, j);
            proof {
                let n = j - i;
                assert forall|k: int| 0 <= k < n implies !is_ws(#[trigger] t[k]) by {
                    assert(t[k] == s@[i + k]);
                }
                if n < t.len() {
                    assert(t[n as int] == s@[j as int]);
                }
                lemma_word_len_exact(t, n as int);
                assert(t[0] == s@[i as int]);
                assert(t.take(n as int) =~= word@);
                assert(t.skip(n as int) =~= s@.skip(j as int));
            }
            let ghost before = out@.map_values(|w: &str| w@);
            out.push(word);
            assert(out@.map_values(|w: &str| w@) =~= before.push(word@));
            assert(before.push(word@) + split_ws(s@.skip(j as int)) =~= before + (seq![word@]
                + split_ws(s@.skip(j as int))));
            i = j;
        }
    }
    assert(s@.skip(i as int) =~= Seq::<char>::empty());
    assert(out@.map_values(|w: &str| w@) + Seq::<Seq<char>>::empty() =~= out@.map_values(
        |w: &str| w@,
    ));
    out
}

fn append_chars(out: &mut Vec<char>, more: &Vec<char>)
    ensures
        final(out)@ == old(out)@ + more@,
{
    let mut i: usize = 0;
    while i < more.len()
        invariant
            i <= more.len(),
            out@ == old(out)@ + more@.take(i as int),
        decreases more.len() - i,
    {
        out.push(more[i]);
        i = i + 1;
        assert(old(out)@ + more@.take(i as int) =~= old(out)@ + more@.take((i - 1) as int) + seq![
            more@[i - 1],
        ]);
    }
    assert(more@.take(more.len() as int) =~= more@);
}

/// Whether `pat` occurs in `s` at position `i`.
fn matches_at(s: &Vec<char>, i: usize, pat: &Vec<char>) -> (r: bool)
    requires
        i <= s.len(),
    ensures
        r == (pat.len() <= s.len() - i && s@.skip(i as int).take(pat.len() as int) == pat@),
{
    if pat.len() > s.len() - i {
        return false;
    }
    let mut k: usize = 0;
    while k < pat.len()
        invariant
            pat.len() <= s.len() - i,
            k <= pat.len(),
            forall|m: int| 0 <= m < k ==> s@[i + m] == pat@[m],
        decreases pat.len() - k,
    {
        if s[i + k] != pat[k] {
            assert(s@.skip(i as int).take(pat.len() as int)[k as int] != pat@[k as int]);
            return false;
        }
        k = k + 1;
    }
    assert(s@.skip(i as int).take(pat.len() as int) =~= pat@);
    true
}

/// `s` with the occurrences of `pat` replaced by `rep`.
pub fn replace(s: &Vec<char>, pat: &Vec<char>, rep: &Vec<char>) -> (r: Vec<char>)
    ensures
        r@ == replace_all(s@, pat@, rep@),
{
    let mut out: Vec<char> = Vec::new();
    let mut i: usize = 0;
    assert(s@.skip(0) =~= s@);
    if pat.len() == 0 {
        while i < s.len()
            invariant
                i <= s.len(),
                pat@.len() == 0,
                out@ + replace_empty(s@.skip(i as int), rep@) == replace_all(s@, pat@, rep@),
            decreases s.len() - i,
        {
            let ghost t = s@.skip(i as int);
            let ghost prev = out@;
            append_chars(&mut out, rep);
            out.push(s[i]);
            assert(t[0] == s@[i as int]);
            assert(t.drop_first() =~= s@.skip(i + 1));
            assert(out@ + replace_empty(s@.skip(i + 1), rep@) =~= prev + (rep@ + seq![t[0]]
                + replace_empty(t.drop_first(), rep@)));
            i = i + 1;
        }
        assert(s@.skip(i as int) =~= Seq::<char>::empty());
        append_chars(&mut out, rep);
        return out;
    }
    while i < s.len()
        invariant
            i <= s.len(),
            pat@.len() > 0,
            out@ + replace_all(s@.skip(i as int), pat@, rep@) == replace_all(s@, pat@, rep@),
        decreases s.len() - i,
    {
        let ghost t = s@.skip(i as int);
        let ghost prev = out@;
        if matches_at(s, i, pat) {
            append_chars(&mut out, rep);
            assert(t.skip(pat.len() as int) =~= s@.skip((i + pat.len()) as int));
            assert(out@ + replace_all(s@.skip((i + pat.len()) as int), pat@, rep@) =~= prev + (
            rep@ + replace_all(t.skip(pat.len() as int), pat@, rep@)));
            i = i + pat.len();
        } else {
            out.push(s[i]);
            assert(t[0] == s@[i as int]);
            assert(t.drop_first() =~= s@.skip(i + 1));
            assert(out@ + replace_all(s@.skip(i + 1), pat@, rep@) =~= prev + (seq![t[0]]
                + replace_all(t.drop_first(), pat@, rep@)));
            i = i + 1;
        }
    }
    assert(s@.skip(i as int) =~= Seq::<char>::empty());
    assert(out@ + Seq::<char>::empty() =~= out@);
    out
}

proof fn lemma_digits_prefix_le(t: Seq<char>, k: int)
    requires
        0 <= k <= t.len(),
    ensures
        digits_value(t.take(k)) <= digits_value(t),
    decreases t.len(),
{
    if k < t.len() {
        assert(t.take(k) =~= t.drop_last().take(k));
        lemma_digits_prefix_le(t.drop_last(), k);
    } else {
        assert(t.take(k) =~= t);
    }
}

/// Parses an unsigned decimal number as `str::parse::<usize>` does.
pub fn parse_usize(s: &Vec<char>) -> (r: Option<usize>)
    ensures
        r == parse_usize_spec(s@),
{
    let start: usize = if s.len() > 0 && s[0] == '+' {
        1
    } else {
        0
    };
    let ghost body = if s@.len() > 0 && s@[0] == '+' {
        s@.drop_first()
    } else {
        s@
    };
    assert(body =~= s@.skip(start as int));
    if start >= s.len() {
        return None;
    }
    let mut value: usize = 0;
    let mut i: usize = start;
    assert(s@.subrange(start as int, start as int) =~= Seq::<char>::empty());
    while i < s.len()
        invariant
            start <= i <= s.len(),
            body == s@.skip(start as int),
            body == (if s@.len() > 0 && s@[0] == '+' {
                s@.drop_first()
            } else {
                s@
            }),
            all_digits(s@.subrange(start as int, i as int)),
            value == digits_value(s@.subrange(start as int, i as int)),
        decreases s.len() - i,
    {
        let c = s[i];
        if !('0' <= c && c <= '9') {
            assert(body[i - start] == c);
            return None;
        }
        let d: usize = ((c as u32) - ('0' as u32)) as usize;
        let ghost next = s@.subrange(start as int, i + 1);
        assert(next.drop_last() =~= s@.subrange(start as int, i as int));
        assert(next.last() == c);
        if value > (usize::MAX - d) / 10 {
            assert(value * 10 + d > usize::MAX) by (nonlinear_arith)
                requires
                    value > (usize::MAX - d) / 10,
                    d <= 9,
            ;
            proof {
                assert(digit_value(c) == d);
                assert(digits_value(next) == value * 10 + d);
                if all_digits(body) {
                    assert(body.take(i + 1 - start) =~= next);
                    lemma_digits_prefix_le(body, i + 1 - start);
                }
            }
            return None;
        }
        assert(value * 10 + d <= usize::MAX) by (nonlinear_arith)
            requires
                value <= (usize::MAX - d) / 10,
                d <= 9,
        ;
        value = value * 10 + d;
        i = i + 1;
        assert(all_digits(next)) by {
            assert forall|m: int| 0 <= m < next.len() implies is_ascii_digit(#[trigger] next[m]) by {
                if m < next.len() - 1 {
                    assert(next[m] == s@.subrange(start as int, (i - 1) as int)[m]);
                }
            }
        }
    }
    assert(s@.subrange(start as int, i as int) =~= body);
    Some(value)
}

proof fn lemma_trim_start_skip(s: Seq<char>, k: int)
    requires
        0 <= k <= s.len(),
        forall|m: int| 0 <= m < k ==> is_ws(#[trigger] s[m]),
    ensures
        trim_start(s) == trim_start(s.skip(k)),
    decreases k,
{
    if k > 0 {
        assert(is_ws(s[0]));
        lemma_trim_start_skip(s.drop_first(), k - 1);
        assert(s.drop_first().skip(k - 1) =~= s.skip(k));
    } else {
        assert(s.skip(0) =~= s);
    }
}

proof fn lemma_trim_end_take(s: Seq<char>, k: int)
    requires
        0 <= k <= s.len(),
        forall|m: int| k <= m < s.len() ==> is_ws(#[trigger] s[m]),
    ensures
        trim_end(s) == trim_end(s.take(k)),
    decreases s.len() - k,
{
    if k < s.len() {
        assert(is_ws(s.last()));
        assert(s.drop_last().take(k) =~= s.take(k));
        lemma_trim_end_take(s.drop_last(), k);
    } else {
        assert(s.take(k) =~= s);
    }
}

/// What `str::trim` leaves of a text.
pub fn trim_chars(s: &Vec<char>) -> (r: Vec<char>)
    ensures
        r@ == trim(s@),
{
    let n = s.len();
    let mut i: usize = 0;
    while i < n && is_ws_exec(s[i])
        invariant
            n == s@.len(),
            i <= n,
            forall|m: int| 0 <= m < i ==> is_ws(#[trigger] s@[m]),
        decreases n - i,
    {
        i = i + 1;
    }
    let mut j: usize = n;
    while j > i && is_ws_exec(s[j - 1])
        invariant
            n == s@.len(),
            i <= j <= n,
            forall|m: int| j <= m < n ==> is_ws(#[trigger] s@[m]),
        decreases j,
    {
        j = j - 1;
    }
    let mut out: Vec<char> = Vec::new();
    let mut k: usize = i;
    while k < j
        invariant
            i <= k <= j <= n,
            n == s@.len(),
            out@ == s@.subrange(i as int, k as int),
        decreases j - k,
    {
        out.push(s[k]);
        k = k + 1;
    }
    proof {
        let t = s@.skip(i as int);
        lemma_trim_start_skip(s@, i as int);
        assert(trim_start(t) == t) by {
            if t.len() > 0 {
                assert(t[0] == s@[i as int]);
            }
        }
        assert forall|m: int| j - i <= m < t.len() implies is_ws(#[trigger] t[m]) by {
            assert(t[m] == s@[m + i]);
        }
        lemma_trim_end_take(t, j - i);
        let u = t.take(j - i);
        assert(u =~= s@.subrange(i as int, j as int));
        assert(trim_end(u) == u) by {
            if u.len() > 0 {
                assert(u.last() == s@[j - 1]);
            }
        }
    }
    out
}

/// A text that neither starts nor ends with white space is its own trim.
pub proof fn lemma_trim_unchanged(s: Seq<char>)
    requires
        s.len() > 0 ==> !is_ws(s[0]) && !is_ws(s.last()),
    ensures
        trim(s) == s,
{
}

/// A text without ASCII capitals is its own lower-case form.
pub proof fn lemma_lower_unchanged(s: Seq<char>)
    requires
        forall|i: int| 0 <= i < s.len() ==> !is_ascii_upper(#[trigger] s[i]),
    ensures
        lower_seq(s) == s,
{
    assert(lower_seq(s) =~= s);
}

/// Appends the characters of `more`.
pub fn append_str(out: &mut Vec<char>, more: &str)
    ensures
        final(out)@ == old(out)@ + more@,
{
    let cs = chars_of(more);
    let mut i: usize = 0;
    while i < cs.len()
        invariant
            i <= cs@.len(),
            cs@ == more@,
            out@ == old(out)@ + cs@.take(i as int),
        decreases cs@.len() - i,
    {
        out.push(cs[i]);
        i = i + 1;
        assert(cs@.take(i as int) == cs@.take(i - 1).push(cs@[i - 1]));
    }
    assert(cs@.take(cs@.len() as int) == cs@);
}

/// The character of a decimal digit.
pub open spec fn digit_char(d: nat) -> char {
    ((48 + d) as u8) as char
}

/// The decimal digits of `n`, without leading zeros.
pub open spec fn decimal_spec(n: nat) -> Seq<char>
    decreases n,
{
    if n < 10 {
        seq![digit_char(n)]
    } else {
        decimal_spec(n / 10).push(digit_char(n % 10))
    }
}

/// The decimal digits of `n`.
pub fn decimal_text(n: usize) -> (r: Vec<char>)
    ensures
        r@ == decimal_spec(n as nat),
    decreases n,
{
    let d: u8 = (n % 10) as u8;
    let c: char = (48u8 + d) as char;
    if n < 10 {
        let mut v: Vec<char> = Vec::new();
        v.push(c);
        assert(v@ =~= seq![digit_char(n as nat)]);
        v
    } else {
        let mut v = decimal_text(n / 10);
        v.push(c);
        v
    }
}

/// The decimal digits of a number read back as that number.
pub proof fn lemma_decimal_round_trip(n: nat)
    ensures
        decimal_spec(n).len() > 0,
        all_digits(decimal_spec(n)),
        digits_value(decimal_spec(n)) == n,
        decimal_spec(n)[0] != '+',
    decreases n,
{
    let d = (n % 10) as nat;
    assert(digit_value(digit_char(d)) == d && is_ascii_digit(digit_char(d)));
    if n < 10 {
        assert(decimal_spec(n) =~= seq![digit_char(n)]);
        assert(decimal_spec(n).drop_last() =~= Seq::<char>::empty());
        assert(decimal_spec(n).last() == digit_char(d));
        assert(digits_value(decimal_spec(n)) == digits_value(Seq::<char>::empty()) * 10 + d);
    } else {
        lemma_decimal_round_trip(n / 10);
        let s = decimal_spec(n / 10);
        assert(decimal_spec(n).drop_last() =~= s);
        assert(decimal_spec(n).last() == digit_char(d));
        vstd::arithmetic::div_mod::lemma_fundamental_div_mod(n as int, 10);
        assert(digits_value(decimal_spec(n)) == digits_value(s) * 10 + d);
        assert(decimal_spec(n)[0] == s[0]);
        assert forall|i: int| 0 <= i < decimal_spec(n).len() implies is_ascii_digit(
            #[trigger] decimal_spec(n)[i],
        ) by {
            if i < s.len() {
                assert(decimal_spec(n)[i] == s[i]);
            }
        }
    }
}

} // verus!
