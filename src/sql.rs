//! The value list of an `INSERT ... VALUES (...)` statement.
use vstd::prelude::*;
use crate::branch::is_space;
use crate::error::BranchDBError;

verus! {

/// Where the value scanner stands.
pub struct ScanState {
    pub in_quotes: bool,
    pub skipping: bool,
    pub stopped: bool,
    pub current: Seq<char>,
    pub values: Seq<Seq<char>>,
}

pub open spec fn trim_start(s: Seq<char>) -> Seq<char>
    decreases s.len(),
{
    if s.len() > 0 && is_space(s[0]) { trim_start(s.drop_first()) } else { s }
}

pub open spec fn trim_end(s: Seq<char>) -> Seq<char>
    decreases s.len(),
{
    if s.len() > 0 && is_space(s.last()) { trim_end(s.drop_last()) } else { s }
}

/// `s` without surrounding whitespace.
pub open spec fn trim(s: Seq<char>) -> Seq<char> {
    trim_end(trim_start(s))
}

/// One character of the scan: a quote opens or closes a value (closing
/// keeps the trimmed text gathered so far); outside quotes a comma skips the
/// whitespace and commas after it and `)` ends the list; any other
/// character is gathered.
pub open spec fn scan_step(st: ScanState, c: char) -> ScanState {
    if st.stopped {
        st
    } else if st.skipping && (is_space(c) || c == ',') {
        st
    } else if c == '\'' {
        if st.in_quotes {
            ScanState { in_quotes: false, skipping: false, stopped: false, current: Seq::empty(), values: st.values.push(trim(st.current)) }
        } else {
            ScanState { in_quotes: true, skipping: false, ..st }
        }
    } else if c == ',' && !st.in_quotes {
        ScanState { skipping: true, ..st }
    } else if c == ')' && !st.in_quotes {
        ScanState { stopped: true, skipping: false, ..st }
    } else {
        ScanState { skipping: false, current: st.current.push(c), ..st }
    }
}

/// The scan after the first `n` characters of `s`.
pub open spec fn scan(s: Seq<char>, n: nat) -> ScanState
    decreases n,
{
    if n == 0 {
        ScanState { in_quotes: false, skipping: false, stopped: false, current: Seq::empty(), values: Seq::empty() }
    } else {
        scan_step(scan(s, (n - 1) as nat), s[n - 1])
    }
}

/// The quoted values of a `VALUES` list, trimmed, after an optional
/// opening parenthesis.
pub open spec fn sql_values(s: Seq<char>) -> Seq<Seq<char>> {
    let body = if s.len() > 0 && s[0] == '(' { s.drop_first() } else { s };
    scan(body, body.len()).values
}

/// Relies on collecting `char`s into a `String` (`FromIterator<char>`): the
/// text holds exactly those characters.
#[verifier::external_body]
pub(crate) fn text_of(chars: &[char]) -> (r: String)
    ensures
        r@ == chars@,
{
    chars.iter().collect()
}

pub(crate) fn char_is_space(c: char) -> (r: bool)
    ensures
        r == is_space(c),
{
    ('\u{9}' <= c && c <= '\u{d}') || c == ' ' || c == '\u{85}' || c == '\u{a0}' || c == '\u{1680}'
        || ('\u{2000}' <= c && c <= '\u{200a}') || c == '\u{2028}' || c == '\u{2029}' || c == '\u{202f}'
        || c == '\u{205f}' || c == '\u{3000}'
}

proof fn lemma_trim_start_skip(s: Seq<char>, i: int)
    requires
        0 <= i <= s.len(),
        forall|j: int| 0 <= j < i ==> is_space(#[trigger] s[j]),
    ensures
        trim_start(s) == trim_start(s.skip(i)),
    decreases i,
{
    if i > 0 {
        assert(s.skip(1) =~= s.drop_first());
        lemma_trim_start_skip(s.drop_first(), i - 1);
        assert(s.drop_first().skip(i - 1) =~= s.skip(i));
    } else {
        assert(s.skip(0) =~= s);
    }
}

proof fn lemma_trim_end_take(s: Seq<char>, e: int)
    requires
        0 <= e <= s.len(),
        forall|j: int| e <= j < s.len() ==> is_space(#[trigger] s[j]),
    ensures
        trim_end(s) == trim_end(s.take(e)),
    decreases s.len() - e,
{
    if e < s.len() {
        assert(s.drop_last().take(e) =~= s.take(e));
        lemma_trim_end_take(s.drop_last(), e);
    } else {
        assert(s.take(e) =~= s);
    }
}

/// `s` without surrounding whitespace.
fn trimmed(s: &Vec<char>) -> (r: String)
    ensures
        r@ == trim(s@),
{
    let t = trim_chars(s);
    text_of(t.as_slice())
}

/// The characters of `s` without surrounding whitespace.
pub(crate) fn trim_chars(s: &Vec<char>) -> (r: Vec<char>)
    ensures
        r@ == trim(s@),
{
    let n = s.len();
    let mut a: usize = 0;
    while a < n && char_is_space(s[a])
        invariant
            n == s@.len(),
            a <= n,
            forall|j: int| 0 <= j < a ==> is_space(#[trigger] s@[j]),
        decreases n - a,
    {
        a = a + 1;
    }
    proof { lemma_trim_start_skip(s@, a as int); }
    let ghost rest = s@.skip(a as int);
    assert(a == n || !is_space(rest[0]));
    assert(trim_start(s@) == rest);
    let mut b: usize = n;
    while b > a && char_is_space(s[b - 1])
        invariant
            n == s@.len(),
            a <= b <= n,
            rest == s@.skip(a as int),
            forall|j: int| b <= j < n ==> is_space(#[trigger] s@[j]),
        decreases b,
    {
        b = b - 1;
    }
    proof {
        assert forall|j: int| b - a <= j < rest.len() implies is_space(#[trigger] rest[j]) by {
            assert(rest[j] == s@[a + j]);
        }
        lemma_trim_end_take(rest, b - a);
        let kept = rest.take(b - a);
        if kept.len() > 0 {
            assert(kept.last() == s@[b - 1]);
        }
        assert(trim_end(kept) == kept);
    }
    let mut out: Vec<char> = Vec::new();
    let mut i: usize = a;
    while i < b
        invariant
            n == s@.len(),
            a <= i <= b <= n,
            out@ == s@.subrange(a as int, i as int),
        decreases b - i,
    {
        out.push(s[i]);
        assert(out@ =~= s@.subrange(a as int, i + 1));
        i = i + 1;
    }
    assert(out@ =~= s@.skip(a as int).take(b - a));
    out
}

/// Splits the text after `VALUES` into its quoted values.
pub fn parse_sql_values(values_part: &str) -> (r: Result<Vec<String>, BranchDBError>)
    ensures
        r matches Ok(v) && v@.map_values(|x: String| x@) == sql_values(values_part@),
{
    let n = values_part.unicode_len();
    let ghost s = values_part@;
    let start: usize = if n > 0 && values_part.get_char(0) == '(' { 1 } else { 0 };
    let ghost body = if s.len() > 0 && s[0] == '(' { s.drop_first() } else { s };
    assert(body =~= s.skip(start as int));
    let mut in_quotes = false;
    let mut skipping = false;
    let mut stopped = false;
    let mut current: Vec<char> = Vec::new();
    let mut values: Vec<String> = Vec::new();
    let mut i: usize = start;
    assert(values@.map_values(|x: String| x@) =~= Seq::<Seq<char>>::empty());
    while i < n
        invariant
            n == s.len(),
            s == values_part@,
            start <= i <= n,
            body == s.skip(start as int),
            scan(body, (i - start) as nat) == (ScanState {
                in_quotes,
                skipping,
                stopped,
                current: current@,
                values: values@.map_values(|x: String| x@),
            }),
        decreases n - i,
    {
        let c = values_part.get_char(i);
        assert(body[i - start] == c);
        let ghost vv = values@.map_values(|x: String| x@);
        if stopped {
        } else if skipping && (char_is_space(c) || c == ',') {
        } else if c == '\'' {
            if in_quotes {
                let t = trimmed(&current);
                values.push(t);
                assert(values@.map_values(|x: String| x@) =~= vv.push(trim(current@)));
                current = Vec::new();
                in_quotes = false;
            } else {
                in_quotes = true;
            }
            skipping = false;
        } else if c == ',' && !in_quotes {
            skipping = true;
        } else if c == ')' && !in_quotes {
            stopped = true;
            skipping = false;
        } else {
            current.push(c);
            skipping = false;
        }
        i = i + 1;
    }
    Ok(values)
}

} // verus!
