//! The text form of a multi-objective quality,
//! `Objectives: [o1, o2, ...], Rank: r, Dist: d` (with `N/A` for a missing
//! rank or distance), split into its parts. The objective values and the
//! distance are `f64` texts; reading them as numbers is left to the caller.
use vstd::prelude::*;
use crate::text::{push_str, string_from_chars};

verus! {

/// First position at or after `from` where `pat` occurs in `s`.
pub open spec fn index_of_text(s: Seq<char>, pat: Seq<char>, from: int) -> Option<int>
    decreases s.len() - from,
{
    if from < 0 || from + pat.len() > s.len() {
        None
    } else if s.subrange(from, from + pat.len()) == pat {
        Some(from)
    } else if from >= s.len() {
        None
    } else {
        index_of_text(s, pat, from + 1)
    }
}

/// `pat` occurs in `s` at position `k`.
pub open spec fn occurs_at(s: Seq<char>, pat: Seq<char>, k: int) -> bool {
    0 <= k && k + pat.len() <= s.len() && s.subrange(k, k + pat.len()) == pat
}

/// Where [`index_of_text`] finds a pattern, it is there and not earlier;
/// where it finds none, there is none.
pub proof fn lemma_index_of_text(s: Seq<char>, pat: Seq<char>, from: int)
    requires
        0 <= from,
    ensures
        index_of_text(s, pat, from) matches Some(i) ==> from <= i && occurs_at(s, pat, i) && forall|k: int|
            from <= k < i ==> !#[trigger] occurs_at(s, pat, k),
        index_of_text(s, pat, from) is None ==> forall|k: int| from <= k ==> !#[trigger] occurs_at(s, pat, k),
    decreases s.len() - from,
{
    if !(from + pat.len() > s.len()) && s.subrange(from, from + pat.len()) != pat {
        if from < s.len() {
            lemma_index_of_text(s, pat, from + 1);
        } else {
            assert(pat =~= s.subrange(from, from + pat.len()));
        }
    }
}

/// White space as `str::trim` removes it (Unicode `White_Space`).
pub open spec fn is_white_space(c: char) -> bool {
    ||| '\t' <= c && c <= '\r'
    ||| c == ' '
    ||| c == '\u{85}'
    ||| c == '\u{a0}'
    ||| c == '\u{1680}'
    ||| '\u{2000}' <= c && c <= '\u{200a}'
    ||| c == '\u{2028}'
    ||| c == '\u{2029}'
    ||| c == '\u{202f}'
    ||| c == '\u{205f}'
    ||| c == '\u{3000}'
}

/// `s` without leading white space.
pub open spec fn trim_start(s: Seq<char>) -> Seq<char>
    decreases s.len(),
{
    if s.len() > 0 && is_white_space(s[0]) {
        trim_start(s.drop_first())
    } else {
        s
    }
}

/// `s` without trailing white space.
pub open spec fn trim_end(s: Seq<char>) -> Seq<char>
    decreases s.len(),
{
    if s.len() > 0 && is_white_space(s.last()) {
        trim_end(s.drop_last())
    } else {
        s
    }
}

/// `s` without leading and trailing white space.
pub open spec fn trimmed(s: Seq<char>) -> Seq<char> {
    trim_end(trim_start(s))
}

/// The pieces of `s` between the occurrences of `sep`, left to right, as
/// `str::split` gives them.
pub open spec fn split_on(s: Seq<char>, sep: Seq<char>) -> Seq<Seq<char>>
    decreases s.len(),
{
    if sep.len() == 0 {
        seq![s]
    } else {
        match index_of_text(s, sep, 0) {
            Some(i) => {
                proof {
                    lemma_index_of_text(s, sep, 0);
                }
                seq![s.take(i)] + split_on(s.skip(i + sep.len()), sep)
            },
            None => seq![s],
        }
    }
}

/// `c` is an ASCII digit.
pub open spec fn is_digit(c: char) -> bool {
    '0' <= c && c <= '9'
}

/// Value of a string of digits.
pub open spec fn digits_value(s: Seq<char>) -> nat
    decreases s.len(),
{
    if s.len() == 0 {
        0
    } else {
        digits_value(s.drop_last()) * 10 + ((s.last() as u32) - ('0' as u32)) as nat
    }
}

/// A `usize` read as `str::parse` reads it: an optional `+`, then at least
/// one digit, the value fitting in `usize`.
pub open spec fn parse_usize_text(s: Seq<char>) -> Option<usize> {
    parse_digits_text(if s.len() > 0 && s[0] == '+' { s.drop_first() } else { s })
}

/// The value of a non-empty string of digits that fits in `usize`.
pub open spec fn parse_digits_text(d: Seq<char>) -> Option<usize> {
    if d.len() > 0 && (forall|i: int| 0 <= i < d.len() ==> is_digit(#[trigger] d[i])) && digits_value(d)
        <= usize::MAX {
        Some(digits_value(d) as usize)
    } else {
        None
    }
}

/// The parts of a quality text, or the error that stops reading it.
///
/// The brackets come first: a missing `[` or `]` is an error. Otherwise
/// the objectives are the trimmed text between the first `[` and the first
/// `]`, split at `, ` (none when that text is empty). The rank is read
/// after the first `Rank: `, up to the next comma, trimmed: `N/A` or a
/// `usize`. The distance is the trimmed rest after the first `Dist: `:
/// `N/A` or a number's text. A missing tag or a bad rank is an error of
/// that part alone, so that a caller reading the objectives first reports
/// their errors first.
pub open spec fn quality_parts(s: Seq<char>) -> Result<
    (Seq<Seq<char>>, Result<Option<usize>, Seq<char>>, Result<Option<Seq<char>>, Seq<char>>),
    Seq<char>,
> {
    match (index_of_text(s, seq!['['], 0), index_of_text(s, seq![']'], 0)) {
        (None, _) => Err("Missing objectives opening bracket '['"@),
        (Some(_), None) => Err("Missing objectives closing bracket ']'"@),
        (Some(open), Some(close)) => {
            let body = trimmed(s.subrange(open + 1, close));
            let objectives = if body.len() == 0 { Seq::empty() } else { split_on(body, ", "@) };
            let rank = match index_of_text(s, "Rank: "@, 0) {
                None => Err("Missing 'Rank:' identifier"@),
                Some(i) => {
                    let rest = s.skip(i + 6);
                    let end = match index_of_text(rest, seq![','], 0) {
                        Some(j) => j,
                        None => rest.len() as int,
                    };
                    let t = trimmed(rest.take(end));
                    if t == "N/A"@ {
                        Ok(None)
                    } else {
                        match parse_usize_text(t) {
                            Some(v) => Ok(Some(v)),
                            None => Err("Invalid Rank format"@),
                        }
                    }
                },
            };
            let distance = match index_of_text(s, "Dist: "@, 0) {
                None => Err("Missing 'Dist:' identifier"@),
                Some(i) => {
                    let t = trimmed(s.skip(i + 6));
                    if t == "N/A"@ {
                        Ok(None)
                    } else {
                        Ok(Some(t))
                    }
                },
            };
            Ok((objectives, rank, distance))
        },
    }
}

/// A `]` before the first `[` makes the text unreadable (the slice between
/// them would run backwards).
pub open spec fn brackets_in_order(s: Seq<char>) -> bool {
    match (index_of_text(s, seq!['['], 0), index_of_text(s, seq![']'], 0)) {
        (Some(open), Some(close)) => open < close,
        _ => true,
    }
}


/// The pieces put back together with `sep` between consecutive ones.
pub open spec fn joined(pieces: Seq<Seq<char>>, sep: Seq<char>) -> Seq<char>
    decreases pieces.len(),
{
    if pieces.len() == 0 {
        Seq::empty()
    } else if pieces.len() == 1 {
        pieces[0]
    } else {
        pieces[0] + sep + joined(pieces.drop_first(), sep)
    }
}

/// `sep` occurs nowhere in `s`.
pub open spec fn free_of(s: Seq<char>, sep: Seq<char>) -> bool {
    forall|k: int| !#[trigger] occurs_at(s, sep, k)
}

/// Splitting at a non-empty separator cuts at every occurrence: the pieces
/// (at least one) joined with the separator give the text back, and no
/// piece holds the separator.
pub proof fn lemma_split_on_cuts_everywhere(s: Seq<char>, sep: Seq<char>)
    requires
        sep.len() > 0,
    ensures
        split_on(s, sep).len() >= 1,
        joined(split_on(s, sep), sep) == s,
        forall|j: int| 0 <= j < split_on(s, sep).len() ==> free_of(#[trigger] split_on(s, sep)[j], sep),
    decreases s.len(),
{
    lemma_index_of_text(s, sep, 0);
    match index_of_text(s, sep, 0) {
        Some(i) => {
            let rest_text = s.skip(i + sep.len());
            lemma_split_on_cuts_everywhere(rest_text, sep);
            let rest = split_on(rest_text, sep);
            let pieces = split_on(s, sep);
            assert(pieces == seq![s.take(i)] + rest);
            assert(pieces.drop_first() =~= rest);
            assert(pieces[0] == s.take(i));
            assert(s.subrange(i, i + sep.len()) == sep);
            assert(joined(pieces, sep) == s.take(i) + sep + rest_text);
            assert(s.take(i) + sep + rest_text =~= s);
            assert forall|j: int| 0 <= j < pieces.len() implies free_of(#[trigger] pieces[j], sep) by {
                if j == 0 {
                    assert forall|k: int| !#[trigger] occurs_at(s.take(i), sep, k) by {
                        if occurs_at(s.take(i), sep, k) {
                            assert(s.take(i).subrange(k, k + sep.len()) =~= s.subrange(k, k + sep.len()));
                            assert(occurs_at(s, sep, k));
                        }
                    }
                } else {
                    assert(pieces[j] == rest[j - 1]);
                }
            }
        },
        None => {
            assert(split_on(s, sep) == seq![s]);
        },
    }
}

/// The objectives of a quality's text are the pieces of the trimmed text
/// between the first `[` and the first `]`, cut at every `, `: none for an
/// empty body, otherwise pieces that joined with `, ` give the body back and
/// that hold no `, ` themselves.
pub proof fn lemma_quality_objectives_are_the_list_items(s: Seq<char>, open: int, close: int)
    requires
        0 <= open < close < s.len(),
        s[open] == '[',
        s[close] == ']',
        forall|k: int| 0 <= k < open ==> s[k] != '[',
        forall|k: int| 0 <= k < close ==> s[k] != ']',
    ensures
        quality_parts(s) is Ok,
        ({
            let body = trimmed(s.subrange(open + 1, close));
            let objectives = quality_parts(s)->Ok_0.0;
            &&& body.len() == 0 ==> objectives.len() == 0
            &&& body.len() > 0 ==> {
                &&& objectives.len() >= 1
                &&& joined(objectives, ", "@) == body
                &&& forall|j: int| 0 <= j < objectives.len() ==> free_of(#[trigger] objectives[j], ", "@)
            }
        }),
{
    lemma_index_of_text(s, seq!['['], 0);
    lemma_index_of_text(s, seq![']'], 0);
    assert(s.subrange(open, open + 1) =~= seq!['[']);
    assert(s.subrange(close, close + 1) =~= seq![']']);
    assert(occurs_at(s, seq!['['], open));
    assert(occurs_at(s, seq![']'], close));
    assert forall|k: int| 0 <= k < open implies !#[trigger] occurs_at(s, seq!['['], k) by {
        if occurs_at(s, seq!['['], k) {
            assert(s.subrange(k, k + 1)[0] == s[k]);
        }
    }
    assert forall|k: int| 0 <= k < close implies !#[trigger] occurs_at(s, seq![']'], k) by {
        if occurs_at(s, seq![']'], k) {
            assert(s.subrange(k, k + 1)[0] == s[k]);
        }
    }
    assert(index_of_text(s, seq!['['], 0) == Some(open));
    assert(index_of_text(s, seq![']'], 0) == Some(close));
    let body = trimmed(s.subrange(open + 1, close));
    if body.len() > 0 {
        reveal_strlit(", ");
        lemma_split_on_cuts_everywhere(body, ", "@);
    }
}

/// Whether `c` is white space (see [`is_white_space`]).
pub fn white_space(c: char) -> (r: bool)
    ensures
        r == is_white_space(c),
{
    ('\t' <= c && c <= '\r') || c == ' ' || c == '\u{85}' || c == '\u{a0}' || c == '\u{1680}' || ('\u{2000}' <= c
        && c <= '\u{200a}') || c == '\u{2028}' || c == '\u{2029}' || c == '\u{202f}' || c == '\u{205f}' || c
        == '\u{3000}'
}

/// The characters `s[lo..hi]`.
fn slice_chars(s: &Vec<char>, lo: usize, hi: usize) -> (r: Vec<char>)
    requires
        lo <= hi <= s@.len(),
    ensures
        r@ == s@.subrange(lo as int, hi as int),
{
    let mut r: Vec<char> = Vec::new();
    let mut k = lo;
    while k < hi
        invariant
            lo <= k <= hi,
            hi <= s@.len(),
            r@ == s@.subrange(lo as int, k as int),
        decreases hi - k,
    {
        r.push(s[k]);
        k = k + 1;
        assert(r@ =~= s@.subrange(lo as int, k as int));
    }
    r
}

/// Whether `pat` occurs in `s` at `k`.
fn matches_at(s: &Vec<char>, pat: &Vec<char>, k: usize) -> (r: bool)
    ensures
        r == (k + pat@.len() <= s@.len() && s@.subrange(k as int, k + pat@.len()) == pat@),
{
    if k > s.len() || pat.len() > s.len() - k {
        return false;
    }
    let mut j: usize = 0;
    while j < pat.len()
        invariant
            j <= pat@.len(),
            k + pat@.len() <= s@.len(),
            k + pat.len() <= s.len(),
            forall|t: int| 0 <= t < j ==> s@[k + t] == pat@[t],
        decreases pat@.len() - j,
    {
        let idx = k + j;
        if s[idx] != pat[j] {
            assert(s@.subrange(k as int, k + pat@.len())[j as int] != pat@[j as int]);
            return false;
        }
        j = j + 1;
    }
    assert(s@.subrange(k as int, k + pat@.len()) =~= pat@);
    true
}

/// First occurrence of `pat` in `s` (see [`index_of_text`]).
pub fn find_text(s: &Vec<char>, pat: &Vec<char>) -> (r: Option<usize>)
    ensures
        match r {
            Some(i) => index_of_text(s@, pat@, 0) == Some(i as int),
            None => index_of_text(s@, pat@, 0) is None,
        },
{
    let mut k: usize = 0;
    while k <= s.len()
        invariant
            k <= s@.len() + 1,
            index_of_text(s@, pat@, 0) == index_of_text(s@, pat@, k as int),
        decreases s@.len() + 1 - k,
    {
        if matches_at(s, pat, k) {
            return Some(k);
        }
        if k >= s.len() || pat.len() > s.len() - k {
            return None;
        }
        k = k + 1;
    }
    None
}

proof fn lemma_trim_start_step(s: Seq<char>, lo: int, hi: int)
    requires
        0 <= lo < hi <= s.len(),
        is_white_space(s[lo]),
    ensures
        trim_start(s.subrange(lo, hi)) == trim_start(s.subrange(lo + 1, hi)),
{
    assert(s.subrange(lo, hi).drop_first() =~= s.subrange(lo + 1, hi));
}

proof fn lemma_trim_end_step(s: Seq<char>, lo: int, hi: int)
    requires
        0 <= lo < hi <= s.len(),
        is_white_space(s[hi - 1]),
    ensures
        trim_end(s.subrange(lo, hi)) == trim_end(s.subrange(lo, hi - 1)),
{
    assert(s.subrange(lo, hi).drop_last() =~= s.subrange(lo, hi - 1));
}

/// `s[lo..hi]` without leading and trailing white space.
pub(crate) fn trim_range(s: &Vec<char>, lo: usize, hi: usize) -> (r: Vec<char>)
    requires
        lo <= hi <= s@.len(),
    ensures
        r@ == trimmed(s@.subrange(lo as int, hi as int)),
{
    let mut a = lo;
    while a < hi && white_space(s[a])
        invariant
            lo <= a <= hi,
            hi <= s@.len(),
            trim_start(s@.subrange(lo as int, hi as int)) == trim_start(s@.subrange(a as int, hi as int)),
        decreases hi - a,
    {
        proof {
            lemma_trim_start_step(s@, a as int, hi as int);
        }
        a = a + 1;
    }
    let ghost started = s@.subrange(a as int, hi as int);
    assert(trim_start(started) == started);
    let mut b = hi;
    while b > a && white_space(s[b - 1])
        invariant
            a <= b <= hi,
            hi <= s@.len(),
            trim_end(started) == trim_end(s@.subrange(a as int, b as int)),
        decreases b - a,
    {
        proof {
            lemma_trim_end_step(s@, a as int, b as int);
        }
        b = b - 1;
    }
    slice_chars(s, a, b)
}

/// Whether two character lists are equal.
fn chars_equal(a: &Vec<char>, b: &Vec<char>) -> (r: bool)
    ensures
        r == (a@ == b@),
{
    if a.len() != b.len() {
        return false;
    }
    let mut i: usize = 0;
    while i < a.len()
        invariant
            i <= a@.len(),
            a@.len() == b@.len(),
            forall|t: int| 0 <= t < i ==> a@[t] == b@[t],
        decreases a@.len() - i,
    {
        if a[i] != b[i] {
            return false;
        }
        i = i + 1;
    }
    assert(a@ =~= b@);
    true
}

/// The pieces of `s` between occurrences of the non-empty `sep`.
fn split_chars(s: &Vec<char>, sep: &Vec<char>) -> (r: Vec<Vec<char>>)
    requires
        sep@.len() > 0,
    ensures
        r@.map_values(|p: Vec<char>| p@) == split_on(s@, sep@),
{
    let mut pieces: Vec<Vec<char>> = Vec::new();
    let mut rest = slice_chars(s, 0, s.len());
    assert(rest@ =~= s@);
    loop
        invariant
            sep@.len() > 0,
            pieces@.map_values(|p: Vec<char>| p@) + split_on(rest@, sep@) == split_on(s@, sep@),
        decreases rest@.len(),
    {
        match find_text(&rest, sep) {
            Some(i) => {
                proof {
                    lemma_index_of_text(rest@, sep@, 0);
                    assert(occurs_at(rest@, sep@, i as int));
                }
                let piece = slice_chars(&rest, 0, i);
                assert(i + sep@.len() <= rest@.len());
                assert(i + sep.len() <= rest.len());
                let start = i + sep.len();
                let next = slice_chars(&rest, start, rest.len());
                proof {
                    assert(piece@ =~= rest@.take(i as int));
                    assert(next@ =~= rest@.skip(i + sep@.len()));
                    let before = pieces@.map_values(|p: Vec<char>| p@);
                    assert(split_on(rest@, sep@) == seq![piece@] + split_on(next@, sep@));
                    assert(pieces@.push(piece).map_values(|p: Vec<char>| p@) =~= before.push(piece@));
                    assert(before.push(piece@) + split_on(next@, sep@) =~= before + (seq![piece@] + split_on(next@, sep@)));
                }
                pieces.push(piece);
                rest = next;
            },
            None => {
                proof {
                    let before = pieces@.map_values(|p: Vec<char>| p@);
                    assert(split_on(rest@, sep@) == seq![rest@]);
                    assert(pieces@.push(rest).map_values(|p: Vec<char>| p@) =~= before + seq![rest@]);
                }
                pieces.push(rest);
                return pieces;
            },
        }
    }
}

proof fn lemma_digits_prefix_le(d: Seq<char>, k: int)
    requires
        0 <= k <= d.len(),
        forall|i: int| 0 <= i < d.len() ==> is_digit(#[trigger] d[i]),
    ensures
        digits_value(d.take(k)) <= digits_value(d),
    decreases d.len(),
{
    if k < d.len() {
        assert(d.drop_last().take(k) =~= d.take(k));
        lemma_digits_prefix_le(d.drop_last(), k);
        assert(forall|i: int| 0 <= i < d.drop_last().len() ==> d.drop_last()[i] == d[i]);
    } else {
        assert(d.take(k) =~= d);
    }
}

/// Reads a `usize` (see [`parse_usize_text`]).
fn parse_usize_chars(t: &Vec<char>) -> (r: Option<usize>)
    ensures
        r == parse_usize_text(t@),
{
    let d = if t.len() > 0 && t[0] == '+' { slice_chars(t, 1, t.len()) } else { slice_chars(t, 0, t.len()) };
    assert(d@ =~= (if t@.len() > 0 && t@[0] == '+' { t@.drop_first() } else { t@ }));
    assert(parse_usize_text(t@) == parse_digits_text(d@));
    if d.len() == 0 {
        return None;
    }
    let mut acc: usize = 0;
    let mut i: usize = 0;
    while i < d.len()
        invariant
            i <= d@.len(),
            parse_usize_text(t@) == parse_digits_text(d@),
            forall|k: int| 0 <= k < i ==> is_digit(#[trigger] d@[k]),
            acc == digits_value(d@.take(i as int)),
        decreases d@.len() - i,
    {
        let c = d[i];
        if !('0' <= c && c <= '9') {
            assert(!is_digit(d@[i as int]));
            return None;
        }
        proof {
            assert(d@.take(i + 1).drop_last() =~= d@.take(i as int));
            assert(d@.take(i + 1).last() == c);
        }
        let digit = (c as u32 - '0' as u32) as usize;
        match acc.checked_mul(10) {
            Some(m) => match m.checked_add(digit) {
                Some(v) => {
                    acc = v;
                },
                None => {
                    proof {
                        lemma_overflow_stays(d@, i as int);
                    }
                    return None;
                },
            },
            None => {
                proof {
                    lemma_overflow_stays(d@, i as int);
                }
                return None;
            },
        }
        i = i + 1;
    }
    assert(d@.take(d@.len() as int) =~= d@);
    Some(acc)
}

proof fn lemma_overflow_stays(d: Seq<char>, i: int)
    requires
        0 <= i < d.len(),
        is_digit(d[i]),
        digits_value(d.take(i + 1)) > usize::MAX,
    ensures
        parse_digits_text(d) is None,
{
    if forall|k: int| 0 <= k < d.len() ==> is_digit(#[trigger] d[k]) {
        lemma_digits_prefix_le(d, i + 1);
    }
}



/// The parts of a quality text (see [`quality_parts`]).
pub struct QualityText {
    /// The objective values' texts.
    pub objectives: Vec<String>,
    /// The rank, `None` for `N/A`, or the rank's error.
    pub rank: Result<Option<usize>, String>,
    /// The distance's text, `None` for `N/A`, or the distance's error.
    pub distance: Result<Option<String>, String>,
}

pub(crate) fn chars_of(s: &str) -> (r: Vec<char>)
    ensures
        r@ == s@,
{
    let mut r: Vec<char> = Vec::new();
    push_str(&mut r, s);
    r
}

fn error_text(s: &str) -> (r: String)
    ensures
        r@ == s@,
{
    string_from_chars(&chars_of(s))
}

/// Splits a quality text into its parts (see [`quality_parts`]); a `]`
/// before the first `[` is not accepted.
pub fn parse_quality_text(s: &str) -> (r: Result<QualityText, String>)
    requires
        brackets_in_order(s@),
    ensures
        match (r, quality_parts(s@)) {
            (Err(e), Err(f)) => e@ == f,
            (Ok(q), Ok((objectives, rank, distance))) => {
                &&& q.objectives@.map_values(|o: String| o@) == objectives
                &&& match (q.rank, rank) {
                    (Ok(a), Ok(b)) => a == b,
                    (Err(a), Err(b)) => a@ == b,
                    _ => false,
                }
                &&& match (q.distance, distance) {
                    (Ok(Some(a)), Ok(Some(b))) => a@ == b,
                    (Ok(None), Ok(None)) => true,
                    (Err(a), Err(b)) => a@ == b,
                    _ => false,
                }
            },
            _ => false,
        },
{
    let chars = chars_of(s);
    let mut open_pat: Vec<char> = Vec::new();
    open_pat.push('[');
    let mut close_pat: Vec<char> = Vec::new();
    close_pat.push(']');
    let mut comma_pat: Vec<char> = Vec::new();
    comma_pat.push(',');
    assert(open_pat@ =~= seq!['[']);
    assert(close_pat@ =~= seq![']']);
    assert(comma_pat@ =~= seq![',']);
    let open = match find_text(&chars, &open_pat) {
        Some(i) => i,
        None => {
            return Err(error_text("Missing objectives opening bracket '['"));
        },
    };
    let close = match find_text(&chars, &close_pat) {
        Some(i) => i,
        None => {
            return Err(error_text("Missing objectives closing bracket ']'"));
        },
    };
    proof {
        lemma_index_of_text(chars@, open_pat@, 0);
        lemma_index_of_text(chars@, close_pat@, 0);
    }
    let body = trim_range(&chars, open + 1, close);
    let mut objectives: Vec<String> = Vec::new();
    if body.len() > 0 {
        let sep = chars_of(", ");
        proof {
            reveal_strlit(", ");
        }
        let pieces = split_chars(&body, &sep);
        let mut k: usize = 0;
        while k < pieces.len()
            invariant
                k <= pieces@.len(),
                objectives@.map_values(|o: String| o@) == pieces@.map_values(|p: Vec<char>| p@).take(k as int),
            decreases pieces@.len() - k,
        {
            let text = string_from_chars(&pieces[k]);
            let ghost before = objectives@.map_values(|o: String| o@);
            let ghost tv = text@;
            objectives.push(text);
            proof {
                assert(objectives@.map_values(|o: String| o@) =~= before.push(tv));
                let all = pieces@.map_values(|p: Vec<char>| p@);
                assert(all[k as int] == pieces@[k as int]@);
                assert(all.take(k + 1) =~= all.take(k as int).push(all[k as int]));
            }
            k = k + 1;
        }
        assert(pieces@.map_values(|p: Vec<char>| p@).take(pieces@.len() as int) =~= pieces@.map_values(|p: Vec<char>| p@));
    } else {
        assert(objectives@.map_values(|o: String| o@) =~= Seq::<Seq<char>>::empty());
    }
    let na = chars_of("N/A");
    let rank_tag = chars_of("Rank: ");
    proof {
        reveal_strlit("Rank: ");
        reveal_strlit("Dist: ");
    }
    let rank = match find_text(&chars, &rank_tag) {
        None => Err(error_text("Missing 'Rank:' identifier")),
        Some(i) => {
            proof {
                lemma_index_of_text(chars@, rank_tag@, 0);
                assert(occurs_at(chars@, rank_tag@, i as int));
                assert(rank_tag@.len() == 6);
            }
            assert(i + 6 <= chars.len());
            let rest = slice_chars(&chars, i + 6, chars.len());
            assert(rest@ =~= chars@.skip(i + 6));
            let end = match find_text(&rest, &comma_pat) {
                Some(j) => {
                    proof {
                        lemma_index_of_text(rest@, comma_pat@, 0);
                    }
                    j
                },
                None => rest.len(),
            };
            let t = trim_range(&rest, 0, end);
            assert(rest@.subrange(0, end as int) =~= rest@.take(end as int));
            if chars_equal(&t, &na) {
                Ok(None)
            } else {
                match parse_usize_chars(&t) {
                    Some(v) => Ok(Some(v)),
                    None => Err(error_text("Invalid Rank format")),
                }
            }
        },
    };
    let dist_tag = chars_of("Dist: ");
    let distance = match find_text(&chars, &dist_tag) {
        None => Err(error_text("Missing 'Dist:' identifier")),
        Some(i) => {
            proof {
                lemma_index_of_text(chars@, dist_tag@, 0);
                assert(occurs_at(chars@, dist_tag@, i as int));
                assert(dist_tag@.len() == 6);
            }
            assert(i + 6 <= chars.len());
            let t = trim_range(&chars, i + 6, chars.len());
            assert(chars@.subrange(i + 6, chars@.len() as int) =~= chars@.skip(i + 6));
            if chars_equal(&t, &na) {
                Ok(None)
            } else {
                Ok(Some(string_from_chars(&t)))
            }
        },
    };
    Ok(QualityText { objectives, rank, distance })
}

} // verus!
