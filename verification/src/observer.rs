//! Decisions and text of the progress observers: which snapshots the console
//! prints, and the text transformations used by the HTML report.
use vstd::prelude::*;
use crate::quality_text::{chars_of, trim_range, trimmed};
use crate::text::{push_str, string_from_chars};

verus! {

/// The console prints every snapshot whose iteration is a multiple of this
/// number (or every snapshot when verbose).
pub const HOW_ITERATIONS_TO_PRINT: usize = 150;

/// Console observer: prints algorithm progress, skipping replayed snapshots.
pub struct ConsoleObserver {
    verbose: bool,
    last_snapshot_seq: Option<u64>,
}

impl ConsoleObserver {
    /// Whether every snapshot is printed.
    pub closed spec fn spec_verbose(&self) -> bool {
        self.verbose
    }

    /// Sequence number of the last snapshot taken into account.
    pub closed spec fn spec_last_snapshot_seq(&self) -> Option<u64> {
        self.last_snapshot_seq
    }

    /// Creates the observer.
    pub fn new(verbose: bool) -> (r: Self)
        ensures
            r.spec_verbose() == verbose,
            r.spec_last_snapshot_seq() is None,
    {
        ConsoleObserver { verbose, last_snapshot_seq: None }
    }

    /// Name of the observer.
    pub fn name(&self) -> (r: &str)
        ensures
            r@ == "ConsoleObserver"@,
    {
        "ConsoleObserver"
    }

    /// The line that shows the best solution: `Best solution: ` and its
    /// trimmed presentation, or none when that presentation is blank.
    pub fn format_best_solution_line(presentation: &str) -> (r: Option<String>)
        ensures
            trimmed(presentation@).len() == 0 ==> r is None,
            trimmed(presentation@).len() > 0 ==> (r matches Some(line) && line@ == "Best solution: "@ + trimmed(
                presentation@,
            )),
    {
        let chars = chars_of(presentation);
        let t = trim_range(&chars, 0, chars.len());
        assert(chars@.subrange(0, chars@.len() as int) =~= chars@);
        if t.len() == 0 {
            return None;
        }
        let mut line: Vec<char> = Vec::new();
        push_str(&mut line, "Best solution: ");
        let mut k: usize = 0;
        let ghost start = line@;
        while k < t.len()
            invariant
                k <= t@.len(),
                line@ == start + t@.take(k as int),
            decreases t@.len() - k,
        {
            line.push(t[k]);
            k = k + 1;
            assert(line@ =~= start + t@.take(k as int));
        }
        assert(t@.take(t@.len() as int) =~= t@);
        Some(string_from_chars(&line))
    }

    /// A run starts: previously seen snapshots are forgotten.
    pub fn on_start(&mut self)
        ensures
            final(self).spec_verbose() == old(self).spec_verbose(),
            final(self).spec_last_snapshot_seq() is None,
    {
        self.last_snapshot_seq = None;
    }

    /// A snapshot arrives; returns whether its progress line is printed.
    ///
    /// A snapshot whose sequence number is not after the last one seen is a
    /// replay: it is ignored and leaves the observer unchanged. Otherwise it
    /// becomes the last one seen and is printed when the observer is verbose
    /// or its iteration is a multiple of [`HOW_ITERATIONS_TO_PRINT`].
    pub fn on_state(&mut self, seq_id: u64, iteration: usize) -> (print: bool)
        ensures
            final(self).spec_verbose() == old(self).spec_verbose(),
            (old(self).spec_last_snapshot_seq() matches Some(last) && seq_id <= last) ==> {
                &&& !print
                &&& final(self).spec_last_snapshot_seq() == old(self).spec_last_snapshot_seq()
            },
            !(old(self).spec_last_snapshot_seq() matches Some(last) && seq_id <= last) ==> {
                &&& final(self).spec_last_snapshot_seq() == Some(seq_id)
                &&& print == (old(self).spec_verbose() || iteration % HOW_ITERATIONS_TO_PRINT == 0)
            },
    {
        match self.last_snapshot_seq {
            Some(last) => {
                if seq_id <= last {
                    return false;
                }
            },
            None => {},
        }
        self.last_snapshot_seq = Some(seq_id);
        self.verbose || iteration % HOW_ITERATIONS_TO_PRINT == 0
    }
}

/// The HTML escape of one character.
pub open spec fn escape_char(c: char) -> Seq<char> {
    if c == '&' {
        "&amp;"@
    } else if c == '<' {
        "&lt;"@
    } else if c == '>' {
        "&gt;"@
    } else if c == '"' {
        "&quot;"@
    } else if c == '\'' {
        "&#39;"@
    } else {
        seq![c]
    }
}

/// HTML escape of a text: every character escaped on its own.
pub open spec fn escaped(s: Seq<char>) -> Seq<char>
    decreases s.len(),
{
    if s.len() == 0 {
        Seq::empty()
    } else {
        escaped(s.drop_last()) + escape_char(s.last())
    }
}

/// Escapes `&`, `<`, `>`, `"` and `'` for HTML.
pub fn escape_html(input: &str) -> (r: String)
    ensures
        r@ == escaped(input@),
        forall|i: int| 0 <= i < r@.len() ==> !is_markup_char(#[trigger] r@[i]),
{
    proof {
        lemma_escaped_has_no_markup(input@);
    }
    let n = input.unicode_len();
    let mut out: Vec<char> = Vec::new();
    let mut i: usize = 0;
    while i < n
        invariant
            i <= n,
            n == input@.len(),
            out@ == escaped(input@.take(i as int)),
        decreases n - i,
    {
        let c = input.get_char(i);
        if c == '&' {
            push_str(&mut out, "&amp;");
        } else if c == '<' {
            push_str(&mut out, "&lt;");
        } else if c == '>' {
            push_str(&mut out, "&gt;");
        } else if c == '"' {
            push_str(&mut out, "&quot;");
        } else if c == '\'' {
            push_str(&mut out, "&#39;");
        } else {
            out.push(c);
        }
        proof {
            assert(input@.take(i + 1).drop_last() =~= input@.take(i as int));
            assert(input@.take(i + 1).last() == c);
        }
        i = i + 1;
    }
    assert(input@.take(n as int) =~= input@);
    string_from_chars(&out)
}

/// The ellipsis appended to truncated previews.
pub open spec fn ellipsis() -> char {
    '\u{2026}'
}

/// At most `max_chars` characters of `s`, followed by an ellipsis when
/// characters were cut.
pub open spec fn truncated(s: Seq<char>, max_chars: nat) -> Seq<char> {
    if s.len() > max_chars {
        s.take(max_chars as int).push(ellipsis())
    } else {
        s
    }
}

/// Shortens a preview to `max_chars` characters, marking a cut with an
/// ellipsis.
pub fn truncate_preview(input: &str, max_chars: usize) -> (r: String)
    ensures
        r@ == truncated(input@, max_chars as nat),
{
    let n = input.unicode_len();
    let keep = if n > max_chars { max_chars } else { n };
    let mut out: Vec<char> = Vec::new();
    let mut i: usize = 0;
    while i < keep
        invariant
            i <= keep,
            keep <= n,
            n == input@.len(),
            out@ == input@.take(i as int),
        decreases keep - i,
    {
        out.push(input.get_char(i));
        i = i + 1;
        assert(out@ =~= input@.take(i as int));
    }
    if n > max_chars {
        out.push('\u{2026}');
    } else {
        assert(input@.take(n as int) =~= input@);
    }
    string_from_chars(&out)
}

/// `c` is an ASCII letter or digit.
pub open spec fn is_ascii_alphanumeric(c: char) -> bool {
    ('0' <= c && c <= '9') || ('a' <= c && c <= 'z') || ('A' <= c && c <= 'Z')
}

/// Folder-name form of one character: ASCII letters and digits in lower
/// case, anything else a separator `_`.
pub open spec fn folder_char(c: char) -> char {
    if 'A' <= c && c <= 'Z' {
        ((c as u32) + 32) as char
    } else if is_ascii_alphanumeric(c) {
        c
    } else {
        '_'
    }
}

/// Folder-name form of a text before trimming: every character normalized
/// with [`folder_char`], runs of separators collapsed to one.
pub open spec fn collapsed(s: Seq<char>) -> Seq<char>
    decreases s.len(),
{
    if s.len() == 0 {
        Seq::empty()
    } else {
        let prev = collapsed(s.drop_last());
        let c = folder_char(s.last());
        if c == '_' && prev.len() > 0 && prev.last() == '_' {
            prev
        } else {
            prev.push(c)
        }
    }
}

/// `s` without leading and trailing `_`.
pub open spec fn trim_separators(s: Seq<char>) -> Seq<char>
    decreases s.len(),
{
    if s.len() > 0 && s[0] == '_' {
        trim_separators(s.drop_first())
    } else if s.len() > 0 && s.last() == '_' {
        trim_separators(s.drop_last())
    } else {
        s
    }
}

/// Folder component for an algorithm name: the trimmed, collapsed,
/// normalized name, or `algorithm` when nothing is left.
pub open spec fn folder_component(raw: Seq<char>) -> Seq<char> {
    let t = trim_separators(collapsed(raw));
    if t.len() == 0 {
        "algorithm"@
    } else {
        t
    }
}

fn folder_char_of(c: char) -> (r: char)
    ensures
        r == folder_char(c),
{
    if 'A' <= c && c <= 'Z' {
        let code = c as u8;
        assert(code as u32 == c as u32);
        ((code + 32) as char)
    } else if ('0' <= c && c <= '9') || ('a' <= c && c <= 'z') {
        c
    } else {
        '_'
    }
}

/// Turns an algorithm name into a folder name (see [`folder_component`]).
pub fn sanitize_folder_component(raw: &str) -> (r: String)
    ensures
        r@ == folder_component(raw@),
        is_safe_folder_name(r@),
{
    proof {
        lemma_folder_component_is_safe(raw@);
    }
    let n = raw.unicode_len();
    let mut out: Vec<char> = Vec::new();
    let mut prev_is_sep = false;
    let mut i: usize = 0;
    while i < n
        invariant
            i <= n,
            n == raw@.len(),
            out@ == collapsed(raw@.take(i as int)),
            prev_is_sep == (out@.len() > 0 && out@.last() == '_'),
        decreases n - i,
    {
        let normalized = folder_char_of(raw.get_char(i));
        proof {
            assert(raw@.take(i + 1).drop_last() =~= raw@.take(i as int));
        }
        if normalized == '_' {
            if !prev_is_sep {
                prev_is_sep = true;
                out.push('_');
            }
        } else {
            prev_is_sep = false;
            out.push(normalized);
        }
        i = i + 1;
    }
    assert(raw@.take(n as int) =~= raw@);
    let ghost c = out@;
    let mut lo: usize = 0;
    let mut hi: usize = out.len();
    assert(c.subrange(0, c.len() as int) =~= c);
    while lo < hi && out[lo] == '_'
        invariant
            lo <= hi <= out@.len(),
            hi == out@.len(),
            out@ == c,
            trim_separators(c) == trim_separators(c.subrange(lo as int, hi as int)),
        decreases hi - lo,
    {
        proof {
            assert(c.subrange(lo as int, hi as int).drop_first() =~= c.subrange(lo + 1, hi as int));
        }
        lo = lo + 1;
    }
    while lo < hi && out[hi - 1] == '_'
        invariant
            lo <= hi <= out@.len(),
            out@ == c,
            trim_separators(c) == trim_separators(c.subrange(lo as int, hi as int)),
            lo < hi ==> c[lo as int] != '_',
        decreases hi - lo,
    {
        proof {
            assert(c.subrange(lo as int, hi as int).drop_last() =~= c.subrange(lo as int, hi - 1));
        }
        hi = hi - 1;
    }
    let mut trimmed: Vec<char> = Vec::new();
    let mut k = lo;
    while k < hi
        invariant
            lo <= k <= hi,
            hi <= c.len(),
            out@ == c,
            trimmed@ == c.subrange(lo as int, k as int),
        decreases hi - k,
    {
        trimmed.push(out[k]);
        k = k + 1;
        assert(trimmed@ =~= c.subrange(lo as int, k as int));
    }
    if trimmed.len() == 0 {
        let mut fallback: Vec<char> = Vec::new();
        push_str(&mut fallback, "algorithm");
        assert(fallback@ =~= "algorithm"@);
        string_from_chars(&fallback)
    } else {
        string_from_chars(&trimmed)
    }
}


/// `c` is one of the characters that HTML escaping replaces, except `&`
/// (which every escape itself begins with).
pub open spec fn is_markup_char(c: char) -> bool {
    c == '<' || c == '>' || c == '"' || c == '\''
}

/// Escaped text holds none of `<`, `>`, `"` and `'`, whatever the input.
pub proof fn lemma_escaped_has_no_markup(s: Seq<char>)
    ensures
        forall|i: int| 0 <= i < escaped(s).len() ==> !is_markup_char(#[trigger] escaped(s)[i]),
    decreases s.len(),
{
    if s.len() > 0 {
        lemma_escaped_has_no_markup(s.drop_last());
        let prev = escaped(s.drop_last());
        let tail = escape_char(s.last());
        reveal_strlit("&amp;");
        reveal_strlit("&lt;");
        reveal_strlit("&gt;");
        reveal_strlit("&quot;");
        reveal_strlit("&#39;");
        assert forall|k: int| 0 <= k < tail.len() implies !is_markup_char(#[trigger] tail[k]) by {}
        let r = escaped(s);
        assert(r == prev + tail);
        assert forall|i: int| 0 <= i < r.len() implies !is_markup_char(#[trigger] r[i]) by {
            if i < prev.len() {
                assert(r[i] == prev[i]);
            } else {
                assert(r[i] == tail[i - prev.len()]);
            }
        }
    }
}

/// A character allowed in folder names: an ASCII lower-case letter, a
/// digit, or the separator `_`.
pub open spec fn is_folder_name_char(c: char) -> bool {
    ('0' <= c && c <= '9') || ('a' <= c && c <= 'z') || c == '_'
}

/// `s` is a safe folder name: not empty, made of [`is_folder_name_char`]
/// characters, neither starting nor ending with `_`, and without two `_` in
/// a row.
pub open spec fn is_safe_folder_name(s: Seq<char>) -> bool {
    &&& s.len() > 0
    &&& forall|i: int| 0 <= i < s.len() ==> is_folder_name_char(#[trigger] s[i])
    &&& s[0] != '_'
    &&& s.last() != '_'
    &&& forall|i: int| 0 <= i < s.len() - 1 ==> !(#[trigger] s[i] == '_' && s[i + 1] == '_')
}

proof fn lemma_folder_char_allowed(c: char)
    ensures
        is_folder_name_char(folder_char(c)),
{
    if 'A' <= c && c <= 'Z' {
        assert(('a' as u32) == ('A' as u32) + 32);
        assert(('z' as u32) == ('Z' as u32) + 32);
    }
}

proof fn lemma_collapsed_chars(s: Seq<char>)
    ensures
        forall|i: int| 0 <= i < collapsed(s).len() ==> is_folder_name_char(#[trigger] collapsed(s)[i]),
        forall|i: int| 0 <= i < collapsed(s).len() - 1 ==> !(#[trigger] collapsed(s)[i] == '_' && collapsed(s)[i + 1] == '_'),
    decreases s.len(),
{
    if s.len() > 0 {
        let prev = collapsed(s.drop_last());
        let c = folder_char(s.last());
        lemma_collapsed_chars(s.drop_last());
        lemma_folder_char_allowed(s.last());
        let r = collapsed(s);
        if !(c == '_' && prev.len() > 0 && prev.last() == '_') {
            assert(r == prev.push(c));
            assert forall|i: int| 0 <= i < r.len() implies is_folder_name_char(#[trigger] r[i]) by {
                if i < prev.len() {
                    assert(r[i] == prev[i]);
                }
            }
            assert forall|i: int| 0 <= i < r.len() - 1 implies !(#[trigger] r[i] == '_' && r[i + 1] == '_') by {
                assert(r[i] == prev[i]);
                if i + 1 < prev.len() {
                    assert(r[i + 1] == prev[i + 1]);
                }
            }
        }
    }
}

proof fn lemma_trim_separators(s: Seq<char>)
    ensures
        trim_separators(s).len() > 0 ==> trim_separators(s)[0] != '_' && trim_separators(s).last() != '_',
        exists|lo: int, hi: int| 0 <= lo <= hi <= s.len() && trim_separators(s) == s.subrange(lo, hi),
    decreases s.len(),
{
    if s.len() > 0 && s[0] == '_' {
        lemma_trim_separators(s.drop_first());
        let (lo, hi) = choose|lo: int, hi: int| 0 <= lo <= hi <= s.drop_first().len() && trim_separators(s.drop_first()) == s.drop_first().subrange(lo, hi);
        assert(s.drop_first().subrange(lo, hi) =~= s.subrange(lo + 1, hi + 1));
    } else if s.len() > 0 && s.last() == '_' {
        lemma_trim_separators(s.drop_last());
        let (lo, hi) = choose|lo: int, hi: int| 0 <= lo <= hi <= s.drop_last().len() && trim_separators(s.drop_last()) == s.drop_last().subrange(lo, hi);
        assert(s.drop_last().subrange(lo, hi) =~= s.subrange(lo, hi));
    } else {
        assert(s.subrange(0, s.len() as int) =~= s);
    }
}

/// Whatever the algorithm's name, its folder component is a safe folder
/// name (see [`is_safe_folder_name`]).
pub proof fn lemma_folder_component_is_safe(raw: Seq<char>)
    ensures
        is_safe_folder_name(folder_component(raw)),
{
    let c = collapsed(raw);
    lemma_collapsed_chars(raw);
    lemma_trim_separators(c);
    let t = trim_separators(c);
    if t.len() == 0 {
        reveal_strlit("algorithm");
    } else {
        let (lo, hi) = choose|lo: int, hi: int| 0 <= lo <= hi <= c.len() && t == c.subrange(lo, hi);
        assert forall|i: int| 0 <= i < t.len() implies is_folder_name_char(#[trigger] t[i]) by {
            assert(t[i] == c[lo + i]);
        }
        assert forall|i: int| 0 <= i < t.len() - 1 implies !(#[trigger] t[i] == '_' && t[i + 1] == '_') by {
            assert(t[i] == c[lo + i]);
            assert(t[i + 1] == c[lo + i + 1]);
        }
    }
}

/// How a run ended, as the HTML report shows it.
#[derive(PartialEq, Eq, Structural, Clone, Copy, Debug)]
pub enum RunStatus {
    /// The run reached its end.
    Completed,
    /// The run reported a failure.
    Failed,
    /// The report was produced before the run ended.
    Interrupted,
}

/// Status of a run from what the report observer received: a failure wins,
/// then a received end; otherwise the run was interrupted.
pub open spec fn run_status(failed: bool, finished: bool) -> RunStatus {
    if failed {
        RunStatus::Failed
    } else if finished {
        RunStatus::Completed
    } else {
        RunStatus::Interrupted
    }
}

/// Discrete progress of a run as the HTML report observer records it: the
/// algorithm's name, the failure message, the final totals, and the latest
/// accepted snapshot. The snapshot metrics themselves are kept by the
/// caller for the snapshots this record accepts.
pub struct ReportProgress {
    algorithm_name: Option<String>,
    error_message: Option<String>,
    finished_summary: Option<(usize, usize)>,
    last_snapshot_seq: Option<u64>,
    last_generation: Option<(usize, usize)>,
}

impl ReportProgress {
    /// Name of the running algorithm, once a run started.
    pub closed spec fn spec_algorithm_name(&self) -> Option<Seq<char>> {
        match &self.algorithm_name {
            Some(name) => Some(name@),
            None => None,
        }
    }

    /// Failure message received, if any.
    pub closed spec fn spec_error_message(&self) -> Option<Seq<char>> {
        match &self.error_message {
            Some(message) => Some(message@),
            None => None,
        }
    }

    /// Totals (generations, evaluations) reported by the end or failure.
    pub closed spec fn spec_finished_summary(&self) -> Option<(usize, usize)> {
        self.finished_summary
    }

    /// Sequence number of the last accepted snapshot.
    pub closed spec fn spec_last_snapshot_seq(&self) -> Option<u64> {
        self.last_snapshot_seq
    }

    /// Iteration and evaluations of the last accepted snapshot.
    pub closed spec fn spec_last_generation(&self) -> Option<(usize, usize)> {
        self.last_generation
    }

    /// Nothing received yet.
    pub fn new() -> (r: Self)
        ensures
            r.spec_algorithm_name() is None,
            r.spec_error_message() is None,
            r.spec_finished_summary() is None,
            r.spec_last_snapshot_seq() is None,
            r.spec_last_generation() is None,
    {
        ReportProgress {
            algorithm_name: None,
            error_message: None,
            finished_summary: None,
            last_snapshot_seq: None,
            last_generation: None,
        }
    }

    /// A run starts: its name is recorded and everything else is forgotten.
    pub fn on_start(&mut self, algorithm_name: String)
        ensures
            final(self).spec_algorithm_name() == Some(algorithm_name@),
            final(self).spec_error_message() is None,
            final(self).spec_finished_summary() is None,
            final(self).spec_last_snapshot_seq() is None,
            final(self).spec_last_generation() is None,
    {
        self.algorithm_name = Some(algorithm_name);
        self.error_message = None;
        self.finished_summary = None;
        self.last_snapshot_seq = None;
        self.last_generation = None;
    }

    /// A snapshot arrives; returns whether it is recorded. A snapshot whose
    /// sequence number is not after the last recorded one is a replay and is
    /// ignored.
    pub fn on_state(&mut self, seq_id: u64, iteration: usize, evaluations: usize) -> (accepted: bool)
        ensures
            accepted == !(old(self).spec_last_snapshot_seq() matches Some(last) && seq_id <= last),
            final(self).spec_algorithm_name() == old(self).spec_algorithm_name(),
            final(self).spec_error_message() == old(self).spec_error_message(),
            final(self).spec_finished_summary() == old(self).spec_finished_summary(),
            accepted ==> final(self).spec_last_snapshot_seq() == Some(seq_id)
                && final(self).spec_last_generation() == Some((iteration, evaluations)),
            !accepted ==> final(self).spec_last_snapshot_seq() == old(self).spec_last_snapshot_seq()
                && final(self).spec_last_generation() == old(self).spec_last_generation(),
    {
        match self.last_snapshot_seq {
            Some(last) => {
                if seq_id <= last {
                    return false;
                }
            },
            None => {},
        }
        self.last_snapshot_seq = Some(seq_id);
        self.last_generation = Some((iteration, evaluations));
        true
    }

    /// The run ended with these totals.
    pub fn on_end(&mut self, total_generations: usize, total_evaluations: usize)
        ensures
            final(self).spec_finished_summary() == Some((total_generations, total_evaluations)),
            final(self).spec_algorithm_name() == old(self).spec_algorithm_name(),
            final(self).spec_error_message() == old(self).spec_error_message(),
            final(self).spec_last_snapshot_seq() == old(self).spec_last_snapshot_seq(),
            final(self).spec_last_generation() == old(self).spec_last_generation(),
    {
        self.finished_summary = Some((total_generations, total_evaluations));
    }

    /// The run failed with this message, after these totals.
    pub fn on_failed(&mut self, total_generations: usize, total_evaluations: usize, error_message: String)
        ensures
            final(self).spec_error_message() == Some(error_message@),
            final(self).spec_finished_summary() == Some((total_generations, total_evaluations)),
            final(self).spec_algorithm_name() == old(self).spec_algorithm_name(),
            final(self).spec_last_snapshot_seq() == old(self).spec_last_snapshot_seq(),
            final(self).spec_last_generation() == old(self).spec_last_generation(),
    {
        self.error_message = Some(error_message);
        self.finished_summary = Some((total_generations, total_evaluations));
    }

    /// Status of the run (see [`run_status`]).
    pub fn status(&self) -> (r: RunStatus)
        ensures
            r == run_status(self.spec_error_message() is Some, self.spec_finished_summary() is Some),
    {
        if self.error_message.is_some() {
            RunStatus::Failed
        } else if self.finished_summary.is_some() {
            RunStatus::Completed
        } else {
            RunStatus::Interrupted
        }
    }

    /// Note shown under the status: the escaped failure message, or an
    /// explanation for an interrupted run; none for a completed one.
    pub fn status_message(&self) -> (r: Option<String>)
        ensures
            match self.spec_error_message() {
                Some(message) => r matches Some(m) && m@ == escaped(message),
                None => if self.spec_finished_summary() is Some {
                    r is None
                } else {
                    r matches Some(m) && m@
                        == "Run did not reach End event; report generated from partial snapshots."@
                },
            },
    {
        match &self.error_message {
            Some(message) => Some(escape_html(message.as_str())),
            None => {
                if self.finished_summary.is_some() {
                    None
                } else {
                    Some("Run did not reach End event; report generated from partial snapshots.".to_owned())
                }
            },
        }
    }

    /// Whether the end or a failure reported final totals.
    pub fn is_finished(&self) -> (r: bool)
        ensures
            r == self.spec_finished_summary() is Some,
    {
        self.finished_summary.is_some()
    }

    /// Totals shown by the report: those of the end or failure, else those of
    /// the last recorded snapshot, else zero.
    pub fn summary_totals(&self) -> (r: (usize, usize))
        ensures
            r == match self.spec_finished_summary() {
                Some(totals) => totals,
                None => match self.spec_last_generation() {
                    Some(last) => last,
                    None => (0usize, 0usize),
                },
            },
    {
        match self.finished_summary {
            Some(totals) => totals,
            None => match self.last_generation {
                Some(last) => last,
                None => (0, 0),
            },
        }
    }

    /// The algorithm's name as the report shows it: HTML-escaped, or
    /// `Unknown` before any run started.
    pub fn display_name(&self) -> (r: String)
        ensures
            r@ == match self.spec_algorithm_name() {
                Some(name) => escaped(name),
                None => "Unknown"@,
            },
    {
        match &self.algorithm_name {
            Some(name) => escape_html(name.as_str()),
            None => "Unknown".to_owned(),
        }
    }
}

/// Text of a status badge.
pub fn status_text(status: RunStatus) -> (r: &'static str)
    ensures
        status == RunStatus::Completed ==> r@ == "Completed"@,
        status == RunStatus::Failed ==> r@ == "Failed"@,
        status == RunStatus::Interrupted ==> r@ == "Interrupted"@,
{
    match status {
        RunStatus::Completed => "Completed",
        RunStatus::Failed => "Failed",
        RunStatus::Interrupted => "Interrupted",
    }
}

/// Style class of a status badge: only a completed run is shown as a success.
pub fn status_class(status: RunStatus) -> (r: &'static str)
    ensures
        status == RunStatus::Completed ==> r@ == "status-completed"@,
        status != RunStatus::Completed ==> r@ == "status-error"@,
{
    match status {
        RunStatus::Completed => "status-completed",
        _ => "status-error",
    }
}


/// Rows of recent generation metrics shown by the HTML report.
pub const RECENT_GENERATION_ROWS: usize = 15;

/// Rows of best-solution updates shown by the HTML report.
pub const BEST_UPDATE_ROWS: usize = 20;

/// Positions of the report rows for a list of `len` records: the last
/// `limit` records (all when there are fewer), newest first.
pub fn newest_first(len: usize, limit: usize) -> (r: Vec<usize>)
    ensures
        r@.len() == if len < limit { len } else { limit },
        forall|k: int| 0 <= k < r@.len() ==> r@[k] == len - 1 - k,
{
    let count = if len < limit { len } else { limit };
    let mut r: Vec<usize> = Vec::new();
    let mut k: usize = 0;
    while k < count
        invariant
            k <= count,
            count <= len,
            r@.len() == k,
            forall|t: int| 0 <= t < k ==> r@[t] == len - 1 - t,
        decreases count - k,
    {
        r.push(len - 1 - k);
        k = k + 1;
    }
    r
}

} // verus!
