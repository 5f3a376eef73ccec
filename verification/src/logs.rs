//! Server log lines: parsing, formatting, single-line messages and filters.

use vstd::prelude::*;
use crate::markers::{find_from, find_from_exec};
use crate::text::{
    append_range, append_str, chars_of, index_of_from, index_of_from_exec, is_ws, is_ws_exec, lemma_index_of_from,
    push_char, string_from_range, trim, trim_range, str_eq,
};

verus! {

/// One log line: `timestamp level component message`.
pub struct LogRecord {
    pub timestamp: String,
    pub level: String,
    pub component: String,
    pub message: String,
}

pub struct LogRecordView {
    pub timestamp: Seq<char>,
    pub level: Seq<char>,
    pub component: Seq<char>,
    pub message: Seq<char>,
}

impl View for LogRecord {
    type V = LogRecordView;

    open spec fn view(&self) -> LogRecordView {
        LogRecordView {
            timestamp: self.timestamp@,
            level: self.level@,
            component: self.component@,
            message: self.message@,
        }
    }
}

// ---------------------------------------------------------------------------
// Single-line messages

/// The message built from the first `n` characters of `s`, with whether a
/// space is owed before the next word.
pub open spec fn squeeze(s: Seq<char>, n: int) -> (Seq<char>, bool)
    decreases n,
{
    if n <= 0 {
        (Seq::empty(), false)
    } else {
        let (out, gap) = squeeze(s, n - 1);
        let c = s[n - 1];
        if is_ws(c) {
            (out, out.len() > 0)
        } else if gap {
            (out.push(' ').push(c), false)
        } else {
            (out.push(c), false)
        }
    }
}

/// The words of `s` (runs without whitespace) joined by single spaces.
pub open spec fn single_line_spec(s: Seq<char>) -> Seq<char> {
    squeeze(s, s.len() as int).0
}

/// Joins the whitespace-separated words of `message` with single spaces.
pub fn single_line(message: &str) -> (r: String)
    ensures
        r@ == single_line_spec(message@),
{
    let v = chars_of(message);
    let mut out = String::new();
    let mut started = false;
    let mut gap = false;
    let mut i: usize = 0;
    while i < v.len()
        invariant
            i <= v@.len(),
            v@ == message@,
            (out@, gap) == squeeze(v@, i as int),
            started == (out@.len() > 0),
        decreases v@.len() - i,
    {
        let c = v[i];
        if is_ws_exec(c) {
            gap = started;
        } else {
            if gap {
                push_char(&mut out, ' ');
            }
            push_char(&mut out, c);
            started = true;
            gap = false;
        }
        i = i + 1;
    }
    out
}

/// The characters of `s` that are not whitespace, in order.
pub open spec fn non_ws(s: Seq<char>) -> Seq<char>
    decreases s.len(),
{
    if s.len() == 0 {
        s
    } else {
        let p = non_ws(s.drop_last());
        if is_ws(s.last()) { p } else { p.push(s.last()) }
    }
}

proof fn lemma_non_ws_push(s: Seq<char>, c: char)
    ensures
        non_ws(s.push(c)) == if is_ws(c) { non_ws(s) } else { non_ws(s).push(c) },
{
    assert(s.push(c).drop_last() =~= s);
}

/// A single-line text: only plain spaces separate its parts, never two in a
/// row, and none at either end.
pub open spec fn is_single_line(t: Seq<char>) -> bool {
    &&& forall|i: int| 0 <= i < t.len() && is_ws(#[trigger] t[i]) ==> t[i] == ' ' && 0 < i < t.len() - 1
        && !is_ws(t[i - 1]) && !is_ws(t[i + 1])
}

proof fn lemma_squeeze(s: Seq<char>, n: int)
    requires
        0 <= n <= s.len(),
    ensures
        non_ws(squeeze(s, n).0) == non_ws(s.subrange(0, n)),
        forall|i: int| 0 <= i < squeeze(s, n).0.len() && is_ws(#[trigger] squeeze(s, n).0[i]) ==> squeeze(s, n).0[i] == ' '
            && 0 < i < squeeze(s, n).0.len() - 1 && !is_ws(squeeze(s, n).0[i - 1]) && !is_ws(squeeze(s, n).0[i + 1]),
        squeeze(s, n).0.len() > 0 ==> !is_ws(squeeze(s, n).0.last()),
        squeeze(s, n).1 ==> squeeze(s, n).0.len() > 0,
    decreases n,
{
    if n > 0 {
        lemma_squeeze(s, n - 1);
        let (out, gap) = squeeze(s, n - 1);
        let c = s[n - 1];
        assert(s.subrange(0, n) =~= s.subrange(0, n - 1).push(c));
        lemma_non_ws_push(s.subrange(0, n - 1), c);
        if is_ws(c) {
        } else if gap {
            let o2 = out.push(' ').push(c);
            lemma_non_ws_push(out, ' ');
            lemma_non_ws_push(out.push(' '), c);
            assert forall|i: int| 0 <= i < o2.len() && is_ws(#[trigger] o2[i]) implies o2[i] == ' ' && 0 < i < o2.len() - 1
                && !is_ws(o2[i - 1]) && !is_ws(o2[i + 1]) by {
                if i < out.len() {
                    assert(o2[i] == out[i]);
                    assert(o2[i - 1] == out[i - 1]);
                    if i + 1 < out.len() {
                        assert(o2[i + 1] == out[i + 1]);
                    }
                }
            }
        } else {
            let o2 = out.push(c);
            lemma_non_ws_push(out, c);
            assert forall|i: int| 0 <= i < o2.len() && is_ws(#[trigger] o2[i]) implies o2[i] == ' ' && 0 < i < o2.len() - 1
                && !is_ws(o2[i - 1]) && !is_ws(o2[i + 1]) by {
                assert(o2[i] == out[i]);
                assert(o2[i - 1] == out[i - 1]);
            }
        }
    }
}

/// A squeezed message is a single line that keeps every character of the
/// message that is not whitespace, in order, and nothing else.
pub proof fn law_single_line(s: Seq<char>)
    ensures
        is_single_line(single_line_spec(s)),
        non_ws(single_line_spec(s)) == non_ws(s),
{
    lemma_squeeze(s, s.len() as int);
    assert(s.subrange(0, s.len() as int) =~= s);
}

// ---------------------------------------------------------------------------
// Parsing and formatting

/// `s` split at spaces into at most `n` parts, the last taking the rest, as
/// `str::splitn` does.
pub open spec fn splitn_space(s: Seq<char>, n: nat) -> Seq<Seq<char>>
    decreases n,
{
    if n == 0 {
        seq![]
    } else if n == 1 {
        seq![s]
    } else {
        match index_of_from(s, ' ', 0) {
            None => seq![s],
            Some(i) => seq![s.subrange(0, i)] + splitn_space(s.subrange(i + 1, s.len() as int), (n - 1) as nat),
        }
    }
}

pub open spec fn part_or(parts: Seq<Seq<char>>, k: int, default: Seq<char>) -> Seq<char> {
    if 0 <= k < parts.len() { parts[k] } else { default }
}

/// The first space-separated field of a line.
pub open spec fn first_field(line: Seq<char>) -> Seq<char> {
    splitn_space(line, 4)[0]
}

/// A structured line `timestamp level component message`, with defaults for
/// missing fields.
pub open spec fn structured_record(line: Seq<char>) -> LogRecordView {
    let parts = splitn_space(line, 4);
    LogRecordView {
        timestamp: parts[0],
        level: part_or(parts, 1, "INFO"@),
        component: part_or(parts, 2, "app"@),
        message: part_or(parts, 3, Seq::empty()),
    }
}

/// A line that carries no timestamp of its own, kept whole as a native message.
pub open spec fn native_record(line: Seq<char>, timestamp: Seq<char>) -> LogRecordView {
    LogRecordView { timestamp, level: "INFO"@, component: "native"@, message: line }
}

proof fn lemma_splitn_len(s: Seq<char>, n: nat)
    ensures
        n > 0 ==> 1 <= splitn_space(s, n).len() <= n,
        n == 0 ==> splitn_space(s, n).len() == 0,
    decreases n,
{
    if n > 1 {
        match index_of_from(s, ' ', 0) {
            None => {},
            Some(i) => {
                lemma_splitn_len(s.subrange(i + 1, s.len() as int), (n - 1) as nat);
            },
        }
    }
}

/// Splits `v[start..]` at spaces into at most `n` parts.
fn splitn_space_exec(v: &[char], start: usize, n: usize) -> (r: Vec<String>)
    requires
        start <= v@.len(),
    ensures
        r@.len() == splitn_space(v@.subrange(start as int, v@.len() as int), n as nat).len(),
        forall|k: int| 0 <= k < r@.len() ==> (#[trigger] r@[k])@ == splitn_space(v@.subrange(start as int, v@.len() as int), n as nat)[k],
    decreases n,
{
    let ghost s = v@.subrange(start as int, v@.len() as int);
    if n == 0 {
        return Vec::new();
    }
    if n == 1 {
        let mut r: Vec<String> = Vec::new();
        r.push(string_from_range(v, start, v.len()));
        return r;
    }
    match index_of_from_exec(v, ' ', start) {
        None => {
            proof {
                lemma_index_of_from(v@, ' ', start as int);
                if let Some(j) = index_of_from(s, ' ', 0) {
                    lemma_index_of_from(s, ' ', 0);
                    assert(s[j] == v@[start + j]);
                }
                lemma_index_of_from(s, ' ', 0);
                assert(index_of_from(s, ' ', 0) is None);
            }
            let mut r: Vec<String> = Vec::new();
            r.push(string_from_range(v, start, v.len()));
            r
        },
        Some(i) => {
            proof {
                lemma_index_of_from(v@, ' ', start as int);
                lemma_index_of_from(s, ' ', 0);
                assert(s[i - start] == v@[i as int]);
                assert forall|k: int| 0 <= k < i - start implies s[k] != ' ' by {
                    assert(s[k] == v@[start + k]);
                }
                match index_of_from(s, ' ', 0) {
                    Some(j) => {
                        assert(s[j] == v@[start + j]);
                        assert(j == i - start);
                    },
                    None => {},
                }
                assert(index_of_from(s, ' ', 0) == Some(i - start));
                assert(s.subrange(0, i - start) =~= v@.subrange(start as int, i as int));
                assert(s.subrange(i - start + 1, s.len() as int) =~= v@.subrange(i + 1, v@.len() as int));
            }
            assert(start <= i < v@.len());
            assert(v@.len() == v.len());
            let head = string_from_range(v, start, i);
            let rest = splitn_space_exec(v, i + 1, n - 1);
            let mut r: Vec<String> = Vec::new();
            r.push(head);
            let mut k: usize = 0;
            while k < rest.len()
                invariant
                    k <= rest@.len(),
                    start <= i < v@.len(),
                    r@.len() == k + 1,
                    r@[0]@ == s.subrange(0, i - start),
                    forall|m: int| 0 < m <= k ==> (#[trigger] r@[m])@ == rest@[m - 1]@,
                decreases rest@.len() - k,
            {
                let item = rest[k].clone();
                r.push(item);
                k = k + 1;
            }
            proof {
                let whole = splitn_space(s, n as nat);
                let tail = splitn_space(v@.subrange(i + 1, v@.len() as int), (n - 1) as nat);
                assert(whole == seq![s.subrange(0, i - start)] + tail);
                assert forall|m: int| 0 <= m < r@.len() implies (#[trigger] r@[m])@ == whole[m] by {
                    if m > 0 {
                        assert(whole[m] == tail[m - 1]);
                    }
                }
            }
            r
        },
    }
}

/// The log record of `line`: its fields when its first field is a timestamp
/// (`first_is_timestamp`), else the whole line as a native message stamped
/// with `fallback_timestamp`.
pub fn log_record_from_line(line: &str, first_is_timestamp: bool, fallback_timestamp: &str) -> (r: LogRecord)
    ensures
        r@ == if first_is_timestamp { structured_record(line@) } else { native_record(line@, fallback_timestamp@) },
{
    if !first_is_timestamp {
        return LogRecord {
            timestamp: fallback_timestamp.to_owned(),
            level: "INFO".to_owned(),
            component: "native".to_owned(),
            message: line.to_owned(),
        };
    }
    let v = chars_of(line);
    let parts = splitn_space_exec(&v, 0, 4);
    proof {
        assert(v@.subrange(0, v@.len() as int) =~= line@);
        lemma_splitn_len(line@, 4);
    }
    let timestamp = parts[0].clone();
    let level = if parts.len() > 1 { parts[1].clone() } else { "INFO".to_owned() };
    let component = if parts.len() > 2 { parts[2].clone() } else { "app".to_owned() };
    let message = if parts.len() > 3 { parts[3].clone() } else { String::new() };
    LogRecord { timestamp, level, component, message }
}

/// The first space-separated field of `line`.
fn first_field_exec(line: &str) -> (r: String)
    ensures
        r@ == first_field(line@),
{
    let v = chars_of(line);
    let parts = splitn_space_exec(&v, 0, 4);
    proof {
        assert(v@.subrange(0, v@.len() as int) =~= line@);
        lemma_splitn_len(line@, 4);
    }
    parts[0].clone()
}

/// Whether chrono reads `s` as an RFC 3339 date and time.
pub uninterp spec fn rfc3339_accepts(s: Seq<char>) -> bool;

/// Calls `chrono::DateTime::parse_from_rfc3339` and reports whether it
/// succeeded. The accepted grammar is chrono's and is not restated; the
/// answer is named by [`rfc3339_accepts`].
#[verifier::external_body]
fn is_rfc3339_timestamp(value: &str) -> (b: bool)
    ensures
        b == rfc3339_accepts(value@),
{
    chrono::DateTime::parse_from_rfc3339(value).is_ok()
}

/// The current time as RFC 3339 text, from `chrono::Utc::now().to_rfc3339()`,
/// which chrono's RFC 3339 parser reads back. Which time it is depends on the
/// clock and is left unsaid.
#[verifier::external_body]
pub(crate) fn utc_now_rfc3339() -> (s: String)
    ensures
        rfc3339_accepts(s@),
{
    chrono::Utc::now().to_rfc3339()
}

/// Parses a log line; a line without a leading timestamp keeps
/// `fallback_timestamp` when one is given and not empty, else the current time.
pub fn parse_log_line_with_fallback(line: &str, fallback_timestamp: Option<&str>) -> (r: LogRecord)
    ensures
        rfc3339_accepts(first_field(line@)) ==> r@ == structured_record(line@),
        !rfc3339_accepts(first_field(line@)) ==> {
            &&& r@.level == "INFO"@
            &&& r@.component == "native"@
            &&& r@.message == line@
            &&& (fallback_timestamp.is_some() && fallback_timestamp.unwrap()@.len() > 0 ==> r@.timestamp == fallback_timestamp.unwrap()@)
            &&& (!(fallback_timestamp.is_some() && fallback_timestamp.unwrap()@.len() > 0) ==> rfc3339_accepts(r@.timestamp))
        },
{
    let first = first_field_exec(line);
    if is_rfc3339_timestamp(first.as_str()) {
        return log_record_from_line(line, true, "");
    }
    let timestamp = match fallback_timestamp {
        Some(f) => {
            if f.is_empty() {
                utc_now_rfc3339()
            } else {
                f.to_owned()
            }
        },
        None => utc_now_rfc3339(),
    };
    log_record_from_line(line, false, timestamp.as_str())
}

/// Parses a log line, stamping a line without a timestamp with the current time.
pub fn parse_log_line(line: &str) -> (r: LogRecord)
    ensures
        rfc3339_accepts(first_field(line@)) ==> r@ == structured_record(line@),
        !rfc3339_accepts(first_field(line@)) ==> r@.level == "INFO"@ && r@.component == "native"@ && r@.message == line@
            && rfc3339_accepts(r@.timestamp),
{
    parse_log_line_with_fallback(line, None)
}

/// The text line of a record, with its message on one line.
pub open spec fn format_log_record_spec(r: LogRecordView) -> Seq<char> {
    r.timestamp + " "@ + r.level + " "@ + r.component + " "@ + single_line_spec(r.message)
}

/// Formats a record as `timestamp level component message`.
pub fn format_log_record(record: &LogRecord) -> (s: String)
    ensures
        s@ == format_log_record_spec(record@),
{
    let mut s = String::new();
    append_str(&mut s, record.timestamp.as_str());
    push_char(&mut s, ' ');
    append_str(&mut s, record.level.as_str());
    push_char(&mut s, ' ');
    append_str(&mut s, record.component.as_str());
    push_char(&mut s, ' ');
    let m = single_line(record.message.as_str());
    append_str(&mut s, m.as_str());
    proof {
        reveal_strlit(" ");
    }
    assert(s@ =~= format_log_record_spec(record@));
    s
}

// ---------------------------------------------------------------------------
// Filters

/// Which records a log view shows; a blank field filters nothing.
pub struct LogFilter {
    pub level: Option<String>,
    pub component: Option<String>,
    pub query: Option<String>,
}

pub open spec fn ascii_lower_char(c: char) -> char {
    if 'A' <= c && c <= 'Z' { ((c as u32) + 32) as char } else { c }
}

pub open spec fn ascii_lower(s: Seq<char>) -> Seq<char> {
    s.map_values(|c: char| ascii_lower_char(c))
}

/// A filter term: the trimmed text, when it is not blank.
pub open spec fn filter_term(o: Option<Seq<char>>) -> Option<Seq<char>> {
    match o {
        Some(s) => if trim(s).len() > 0 { Some(trim(s)) } else { None },
        None => None,
    }
}

pub open spec fn opt_view(o: Option<String>) -> Option<Seq<char>> {
    match o {
        Some(s) => Some(s@),
        None => None,
    }
}

/// The raw text line of a record, as written to the log file.
pub open spec fn raw_line(r: LogRecordView) -> Seq<char> {
    r.timestamp + " "@ + r.level + " "@ + r.component + " "@ + r.message
}

/// `pat` occurs somewhere in `t`.
pub open spec fn contains(t: Seq<char>, pat: Seq<char>) -> bool {
    find_from(t, 0, pat) is Some
}

/// A record passes a filter: its level and component equal the filter's,
/// ignoring ASCII case, and its raw line contains the query, ignoring ASCII case.
pub open spec fn log_matches_spec(r: LogRecordView, level: Option<Seq<char>>, component: Option<Seq<char>>, query: Option<Seq<char>>) -> bool {
    &&& (filter_term(level) matches Some(l) ==> ascii_lower(r.level) == ascii_lower(l))
    &&& (filter_term(component) matches Some(c) ==> ascii_lower(r.component) == ascii_lower(c))
    &&& (filter_term(query) matches Some(q) ==> contains(ascii_lower(raw_line(r)), ascii_lower(q)))
}

/// The characters of `s`, ASCII letters lowered.
pub fn ascii_lower_exec(s: &str) -> (r: Vec<char>)
    ensures
        r@ == ascii_lower(s@),
{
    let v = chars_of(s);
    let mut out: Vec<char> = Vec::new();
    let mut i: usize = 0;
    while i < v.len()
        invariant
            i <= v@.len(),
            v@ == s@,
            out@ == ascii_lower(v@.subrange(0, i as int)),
        decreases v@.len() - i,
    {
        let c = v[i];
        let d = if 'A' <= c && c <= 'Z' { ((c as u8) + 32) as char } else { c };
        assert(d == ascii_lower_char(c));
        out.push(d);
        i = i + 1;
        assert(ascii_lower(v@.subrange(0, i as int)) =~= ascii_lower(v@.subrange(0, i - 1 as int)).push(ascii_lower_char(c)));
    }
    assert(v@.subrange(0, v@.len() as int) =~= v@);
    out
}

/// The trimmed filter term of an optional filter field.
fn filter_term_exec(o: &Option<String>) -> (r: Option<Vec<char>>)
    ensures
        match r {
            Some(t) => filter_term(opt_view(*o)) == Some(t@),
            None => filter_term(opt_view(*o)) is None,
        },
{
    match o {
        Some(s) => {
            let v = chars_of(s.as_str());
            let (a, b) = trim_range(&v, 0, v.len(), false);
            assert(v@.subrange(0, v@.len() as int) =~= v@);
            if a < b {
                Some(crate::text::copy_range(&v, a, b))
            } else {
                None
            }
        },
        None => None,
    }
}

fn chars_eq_ignore_ascii_case(a: &str, b: &[char]) -> (r: bool)
    ensures
        r == (ascii_lower(a@) == ascii_lower(b@)),
{
    let x = ascii_lower_exec(a);
    let s = crate::text::string_from_chars(b);
    let y = ascii_lower_exec(s.as_str());
    if x.len() != y.len() {
        return false;
    }
    let mut i: usize = 0;
    while i < x.len()
        invariant
            i <= x@.len(),
            x@.len() == y@.len(),
            x@ == ascii_lower(a@),
            y@ == ascii_lower(b@),
            forall|k: int| 0 <= k < i ==> x@[k] == y@[k],
        decreases x@.len() - i,
    {
        if x[i] != y[i] {
            assert(x@[i as int] != y@[i as int]);
            return false;
        }
        i = i + 1;
    }
    assert(x@ =~= y@);
    true
}

/// Whether `record` passes `filter`.
pub fn log_matches(record: &LogRecord, filter: &LogFilter) -> (b: bool)
    ensures
        b == log_matches_spec(record@, opt_view(filter.level), opt_view(filter.component), opt_view(filter.query)),
{
    if let Some(level) = filter_term_exec(&filter.level) {
        if !chars_eq_ignore_ascii_case(record.level.as_str(), &level) {
            return false;
        }
    }
    if let Some(component) = filter_term_exec(&filter.component) {
        if !chars_eq_ignore_ascii_case(record.component.as_str(), &component) {
            return false;
        }
    }
    if let Some(query) = filter_term_exec(&filter.query) {
        let mut line = String::new();
        append_str(&mut line, record.timestamp.as_str());
        push_char(&mut line, ' ');
        append_str(&mut line, record.level.as_str());
        push_char(&mut line, ' ');
        append_str(&mut line, record.component.as_str());
        push_char(&mut line, ' ');
        append_str(&mut line, record.message.as_str());
        proof {
            reveal_strlit(" ");
        }
        assert(line@ =~= raw_line(record@));
        let hay = ascii_lower_exec(line.as_str());
        let qs = crate::text::string_from_chars(&query);
        let needle = ascii_lower_exec(qs.as_str());
        assert(needle@.len() == query@.len());
        assert(query@.len() > 0);
        return find_from_exec(&hay, 0, &needle).is_some();
    }
    true
}

pub open spec fn logs_view(v: Seq<LogRecord>) -> Seq<LogRecordView> {
    v.map_values(|r: LogRecord| r@)
}

/// The records of `rs` that pass the filter, in order.
pub open spec fn matching(rs: Seq<LogRecordView>, level: Option<Seq<char>>, component: Option<Seq<char>>, query: Option<Seq<char>>) -> Seq<LogRecordView>
    decreases rs.len(),
{
    if rs.len() == 0 {
        rs
    } else {
        let p = matching(rs.drop_last(), level, component, query);
        if log_matches_spec(rs.last(), level, component, query) { p.push(rs.last()) } else { p }
    }
}

/// A requested number of log lines, kept between one and a thousand.
pub open spec fn clamp_limit(limit: usize) -> int {
    if limit < 1 { 1 } else if limit > 1000 { 1000 } else { limit as int }
}

/// The last records to show: at most `clamp_limit(limit)` of those that pass the filter.
pub open spec fn recent_spec(rs: Seq<LogRecordView>, limit: usize, level: Option<Seq<char>>, component: Option<Seq<char>>, query: Option<Seq<char>>) -> Seq<LogRecordView> {
    let m = matching(rs, level, component, query);
    let n = if m.len() < clamp_limit(limit) { m.len() as int } else { clamp_limit(limit) };
    m.subrange(m.len() - n, m.len() as int)
}

/// The records shown are the last of those that pass the filter, in order:
/// as many as asked when at least one and at most a thousand are asked for
/// (one when none is, a thousand when more are), or all that pass when fewer do.
pub proof fn law_recent_records_are_the_last_asked_for(
    rs: Seq<LogRecordView>,
    limit: usize,
    level: Option<Seq<char>>,
    component: Option<Seq<char>>,
    query: Option<Seq<char>>,
)
    ensures
        ({
            let m = matching(rs, level, component, query);
            let r = recent_spec(rs, limit, level, component, query);
            &&& r.len() <= m.len()
            &&& r == m.subrange(m.len() - r.len(), m.len() as int)
            &&& 1 <= limit <= 1000 ==> r.len() == (if m.len() < limit { m.len() as int } else { limit as int })
            &&& limit == 0 ==> r.len() == (if m.len() < 1 { m.len() as int } else { 1 })
            &&& limit > 1000 ==> r.len() == (if m.len() < 1000 { m.len() as int } else { 1000 })
        }),
{
}

fn copy_record(r: &LogRecord) -> (c: LogRecord)
    ensures
        c@ == r@,
{
    LogRecord {
        timestamp: r.timestamp.clone(),
        level: r.level.clone(),
        component: r.component.clone(),
        message: r.message.clone(),
    }
}

/// Keeps the records that pass `filter`, then the last `limit` of them
/// (a limit is taken between one and a thousand).
pub fn recent_filtered_records(records: &Vec<LogRecord>, limit: usize, filter: &LogFilter) -> (r: Vec<LogRecord>)
    ensures
        logs_view(r@) == recent_spec(logs_view(records@), limit, opt_view(filter.level), opt_view(filter.component),
            opt_view(filter.query)),
{
    let ghost rv = logs_view(records@);
    let ghost (l, c, q) = (opt_view(filter.level), opt_view(filter.component), opt_view(filter.query));
    let mut kept: Vec<LogRecord> = Vec::new();
    let mut i: usize = 0;
    while i < records.len()
        invariant
            i <= records@.len(),
            rv == logs_view(records@),
            l == opt_view(filter.level),
            c == opt_view(filter.component),
            q == opt_view(filter.query),
            logs_view(kept@) == matching(rv.take(i as int), l, c, q),
        decreases records@.len() - i,
    {
        let rec = &records[i];
        proof {
            assert(rv.take(i + 1).drop_last() =~= rv.take(i as int));
            assert(rv.take(i + 1).last() == rec@);
        }
        if log_matches(rec, filter) {
            let ghost prev = kept@;
            kept.push(copy_record(rec));
            assert(logs_view(kept@) =~= logs_view(prev).push(rec@));
        }
        i = i + 1;
    }
    assert(rv.take(i as int) =~= rv);
    let clamped: usize = if limit < 1 { 1 } else if limit > 1000 { 1000 } else { limit };
    let start: usize = if kept.len() < clamped { 0 } else { kept.len() - clamped };
    let mut out: Vec<LogRecord> = Vec::new();
    let mut k = start;
    while k < kept.len()
        invariant
            start <= k <= kept@.len(),
            logs_view(out@) == logs_view(kept@).subrange(start as int, k as int),
        decreases kept@.len() - k,
    {
        let ghost prev = out@;
        out.push(copy_record(&kept[k]));
        assert(logs_view(out@) =~= logs_view(prev).push(kept@[k as int]@));
        assert(logs_view(kept@)[k as int] == kept@[k as int]@);
        k = k + 1;
        assert(logs_view(out@) =~= logs_view(kept@).subrange(start as int, k as int));
    }
    out
}

/// Parts joined back with single spaces.
pub open spec fn join_space(parts: Seq<Seq<char>>) -> Seq<char>
    decreases parts.len(),
{
    if parts.len() == 0 {
        Seq::empty()
    } else if parts.len() == 1 {
        parts[0]
    } else {
        parts[0] + seq![' '] + join_space(parts.drop_first())
    }
}

proof fn lemma_splitn_join(s: Seq<char>, n: nat)
    requires
        n >= 1,
    ensures
        join_space(splitn_space(s, n)) == s,
    decreases n,
{
    if n > 1 {
        match index_of_from(s, ' ', 0) {
            None => {},
            Some(i) => {
                lemma_index_of_from(s, ' ', 0);
                let rest = s.subrange(i + 1, s.len() as int);
                lemma_splitn_join(rest, (n - 1) as nat);
                lemma_splitn_len(rest, (n - 1) as nat);
                let parts = splitn_space(s, n);
                assert(parts.drop_first() =~= splitn_space(rest, (n - 1) as nat));
                assert(s =~= s.subrange(0, i) + seq![' '] + rest);
            },
        }
    }
}

/// Formatting a parsed structured line gives the line back, when it has all
/// four fields and its message is already on a single line.
pub proof fn law_structured_line_round_trip(line: Seq<char>)
    requires
        splitn_space(line, 4).len() == 4,
        single_line_spec(splitn_space(line, 4)[3]) == splitn_space(line, 4)[3],
    ensures
        format_log_record_spec(structured_record(line)) == line,
{
    let parts = splitn_space(line, 4);
    lemma_splitn_join(line, 4);
    reveal_strlit(" ");
    assert(parts.drop_first().drop_first().drop_first().len() == 1);
    let d1 = parts.drop_first();
    let d2 = d1.drop_first();
    let d3 = d2.drop_first();
    assert(join_space(d3) == parts[3]);
    assert(join_space(d2) == parts[2] + seq![' '] + join_space(d3));
    assert(join_space(d1) == parts[1] + seq![' '] + join_space(d2));
    assert(join_space(parts) == parts[0] + seq![' '] + join_space(d1));
    assert(join_space(parts) =~= parts[0] + seq![' '] + parts[1] + seq![' '] + parts[2] + seq![' '] + parts[3]);
    assert(format_log_record_spec(structured_record(line)) =~= join_space(parts));
}

/// What the record of one line of a log file holds, given the record before it.
pub open spec fn line_record_ok(line: Seq<char>, r: LogRecordView, prev: Option<LogRecordView>) -> bool {
    if rfc3339_accepts(first_field(line)) {
        r == structured_record(line)
    } else {
        &&& r.level == "INFO"@
        &&& r.component == "native"@
        &&& r.message == line
        &&& (match prev {
            Some(p) => p.timestamp.len() > 0 ==> r.timestamp == p.timestamp,
            None => true,
        })
    }
}

/// Parses the lines of a log file in order; a line without a timestamp of
/// its own takes the timestamp of the record before it.
#[verifier::rlimit(40)]
#[verifier::spinoff_prover]
pub fn parse_log_lines(lines: &[String]) -> (r: Vec<LogRecord>)
    ensures
        r@.len() == lines@.len(),
        forall|i: int| 0 <= i < r@.len() ==> line_record_ok(lines@[i]@, (#[trigger] r@[i])@,
            if i == 0 { None } else { Some(r@[i - 1]@) }),
{
    let mut out: Vec<LogRecord> = Vec::new();
    let mut i: usize = 0;
    while i < lines.len()
        invariant
            i <= lines@.len(),
            out@.len() == i,
            forall|k: int| 0 <= k < i ==> line_record_ok(lines@[k]@, (#[trigger] out@[k])@,
                if k == 0 { None } else { Some(out@[k - 1]@) }),
        decreases lines@.len() - i,
    {
        let record = if i == 0 {
            parse_log_line(lines[i].as_str())
        } else {
            parse_log_line_with_fallback(lines[i].as_str(), Some(out[i - 1].timestamp.as_str()))
        };
        let ghost before = out@;
        out.push(record);
        proof {
            assert forall|k: int| 0 <= k < i + 1 implies line_record_ok(lines@[k]@, (#[trigger] out@[k])@,
                if k == 0 { None } else { Some(out@[k - 1]@) }) by {
                if k < i {
                    assert(out@[k] == before[k]);
                    if k > 0 {
                        assert(out@[k - 1] == before[k - 1]);
                    }
                } else if k > 0 {
                    assert(out@[k - 1] == before[k - 1]);
                }
            }
        }
        i = i + 1;
    }
    out
}

} // verus!
