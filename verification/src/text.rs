//! Character-level text helpers shared by the parsers.
//!
//! Text is handled as a sequence of `char`s; byte offsets into the UTF-8
//! encoding are derived from the per-character encoded width.

use vstd::prelude::*;

verus! {

broadcast use vstd::string::group_string_axioms;

/// Appends one character to a string.
#[verifier::external_body]
pub(crate) fn push_char(s: &mut String, c: char)
    ensures
        final(s)@ == old(s)@.push(c),
{
    s.push(c);
}

/// Collects the characters of a string slice.
pub fn chars_of(s: &str) -> (v: Vec<char>)
    ensures
        v@ == s@,
{
    let mut v: Vec<char> = Vec::new();
    for c in iter: s.chars()
        invariant
            v@ == iter.seq().take(iter.index() as int),
            iter.seq() == s@,
    {
        v.push(c);
    }
    v
}

/// Builds a string from the characters `v[start..end]`.
pub fn string_from_range(v: &[char], start: usize, end: usize) -> (s: String)
    requires
        start <= end <= v@.len(),
    ensures
        s@ == v@.subrange(start as int, end as int),
{
    let mut s = String::new();
    let mut i = start;
    while i < end
        invariant
            start <= i <= end <= v@.len(),
            s@ == v@.subrange(start as int, i as int),
        decreases end - i,
    {
        push_char(&mut s, v[i]);
        i = i + 1;
    }
    s
}

/// Builds a string from all characters of `v`.
pub fn string_from_chars(v: &[char]) -> (s: String)
    ensures
        s@ == v@,
{
    let s = string_from_range(v, 0, v.len());
    assert(v@.subrange(0, v@.len() as int) =~= v@);
    s
}

/// Appends the characters `v[start..end]` to `s`.
pub fn append_range(s: &mut String, v: &[char], start: usize, end: usize)
    requires
        start <= end <= v@.len(),
    ensures
        final(s)@ == old(s)@ + v@.subrange(start as int, end as int),
{
    let mut i = start;
    while i < end
        invariant
            start <= i <= end <= v@.len(),
            s@ == old(s)@ + v@.subrange(start as int, i as int),
        decreases end - i,
    {
        push_char(s, v[i]);
        i = i + 1;
        assert(v@.subrange(start as int, i as int) =~= v@.subrange(start as int, i - 1 as int).push(v@[i - 1]));
    }
}

/// Appends all characters of `t` to `s`.
pub fn append_str(s: &mut String, t: &str)
    ensures
        final(s)@ == old(s)@ + t@,
{
    let v = chars_of(t);
    append_range(s, &v, 0, v.len());
    assert(v@.subrange(0, v@.len() as int) =~= v@);
}

// ---------------------------------------------------------------------------
// Whitespace

/// The Unicode `White_Space` property, which both `char::is_whitespace` and
/// the regular-expression class `\s` follow.
pub open spec fn is_ws(c: char) -> bool {
    let u = c as u32;
    ||| (0x09 <= u && u <= 0x0d)
    ||| u == 0x20
    ||| u == 0x85
    ||| u == 0xa0
    ||| u == 0x1680
    ||| (0x2000 <= u && u <= 0x200a)
    ||| u == 0x2028
    ||| u == 0x2029
    ||| u == 0x202f
    ||| u == 0x205f
    ||| u == 0x3000
}

/// Whether `c` is whitespace.
pub fn is_ws_exec(c: char) -> (b: bool)
    ensures
        b == is_ws(c),
{
    let u = c as u32;
    (0x09 <= u && u <= 0x0d) || u == 0x20 || u == 0x85 || u == 0xa0 || u == 0x1680 || (0x2000 <= u
        && u <= 0x200a) || u == 0x2028 || u == 0x2029 || u == 0x202f || u == 0x205f || u == 0x3000
}

/// The characters removed by a trim: all Unicode whitespace, or, when
/// `ascii_only`, just space, tab, carriage return and line feed.
pub open spec fn is_strip(c: char, ascii_only: bool) -> bool {
    if ascii_only {
        c == ' ' || c == '\t' || c == '\r' || c == '\n'
    } else {
        is_ws(c)
    }
}

/// Whether trimming removes `c`.
pub fn is_strip_exec(c: char, ascii_only: bool) -> (b: bool)
    ensures
        b == is_strip(c, ascii_only),
{
    if ascii_only {
        c == ' ' || c == '\t' || c == '\r' || c == '\n'
    } else {
        is_ws_exec(c)
    }
}

/// The first index at or after `i` that does not hold a stripped character.
pub open spec fn first_kept(s: Seq<char>, i: int, ascii_only: bool) -> int
    decreases s.len() - i,
{
    if 0 <= i < s.len() && is_strip(s[i], ascii_only) {
        first_kept(s, i + 1, ascii_only)
    } else {
        i
    }
}

/// Walking left from `j`, but not past `floor`, the end after the last kept character.
pub open spec fn last_kept_end(s: Seq<char>, j: int, floor: int, ascii_only: bool) -> int
    decreases j,
{
    if j > floor && j > 0 && is_strip(s[j - 1], ascii_only) {
        last_kept_end(s, j - 1, floor, ascii_only)
    } else {
        j
    }
}

/// `s` without leading and trailing stripped characters.
pub open spec fn trim_by(s: Seq<char>, ascii_only: bool) -> Seq<char> {
    let a = first_kept(s, 0, ascii_only);
    s.subrange(a, last_kept_end(s, s.len() as int, a, ascii_only))
}

/// `s` without leading stripped characters.
pub open spec fn trim_start_by(s: Seq<char>, ascii_only: bool) -> Seq<char> {
    s.subrange(first_kept(s, 0, ascii_only), s.len() as int)
}

/// `str::trim`: removes Unicode whitespace at both ends.
pub open spec fn trim(s: Seq<char>) -> Seq<char> {
    trim_by(s, false)
}

pub proof fn lemma_first_kept_bounds(s: Seq<char>, i: int, ascii_only: bool)
    requires
        0 <= i <= s.len(),
    ensures
        i <= first_kept(s, i, ascii_only) <= s.len(),
        forall|k: int| i <= k < first_kept(s, i, ascii_only) ==> is_strip(#[trigger] s[k], ascii_only),
        first_kept(s, i, ascii_only) < s.len() ==> !is_strip(s[first_kept(s, i, ascii_only)], ascii_only),
    decreases s.len() - i,
{
    if i < s.len() && is_strip(s[i], ascii_only) {
        lemma_first_kept_bounds(s, i + 1, ascii_only);
    }
}

pub proof fn lemma_last_kept_end_bounds(s: Seq<char>, j: int, floor: int, ascii_only: bool)
    requires
        0 <= floor <= j <= s.len(),
    ensures
        floor <= last_kept_end(s, j, floor, ascii_only) <= j,
        forall|k: int| last_kept_end(s, j, floor, ascii_only) <= k < j ==> is_strip(#[trigger] s[k], ascii_only),
        last_kept_end(s, j, floor, ascii_only) > floor ==> !is_strip(s[last_kept_end(s, j, floor, ascii_only) - 1], ascii_only),
    decreases j,
{
    if j > floor && j > 0 && is_strip(s[j - 1], ascii_only) {
        lemma_last_kept_end_bounds(s, j - 1, floor, ascii_only);
    }
}

/// Finds the trimmed bounds of `v[start..end]`.
pub fn trim_range(v: &[char], start: usize, end: usize, ascii_only: bool) -> (r: (usize, usize))
    requires
        start <= end <= v@.len(),
    ensures
        start <= r.0 <= r.1 <= end,
        r.0 - start == first_kept(v@.subrange(start as int, end as int), 0, ascii_only),
        r.1 - start == last_kept_end(v@.subrange(start as int, end as int), end - start, r.0 - start, ascii_only),
        v@.subrange(r.0 as int, r.1 as int) == trim_by(v@.subrange(start as int, end as int), ascii_only),
{
    let ghost s = v@.subrange(start as int, end as int);
    let mut a = start;
    while a < end && is_strip_exec(v[a], ascii_only)
        invariant
            start <= a <= end <= v@.len(),
            s == v@.subrange(start as int, end as int),
            first_kept(s, 0, ascii_only) == first_kept(s, a - start, ascii_only),
        decreases end - a,
    {
        assert(s[a - start] == v@[a as int]);
        a = a + 1;
    }
    proof {
        if a < end {
            assert(s[a - start] == v@[a as int]);
        }
        assert(first_kept(s, a - start, ascii_only) == a - start);
    }
    let ghost fa = (a - start) as int;
    let mut b = end;
    while b > a && is_strip_exec(v[b - 1], ascii_only)
        invariant
            start <= a <= b <= end <= v@.len(),
            s == v@.subrange(start as int, end as int),
            fa == a - start,
            last_kept_end(s, s.len() as int, fa, ascii_only) == last_kept_end(s, b - start, fa, ascii_only),
        decreases b,
    {
        assert(s[b - 1 - start] == v@[b - 1]);
        b = b - 1;
    }
    proof {
        if b > a {
            assert(s[b - 1 - start] == v@[b - 1]);
        }
        assert(last_kept_end(s, b - start, fa, ascii_only) == b - start);
        assert(v@.subrange(a as int, b as int) =~= s.subrange(fa, b - start));
    }
    (a, b)
}

/// `str::trim` on a whole string.
pub fn trim_string(t: &str) -> (r: String)
    ensures
        r@ == trim(t@),
{
    let v = chars_of(t);
    let (a, b) = trim_range(&v, 0, v.len(), false);
    assert(v@.subrange(0, v@.len() as int) =~= v@);
    string_from_range(&v, a, b)
}

// ---------------------------------------------------------------------------
// UTF-8 widths

/// Number of bytes of the UTF-8 encoding of `c`.
pub open spec fn char_width(c: char) -> nat {
    if (c as u32) < 0x80 {
        1
    } else if (c as u32) < 0x800 {
        2
    } else if (c as u32) < 0x10000 {
        3
    } else {
        4
    }
}

/// The number of UTF-8 bytes of `c`.
pub fn char_width_exec(c: char) -> (w: usize)
    ensures
        w == char_width(c),
{
    let u = c as u32;
    if u < 0x80 {
        1
    } else if u < 0x800 {
        2
    } else if u < 0x10000 {
        3
    } else {
        4
    }
}

/// Number of bytes of the UTF-8 encoding of `s`: the value `str::len` reports.
pub open spec fn utf8_len(s: Seq<char>) -> nat
    decreases s.len(),
{
    if s.len() == 0 {
        0
    } else {
        utf8_len(s.drop_last()) + char_width(s.last())
    }
}

pub proof fn lemma_utf8_len_concat(a: Seq<char>, b: Seq<char>)
    ensures
        utf8_len(a + b) == utf8_len(a) + utf8_len(b),
    decreases b.len(),
{
    if b.len() == 0 {
        assert(a + b =~= a);
    } else {
        lemma_utf8_len_concat(a, b.drop_last());
        assert((a + b).drop_last() =~= a + b.drop_last());
    }
}

pub proof fn lemma_utf8_len_bounds(s: Seq<char>)
    ensures
        s.len() <= utf8_len(s) <= 4 * s.len(),
    decreases s.len(),
{
    if s.len() > 0 {
        lemma_utf8_len_bounds(s.drop_last());
    }
}

/// Byte length of a prefix grows with the prefix.
pub proof fn lemma_utf8_len_prefix_mono(s: Seq<char>, i: int, j: int)
    requires
        0 <= i <= j <= s.len(),
    ensures
        utf8_len(s.subrange(0, i)) <= utf8_len(s.subrange(0, j)),
        utf8_len(s.subrange(0, j)) == utf8_len(s.subrange(0, i)) + utf8_len(s.subrange(i, j)),
{
    lemma_utf8_len_concat(s.subrange(0, i), s.subrange(i, j));
    assert(s.subrange(0, i) + s.subrange(i, j) =~= s.subrange(0, j));
}

/// Byte length of `v[start..end]`.
pub fn utf8_len_range(v: &[char], start: usize, end: usize) -> (n: usize)
    requires
        start <= end <= v@.len(),
        utf8_len(v@) <= usize::MAX,
    ensures
        n == utf8_len(v@.subrange(start as int, end as int)),
{
    let mut n: usize = 0;
    let mut i = start;
    while i < end
        invariant
            start <= i <= end <= v@.len(),
            utf8_len(v@) <= usize::MAX,
            n == utf8_len(v@.subrange(start as int, i as int)),
        decreases end - i,
    {
        proof {
            assert(v@.subrange(start as int, i + 1 as int).drop_last() =~= v@.subrange(start as int, i as int));
            lemma_utf8_len_prefix_mono(v@, start as int, i + 1);
            lemma_utf8_len_prefix_mono(v@, i + 1, v@.len() as int);
            assert(v@.subrange(0, v@.len() as int) =~= v@);
        }
        n = n + char_width_exec(v[i]);
        i = i + 1;
    }
    n
}

// ---------------------------------------------------------------------------
// Literals and decimal numbers

/// `pat` occurs in `s` at index `i`.
pub open spec fn occurs_at(s: Seq<char>, i: int, pat: Seq<char>) -> bool {
    0 <= i && i + pat.len() <= s.len() && s.subrange(i, i + pat.len()) == pat
}

/// Tests whether `pat` occurs in `v` at index `i`.
pub fn occurs_at_exec(v: &[char], i: usize, pat: &[char]) -> (b: bool)
    ensures
        b == occurs_at(v@, i as int, pat@),
{
    if i > v.len() || pat.len() > v.len() - i {
        return false;
    }
    let mut k: usize = 0;
    while k < pat.len()
        invariant
            i + pat@.len() <= v@.len(),
            v@.len() == v.len(),
            k <= pat@.len(),
            forall|m: int| 0 <= m < k ==> v@[i + m] == pat@[m],
        decreases pat.len() - k,
    {
        assert(i + k < v.len());
        if v[i + k] != pat[k] {
            assert(v@.subrange(i as int, i + pat@.len())[k as int] != pat@[k as int]);
            return false;
        }
        k = k + 1;
    }
    assert(v@.subrange(i as int, i + pat@.len()) =~= pat@);
    true
}

/// The decimal digit character for `d < 10`.
pub open spec fn digit_char(d: nat) -> char {
    if d == 0 {
        '0'
    } else if d == 1 {
        '1'
    } else if d == 2 {
        '2'
    } else if d == 3 {
        '3'
    } else if d == 4 {
        '4'
    } else if d == 5 {
        '5'
    } else if d == 6 {
        '6'
    } else if d == 7 {
        '7'
    } else if d == 8 {
        '8'
    } else {
        '9'
    }
}

pub(crate) fn digit_char_exec(d: u64) -> (c: char)
    requires
        d < 10,
    ensures
        c == digit_char(d as nat),
{
    if d == 0 {
        '0'
    } else if d == 1 {
        '1'
    } else if d == 2 {
        '2'
    } else if d == 3 {
        '3'
    } else if d == 4 {
        '4'
    } else if d == 5 {
        '5'
    } else if d == 6 {
        '6'
    } else if d == 7 {
        '7'
    } else if d == 8 {
        '8'
    } else {
        '9'
    }
}

/// The decimal rendering of `n` (as `Display` writes integers).
pub open spec fn decimal(n: nat) -> Seq<char>
    decreases n,
{
    if n < 10 {
        seq![digit_char(n)]
    } else {
        decimal(n / 10).push(digit_char(n % 10))
    }
}

/// Appends the decimal rendering of `n` to `s`.
pub fn push_decimal(s: &mut String, n: u64)
    ensures
        final(s)@ == old(s)@ + decimal(n as nat),
    decreases n,
{
    if n >= 10 {
        push_decimal(s, n / 10);
    }
    push_char(s, digit_char_exec(n % 10));
    proof {
        if n >= 10 {
            assert(old(s)@ + decimal(n as nat) =~= old(s)@ + decimal((n / 10) as nat) + seq![digit_char((n % 10) as nat)]);
        } else {
            assert(decimal(n as nat) =~= seq![digit_char(n as nat)]);
        }
    }
}

/// Copies `v[start..end]` into a new vector.
pub fn copy_range(v: &[char], start: usize, end: usize) -> (r: Vec<char>)
    requires
        start <= end <= v@.len(),
    ensures
        r@ == v@.subrange(start as int, end as int),
{
    let mut r: Vec<char> = Vec::new();
    let mut i = start;
    while i < end
        invariant
            start <= i <= end <= v@.len(),
            r@ == v@.subrange(start as int, i as int),
        decreases end - i,
    {
        r.push(v[i]);
        i = i + 1;
    }
    r
}

/// The first index at or after `i` holding `ch`.
pub open spec fn index_of_from(s: Seq<char>, ch: char, i: int) -> Option<int>
    decreases s.len() - i,
{
    if i < 0 || i >= s.len() {
        None
    } else if s[i] == ch {
        Some(i)
    } else {
        index_of_from(s, ch, i + 1)
    }
}

pub proof fn lemma_index_of_from(s: Seq<char>, ch: char, i: int)
    requires
        0 <= i,
    ensures
        index_of_from(s, ch, i) matches Some(k) ==> i <= k < s.len() && s[k] == ch
            && forall|j: int| i <= j < k ==> s[j] != ch,
        index_of_from(s, ch, i) is None ==> forall|k: int| i <= k < s.len() ==> s[k] != ch,
    decreases s.len() - i,
{
    if i < s.len() && s[i] != ch {
        lemma_index_of_from(s, ch, i + 1);
    }
}

/// Finds the first `ch` in `v` at or after `i`.
pub fn index_of_from_exec(v: &[char], ch: char, i: usize) -> (r: Option<usize>)
    ensures
        match r {
            Some(k) => index_of_from(v@, ch, i as int) == Some(k as int),
            None => index_of_from(v@, ch, i as int) is None,
        },
{
    let mut k = i;
    while k < v.len() && v[k] != ch
        invariant
            i <= k,
            index_of_from(v@, ch, i as int) == index_of_from(v@, ch, k as int),
        decreases v@.len() - k,
    {
        k = k + 1;
    }
    if k < v.len() {
        Some(k)
    } else {
        None
    }
}
/// Whether two string slices hold the same characters.
pub fn str_eq(a: &str, b: &str) -> (r: bool)
    ensures
        r == (a@ == b@),
{
    let x = chars_of(a);
    let y = chars_of(b);
    if x.len() != y.len() {
        return false;
    }
    let mut i: usize = 0;
    while i < x.len()
        invariant
            i <= x@.len(),
            x@.len() == y@.len(),
            x@ == a@,
            y@ == b@,
            forall|k: int| 0 <= k < i ==> x@[k] == y@[k],
        decreases x@.len() - i,
    {
        if x[i] != y[i] {
            return false;
        }
        i = i + 1;
    }
    assert(x@ =~= y@);
    true
}

} // verus!
