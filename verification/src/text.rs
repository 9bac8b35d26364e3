//! Character-sequence utilities shared by the parser: whitespace
//! classification, substring search, newline counting, trimming, line
//! extraction and conversions between `&str`, `Vec<char>` and `String`.

use vstd::prelude::*;
use vstd::string::StrSliceExecFns;

verus! {

/// The characters of Unicode's `White_Space` class, the ones that
/// `char::is_whitespace` accepts.
pub open spec fn is_ws(c: char) -> bool {
    c == ' ' || c == '\t' || c == '\n' || c == '\r' || c == '\u{0B}' || c == '\u{0C}'
        || c == '\u{85}' || c == '\u{A0}' || c == '\u{1680}' || c == '\u{2000}' || c == '\u{2001}'
        || c == '\u{2002}' || c == '\u{2003}' || c == '\u{2004}' || c == '\u{2005}'
        || c == '\u{2006}' || c == '\u{2007}' || c == '\u{2008}' || c == '\u{2009}'
        || c == '\u{200A}' || c == '\u{2028}' || c == '\u{2029}' || c == '\u{202F}'
        || c == '\u{205F}' || c == '\u{3000}'
}

pub fn ws_char(c: char) -> (b: bool)
    ensures
        b == is_ws(c),
{
    c == ' ' || c == '\t' || c == '\n' || c == '\r' || c == '\u{0B}' || c == '\u{0C}'
        || c == '\u{85}' || c == '\u{A0}' || c == '\u{1680}' || c == '\u{2000}' || c == '\u{2001}'
        || c == '\u{2002}' || c == '\u{2003}' || c == '\u{2004}' || c == '\u{2005}'
        || c == '\u{2006}' || c == '\u{2007}' || c == '\u{2008}' || c == '\u{2009}'
        || c == '\u{200A}' || c == '\u{2028}' || c == '\u{2029}' || c == '\u{202F}'
        || c == '\u{205F}' || c == '\u{3000}'
}

/// The pattern `pat` occurs in `t` starting at position `i`.
pub open spec fn match_at(t: Seq<char>, pat: Seq<char>, i: int) -> bool {
    0 <= i && i + pat.len() <= t.len() && t.subrange(i, i + pat.len() as int) == pat
}

/// Position of the first occurrence of `pat` in `t` at or after `from`.
pub open spec fn find_from(t: Seq<char>, pat: Seq<char>, from: int) -> Option<int>
    decreases t.len() - from + 1,
{
    if from < 0 || from + pat.len() > t.len() {
        None
    } else if match_at(t, pat, from) {
        Some(from)
    } else {
        find_from(t, pat, from + 1)
    }
}

/// What a `Some` answer of `find_from` means: a first occurrence.
pub proof fn lemma_find_from_some(t: Seq<char>, pat: Seq<char>, from: int, i: int)
    requires
        find_from(t, pat, from) == Some(i),
    ensures
        from <= i,
        match_at(t, pat, i),
        forall|j: int| from <= j < i ==> !match_at(t, pat, j),
    decreases t.len() - from + 1,
{
    if !(from < 0 || from + pat.len() > t.len()) && !match_at(t, pat, from) {
        lemma_find_from_some(t, pat, from + 1, i);
    }
}

/// What a `None` answer of `find_from` means: no occurrence at all.
pub proof fn lemma_find_from_none(t: Seq<char>, pat: Seq<char>, from: int)
    requires
        find_from(t, pat, from) is None,
        from >= 0,
    ensures
        forall|j: int| from <= j ==> !match_at(t, pat, j),
    decreases t.len() - from + 1,
{
    if from + pat.len() > t.len() {
        assert forall|j: int| from <= j implies !match_at(t, pat, j) by {
            assert(j + pat.len() > t.len());
        }
    } else {
        lemma_find_from_none(t, pat, from + 1);
    }
}

/// A known first occurrence determines `find_from`'s answer.
pub proof fn lemma_find_from_exact(t: Seq<char>, pat: Seq<char>, from: int, i: int)
    requires
        0 <= from <= i,
        match_at(t, pat, i),
        forall|j: int| from <= j < i ==> !match_at(t, pat, j),
    ensures
        find_from(t, pat, from) == Some(i),
    decreases i - from,
{
    if from < i {
        lemma_find_from_exact(t, pat, from + 1, i);
    }
}

/// Occurrences inside a window of `t` are occurrences in `t`, shifted.
pub proof fn lemma_match_at_window(t: Seq<char>, a: int, b: int, pat: Seq<char>, q: int)
    requires
        0 <= a <= b <= t.len(),
        0 <= q,
        q + pat.len() <= b - a,
    ensures
        match_at(t.subrange(a, b), pat, q) == match_at(t, pat, a + q),
{
    let w = t.subrange(a, b);
    assert(w.subrange(q, q + pat.len() as int) =~= t.subrange(a + q, a + q + pat.len() as int));
}

/// A one-character pattern occurs at `j` exactly when that character
/// stands there.
pub proof fn lemma_match_single(s: Seq<char>, c: char, j: int)
    requires
        0 <= j < s.len(),
    ensures
        match_at(s, seq![c], j) == (s[j] == c),
{
    if s[j] == c {
        assert(s.subrange(j, j + 1) =~= seq![c]);
    } else {
        assert(s.subrange(j, j + 1)[0] == s[j]);
    }
}

/// Does `pat` occur in `t` exactly at position `i`?
pub fn pattern_at(t: &Vec<char>, pat: &Vec<char>, i: usize) -> (b: bool)
    requires
        i + pat@.len() <= t@.len(),
    ensures
        b == match_at(t@, pat@, i as int),
{
    let n = t.len();
    let m = pat.len();
    let mut j: usize = 0;
    while j < m
        invariant
            n == t@.len(),
            m == pat@.len(),
            i + m <= n,
            j <= m,
            forall|k: int| 0 <= k < j ==> t@[i + k] == pat@[k],
        decreases m - j,
    {
        if t[i + j] != pat[j] {
            assert(t@.subrange(i as int, i + pat@.len() as int)[j as int] == t@[i + j]);
            return false;
        }
        j += 1;
    }
    assert(t@.subrange(i as int, i + pat@.len() as int) =~= pat@);
    true
}

/// First occurrence of `pat` in `t` at or after `from`, as `find_from` gives it.
pub fn find_pattern(t: &Vec<char>, pat: &Vec<char>, from: usize) -> (r: Option<usize>)
    requires
        from <= t@.len(),
        pat@.len() >= 1,
    ensures
        match r {
            Some(i) => find_from(t@, pat@, from as int) == Some(i as int),
            None => find_from(t@, pat@, from as int) is None,
        },
{
    let n = t.len();
    let m = pat.len();
    if m > n - from {
        return None;
    }
    let mut i: usize = from;
    loop
        invariant
            n == t@.len(),
            m == pat@.len(),
            m >= 1,
            from <= i,
            i + m <= n,
            find_from(t@, pat@, from as int) == find_from(t@, pat@, i as int),
        decreases n - i,
    {
        if pattern_at(t, pat, i) {
            return Some(i);
        }
        if i == n - m {
            assert(find_from(t@, pat@, i + 1) is None);
            return None;
        }
        i += 1;
    }
}

/// How many times `c` occurs in `s`.
pub open spec fn count_char(s: Seq<char>, c: char) -> nat
    decreases s.len(),
{
    if s.len() == 0 {
        0
    } else {
        count_char(s.drop_last(), c) + (if s.last() == c { 1nat } else { 0nat })
    }
}

pub proof fn lemma_count_char_le_len(s: Seq<char>, c: char)
    ensures
        count_char(s, c) <= s.len(),
    decreases s.len(),
{
    if s.len() > 0 {
        lemma_count_char_le_len(s.drop_last(), c);
    }
}

pub proof fn lemma_count_char_additive(a: Seq<char>, b: Seq<char>, c: char)
    ensures
        count_char(a + b, c) == count_char(a, c) + count_char(b, c),
    decreases b.len(),
{
    if b.len() == 0 {
        assert(a + b =~= a);
    } else {
        assert((a + b).drop_last() =~= a + b.drop_last());
        assert((a + b).last() == b.last());
        lemma_count_char_additive(a, b.drop_last(), c);
    }
}

pub proof fn lemma_count_char_positive(s: Seq<char>, c: char, i: int)
    requires
        0 <= i < s.len(),
        s[i] == c,
    ensures
        count_char(s, c) >= 1,
    decreases s.len(),
{
    if i < s.len() - 1 {
        lemma_count_char_positive(s.drop_last(), c, i);
    }
}

/// Occurrences of `c` in the first `end` characters of `t`.
pub fn count_char_upto(t: &Vec<char>, end: usize, c: char) -> (n: usize)
    requires
        end <= t@.len(),
    ensures
        n == count_char(t@.subrange(0, end as int), c),
{
    let mut n: usize = 0;
    let mut i: usize = 0;
    while i < end
        invariant
            i <= end <= t@.len(),
            n == count_char(t@.subrange(0, i as int), c),
            n <= i,
        decreases end - i,
    {
        proof {
            let pre = t@.subrange(0, i + 1);
            assert(pre.drop_last() =~= t@.subrange(0, i as int));
            lemma_count_char_le_len(t@.subrange(0, i as int), c);
        }
        if t[i] == c {
            n += 1;
        }
        i += 1;
    }
    n
}

/// Index of the first character at or after `i` that is not whitespace,
/// or `s.len()` if all of them are.
pub open spec fn first_non_ws(s: Seq<char>, i: int) -> int
    decreases s.len() - i,
{
    if i < 0 || i >= s.len() {
        s.len() as int
    } else if is_ws(s[i]) {
        first_non_ws(s, i + 1)
    } else {
        i
    }
}

pub proof fn lemma_first_non_ws(s: Seq<char>, i: int)
    requires
        0 <= i <= s.len(),
    ensures
        i <= first_non_ws(s, i) <= s.len(),
        forall|k: int| i <= k < first_non_ws(s, i) ==> is_ws(s[k]),
        first_non_ws(s, i) < s.len() ==> !is_ws(s[first_non_ws(s, i)]),
    decreases s.len() - i,
{
    if i < s.len() && is_ws(s[i]) {
        lemma_first_non_ws(s, i + 1);
    }
}

/// One past the last character before `j` that is not whitespace,
/// or `0` if all of them are.
pub open spec fn end_non_ws(s: Seq<char>, j: int) -> int
    decreases j,
{
    if j <= 0 || j > s.len() {
        0
    } else if is_ws(s[j - 1]) {
        end_non_ws(s, j - 1)
    } else {
        j
    }
}

pub proof fn lemma_end_non_ws(s: Seq<char>, j: int)
    requires
        0 <= j <= s.len(),
    ensures
        0 <= end_non_ws(s, j) <= j,
        forall|k: int| end_non_ws(s, j) <= k < j ==> is_ws(s[k]),
        end_non_ws(s, j) > 0 ==> !is_ws(s[end_non_ws(s, j) - 1]),
    decreases j,
{
    if j > 0 && is_ws(s[j - 1]) {
        lemma_end_non_ws(s, j - 1);
    }
}

/// Every character is whitespace.
pub open spec fn is_blank(s: Seq<char>) -> bool {
    forall|i: int| 0 <= i < s.len() ==> is_ws(s[i])
}

/// What `str::trim` leaves: the span between the first and the last
/// character that is not whitespace.
pub open spec fn trim_seq(s: Seq<char>) -> Seq<char> {
    let a = first_non_ws(s, 0);
    let b = end_non_ws(s, s.len() as int);
    if a >= b {
        Seq::empty()
    } else {
        s.subrange(a, b)
    }
}

/// What `str::trim_end` leaves.
pub open spec fn trim_end_seq(s: Seq<char>) -> Seq<char> {
    s.subrange(0, end_non_ws(s, s.len() as int))
}

/// The characters of `t` between `a` and `b`.
pub fn sub_vec(t: &Vec<char>, a: usize, b: usize) -> (r: Vec<char>)
    requires
        a <= b <= t@.len(),
    ensures
        r@ == t@.subrange(a as int, b as int),
{
    let mut r: Vec<char> = Vec::new();
    let mut i: usize = a;
    while i < b
        invariant
            a <= i <= b <= t@.len(),
            r@ == t@.subrange(a as int, i as int),
        decreases b - i,
    {
        r.push(t[i]);
        proof {
            assert(t@.subrange(a as int, i + 1) =~= t@.subrange(a as int, i as int).push(
                t@[i as int],
            ));
        }
        i += 1;
    }
    r
}

/// Is the span of `t` between `a` and `b` all whitespace?
pub fn blank_range(t: &Vec<char>, a: usize, b: usize) -> (r: bool)
    requires
        a <= b <= t@.len(),
    ensures
        r == is_blank(t@.subrange(a as int, b as int)),
{
    let ghost w = t@.subrange(a as int, b as int);
    let mut i: usize = a;
    while i < b
        invariant
            a <= i <= b <= t@.len(),
            w == t@.subrange(a as int, b as int),
            forall|k: int| 0 <= k < i - a ==> is_ws(w[k]),
        decreases b - i,
    {
        if !ws_char(t[i]) {
            assert(w[i - a] == t@[i as int]);
            return false;
        }
        i += 1;
    }
    true
}

/// `str::trim` on the span of `t` between `a` and `b`.
pub fn trim_range(t: &Vec<char>, a: usize, b: usize) -> (r: Vec<char>)
    requires
        a <= b <= t@.len(),
    ensures
        r@ == trim_seq(t@.subrange(a as int, b as int)),
{
    let ghost w = t@.subrange(a as int, b as int);
    let mut lo: usize = a;
    while lo < b && ws_char(t[lo])
        invariant
            a <= lo <= b <= t@.len(),
            w == t@.subrange(a as int, b as int),
            first_non_ws(w, 0) == first_non_ws(w, lo - a),
        decreases b - lo,
    {
        assert(w[lo - a] == t@[lo as int]);
        lo += 1;
    }
    proof {
        if lo < b {
            assert(w[lo - a] == t@[lo as int]);
        }
    }
    let mut hi: usize = b;
    while hi > lo && ws_char(t[hi - 1])
        invariant
            a <= lo <= hi <= b <= t@.len(),
            w == t@.subrange(a as int, b as int),
            lo == b || !is_ws(w[lo - a]),
            lo == b || hi > lo,
            end_non_ws(w, (b - a) as int) == end_non_ws(w, (hi - a) as int),
        decreases hi,
    {
        assert(w[hi - 1 - a] == t@[hi - 1]);
        hi -= 1;
    }
    proof {
        if hi > lo {
            assert(w[hi - 1 - a] == t@[hi - 1]);
        }
        lemma_first_non_ws(w, 0);
        lemma_end_non_ws(w, (b - a) as int);
        if lo == b {
            // the span is all whitespace
            assert(first_non_ws(w, lo - a) == w.len());
            assert(trim_seq(w) =~= t@.subrange(lo as int, hi as int));
        } else {
            assert(first_non_ws(w, lo - a) == lo - a);
            assert(hi > lo);
            assert(end_non_ws(w, (hi - a) as int) == hi - a);
            assert(trim_seq(w) =~= t@.subrange(lo as int, hi as int));
        }
    }
    sub_vec(t, lo, hi)
}

/// `str::trim_end` on the span of `t` between `a` and `b`.
pub fn trim_end_range(t: &Vec<char>, a: usize, b: usize) -> (r: Vec<char>)
    requires
        a <= b <= t@.len(),
    ensures
        r@ == trim_end_seq(t@.subrange(a as int, b as int)),
{
    let ghost w = t@.subrange(a as int, b as int);
    let mut hi: usize = b;
    while hi > a && ws_char(t[hi - 1])
        invariant
            a <= hi <= b <= t@.len(),
            w == t@.subrange(a as int, b as int),
            end_non_ws(w, (b - a) as int) == end_non_ws(w, (hi - a) as int),
        decreases hi,
    {
        assert(w[hi - 1 - a] == t@[hi - 1]);
        hi -= 1;
    }
    proof {
        if hi > a {
            assert(w[hi - 1 - a] == t@[hi - 1]);
        }
        lemma_end_non_ws(w, (b - a) as int);
        assert(trim_end_seq(w) =~= t@.subrange(a as int, hi as int));
    }
    sub_vec(t, a, hi)
}

/// The first `n` characters of `s`, or all of `s` when it is shorter.
pub open spec fn take_n(s: Seq<char>, n: int) -> Seq<char> {
    if s.len() <= n {
        s
    } else {
        s.subrange(0, n)
    }
}

pub fn take_prefix(t: &Vec<char>, n: usize) -> (r: Vec<char>)
    ensures
        r@ == take_n(t@, n as int),
{
    if t.len() <= n {
        sub_vec(t, 0, t.len())
    } else {
        sub_vec(t, 0, n)
    }
}

/// Where the line that begins at `i` ends: the position of the next
/// newline, or the end of the text.
pub open spec fn line_end_from(s: Seq<char>, i: int) -> int {
    match find_from(s, seq!['\n'], i) {
        Some(p) => p,
        None => s.len() as int,
    }
}

pub proof fn lemma_line_end_from(s: Seq<char>, i: int)
    requires
        0 <= i <= s.len(),
    ensures
        i <= line_end_from(s, i) <= s.len(),
        forall|k: int| i <= k < line_end_from(s, i) ==> s[k] != '\n',
        line_end_from(s, i) < s.len() ==> s[line_end_from(s, i)] == '\n',
{
    let pat = seq!['\n'];
    assert forall|j: int| 0 <= j && j + 1 <= s.len() implies match_at(s, pat, j) == (s[j] == '\n') by {
        if s[j] == '\n' {
            assert(s.subrange(j, j + 1) =~= pat);
        } else {
            assert(s.subrange(j, j + 1)[0] == s[j]);
        }
    }
    match find_from(s, pat, i) {
        Some(p) => {
            lemma_find_from_some(s, pat, i, p);
        },
        None => {
            lemma_find_from_none(s, pat, i);
            assert forall|k: int| i <= k < s.len() implies s[k] != '\n' by {
                assert(!match_at(s, pat, k));
            }
        },
    }
}

/// The line that begins at position `i` of `s`, without its newline.
pub open spec fn line_at(s: Seq<char>, i: int) -> Seq<char> {
    s.subrange(i, line_end_from(s, i))
}

/// What `str::lines` does to the end of a line: one trailing carriage
/// return is dropped.
pub open spec fn strip_cr(s: Seq<char>) -> Seq<char> {
    if s.len() > 0 && s.last() == '\r' {
        s.drop_last()
    } else {
        s
    }
}

pub fn strip_cr_vec(mut v: Vec<char>) -> (r: Vec<char>)
    ensures
        r@ == strip_cr(v@),
{
    if v.len() > 0 && v[v.len() - 1] == '\r' {
        let ghost before = v@;
        v.pop();
        proof {
            assert(v@ =~= before.drop_last());
        }
    }
    v
}

/// Position of the next newline in `t` at or after `from`, or the text's
/// end, matching `line_end_from`.
pub fn line_end_exec(t: &Vec<char>, from: usize) -> (e: usize)
    requires
        from <= t@.len(),
    ensures
        e == line_end_from(t@, from as int),
        from <= e <= t@.len(),
{
    let nl: Vec<char> = vec!['\n'];
    proof {
        assert(nl@ =~= seq!['\n']);
        lemma_line_end_from(t@, from as int);
    }
    match find_pattern(t, &nl, from) {
        Some(p) => {
            proof {
                lemma_find_from_some(t@, nl@, from as int, p as int);
            }
            p
        },
        None => t.len(),
    }
}

/// The characters of `s`, one by one.
pub fn str_chars(s: &str) -> (v: Vec<char>)
    ensures
        v@ == s@,
{
    let n = s.unicode_len();
    let mut v: Vec<char> = Vec::new();
    let mut i: usize = 0;
    while i < n
        invariant
            i <= n,
            n == s@.len(),
            v@ == s@.subrange(0, i as int),
        decreases n - i,
    {
        v.push(s.get_char(i));
        proof {
            assert(s@.subrange(0, i + 1) =~= s@.subrange(0, i as int).push(s@[i as int]));
        }
        i += 1;
    }
    proof {
        assert(s@.subrange(0, n as int) =~= s@);
    }
    v
}

/// Relies on `String`'s `FromIterator` implementation: collecting
/// characters yields the string of exactly those characters in order.
#[verifier::external_body]
pub fn chars_to_string(v: &Vec<char>) -> (s: String)
    ensures
        s@ == v@,
{
    v.iter().collect()
}

} // verus!
