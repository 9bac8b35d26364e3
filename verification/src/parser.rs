//! The bundle parser.  `parse_bundle` scans the whole text once and
//! returns either every entry or every structural error, exactly as
//! `crate::model::parse_model` describes.

use vstd::prelude::*;
use crate::model::{
    excerpt_of, file_prefix, first_header_start, first_header_start_from, first_nonblank_line,
    has_sep_between, header_pair_at, outcome_matches, parse_model, scan, sep_seq,
    starts_with_after_ws, EntryModel, ErrorModel, ParseModel,
};
use crate::paths::{char_views, contains_chars, normal_form};
use crate::text::{
    blank_range, chars_to_string, count_char_upto, find_pattern, lemma_count_char_le_len,
    lemma_find_from_none, lemma_find_from_some, lemma_match_at_window, line_end_exec, pattern_at,
    str_chars, strip_cr_vec, sub_vec, take_prefix, trim_end_range, trim_range,
};

verus! {

/// One file decoded from the bundle: its relative path, and its content
/// byte for byte.
#[derive(Debug, Clone, PartialEq, Eq)]
pub struct ParsedEntry {
    pub path: String,
    pub content: String,
}

impl View for ParsedEntry {
    type V = EntryModel;

    open spec fn view(&self) -> EntryModel {
        EntryModel { path: self.path@, content: self.content@ }
    }
}

/// A structural defect of the bundle text, anchored at a 1-based line
/// number.
#[derive(Debug, Clone, PartialEq, Eq)]
pub enum BundleValidationError {
    ContentBeforeFirstHeader { line_number: usize, content_excerpt: String },
    MalformedHeaderMissingFilePrefix { line_number: usize, header_line: String },
    MalformedHeaderMissingSeparatorAfterPath { line_number: usize, path_line: String },
    MalformedHeaderPathLineInterruptedBySeparator { line_number: usize, path_line: String },
    MalformedHeaderPathLineMissingNewline { line_number: usize, path_line: String },
    MalformedHeaderMissingNewlineAfterContentSeparator { line_number: usize, separator_line: String },
    EmptyPath { line_number: usize },
    AbsolutePathNotAllowed { line_number: usize, path: String },
    DuplicatePath { line_number: usize, path: String },
    PrematureEOFBeforePathLine { line_number: usize },
    PrematureEOFBeforeContentSeparator { line_number: usize, path: String },
    PrematureEOFBeforeContentSeparatorNewline { line_number: usize, path: String },
    UnexpectedContentAfterLastEntry { line_number: usize, content_excerpt: String },
}

impl View for BundleValidationError {
    type V = ErrorModel;

    open spec fn view(&self) -> ErrorModel {
        match self {
            BundleValidationError::ContentBeforeFirstHeader { line_number, content_excerpt } =>
                ErrorModel::ContentBeforeFirstHeader {
                    line: *line_number as int,
                    excerpt: content_excerpt@,
                },
            BundleValidationError::MalformedHeaderMissingFilePrefix { line_number, header_line } =>
                ErrorModel::MalformedHeaderMissingFilePrefix {
                    line: *line_number as int,
                    header_line: header_line@,
                },
            BundleValidationError::MalformedHeaderMissingSeparatorAfterPath {
                line_number,
                path_line,
            } => ErrorModel::MalformedHeaderMissingSeparatorAfterPath {
                line: *line_number as int,
                path_line: path_line@,
            },
            BundleValidationError::MalformedHeaderPathLineInterruptedBySeparator {
                line_number,
                path_line,
            } => ErrorModel::MalformedHeaderPathLineInterruptedBySeparator {
                line: *line_number as int,
                path_line: path_line@,
            },
            BundleValidationError::MalformedHeaderPathLineMissingNewline {
                line_number,
                path_line,
            } => ErrorModel::MalformedHeaderPathLineMissingNewline {
                line: *line_number as int,
                path_line: path_line@,
            },
            BundleValidationError::MalformedHeaderMissingNewlineAfterContentSeparator {
                line_number,
                separator_line,
            } => ErrorModel::MalformedHeaderMissingNewlineAfterContentSeparator {
                line: *line_number as int,
                separator_line: separator_line@,
            },
            BundleValidationError::EmptyPath { line_number } => ErrorModel::EmptyPath {
                line: *line_number as int,
            },
            BundleValidationError::AbsolutePathNotAllowed { line_number, path } =>
                ErrorModel::AbsolutePathNotAllowed { line: *line_number as int, path: path@ },
            BundleValidationError::DuplicatePath { line_number, path } =>
                ErrorModel::DuplicatePath { line: *line_number as int, path: path@ },
            BundleValidationError::PrematureEOFBeforePathLine { line_number } =>
                ErrorModel::PrematureEOFBeforePathLine { line: *line_number as int },
            BundleValidationError::PrematureEOFBeforeContentSeparator { line_number, path } =>
                ErrorModel::PrematureEOFBeforeContentSeparator {
                    line: *line_number as int,
                    path: path@,
                },
            BundleValidationError::PrematureEOFBeforeContentSeparatorNewline {
                line_number,
                path,
            } => ErrorModel::PrematureEOFBeforeContentSeparatorNewline {
                line: *line_number as int,
                path: path@,
            },
            BundleValidationError::UnexpectedContentAfterLastEntry {
                line_number,
                content_excerpt,
            } => ErrorModel::UnexpectedContentAfterLastEntry {
                line: *line_number as int,
                excerpt: content_excerpt@,
            },
        }
    }
}

/// The collection a failed parse carries: every structural error found.
#[derive(Debug)]
pub struct BundleParseError {
    pub errors: Vec<BundleValidationError>,
}

/// The models of a sequence of entries.
pub open spec fn entries_view(v: Seq<ParsedEntry>) -> Seq<EntryModel> {
    v.map_values(|e: ParsedEntry| e@)
}

/// The models of a sequence of errors.
pub open spec fn errors_view(v: Seq<BundleValidationError>) -> Seq<ErrorModel> {
    v.map_values(|e: BundleValidationError| e@)
}

/// The model of a parse result.
pub open spec fn result_view(r: Result<Vec<ParsedEntry>, BundleParseError>) -> Result<
    Seq<EntryModel>,
    Seq<ErrorModel>,
> {
    match r {
        Ok(v) => Ok(entries_view(v@)),
        Err(e) => Err(errors_view(e.errors@)),
    }
}

fn push_error(errors: &mut Vec<BundleValidationError>, e: BundleValidationError)
    ensures
        errors_view(final(errors)@) == errors_view(old(errors)@).push(e@),
{
    let ghost v0 = errors@;
    let ghost em = e@;
    errors.push(e);
    proof {
        assert(errors_view(errors@) =~= errors_view(v0).push(em));
    }
}

fn push_entry(entries: &mut Vec<ParsedEntry>, e: ParsedEntry)
    ensures
        entries_view(final(entries)@) == entries_view(old(entries)@).push(e@),
{
    let ghost v0 = entries@;
    let ghost em = e@;
    entries.push(e);
    proof {
        assert(entries_view(entries@) =~= entries_view(v0).push(em));
    }
}

fn push_seen(seen: &mut Vec<Vec<char>>, x: Vec<char>)
    ensures
        char_views(final(seen)@) == char_views(old(seen)@).push(x@),
{
    let ghost v0 = seen@;
    let ghost xm = x@;
    seen.push(x);
    proof {
        assert(char_views(seen@) =~= char_views(v0).push(xm));
    }
}

/// The separator pattern as characters.
fn sep_vec() -> (v: Vec<char>)
    ensures
        v@ == sep_seq(),
{
    let mut v: Vec<char> = Vec::new();
    let mut i: usize = 0;
    while i < 48
        invariant
            i <= 48,
            v@.len() == i,
            forall|k: int| 0 <= k < i ==> v@[k] == '=',
        decreases 48 - i,
    {
        v.push('=');
        i += 1;
    }
    proof {
        assert(v@ =~= sep_seq());
    }
    v
}

/// The path-prefix pattern as characters.
fn prefix_vec() -> (v: Vec<char>)
    ensures
        v@ == file_prefix(),
{
    let v: Vec<char> = vec!['F', 'i', 'l', 'e', ':', ' '];
    proof {
        assert(v@ =~= file_prefix());
    }
    v
}

/// The diagnostic excerpt of the span of `t` between `a` and `b`.
fn excerpt_range(t: &Vec<char>, a: usize, b: usize) -> (r: Vec<char>)
    requires
        a <= b <= t@.len(),
    ensures
        r@ == excerpt_of(t@.subrange(a as int, b as int)),
{
    let tr = trim_range(t, a, b);
    let e = line_end_exec(&tr, 0);
    let fl = sub_vec(&tr, 0, e);
    let sc = strip_cr_vec(fl);
    take_prefix(&sc, 50)
}

/// Index of the first non-whitespace character of `t` in `[a, b)`, or `b`.
fn skip_ws(t: &Vec<char>, a: usize, b: usize) -> (k: usize)
    requires
        a <= b <= t@.len(),
    ensures
        a <= k <= b,
        k - a == crate::text::first_non_ws(t@.subrange(a as int, b as int), 0),
{
    let ghost w = t@.subrange(a as int, b as int);
    let mut i: usize = a;
    while i < b && crate::text::ws_char(t[i])
        invariant
            a <= i <= b <= t@.len(),
            w == t@.subrange(a as int, b as int),
            crate::text::first_non_ws(w, 0) == crate::text::first_non_ws(w, i - a),
        decreases b - i,
    {
        assert(w[i - a] == t@[i as int]);
        i += 1;
    }
    proof {
        if i < b {
            assert(w[i - a] == t@[i as int]);
        }
    }
    i
}

/// Does the line of `t` that spans `[a, b)` start with `pat` once its
/// leading whitespace is skipped?
fn line_starts_with(t: &Vec<char>, a: usize, b: usize, pat: &Vec<char>) -> (r: bool)
    requires
        a <= b <= t@.len(),
        pat@.len() >= 1,
    ensures
        r == starts_with_after_ws(t@.subrange(a as int, b as int), pat@),
{
    let k = skip_ws(t, a, b);
    if b - k >= pat.len() {
        let m = pattern_at(t, pat, k);
        proof {
            lemma_match_at_window(t@, a as int, b as int, pat@, k - a);
        }
        m
    } else {
        false
    }
}

/// The start of the first header pair of `t`, as the model's
/// `first_header_start` names it.
fn find_first_header(t: &Vec<char>, sep: &Vec<char>, pre: &Vec<char>) -> (r: Option<usize>)
    requires
        sep@ == sep_seq(),
        pre@ == file_prefix(),
        t@.len() < usize::MAX,
    ensures
        match r {
            Some(i) => first_header_start(t@) == Some(i as int) && i < t@.len(),
            None => first_header_start(t@) is None,
        },
{
    let n = t.len();
    let mut i: usize = 0;
    while i < n
        invariant
            i <= n + 1,
            n == t@.len(),
            n < usize::MAX,
            sep@ == sep_seq(),
            pre@ == file_prefix(),
            first_header_start_from(t@, 0) == first_header_start_from(t@, i as int),
        decreases n + 1 - i,
    {
        let e = line_end_exec(t, i);
        let sep_line = line_starts_with(t, i, e, sep);
        let mut is_header = false;
        if sep_line && e + 1 < n {
            let e2 = line_end_exec(t, e + 1);
            is_header = line_starts_with(t, e + 1, e2, pre);
        }
        if is_header {
            assert(header_pair_at(t@, i as int));
            return Some(i);
        }
        proof {
            assert(!header_pair_at(t@, i as int));
        }
        i = e + 1;
    }
    None
}

/// Parses the full bundle text into its entries, or into the collection
/// of every structural error the scan can attribute to a line.  Success
/// carries exactly the entries of the text's parse model, in source
/// order, and happens exactly when that model records no error.
pub fn parse_bundle(text: &str) -> (r: Result<Vec<ParsedEntry>, BundleParseError>)
    requires
        text@.len() < usize::MAX,
    ensures
        outcome_matches(text@, result_view(r)),
{
    let t = str_chars(text);
    let sep = sep_vec();
    let pre = prefix_vec();
    let nlpat: Vec<char> = vec!['\n'];
    proof {
        assert(nlpat@ =~= seq!['\n']);
    }
    let n = t.len();

    if blank_range(&t, 0, n) {
        proof {
            assert(t@.subrange(0, n as int) =~= t@);
            assert(entries_view(Seq::<ParsedEntry>::empty()) =~= Seq::<EntryModel>::empty());
        }
        let empty: Vec<ParsedEntry> = Vec::new();
        return Ok(empty);
    }

    let mut errors: Vec<BundleValidationError> = Vec::new();
    let mut entries: Vec<ParsedEntry> = Vec::new();
    let mut seen: Vec<Vec<char>> = Vec::new();
    let mut off: usize;

    let ghost target = parse_model(t@);

    match find_first_header(&t, &sep, &pre) {
        Some(h) => {
            off = h;
        },
        None => {
            let ex = first_nonblank_line_exec(&t);
            let ex50 = take_prefix(&ex, 50);
            push_error(
                &mut errors,
                BundleValidationError::ContentBeforeFirstHeader {
                    line_number: 1,
                    content_excerpt: chars_to_string(&ex50),
                },
            );
            off = 0;
        },
    }
    proof {
        assert(entries_view(entries@) =~= Seq::<EntryModel>::empty());
        assert(char_views(seen@) =~= Seq::<Seq<char>>::empty());
        assert(errors_view(Seq::<BundleValidationError>::empty()) =~= Seq::<ErrorModel>::empty());
        if first_header_start(t@) is None {
            assert(errors_view(errors@) =~= seq![
                ErrorModel::ContentBeforeFirstHeader {
                    line: 1,
                    excerpt: crate::text::take_n(first_nonblank_line(t@, 0), 50),
                },
            ]);
        }
        assert(scan(t@, off as int, char_views(seen@), entries_view(entries@), errors_view(errors@))
            == target);
    }

    while off < n
        invariant
            off <= n,
            n == t@.len(),
            n < usize::MAX,
            sep@ == sep_seq(),
            pre@ == file_prefix(),
            nlpat@ == seq!['\n'],
            scan(
                t@,
                off as int,
                char_views(seen@),
                entries_view(entries@),
                errors_view(errors@),
            ) == target,
        decreases n - off,
    {
        let ghost off0 = off as int;
        let ghost seen0 = char_views(seen@);
        let ghost entries0 = entries_view(entries@);
        let ghost errors0 = errors_view(errors@);

        match find_pattern(&t, &sep, off) {
            None => {
                if entries.len() > 0 && !blank_range(&t, off, n) {
                    let ex = excerpt_range(&t, off, n);
                    let ln = count_char_upto(&t, off, '\n');
                    proof {
                        lemma_count_char_le_len(t@.subrange(0, off as int), '\n');
                    }
                    push_error(
                        &mut errors,
                        BundleValidationError::UnexpectedContentAfterLastEntry {
                            line_number: ln + 1,
                            content_excerpt: chars_to_string(&ex),
                        },
                    );
                }
                off = n;
                proof {
                    assert(entries0.len() == entries@.len());
                    assert(scan(t@, off as int, char_views(seen@), entries_view(entries@),
                        errors_view(errors@)) == target);
                }
            },
            Some(h) => {
                proof {
                    lemma_find_from_some(t@, sep_seq(), off0, h as int);
                }
                if !blank_range(&t, off, h) {
                    let ex = excerpt_range(&t, off, h);
                    let ln = count_char_upto(&t, off, '\n');
                    proof {
                        lemma_count_char_le_len(t@.subrange(0, off as int), '\n');
                    }
                    push_error(
                        &mut errors,
                        BundleValidationError::UnexpectedContentAfterLastEntry {
                            line_number: ln + 1,
                            content_excerpt: chars_to_string(&ex),
                        },
                    );
                }
                let ghost errors1 = errors_view(errors@);
                let hcount = count_char_upto(&t, h, '\n');
                proof {
                    lemma_count_char_le_len(t@.subrange(0, h as int), '\n');
                }
                let hline = hcount + 1;
                let a1 = h + 48;
                if a1 >= n {
                    push_error(
                        &mut errors,
                        BundleValidationError::PrematureEOFBeforePathLine { line_number: hline },
                    );
                    off = n;
                } else if t[a1] != '\n' {
                    let e1 = line_end_exec(&t, a1);
                    let hl = trim_end_range(&t, a1, e1);
                    push_error(
                        &mut errors,
                        BundleValidationError::MalformedHeaderMissingFilePrefix {
                            line_number: hline + 1,
                            header_line: chars_to_string(&hl),
                        },
                    );
                    off = n;
                } else {
                    let pl = hline + 1;
                    let pls = a1 + 1;
                    if pls >= n {
                        push_error(
                            &mut errors,
                            BundleValidationError::PrematureEOFBeforePathLine { line_number: pl },
                        );
                        off = n;
                    } else if !(n - pls >= 6 && pattern_at(&t, &pre, pls)) {
                        let e2 = line_end_exec(&t, pls);
                        let hl = strip_cr_vec(sub_vec(&t, pls, e2));
                        push_error(
                            &mut errors,
                            BundleValidationError::MalformedHeaderMissingFilePrefix {
                                line_number: pl,
                                header_line: chars_to_string(&hl),
                            },
                        );
                        off = n;
                    } else {
                        let ps = pls + 6;
                        match find_pattern(&t, &nlpat, ps) {
                            None => {
                                let pline = trim_end_range(&t, ps, n);
                                push_error(
                                    &mut errors,
                                    BundleValidationError::MalformedHeaderPathLineMissingNewline {
                                        line_number: pl,
                                        path_line: chars_to_string(&pline),
                                    },
                                );
                                off = n;
                            },
                            Some(nlp) => {
                                proof {
                                    lemma_find_from_some(t@, seq!['\n'], ps as int, nlp as int);
                                }
                                let sep_inside: bool = match find_pattern(&t, &sep, ps) {
                                    Some(q) => {
                                        proof {
                                            lemma_find_from_some(
                                                t@,
                                                sep_seq(),
                                                ps as int,
                                                q as int,
                                            );
                                        }
                                        q + 48 <= nlp
                                    },
                                    None => {
                                        proof {
                                            lemma_find_from_none(t@, sep_seq(), ps as int);
                                        }
                                        false
                                    },
                                };
                                proof {
                                    assert(sep_inside == has_sep_between(
                                        t@,
                                        ps as int,
                                        nlp as int,
                                    ));
                                }
                                if sep_inside {
                                    let pline = trim_end_range(&t, ps, nlp);
                                    push_error(
                                        &mut errors,
                                        BundleValidationError::MalformedHeaderPathLineInterruptedBySeparator {
                                            line_number: pl,
                                            path_line: chars_to_string(&pline),
                                        },
                                    );
                                    off = n;
                                } else {
                                    let praw = trim_range(&t, ps, nlp);
                                    let ghost p = praw@;
                                    let empty_p = praw.len() == 0;
                                    if empty_p {
                                        push_error(
                                            &mut errors,
                                            BundleValidationError::EmptyPath { line_number: pl },
                                        );
                                    }
                                    let abs = !empty_p && praw[0] == '/';
                                    if abs {
                                        push_error(
                                            &mut errors,
                                            BundleValidationError::AbsolutePathNotAllowed {
                                                line_number: pl,
                                                path: chars_to_string(&praw),
                                            },
                                        );
                                    }
                                    let mut valid = !empty_p && !abs;
                                    if valid {
                                        let nf = normal_form(&praw);
                                        if contains_chars(&seen, &nf) {
                                            valid = false;
                                            push_error(
                                                &mut errors,
                                                BundleValidationError::DuplicatePath {
                                                    line_number: pl,
                                                    path: chars_to_string(&praw),
                                                },
                                            );
                                        } else {
                                            push_seen(&mut seen, nf);
                                        }
                                    }
                                    let sl = pl + 1;
                                    let ss = nlp + 1;
                                    if ss >= n {
                                        push_error(
                                            &mut errors,
                                            BundleValidationError::PrematureEOFBeforeContentSeparator {
                                                line_number: sl,
                                                path: chars_to_string(&praw),
                                            },
                                        );
                                        off = n;
                                    } else if !(n - ss >= 48 && pattern_at(&t, &sep, ss)) {
                                        push_error(
                                            &mut errors,
                                            BundleValidationError::MalformedHeaderMissingSeparatorAfterPath {
                                                line_number: sl,
                                                path_line: chars_to_string(&praw),
                                            },
                                        );
                                        off = n;
                                    } else {
                                        let a2 = ss + 48;
                                        if a2 >= n {
                                            push_error(
                                                &mut errors,
                                                BundleValidationError::PrematureEOFBeforeContentSeparatorNewline {
                                                    line_number: sl,
                                                    path: chars_to_string(&praw),
                                                },
                                            );
                                            off = n;
                                        } else if t[a2] != '\n' {
                                            let sepl = sub_vec(&t, ss, a2);
                                            push_error(
                                                &mut errors,
                                                BundleValidationError::MalformedHeaderMissingNewlineAfterContentSeparator {
                                                    line_number: sl,
                                                    separator_line: chars_to_string(&sepl),
                                                },
                                            );
                                            off = n;
                                        } else {
                                            let c0 = a2 + 1;
                                            let ce = match find_pattern(&t, &sep, c0) {
                                                Some(x) => {
                                                    proof {
                                                        lemma_find_from_some(
                                                            t@,
                                                            sep_seq(),
                                                            c0 as int,
                                                            x as int,
                                                        );
                                                    }
                                                    x
                                                },
                                                None => n,
                                            };
                                            let content = sub_vec(&t, c0, ce);
                                            if valid {
                                                push_entry(
                                                    &mut entries,
                                                    ParsedEntry {
                                                        path: chars_to_string(&praw),
                                                        content: chars_to_string(&content),
                                                    },
                                                );
                                            }
                                            off = ce;
                                        }
                                    }
                                }
                            },
                        }
                    }
                }
            },
        }
    }
    proof {
        assert(scan(t@, off as int, char_views(seen@), entries_view(entries@),
            errors_view(errors@)) == ParseModel {
            entries: entries_view(entries@),
            errors: errors_view(errors@),
        });
    }
    if errors.len() == 0 {
        Ok(entries)
    } else {
        Err(BundleParseError { errors })
    }
}

/// The advisory channel beside `parse_bundle`: when a valid header exists
/// but text precedes it, the parser skips that text and reports which
/// lines were dropped.  Returns the first and the last 1-based line
/// number among the skipped lines that hold more than whitespace, or
/// `None` when nothing worth reporting was skipped.
pub fn skipped_pre_header_lines(text: &str) -> (r: Option<(usize, usize)>)
    requires
        text@.len() < usize::MAX,
    ensures
        match first_header_start(text@) {
            Some(h) => {
                let lns = crate::model::pre_lines(text@, 0, h);
                match r {
                    None => lns.len() == 0,
                    Some(pair) => lns.len() > 0 && pair.0 as int == lns.first() && pair.1 as int
                        == lns.last(),
                }
            },
            None => r is None,
        },
{
    let t = str_chars(text);
    let sep = sep_vec();
    let pre = prefix_vec();
    let h = match find_first_header(&t, &sep, &pre) {
        Some(h) => h,
        None => {
            return None;
        },
    };
    let mut r: Option<(usize, usize)> = None;
    let mut i: usize = 0;
    let ghost mut collected: Seq<int> = Seq::empty();
    proof {
        assert(Seq::<int>::empty() + crate::model::pre_lines(t@, 0, h as int)
            =~= crate::model::pre_lines(t@, 0, h as int));
    }
    while i < h
        invariant
            i <= h < t@.len(),
            t@.len() < usize::MAX,
            t@ == text@,
            collected + crate::model::pre_lines(t@, i as int, h as int)
                == crate::model::pre_lines(t@, 0, h as int),
            match r {
                None => collected.len() == 0,
                Some(pair) => collected.len() > 0 && pair.0 as int == collected.first()
                    && pair.1 as int == collected.last(),
            },
        decreases h - i,
    {
        let ghost i0 = i as int;
        let e = line_end_exec(&t, i);
        let e2 = if e > h {
            h
        } else {
            e
        };
        if !blank_range(&t, i, e2) {
            let c = count_char_upto(&t, i, '\n');
            proof {
                lemma_count_char_le_len(t@.subrange(0, i as int), '\n');
            }
            let ln = c + 1;
            r = match r {
                None => Some((ln, ln)),
                Some(pair) => Some((pair.0, ln)),
            };
            proof {
                let step = crate::model::pre_lines(t@, i0, h as int);
                assert(step == seq![ln as int] + crate::model::pre_lines(t@, e2 + 1, h as int));
                assert((collected + seq![ln as int]) + crate::model::pre_lines(t@, e2 + 1, h as int)
                    =~= collected + step);
                collected = collected + seq![ln as int];
            }
        } else {
            proof {
                assert(crate::model::pre_lines(t@, i0, h as int) == crate::model::pre_lines(
                    t@,
                    e2 + 1,
                    h as int,
                ));
            }
        }
        i = e2 + 1;
        if i > h {
            proof {
                assert(crate::model::pre_lines(t@, i as int, h as int) =~= Seq::<int>::empty());
                assert(crate::model::pre_lines(t@, h as int, h as int) =~= Seq::<int>::empty());
            }
            i = h;
        }
    }
    proof {
        assert(crate::model::pre_lines(t@, h as int, h as int) =~= Seq::<int>::empty());
        assert(collected + Seq::<int>::empty() =~= collected);
    }
    r
}

/// The first line of `t` at or after line start `i` that is not blank,
/// trimmed, as the model's `first_nonblank_line` names it.
fn first_nonblank_line_exec(t: &Vec<char>) -> (r: Vec<char>)
    requires
        t@.len() < usize::MAX,
    ensures
        r@ == first_nonblank_line(t@, 0),
{
    let n = t.len();
    let mut i: usize = 0;
    while i < n
        invariant
            i <= n + 1,
            n == t@.len(),
            n < usize::MAX,
            first_nonblank_line(t@, 0) == first_nonblank_line(t@, i as int),
        decreases n + 1 - i,
    {
        let e = line_end_exec(t, i);
        if !blank_range(t, i, e) {
            return trim_range(t, i, e);
        }
        i = e + 1;
    }
    let r: Vec<char> = Vec::new();
    proof {
        assert(r@ =~= first_nonblank_line(t@, i as int));
    }
    r
}

} // verus!
