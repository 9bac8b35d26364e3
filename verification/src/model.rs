//! The mathematical model of bundle parsing.  `parse_model` maps the full
//! text to the entries and the errors that one forward scan produces; the
//! executable parser is proved to return exactly this model's outcome.

use vstd::prelude::*;
use crate::paths::{is_abs_path, norm_path};
use crate::text::{
    count_char, find_from, is_blank, lemma_find_from_some, line_at, line_end_from, match_at,
    first_non_ws, strip_cr, take_n, trim_end_seq, trim_seq,
};

verus! {

/// The separator line: a run of 48 `=` characters.
pub open spec fn sep_seq() -> Seq<char> {
    Seq::new(48, |i: int| '=')
}

/// The token that must open a path line.
pub open spec fn file_prefix() -> Seq<char> {
    seq!['F', 'i', 'l', 'e', ':', ' ']
}

/// One decoded file: a relative path and its exact content.
#[verifier::ext_equal]
pub struct EntryModel {
    pub path: Seq<char>,
    pub content: Seq<char>,
}

/// A structural defect, with the 1-based line number it is anchored at.
#[verifier::ext_equal]
pub enum ErrorModel {
    ContentBeforeFirstHeader { line: int, excerpt: Seq<char> },
    MalformedHeaderMissingFilePrefix { line: int, header_line: Seq<char> },
    MalformedHeaderMissingSeparatorAfterPath { line: int, path_line: Seq<char> },
    MalformedHeaderPathLineInterruptedBySeparator { line: int, path_line: Seq<char> },
    MalformedHeaderPathLineMissingNewline { line: int, path_line: Seq<char> },
    MalformedHeaderMissingNewlineAfterContentSeparator { line: int, separator_line: Seq<char> },
    EmptyPath { line: int },
    AbsolutePathNotAllowed { line: int, path: Seq<char> },
    DuplicatePath { line: int, path: Seq<char> },
    PrematureEOFBeforePathLine { line: int },
    PrematureEOFBeforeContentSeparator { line: int, path: Seq<char> },
    PrematureEOFBeforeContentSeparatorNewline { line: int, path: Seq<char> },
    UnexpectedContentAfterLastEntry { line: int, excerpt: Seq<char> },
}

/// Everything one parse determines.
#[verifier::ext_equal]
pub struct ParseModel {
    pub entries: Seq<EntryModel>,
    pub errors: Seq<ErrorModel>,
}

/// The 1-based number of the line that position `off` lies on: the
/// newlines before it, plus one.
pub open spec fn ln_at(text: Seq<char>, off: int) -> int {
    count_char(text.subrange(0, off), '\n') as int + 1
}

/// A diagnostic excerpt: the first line of the trimmed span, cut to 50
/// characters.
pub open spec fn excerpt_of(s: Seq<char>) -> Seq<char> {
    take_n(strip_cr(line_at(trim_seq(s), 0)), 50)
}

/// The line `l`, once its leading whitespace is gone, begins with `pat`.
pub open spec fn starts_with_after_ws(l: Seq<char>, pat: Seq<char>) -> bool {
    match_at(l, pat, first_non_ws(l, 0))
}

/// A separator line starts at `i` and the next line carries the path
/// prefix: the shape the header search looks for.
pub open spec fn header_pair_at(text: Seq<char>, i: int) -> bool {
    let e = line_end_from(text, i);
    &&& starts_with_after_ws(text.subrange(i, e), sep_seq())
    &&& e + 1 < text.len()
    &&& starts_with_after_ws(text.subrange(e + 1, line_end_from(text, e + 1)), file_prefix())
}

/// The start of the first line at or after `i` from which a header pair
/// begins.
pub open spec fn first_header_start_from(text: Seq<char>, i: int) -> Option<int>
    decreases text.len() - i + 1,
    via first_header_start_from_decreases
{
    if i < 0 || i >= text.len() {
        None
    } else if header_pair_at(text, i) {
        Some(i)
    } else {
        first_header_start_from(text, line_end_from(text, i) + 1)
    }
}

#[via_fn]
proof fn first_header_start_from_decreases(text: Seq<char>, i: int) {
    if 0 <= i < text.len() {
        crate::text::lemma_line_end_from(text, i);
    }
}

pub open spec fn first_header_start(text: Seq<char>) -> Option<int> {
    first_header_start_from(text, 0)
}

/// The first line at or after `i` that holds something other than
/// whitespace, trimmed; empty if there is none.
pub open spec fn first_nonblank_line(text: Seq<char>, i: int) -> Seq<char>
    decreases text.len() - i + 1,
    via first_nonblank_line_decreases
{
    if i < 0 || i >= text.len() {
        Seq::empty()
    } else {
        let e = line_end_from(text, i);
        let l = text.subrange(i, e);
        if !is_blank(l) {
            trim_seq(l)
        } else {
            first_nonblank_line(text, e + 1)
        }
    }
}

#[via_fn]
proof fn first_nonblank_line_decreases(text: Seq<char>, i: int) {
    if 0 <= i < text.len() {
        crate::text::lemma_line_end_from(text, i);
    }
}

/// A separator occurrence lies wholly between `a` and `b`.
pub open spec fn has_sep_between(text: Seq<char>, a: int, b: int) -> bool {
    exists|q: int| a <= q && q + 48 <= b && match_at(text, sep_seq(), q)
}

/// One forward scan from `off`, with the canonical forms of the paths
/// registered so far and the entries and errors already collected.  This
/// follows the grammar block by block: find the next separator, demand a
/// newline, the path prefix, the path line's newline, a second separator
/// and its newline, then take everything up to the next separator (or the
/// text's end) as content.  Framing defects end the scan; path defects
/// only exclude the entry.
pub open spec fn scan(
    text: Seq<char>,
    off: int,
    seen: Seq<Seq<char>>,
    entries: Seq<EntryModel>,
    errors: Seq<ErrorModel>,
) -> ParseModel
    decreases text.len() - off,
    via scan_decreases
{
    if off < 0 || off >= text.len() {
        ParseModel { entries, errors }
    } else {
        match find_from(text, sep_seq(), off) {
            None => {
                let rem = text.subrange(off, text.len() as int);
                let errors1 = if !is_blank(rem) && entries.len() > 0 {
                    errors.push(
                        ErrorModel::UnexpectedContentAfterLastEntry {
                            line: ln_at(text, off),
                            excerpt: excerpt_of(rem),
                        },
                    )
                } else {
                    errors
                };
                ParseModel { entries, errors: errors1 }
            },
            Some(h) => {
                let errors1 = if !is_blank(text.subrange(off, h)) {
                    errors.push(
                        ErrorModel::UnexpectedContentAfterLastEntry {
                            line: ln_at(text, off),
                            excerpt: excerpt_of(text.subrange(off, h)),
                        },
                    )
                } else {
                    errors
                };
                let hline = ln_at(text, h);
                let a1 = h + 48;
                if a1 >= text.len() {
                    ParseModel {
                        entries,
                        errors: errors1.push(ErrorModel::PrematureEOFBeforePathLine { line: hline }),
                    }
                } else if text[a1] != '\n' {
                    ParseModel {
                        entries,
                        errors: errors1.push(
                            ErrorModel::MalformedHeaderMissingFilePrefix {
                                line: hline + 1,
                                header_line: trim_end_seq(line_at(text, a1)),
                            },
                        ),
                    }
                } else {
                    let pl = hline + 1;
                    let pls = a1 + 1;
                    if pls >= text.len() {
                        ParseModel {
                            entries,
                            errors: errors1.push(
                                ErrorModel::PrematureEOFBeforePathLine { line: pl },
                            ),
                        }
                    } else if !match_at(text, file_prefix(), pls) {
                        ParseModel {
                            entries,
                            errors: errors1.push(
                                ErrorModel::MalformedHeaderMissingFilePrefix {
                                    line: pl,
                                    header_line: strip_cr(line_at(text, pls)),
                                },
                            ),
                        }
                    } else {
                        let ps = pls + 6;
                        match find_from(text, seq!['\n'], ps) {
                            None => ParseModel {
                                entries,
                                errors: errors1.push(
                                    ErrorModel::MalformedHeaderPathLineMissingNewline {
                                        line: pl,
                                        path_line: trim_end_seq(
                                            text.subrange(ps, text.len() as int),
                                        ),
                                    },
                                ),
                            },
                            Some(nl) => {
                                if has_sep_between(text, ps, nl) {
                                    ParseModel {
                                        entries,
                                        errors: errors1.push(
                                            ErrorModel::MalformedHeaderPathLineInterruptedBySeparator {
                                                line: pl,
                                                path_line: trim_end_seq(text.subrange(ps, nl)),
                                            },
                                        ),
                                    }
                                } else {
                                    let p = trim_seq(text.subrange(ps, nl));
                                    let errors2 = if p.len() == 0 {
                                        errors1.push(ErrorModel::EmptyPath { line: pl })
                                    } else {
                                        errors1
                                    };
                                    let abs = p.len() > 0 && is_abs_path(p);
                                    let errors3 = if abs {
                                        errors2.push(
                                            ErrorModel::AbsolutePathNotAllowed { line: pl, path: p },
                                        )
                                    } else {
                                        errors2
                                    };
                                    let dup = p.len() > 0 && !abs && seen.contains(norm_path(p));
                                    let errors4 = if dup {
                                        errors3.push(
                                            ErrorModel::DuplicatePath { line: pl, path: p },
                                        )
                                    } else {
                                        errors3
                                    };
                                    let valid = p.len() > 0 && !abs && !dup;
                                    let seen1 = if valid {
                                        seen.push(norm_path(p))
                                    } else {
                                        seen
                                    };
                                    let sl = pl + 1;
                                    let ss = nl + 1;
                                    if ss >= text.len() {
                                        ParseModel {
                                            entries,
                                            errors: errors4.push(
                                                ErrorModel::PrematureEOFBeforeContentSeparator {
                                                    line: sl,
                                                    path: p,
                                                },
                                            ),
                                        }
                                    } else if !match_at(text, sep_seq(), ss) {
                                        ParseModel {
                                            entries,
                                            errors: errors4.push(
                                                ErrorModel::MalformedHeaderMissingSeparatorAfterPath {
                                                    line: sl,
                                                    path_line: p,
                                                },
                                            ),
                                        }
                                    } else {
                                        let a2 = ss + 48;
                                        if a2 >= text.len() {
                                            ParseModel {
                                                entries,
                                                errors: errors4.push(
                                                    ErrorModel::PrematureEOFBeforeContentSeparatorNewline {
                                                        line: sl,
                                                        path: p,
                                                    },
                                                ),
                                            }
                                        } else if text[a2] != '\n' {
                                            ParseModel {
                                                entries,
                                                errors: errors4.push(
                                                    ErrorModel::MalformedHeaderMissingNewlineAfterContentSeparator {
                                                        line: sl,
                                                        separator_line: sep_seq(),
                                                    },
                                                ),
                                            }
                                        } else {
                                            let c0 = a2 + 1;
                                            let ce = match find_from(text, sep_seq(), c0) {
                                                Some(x) => x,
                                                None => text.len() as int,
                                            };
                                            let content = text.subrange(c0, ce);
                                            let entries1 = if valid {
                                                entries.push(EntryModel { path: p, content })
                                            } else {
                                                entries
                                            };
                                            scan(text, ce, seen1, entries1, errors4)
                                        }
                                    }
                                }
                            },
                        }
                    }
                }
            },
        }
    }
}

#[via_fn]
proof fn scan_decreases(
    text: Seq<char>,
    off: int,
    seen: Seq<Seq<char>>,
    entries: Seq<EntryModel>,
    errors: Seq<ErrorModel>,
) {
    if 0 <= off < text.len() {
        match find_from(text, sep_seq(), off) {
            None => {},
            Some(h) => {
                lemma_find_from_some(text, sep_seq(), off, h);
                let a1 = h + 48;
                if a1 < text.len() && text[a1] == '\n' {
                    let pls = a1 + 1;
                    if pls < text.len() && match_at(text, file_prefix(), pls) {
                        let ps = pls + 6;
                        match find_from(text, seq!['\n'], ps) {
                            None => {},
                            Some(nl) => {
                                lemma_find_from_some(text, seq!['\n'], ps, nl);
                                let ss = nl + 1;
                                if ss < text.len() && match_at(text, sep_seq(), ss) {
                                    let a2 = ss + 48;
                                    if a2 < text.len() && text[a2] == '\n' {
                                        match find_from(text, sep_seq(), a2 + 1) {
                                            Some(x) => {
                                                lemma_find_from_some(
                                                    text,
                                                    sep_seq(),
                                                    a2 + 1,
                                                    x,
                                                );
                                            },
                                            None => {},
                                        }
                                    }
                                }
                            },
                        }
                    }
                }
            },
        }
    }
}

/// What parsing the whole text yields.  Blank input parses to nothing.
/// When no header pair exists anywhere, the text's presence is itself the
/// one kind of error the scan cannot anchor later, and the scan still
/// walks any separators it can find.
pub open spec fn parse_model(text: Seq<char>) -> ParseModel {
    if is_blank(text) {
        ParseModel { entries: Seq::empty(), errors: Seq::empty() }
    } else {
        match first_header_start(text) {
            Some(h) => scan(text, h, Seq::empty(), Seq::empty(), Seq::empty()),
            None => scan(
                text,
                0,
                Seq::empty(),
                Seq::empty(),
                seq![
                    ErrorModel::ContentBeforeFirstHeader {
                        line: 1,
                        excerpt: take_n(first_nonblank_line(text, 0), 50),
                    },
                ],
            ),
        }
    }
}

/// The 1-based numbers of the lines before `stop` that hold something
/// other than whitespace: the lines a found header causes the parser to
/// skip and report as an advisory.
pub open spec fn pre_lines(text: Seq<char>, i: int, stop: int) -> Seq<int>
    decreases stop - i + 1,
    via pre_lines_decreases
{
    if i < 0 || i >= stop || stop > text.len() {
        Seq::empty()
    } else {
        let e = line_end_from(text, i);
        let e2 = if e > stop {
            stop
        } else {
            e
        };
        let rest = pre_lines(text, e2 + 1, stop);
        if !is_blank(text.subrange(i, e2)) {
            seq![ln_at(text, i)] + rest
        } else {
            rest
        }
    }
}

#[via_fn]
proof fn pre_lines_decreases(text: Seq<char>, i: int, stop: int) {
    if 0 <= i && i < stop && stop <= text.len() {
        crate::text::lemma_line_end_from(text, i);
    }
}

/// What the parser's contract pins down: success carries exactly the
/// model's entries and happens exactly when the model has no errors;
/// failure carries exactly the model's errors.
pub open spec fn outcome_matches(
    text: Seq<char>,
    r: Result<Seq<EntryModel>, Seq<ErrorModel>>,
) -> bool {
    let m = parse_model(text);
    match r {
        Ok(es) => m.errors.len() == 0 && es == m.entries,
        Err(errs) => m.errors.len() > 0 && errs == m.errors,
    }
}

} // verus!
