//! The laws the parser obeys, stated over the model and proved once and
//! for all: blank input parses to nothing, parsing is a function of the
//! text alone, a well-formed bundle parses back to exactly the entries it
//! was printed from, and errors are reported in document order.

use vstd::prelude::*;
use crate::model::{
    excerpt_of, file_prefix, first_header_start, first_header_start_from, has_sep_between,
    header_pair_at, ln_at, parse_model, scan, sep_seq, starts_with_after_ws, EntryModel,
    ErrorModel, ParseModel, outcome_matches,
};
use crate::paths::{is_abs_path, norm_path};
use crate::text::{
    count_char, find_from, is_blank, is_ws, lemma_count_char_additive, lemma_count_char_positive,
    lemma_find_from_exact, lemma_find_from_some, lemma_match_single, lemma_match_at_window,
    line_end_from, match_at, take_n, trim_seq,
};

verus! {

/// Blank input, whitespace only or empty, parses to the empty entry
/// sequence with no errors: it is not a defect.
pub proof fn lemma_blank_parses_empty(text: Seq<char>)
    requires
        is_blank(text),
    ensures
        parse_model(text) == (ParseModel { entries: Seq::<EntryModel>::empty(), errors: Seq::<
            ErrorModel,
        >::empty() }),
{
}

/// Parsing is deterministic: any two results that the parser's contract
/// allows for the same text are equal.  In particular, parsing the same
/// text twice yields equal results.
pub proof fn lemma_parse_deterministic(
    text: Seq<char>,
    r1: Result<Seq<EntryModel>, Seq<ErrorModel>>,
    r2: Result<Seq<EntryModel>, Seq<ErrorModel>>,
)
    requires
        outcome_matches(text, r1),
        outcome_matches(text, r2),
    ensures
        r1 == r2,
{
}

/// How one entry is printed: separator line, path line, separator line,
/// then the content verbatim.
pub open spec fn entry_block(e: EntryModel) -> Seq<char> {
    sep_seq() + seq!['\n'] + file_prefix() + e.path + seq!['\n'] + sep_seq() + seq!['\n']
        + e.content
}

/// The printed length of one entry's block.
pub open spec fn block_len(e: EntryModel) -> int {
    105 + e.path.len() as int + e.content.len() as int
}

/// A whole bundle: every entry's block, in order.
pub open spec fn bundle_text(es: Seq<EntryModel>) -> Seq<char>
    decreases es.len(),
{
    if es.len() == 0 {
        Seq::empty()
    } else {
        entry_block(es[0]) + bundle_text(es.drop_first())
    }
}

/// An entry the bundle format can carry faithfully: a non-empty, trimmed,
/// relative path without newlines or separator runs, and content in which
/// no separator occurrence starts, not even one completed by the
/// separator that follows the content.
pub open spec fn wf_entry(e: EntryModel) -> bool {
    &&& e.path.len() > 0
    &&& trim_seq(e.path) == e.path
    &&& e.path[0] != '/'
    &&& forall|i: int| 0 <= i < e.path.len() ==> e.path[i] != '\n'
    &&& forall|q: int| !match_at(e.path, sep_seq(), q)
    &&& forall|q: int|
        0 <= q < e.content.len() ==> !match_at(e.content + sep_seq(), sep_seq(), q)
}

/// A bundle the format can carry faithfully: well-formed entries whose
/// normalized paths are pairwise distinct.
pub open spec fn wf_bundle(es: Seq<EntryModel>) -> bool {
    &&& forall|i: int| 0 <= i < es.len() ==> wf_entry(#[trigger] es[i])
    &&& forall|i: int, j: int|
        0 <= i < j < es.len() ==> norm_path(es[i].path) != norm_path(es[j].path)
}

/// Where each piece of a printed block lies, when the text from `off` on
/// is that block followed by `tail`.
proof fn lemma_block_structure(full: Seq<char>, off: int, e: EntryModel, tail: Seq<char>)
    requires
        0 <= off <= full.len(),
        full.subrange(off, full.len() as int) == entry_block(e) + tail,
    ensures
        off + block_len(e) <= full.len(),
        full.len() == off + block_len(e) + tail.len(),
        full.subrange(off, off + 48) == sep_seq(),
        full[off + 48] == '\n',
        full.subrange(off + 49, off + 55) == file_prefix(),
        full.subrange(off + 55, off + 55 + e.path.len() as int) == e.path,
        full[off + 55 + e.path.len()] == '\n',
        full.subrange(off + 56 + e.path.len(), off + 104 + e.path.len()) == sep_seq(),
        full[off + 104 + e.path.len()] == '\n',
        full.subrange(off + 105 + e.path.len(), off + block_len(e)) == e.content,
        full.subrange(off + block_len(e), full.len() as int) == tail,
{
    let b = entry_block(e);
    let suffix = full.subrange(off, full.len() as int);
    let pn = e.path.len() as int;
    assert(b.len() == block_len(e));
    assert(suffix.len() == full.len() - off);
    assert forall|k: int| 0 <= k < suffix.len() implies suffix[k] == full[off + k] by {}
    assert forall|k: int| 0 <= k < b.len() implies full[off + k] == b[k] by {
        assert(suffix[k] == (b + tail)[k]);
    }
    assert forall|k: int| 0 <= k < tail.len() implies full[off + b.len() + k] == tail[k] by {
        assert(suffix[b.len() + k] == (b + tail)[b.len() + k]);
    }
    assert(full.subrange(off, off + 48) =~= sep_seq()) by {
        assert forall|k: int| 0 <= k < 48 implies b[k] == sep_seq()[k] by {}
    }
    assert(b[48] == '\n');
    assert(full.subrange(off + 49, off + 55) =~= file_prefix()) by {
        assert forall|k: int| 0 <= k < 6 implies b[49 + k] == file_prefix()[k] by {}
    }
    assert(full.subrange(off + 55, off + 55 + pn) =~= e.path) by {
        assert forall|k: int| 0 <= k < pn implies b[55 + k] == e.path[k] by {}
    }
    assert(b[55 + pn] == '\n');
    assert(full.subrange(off + 56 + pn, off + 104 + pn) =~= sep_seq()) by {
        assert forall|k: int| 0 <= k < 48 implies b[56 + pn + k] == sep_seq()[k] by {}
    }
    assert(b[104 + pn] == '\n');
    assert(full.subrange(off + 105 + pn, off + block_len(e)) =~= e.content) by {
        assert forall|k: int| 0 <= k < e.content.len() implies b[105 + pn + k] == e.content[k]
            by {}
    }
    assert(full.subrange(off + block_len(e), full.len() as int) =~= tail);
}

/// The scan, started where the printed blocks of `rest` begin, accepts
/// exactly those entries and records no error.
proof fn lemma_scan_blocks(
    full: Seq<char>,
    off: int,
    rest: Seq<EntryModel>,
    seen: Seq<Seq<char>>,
    acc_e: Seq<EntryModel>,
    acc_err: Seq<ErrorModel>,
)
    requires
        0 <= off <= full.len(),
        full.subrange(off, full.len() as int) == bundle_text(rest),
        forall|i: int| 0 <= i < rest.len() ==> wf_entry(#[trigger] rest[i]),
        forall|i: int| 0 <= i < rest.len() ==> !seen.contains(norm_path(#[trigger] rest[i].path)),
        forall|i: int, j: int|
            0 <= i < j < rest.len() ==> norm_path(rest[i].path) != norm_path(rest[j].path),
    ensures
        scan(full, off, seen, acc_e, acc_err) == (ParseModel {
            entries: acc_e + rest,
            errors: acc_err,
        }),
    decreases rest.len(),
{
    if rest.len() == 0 {
        assert(full.subrange(off, full.len() as int).len() == 0);
        assert(off == full.len());
        assert(acc_e + rest =~= acc_e);
        assert(scan(full, off, seen, acc_e, acc_err) =~= (ParseModel {
            entries: acc_e + rest,
            errors: acc_err,
        }));
    } else {
        let e0 = rest[0];
        let rest1 = rest.drop_first();
        assert(wf_entry(e0));
        assert(bundle_text(rest) == entry_block(e0) + bundle_text(rest1));
        lemma_block_structure(full, off, e0, bundle_text(rest1));
        let pn = e0.path.len() as int;
        let cn = e0.content.len() as int;
        let a1 = off + 48;
        let pls = off + 49;
        let ps = off + 55;
        let nl = off + 55 + pn;
        let ss = nl + 1;
        let a2 = off + 104 + pn;
        let c0 = off + 105 + pn;
        let bend = off + block_len(e0);
        let p = e0.path;

        // the separator search lands exactly on the block's first line
        assert(match_at(full, sep_seq(), off)) by {
            assert(full.subrange(off, off + 48) == sep_seq());
        }
        lemma_find_from_exact(full, sep_seq(), off, off);
        assert(find_from(full, sep_seq(), off) == Some(off));
        assert(is_blank(full.subrange(off, off)));

        // the newline and the path prefix follow
        assert(full[a1] == '\n');
        assert(match_at(full, file_prefix(), pls)) by {
            assert(full.subrange(off + 49, off + 55) == file_prefix());
        }

        // the path line ends at its newline and holds no separator
        assert forall|j: int| ps <= j < nl implies !match_at(full, seq!['\n'], j) by {
            assert(full.subrange(off + 55, off + 55 + pn)[j - ps] == full[j]);
            assert(full[j] == p[j - ps]);
            lemma_match_single(full, '\n', j);
        }
        assert(match_at(full, seq!['\n'], nl)) by {
            lemma_match_single(full, '\n', nl);
        }
        lemma_find_from_exact(full, seq!['\n'], ps, nl);
        assert(find_from(full, seq!['\n'], ps) == Some(nl));
        assert(!has_sep_between(full, ps, nl)) by {
            if has_sep_between(full, ps, nl) {
                let q = choose|q: int| ps <= q && q + 48 <= nl && match_at(full, sep_seq(), q);
                lemma_match_at_window(full, ps, nl, sep_seq(), q - ps);
                assert(full.subrange(ps, nl) == p);
                assert(match_at(p, sep_seq(), q - ps));
            }
        }

        // the path comes out exactly, and is valid and fresh
        assert(trim_seq(full.subrange(ps, nl)) == p);
        assert(p.len() > 0);
        assert(!crate::paths::is_abs_path(p));
        assert(!seen.contains(norm_path(p)));

        // the second separator and its newline
        assert(match_at(full, sep_seq(), ss)) by {
            assert(full.subrange(off + 56 + pn, off + 104 + pn) == sep_seq());
        }
        assert(full[a2] == '\n');

        // no separator occurrence starts inside the content
        assert forall|q: int| c0 <= q < bend implies !match_at(full, sep_seq(), q) by {
            if match_at(full, sep_seq(), q) {
                let w = e0.content + sep_seq();
                assert(w.subrange(q - c0, q - c0 + 48) =~= full.subrange(q, q + 48)) by {
                    assert forall|idx: int| q - c0 <= idx < q - c0 + 48 implies #[trigger] w[idx]
                        == full[c0 + idx] by {
                        if idx < cn {
                            assert(full.subrange(c0, bend)[idx] == full[c0 + idx]);
                            assert(w[idx] == e0.content[idx]);
                        } else {
                            // the window has run past the content into the
                            // next block's separator line
                            assert(rest1.len() > 0) by {
                                if rest1.len() == 0 {
                                    assert(bundle_text(rest1).len() == 0);
                                    assert(full.len() == bend);
                                }
                            }
                            assert(bundle_text(rest1) == entry_block(rest1[0]) + bundle_text(
                                rest1.drop_first(),
                            ));
                            lemma_block_structure(
                                full,
                                bend,
                                rest1[0],
                                bundle_text(rest1.drop_first()),
                            );
                            assert(full.subrange(bend, bend + 48)[idx - cn] == full[bend + (idx
                                - cn)]);
                            assert(full[bend + (idx - cn)] == sep_seq()[idx - cn]);
                            assert(w[idx] == sep_seq()[idx - cn]);
                        }
                    }
                }
                assert(match_at(w, sep_seq(), q - c0));
            }
        }

        // so the content ends exactly where the next block begins, or at
        // the end of the text
        let ce = scan_content_end(full, c0);
        if rest1.len() > 0 {
            assert(bundle_text(rest1) == entry_block(rest1[0]) + bundle_text(rest1.drop_first()));
            lemma_block_structure(full, bend, rest1[0], bundle_text(rest1.drop_first()));
            assert(match_at(full, sep_seq(), bend)) by {
                assert(full.subrange(bend, bend + 48) == sep_seq());
            }
            lemma_find_from_exact(full, sep_seq(), c0, bend);
            assert(ce == bend);
        } else {
            assert(bundle_text(rest1).len() == 0);
            assert(full.len() == bend);
            match find_from(full, sep_seq(), c0) {
                Some(x) => {
                    lemma_find_from_some(full, sep_seq(), c0, x);
                    assert(false);
                },
                None => {},
            }
            assert(ce == bend);
        }
        assert(full.subrange(c0, ce) == e0.content);

        // the tail is the rest of the bundle; recurse
        assert forall|i: int| 0 <= i < rest1.len() implies wf_entry(#[trigger] rest1[i]) by {
            assert(rest1[i] == rest[i + 1]);
        }
        assert forall|i: int| 0 <= i < rest1.len() implies !seen.push(norm_path(p)).contains(
            norm_path(#[trigger] rest1[i].path),
        ) by {
            assert(rest1[i] == rest[i + 1]);
            assert(norm_path(rest[0].path) != norm_path(rest[i + 1].path));
            if seen.push(norm_path(p)).contains(norm_path(rest1[i].path)) {
                let k = choose|k: int|
                    0 <= k < seen.push(norm_path(p)).len() && seen.push(norm_path(p))[k]
                        == norm_path(rest1[i].path);
                if k < seen.len() {
                    assert(seen.contains(norm_path(rest[i + 1].path)));
                }
            }
        }
        assert forall|i: int, j: int| 0 <= i < j < rest1.len() implies norm_path(
            rest1[i].path,
        ) != norm_path(rest1[j].path) by {
            assert(rest1[i] == rest[i + 1]);
            assert(rest1[j] == rest[j + 1]);
        }
        lemma_scan_blocks(full, bend, rest1, seen.push(norm_path(p)), acc_e.push(e0), acc_err);
        assert(acc_e + rest =~= acc_e.push(e0) + rest1);
    }
}

/// Where the scan takes the content to end, starting at `c0`.
pub open spec fn scan_content_end(full: Seq<char>, c0: int) -> int {
    match find_from(full, sep_seq(), c0) {
        Some(x) => x,
        None => full.len() as int,
    }
}

/// Printing a well-formed bundle and parsing it back yields exactly the
/// printed entries, in order, with no error: for every bundle of N
/// well-formed blocks, parsing finds exactly those N entries with their
/// paths and contents character for character.
pub proof fn lemma_parse_round_trip(es: Seq<EntryModel>)
    requires
        wf_bundle(es),
    ensures
        parse_model(bundle_text(es)) == (ParseModel {
            entries: es,
            errors: Seq::<ErrorModel>::empty(),
        }),
{
    let text = bundle_text(es);
    if es.len() == 0 {
        assert(text.len() == 0);
        assert(is_blank(text));
        assert(Seq::<EntryModel>::empty() =~= es);
        assert(parse_model(text) =~= (ParseModel { entries: es, errors: Seq::<ErrorModel>::empty() }));
    } else {
        let e0 = es[0];
        let rest1 = es.drop_first();
        assert(wf_entry(e0));
        assert(bundle_text(es) == entry_block(e0) + bundle_text(rest1));
        assert(text.subrange(0, text.len() as int) =~= text);
        lemma_block_structure(text, 0, e0, bundle_text(rest1));
        let pn = e0.path.len() as int;

        // the text is not blank: it opens with a separator character
        assert(text[0] == '=') by {
            assert(text.subrange(0, 48)[0] == text[0]);
            assert(sep_seq()[0] == '=');
        }
        assert(!is_ws('='));
        assert(!is_blank(text));

        // the first line is the first block's separator line
        assert forall|j: int| 0 <= j < 48 implies !match_at(text, seq!['\n'], j) by {
            assert(text.subrange(0, 48)[j] == text[j]);
            assert(sep_seq()[j] == '=');
            lemma_match_single(text, '\n', j);
        }
        assert(match_at(text, seq!['\n'], 48)) by {
            lemma_match_single(text, '\n', 48);
        }
        lemma_find_from_exact(text, seq!['\n'], 0, 48);
        assert(crate::text::line_end_from(text, 0) == 48);
        let l1 = text.subrange(0, 48);
        assert(l1 == sep_seq());
        assert(starts_with_after_ws(l1, sep_seq())) by {
            assert(!is_ws(l1[0]));
            assert(crate::text::first_non_ws(l1, 0) == 0);
            assert(l1.subrange(0, 48) =~= l1);
        }

        // and the second line opens with the path prefix
        assert forall|j: int| 49 <= j < 55 + pn implies !match_at(text, seq!['\n'], j) by {
            if j < 55 {
                assert(text.subrange(49, 55)[j - 49] == text[j]);
                assert(file_prefix()[j - 49] != '\n');
            } else {
                assert(text.subrange(55, 55 + pn)[j - 55] == text[j]);
                assert(e0.path[j - 55] != '\n');
            }
            lemma_match_single(text, '\n', j);
        }
        assert(match_at(text, seq!['\n'], 55 + pn)) by {
            lemma_match_single(text, '\n', 55 + pn);
        }
        lemma_find_from_exact(text, seq!['\n'], 49, 55 + pn);
        assert(crate::text::line_end_from(text, 49) == 55 + pn);
        let l2 = text.subrange(49, 55 + pn);
        assert(starts_with_after_ws(l2, file_prefix())) by {
            assert(l2[0] == text[49]);
            assert(text.subrange(49, 55)[0] == text[49]);
            assert(file_prefix()[0] == 'F');
            assert(!is_ws('F'));
            assert(crate::text::first_non_ws(l2, 0) == 0);
            assert(l2.subrange(0, 6) =~= text.subrange(49, 55));
        }
        assert(header_pair_at(text, 0));
        assert(first_header_start(text) == Some(0int));

        // the scan then walks the blocks
        lemma_scan_blocks(
            text,
            0,
            es,
            Seq::<Seq<char>>::empty(),
            Seq::<EntryModel>::empty(),
            Seq::<ErrorModel>::empty(),
        );
        assert(Seq::<EntryModel>::empty() + es =~= es);
    }
}

/// The round trip at the parser's interface: any result the parser's
/// contract allows for a printed well-formed bundle is success with
/// exactly the printed entries.
pub proof fn lemma_round_trip_outcome(
    es: Seq<EntryModel>,
    r: Result<Seq<EntryModel>, Seq<ErrorModel>>,
)
    requires
        wf_bundle(es),
        outcome_matches(bundle_text(es), r),
    ensures
        r == Ok::<Seq<EntryModel>, Seq<ErrorModel>>(es),
{
    lemma_parse_round_trip(es);
}

/// The invariants every entry list coming out of a parse obeys: no path
/// is empty, none is absolute, and no two name the same file once
/// normalized.
pub open spec fn entries_valid(es: Seq<EntryModel>) -> bool {
    &&& forall|i: int| 0 <= i < es.len() ==> (#[trigger] es[i]).path.len() > 0
    &&& forall|i: int| 0 <= i < es.len() ==> !is_abs_path((#[trigger] es[i]).path)
    &&& forall|i: int, j: int|
        0 <= i < j < es.len() ==> norm_path(es[i].path) != norm_path(es[j].path)
}

/// The canonical forms of the paths of `es`.
pub open spec fn norms_of(es: Seq<EntryModel>) -> Seq<Seq<char>> {
    es.map_values(|e: EntryModel| norm_path(e.path))
}

proof fn lemma_scan_entries_valid(
    text: Seq<char>,
    off: int,
    seen: Seq<Seq<char>>,
    acc_e: Seq<EntryModel>,
    acc_err: Seq<ErrorModel>,
)
    requires
        0 <= off,
        seen == norms_of(acc_e),
        entries_valid(acc_e),
    ensures
        entries_valid(scan(text, off, seen, acc_e, acc_err).entries),
    decreases text.len() - off,
{
    if off < text.len() {
        match find_from(text, sep_seq(), off) {
            None => {},
            Some(h) => {
                lemma_find_from_some(text, sep_seq(), off, h);
                let a1 = h + 48;
                if a1 < text.len() && text[a1] == '\n' {
                    let pls = a1 + 1;
                    if pls < text.len() && match_at(text, file_prefix(), pls) {
                        let ps = pls + 6;
                        match find_from(text, seq!['\n'], ps) {
                            None => {},
                            Some(nl) => {
                                lemma_find_from_some(text, seq!['\n'], ps, nl);
                                let errors1 = if !is_blank(text.subrange(off, h)) {
                                    acc_err.push(
                                        ErrorModel::UnexpectedContentAfterLastEntry {
                                            line: ln_at(text, off),
                                            excerpt: excerpt_of(text.subrange(off, h)),
                                        },
                                    )
                                } else {
                                    acc_err
                                };
                                if !has_sep_between(text, ps, nl) {
                                    let p = trim_seq(text.subrange(ps, nl));
                                    let pl = ln_at(text, h) + 1;
                                    let errors2 = if p.len() == 0 {
                                        errors1.push(ErrorModel::EmptyPath { line: pl })
                                    } else {
                                        errors1
                                    };
                                    let abs = p.len() > 0 && is_abs_path(p);
                                    let errors3 = if abs {
                                        errors2.push(
                                            ErrorModel::AbsolutePathNotAllowed {
                                                line: pl,
                                                path: p,
                                            },
                                        )
                                    } else {
                                        errors2
                                    };
                                    let dup = p.len() > 0 && !abs && seen.contains(norm_path(p));
                                    let errors4 = if dup {
                                        errors3.push(ErrorModel::DuplicatePath { line: pl, path: p })
                                    } else {
                                        errors3
                                    };
                                    let valid = p.len() > 0 && !abs && !dup;
                                    let ss = nl + 1;
                                    if ss < text.len() && match_at(text, sep_seq(), ss) {
                                        let a2 = ss + 48;
                                        if a2 < text.len() && text[a2] == '\n' {
                                            let c0 = a2 + 1;
                                            let ce = scan_content_end(text, c0);
                                            match find_from(text, sep_seq(), c0) {
                                                Some(x) => {
                                                    lemma_find_from_some(text, sep_seq(), c0, x);
                                                },
                                                None => {},
                                            }
                                            let seen1 = if valid {
                                                seen.push(norm_path(p))
                                            } else {
                                                seen
                                            };
                                            let entry = EntryModel {
                                                path: p,
                                                content: text.subrange(c0, ce),
                                            };
                                            let entries1 = if valid {
                                                acc_e.push(entry)
                                            } else {
                                                acc_e
                                            };
                                            if valid {
                                                assert forall|i: int|
                                                    0 <= i < acc_e.len() implies norm_path(
                                                    (#[trigger] acc_e[i]).path,
                                                ) != norm_path(p) by {
                                                    if norm_path(acc_e[i].path) == norm_path(p) {
                                                        assert(norms_of(acc_e)[i] == norm_path(
                                                            acc_e[i].path,
                                                        ));
                                                        assert(seen.contains(norm_path(p)));
                                                    }
                                                }
                                                assert(entries_valid(entries1));
                                                assert(seen1 =~= norms_of(entries1));
                                            }
                                            lemma_scan_entries_valid(
                                                text,
                                                ce,
                                                seen1,
                                                entries1,
                                                errors4,
                                            );
                                        }
                                    }
                                }
                            },
                        }
                    }
                }
            },
        }
    }
}

/// Every parse keeps the entry invariants: in any result, paths are
/// non-empty, relative, and pairwise distinct once normalized.
pub proof fn lemma_parse_entries_valid(text: Seq<char>)
    ensures
        entries_valid(parse_model(text).entries),
{
    assert(norms_of(Seq::<EntryModel>::empty()) =~= Seq::<Seq<char>>::empty());
    if !is_blank(text) {
        match first_header_start(text) {
            Some(h) => {
                lemma_first_header_start_bounds(text, 0, h);
                lemma_scan_entries_valid(
                    text,
                    h,
                    Seq::<Seq<char>>::empty(),
                    Seq::<EntryModel>::empty(),
                    Seq::<ErrorModel>::empty(),
                );
            },
            None => {
                lemma_scan_entries_valid(
                    text,
                    0,
                    Seq::<Seq<char>>::empty(),
                    Seq::<EntryModel>::empty(),
                    seq![
                        ErrorModel::ContentBeforeFirstHeader {
                            line: 1,
                            excerpt: take_n(crate::model::first_nonblank_line(text, 0), 50),
                        },
                    ],
                );
            },
        }
    }
}

/// The line an error is anchored at.
pub open spec fn error_line(e: ErrorModel) -> int {
    match e {
        ErrorModel::ContentBeforeFirstHeader { line, .. } => line,
        ErrorModel::MalformedHeaderMissingFilePrefix { line, .. } => line,
        ErrorModel::MalformedHeaderMissingSeparatorAfterPath { line, .. } => line,
        ErrorModel::MalformedHeaderPathLineInterruptedBySeparator { line, .. } => line,
        ErrorModel::MalformedHeaderPathLineMissingNewline { line, .. } => line,
        ErrorModel::MalformedHeaderMissingNewlineAfterContentSeparator { line, .. } => line,
        ErrorModel::EmptyPath { line } => line,
        ErrorModel::AbsolutePathNotAllowed { line, .. } => line,
        ErrorModel::DuplicatePath { line, .. } => line,
        ErrorModel::PrematureEOFBeforePathLine { line } => line,
        ErrorModel::PrematureEOFBeforeContentSeparator { line, .. } => line,
        ErrorModel::PrematureEOFBeforeContentSeparatorNewline { line, .. } => line,
        ErrorModel::UnexpectedContentAfterLastEntry { line, .. } => line,
    }
}

/// Errors stand in document order: their line anchors never decrease.
pub open spec fn lines_ordered(errs: Seq<ErrorModel>) -> bool {
    forall|a: int, b: int| 0 <= a < b < errs.len() ==> error_line(errs[a]) <= error_line(errs[b])
}

proof fn lemma_ordered_push(errs: Seq<ErrorModel>, x: ErrorModel)
    requires
        lines_ordered(errs),
        forall|k: int| 0 <= k < errs.len() ==> error_line(#[trigger] errs[k]) <= error_line(x),
    ensures
        lines_ordered(errs.push(x)),
        forall|k: int|
            0 <= k < errs.push(x).len() ==> error_line(#[trigger] errs.push(x)[k]) <= error_line(
                x,
            ),
{
    assert forall|a: int, b: int| 0 <= a < b < errs.push(x).len() implies error_line(
        errs.push(x)[a],
    ) <= error_line(errs.push(x)[b]) by {
        if b < errs.len() {
            assert(error_line(errs[a]) <= error_line(errs[b]));
        } else {
            assert(error_line(errs[a]) <= error_line(x));
        }
    }
}

/// Line numbers never decrease along the text.
proof fn lemma_ln_at_mono(text: Seq<char>, a: int, b: int)
    requires
        0 <= a <= b <= text.len(),
    ensures
        ln_at(text, a) <= ln_at(text, b),
{
    assert(text.subrange(0, b) =~= text.subrange(0, a) + text.subrange(a, b));
    lemma_count_char_additive(text.subrange(0, a), text.subrange(a, b), '\n');
}

/// Three newlines between two positions put the later position at least
/// three lines further down.
proof fn lemma_ln_at_gap(text: Seq<char>, s: int, p1: int, p2: int, p3: int, e: int)
    requires
        0 <= s <= p1 < p2 < p3 < e <= text.len(),
        text[p1] == '\n',
        text[p2] == '\n',
        text[p3] == '\n',
    ensures
        ln_at(text, e) >= ln_at(text, s) + 3,
{
    let w0 = text.subrange(0, s);
    let w1 = text.subrange(s, p1 + 1);
    let w2 = text.subrange(p1 + 1, p2 + 1);
    let w3 = text.subrange(p2 + 1, p3 + 1);
    let w4 = text.subrange(p3 + 1, e);
    assert(text.subrange(0, e) =~= w0 + w1 + w2 + w3 + w4);
    lemma_count_char_additive(w0 + w1 + w2 + w3, w4, '\n');
    lemma_count_char_additive(w0 + w1 + w2, w3, '\n');
    lemma_count_char_additive(w0 + w1, w2, '\n');
    lemma_count_char_additive(w0, w1, '\n');
    assert(w1[p1 - s] == '\n');
    lemma_count_char_positive(w1, '\n', p1 - s);
    assert(w2[p2 - p1 - 1] == '\n');
    lemma_count_char_positive(w2, '\n', p2 - p1 - 1);
    assert(w3[p3 - p2 - 1] == '\n');
    lemma_count_char_positive(w3, '\n', p3 - p2 - 1);
}

/// A found header start lies inside the text.
proof fn lemma_first_header_start_bounds(text: Seq<char>, i: int, h: int)
    requires
        0 <= i,
        first_header_start_from(text, i) == Some(h),
    ensures
        i <= h < text.len(),
    decreases text.len() - i + 1,
{
    if i < text.len() && !header_pair_at(text, i) {
        crate::text::lemma_line_end_from(text, i);
        lemma_first_header_start_bounds(text, line_end_from(text, i) + 1, h);
    }
}

/// The scan only adds errors anchored at or after the line of its current
/// position, in order.
proof fn lemma_scan_errors_ordered(
    text: Seq<char>,
    off: int,
    seen: Seq<Seq<char>>,
    acc_e: Seq<EntryModel>,
    acc_err: Seq<ErrorModel>,
)
    requires
        0 <= off,
        lines_ordered(acc_err),
        forall|k: int|
            0 <= k < acc_err.len() ==> error_line(#[trigger] acc_err[k]) <= ln_at(text, off),
    ensures
        lines_ordered(scan(text, off, seen, acc_e, acc_err).errors),
    decreases text.len() - off,
{
    if off < text.len() {
        match find_from(text, sep_seq(), off) {
            None => {
                let rem = text.subrange(off, text.len() as int);
                if !is_blank(rem) && acc_e.len() > 0 {
                    lemma_ordered_push(
                        acc_err,
                        ErrorModel::UnexpectedContentAfterLastEntry {
                            line: ln_at(text, off),
                            excerpt: excerpt_of(rem),
                        },
                    );
                }
            },
            Some(h) => {
                lemma_find_from_some(text, sep_seq(), off, h);
                lemma_ln_at_mono(text, off, h);
                let hline = ln_at(text, h);
                let e_uc = ErrorModel::UnexpectedContentAfterLastEntry {
                    line: ln_at(text, off),
                    excerpt: excerpt_of(text.subrange(off, h)),
                };
                let errors1 = if !is_blank(text.subrange(off, h)) {
                    acc_err.push(e_uc)
                } else {
                    acc_err
                };
                if !is_blank(text.subrange(off, h)) {
                    lemma_ordered_push(acc_err, e_uc);
                }
                assert(lines_ordered(errors1));
                assert(forall|k: int|
                    0 <= k < errors1.len() ==> error_line(#[trigger] errors1[k]) <= hline);
                let a1 = h + 48;
                if a1 >= text.len() {
                    lemma_ordered_push(
                        errors1,
                        ErrorModel::PrematureEOFBeforePathLine { line: hline },
                    );
                } else if text[a1] != '\n' {
                    lemma_ordered_push(
                        errors1,
                        ErrorModel::MalformedHeaderMissingFilePrefix {
                            line: hline + 1,
                            header_line: crate::text::trim_end_seq(crate::text::line_at(text, a1)),
                        },
                    );
                } else {
                    let pl = hline + 1;
                    let pls = a1 + 1;
                    if pls >= text.len() {
                        lemma_ordered_push(
                            errors1,
                            ErrorModel::PrematureEOFBeforePathLine { line: pl },
                        );
                    } else if !match_at(text, file_prefix(), pls) {
                        lemma_ordered_push(
                            errors1,
                            ErrorModel::MalformedHeaderMissingFilePrefix {
                                line: pl,
                                header_line: crate::text::strip_cr(
                                    crate::text::line_at(text, pls),
                                ),
                            },
                        );
                    } else {
                        let ps = pls + 6;
                        match find_from(text, seq!['\n'], ps) {
                            None => {
                                lemma_ordered_push(
                                    errors1,
                                    ErrorModel::MalformedHeaderPathLineMissingNewline {
                                        line: pl,
                                        path_line: crate::text::trim_end_seq(
                                            text.subrange(ps, text.len() as int),
                                        ),
                                    },
                                );
                            },
                            Some(nl) => {
                                lemma_find_from_some(text, seq!['\n'], ps, nl);
                                if has_sep_between(text, ps, nl) {
                                    lemma_ordered_push(
                                        errors1,
                                        ErrorModel::MalformedHeaderPathLineInterruptedBySeparator {
                                            line: pl,
                                            path_line: crate::text::trim_end_seq(
                                                text.subrange(ps, nl),
                                            ),
                                        },
                                    );
                                } else {
                                    let p = trim_seq(text.subrange(ps, nl));
                                    let errors2 = if p.len() == 0 {
                                        lemma_ordered_push(
                                            errors1,
                                            ErrorModel::EmptyPath { line: pl },
                                        );
                                        errors1.push(ErrorModel::EmptyPath { line: pl })
                                    } else {
                                        errors1
                                    };
                                    assert(lines_ordered(errors2));
                                    assert(forall|k: int|
                                        0 <= k < errors2.len() ==> error_line(
                                            #[trigger] errors2[k],
                                        ) <= pl);
                                    let abs = p.len() > 0 && is_abs_path(p);
                                    let e_abs = ErrorModel::AbsolutePathNotAllowed {
                                        line: pl,
                                        path: p,
                                    };
                                    let errors3 = if abs {
                                        lemma_ordered_push(errors2, e_abs);
                                        errors2.push(e_abs)
                                    } else {
                                        errors2
                                    };
                                    let dup = p.len() > 0 && !abs && seen.contains(norm_path(p));
                                    let e_dup = ErrorModel::DuplicatePath { line: pl, path: p };
                                    let errors4 = if dup {
                                        lemma_ordered_push(errors3, e_dup);
                                        errors3.push(e_dup)
                                    } else {
                                        errors3
                                    };
                                    assert(lines_ordered(errors4));
                                    assert(forall|k: int|
                                        0 <= k < errors4.len() ==> error_line(
                                            #[trigger] errors4[k],
                                        ) <= pl);
                                    let sl = pl + 1;
                                    let ss = nl + 1;
                                    if ss >= text.len() {
                                        lemma_ordered_push(
                                            errors4,
                                            ErrorModel::PrematureEOFBeforeContentSeparator {
                                                line: sl,
                                                path: p,
                                            },
                                        );
                                    } else if !match_at(text, sep_seq(), ss) {
                                        lemma_ordered_push(
                                            errors4,
                                            ErrorModel::MalformedHeaderMissingSeparatorAfterPath {
                                                line: sl,
                                                path_line: p,
                                            },
                                        );
                                    } else {
                                        let a2 = ss + 48;
                                        if a2 >= text.len() {
                                            lemma_ordered_push(
                                                errors4,
                                                ErrorModel::PrematureEOFBeforeContentSeparatorNewline {
                                                    line: sl,
                                                    path: p,
                                                },
                                            );
                                        } else if text[a2] != '\n' {
                                            lemma_ordered_push(
                                                errors4,
                                                ErrorModel::MalformedHeaderMissingNewlineAfterContentSeparator {
                                                    line: sl,
                                                    separator_line: sep_seq(),
                                                },
                                            );
                                        } else {
                                            let c0 = a2 + 1;
                                            let ce = scan_content_end(text, c0);
                                            match find_from(text, sep_seq(), c0) {
                                                Some(x) => {
                                                    lemma_find_from_some(text, sep_seq(), c0, x);
                                                },
                                                None => {},
                                            }
                                            lemma_match_single(text, '\n', nl);
                                            lemma_ln_at_gap(text, h, a1, nl, a2, ce);
                                            lemma_ln_at_mono(text, off, ce);
                                            assert(forall|k: int|
                                                0 <= k < errors4.len() ==> error_line(
                                                    #[trigger] errors4[k],
                                                ) <= ln_at(text, ce));
                                            let valid = p.len() > 0 && !abs && !dup;
                                            let seen1 = if valid {
                                                seen.push(norm_path(p))
                                            } else {
                                                seen
                                            };
                                            let entries1 = if valid {
                                                acc_e.push(
                                                    EntryModel {
                                                        path: p,
                                                        content: text.subrange(c0, ce),
                                                    },
                                                )
                                            } else {
                                                acc_e
                                            };
                                            lemma_scan_errors_ordered(
                                                text,
                                                ce,
                                                seen1,
                                                entries1,
                                                errors4,
                                            );
                                        }
                                    }
                                }
                            },
                        }
                    }
                }
            },
        }
    }
}

/// Errors are reported in document order: every parse lists its errors
/// with line anchors that never decrease, so independent defects in one
/// bundle appear in the order the text shows them.
pub proof fn lemma_errors_in_document_order(text: Seq<char>)
    ensures
        lines_ordered(parse_model(text).errors),
{
    if !is_blank(text) {
        match first_header_start(text) {
            Some(h) => {
                lemma_first_header_start_bounds(text, 0, h);
                lemma_scan_errors_ordered(
                    text,
                    h,
                    Seq::<Seq<char>>::empty(),
                    Seq::<EntryModel>::empty(),
                    Seq::<ErrorModel>::empty(),
                );
            },
            None => {
                let cbf = ErrorModel::ContentBeforeFirstHeader {
                    line: 1,
                    excerpt: take_n(crate::model::first_nonblank_line(text, 0), 50),
                };
                assert(text.subrange(0, 0) =~= Seq::<char>::empty());
                assert(count_char(Seq::<char>::empty(), '\n') == 0);
                assert(error_line(cbf) == 1 == ln_at(text, 0));
                assert(lines_ordered(seq![cbf]));
                lemma_scan_errors_ordered(
                    text,
                    0,
                    Seq::<Seq<char>>::empty(),
                    Seq::<EntryModel>::empty(),
                    seq![cbf],
                );
            },
        }
    }
}

} // verus!
