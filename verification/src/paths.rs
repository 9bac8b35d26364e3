//! Relative-path normalization.  Two path strings name the same file when
//! their component lists agree after empty components are collapsed and
//! `.` components are dropped (a leading `.` is kept), the way
//! `std::path::Path` compares paths on Unix.  The canonical form of a path
//! is its normalized component list joined with `/`, which identifies the
//! component list uniquely because components are non-empty and hold no
//! slash.

use vstd::prelude::*;
use crate::text::{find_from, lemma_find_from_none, lemma_find_from_some, find_pattern, sub_vec};

verus! {

/// The views of a sequence of character vectors.
pub open spec fn char_views(v: Seq<Vec<char>>) -> Seq<Seq<char>> {
    v.map_values(|x: Vec<char>| x@)
}

/// The non-empty runs of characters between `/` separators.
pub open spec fn split_slash(p: Seq<char>) -> Seq<Seq<char>>
    decreases p.len(),
    via split_slash_decreases
{
    if p.len() == 0 {
        Seq::empty()
    } else {
        match find_from(p, seq!['/'], 0) {
            None => seq![p],
            Some(k) => if k == 0 {
                split_slash(p.subrange(1, p.len() as int))
            } else {
                seq![p.subrange(0, k)] + split_slash(p.subrange(k + 1, p.len() as int))
            },
        }
    }
}

#[via_fn]
proof fn split_slash_decreases(p: Seq<char>) {
    if p.len() > 0 {
        match find_from(p, seq!['/'], 0) {
            None => {},
            Some(k) => {
                lemma_find_from_some(p, seq!['/'], 0, k);
            },
        }
    }
}

/// Components equal to `.` are dropped.
pub open spec fn drop_dots(cs: Seq<Seq<char>>) -> Seq<Seq<char>>
    decreases cs.len(),
{
    if cs.len() == 0 {
        Seq::empty()
    } else if cs[0] == seq!['.'] {
        drop_dots(cs.drop_first())
    } else {
        seq![cs[0]] + drop_dots(cs.drop_first())
    }
}

/// The component list `std::path::Path` sees: empty components collapsed,
/// `.` dropped everywhere but at the very front.
pub open spec fn norm_components(p: Seq<char>) -> Seq<Seq<char>> {
    let cs = split_slash(p);
    if cs.len() > 0 && cs[0] == seq!['.'] {
        seq![cs[0]] + drop_dots(cs.drop_first())
    } else {
        drop_dots(cs)
    }
}

/// Components joined with a single `/` between them.
pub open spec fn join_slash(cs: Seq<Seq<char>>) -> Seq<char>
    decreases cs.len(),
{
    if cs.len() == 0 {
        Seq::empty()
    } else if cs.len() == 1 {
        cs[0]
    } else {
        cs[0] + seq!['/'] + join_slash(cs.drop_first())
    }
}

/// The canonical spelling of a relative path: its normalized components
/// joined with `/`.
pub open spec fn norm_path(p: Seq<char>) -> Seq<char> {
    join_slash(norm_components(p))
}

/// A path the bundle format rejects: absolute, or rooted at `/`.
/// On Unix both mean the same thing, a leading slash.
pub open spec fn is_abs_path(p: Seq<char>) -> bool {
    p.len() > 0 && p[0] == '/'
}

proof fn lemma_join_push(cs: Seq<Seq<char>>, x: Seq<char>)
    ensures
        join_slash(cs.push(x)) == if cs.len() == 0 {
            x
        } else {
            join_slash(cs) + seq!['/'] + x
        },
    decreases cs.len(),
{
    if cs.len() == 0 {
        assert(cs.push(x).len() == 1);
        assert(cs.push(x)[0] == x);
    } else {
        assert(cs.push(x).drop_first() =~= cs.drop_first().push(x));
        lemma_join_push(cs.drop_first(), x);
        if cs.len() == 1 {
            assert(join_slash(cs) == cs[0]);
            assert(join_slash(cs.push(x)) == cs[0] + seq!['/'] + x);
        }
    }
}

/// `find_from` looked at through a suffix window of the text.
pub proof fn lemma_find_in_suffix(t: Seq<char>, a: int, pat: Seq<char>, from: int)
    requires
        0 <= a <= t.len(),
        0 <= from,
    ensures
        match find_from(t, pat, a + from) {
            Some(i) => find_from(t.subrange(a, t.len() as int), pat, from) == Some(i - a),
            None => find_from(t.subrange(a, t.len() as int), pat, from) is None,
        },
{
    let w = t.subrange(a, t.len() as int);
    assert forall|q: int| 0 <= q implies match_shift_holds(t, a, pat, q) by {
        if q + pat.len() <= w.len() {
            crate::text::lemma_match_at_window(t, a, t.len() as int, pat, q);
        }
    }
    match find_from(t, pat, a + from) {
        Some(i) => {
            lemma_find_from_some(t, pat, a + from, i);
            assert(match_shift_holds(t, a, pat, i - a));
            assert forall|j: int| from <= j < i - a implies !crate::text::match_at(w, pat, j) by {
                assert(match_shift_holds(t, a, pat, j));
            }
            crate::text::lemma_find_from_exact(w, pat, from, i - a);
        },
        None => {
            lemma_find_from_none(t, pat, a + from);
            match find_from(w, pat, from) {
                Some(j) => {
                    lemma_find_from_some(w, pat, from, j);
                    assert(match_shift_holds(t, a, pat, j));
                    assert(false);
                },
                None => {},
            }
        },
    }
}

/// An occurrence in the suffix of `t` that starts at `a` is an occurrence
/// in `t`, shifted by `a`.
pub open spec fn match_shift_holds(t: Seq<char>, a: int, pat: Seq<char>, q: int) -> bool {
    crate::text::match_at(t.subrange(a, t.len() as int), pat, q) == crate::text::match_at(
        t,
        pat,
        a + q,
    )
}

/// The non-empty components of `p`, as `split_slash` lists them.
pub fn split_components(p: &Vec<char>) -> (cs: Vec<Vec<char>>)
    ensures
        char_views(cs@) == split_slash(p@),
{
    let slash: Vec<char> = vec!['/'];
    proof {
        assert(slash@ =~= seq!['/']);
    }
    let mut cs: Vec<Vec<char>> = Vec::new();
    let mut off: usize = 0;
    let n = p.len();
    proof {
        assert(p@.subrange(0, n as int) =~= p@);
        assert(char_views(cs@) =~= Seq::<Seq<char>>::empty());
        assert(Seq::<Seq<char>>::empty() + split_slash(p@) =~= split_slash(p@));
    }
    while off < n
        invariant
            off <= n,
            n == p@.len(),
            slash@ =~= seq!['/'],
            char_views(cs@) + split_slash(p@.subrange(off as int, n as int)) == split_slash(p@),
        decreases n - off,
    {
        let ghost suffix = p@.subrange(off as int, n as int);
        match find_pattern(p, &slash, off) {
            None => {
                proof {
                    lemma_find_in_suffix(p@, off as int, seq!['/'], 0);
                    assert(split_slash(suffix) =~= seq![suffix]);
                }
                let piece = sub_vec(p, off, n);
                let ghost old_cs = cs@;
                cs.push(piece);
                proof {
                    assert(char_views(cs@) =~= char_views(old_cs).push(suffix));
                    assert(char_views(cs@) + split_slash(p@.subrange(n as int, n as int))
                        =~= char_views(old_cs) + split_slash(suffix));
                }
                off = n;
            },
            Some(k) => {
                proof {
                    lemma_find_from_some(p@, seq!['/'], off as int, k as int);
                    lemma_find_in_suffix(p@, off as int, seq!['/'], 0);
                    assert(find_from(suffix, seq!['/'], 0) == Some(k - off));
                }
                if k > off {
                    let piece = sub_vec(p, off, k);
                    let ghost old_cs = cs@;
                    cs.push(piece);
                    proof {
                        assert(piece@ =~= suffix.subrange(0, k - off));
                        assert(char_views(cs@) =~= char_views(old_cs).push(
                            suffix.subrange(0, k - off),
                        ));
                        assert(suffix.subrange(k - off + 1, suffix.len() as int) =~= p@.subrange(
                            k + 1,
                            n as int,
                        ));
                        assert(split_slash(suffix) == seq![suffix.subrange(0, k - off)]
                            + split_slash(p@.subrange(k + 1, n as int)));
                        assert(char_views(cs@) + split_slash(p@.subrange(k + 1, n as int))
                            =~= (char_views(old_cs) + split_slash(suffix)));
                    }
                } else {
                    proof {
                        assert(suffix.subrange(1, suffix.len() as int) =~= p@.subrange(
                            k + 1,
                            n as int,
                        ));
                        assert(split_slash(suffix) == split_slash(p@.subrange(k + 1, n as int)));
                    }
                }
                off = k + 1;
            },
        }
    }
    proof {
        assert(split_slash(p@.subrange(n as int, n as int)) =~= Seq::<Seq<char>>::empty());
        assert(char_views(cs@) =~= char_views(cs@) + Seq::<Seq<char>>::empty());
    }
    cs
}

fn is_dot(c: &Vec<char>) -> (r: bool)
    ensures
        r == (c@ == seq!['.']),
{
    if c.len() == 1 && c[0] == '.' {
        proof {
            assert(c@ =~= seq!['.']);
        }
        true
    } else {
        proof {
            if c@ == seq!['.'] {
                assert(c@.len() == 1 && c@[0] == '.');
            }
        }
        false
    }
}

/// The normalized component list of `p`, as `norm_components` gives it.
pub fn normalize_components(p: &Vec<char>) -> (out: Vec<Vec<char>>)
    ensures
        char_views(out@) == norm_components(p@),
{
    let cs = split_components(p);
    let ghost dv = char_views(cs@);
    let mut out: Vec<Vec<char>> = Vec::new();
    let mut i: usize = 0;
    if cs.len() > 0 && is_dot(&cs[0]) {
        let first = sub_vec(&cs[0], 0, cs[0].len());
        proof {
            assert(char_views(cs@)[0] == cs@[0]@);
            assert(first@ =~= cs@[0]@);
        }
        out.push(first);
        i = 1;
        proof {
            assert(char_views(out@) =~= seq![dv[0]]);
            assert(dv.drop_first() =~= dv.subrange(1, dv.len() as int));
        }
    } else {
        proof {
            if cs@.len() > 0 {
                assert(char_views(cs@)[0] == cs@[0]@);
            }
            assert(dv.subrange(0, dv.len() as int) =~= dv);
        }
    }
    while i < cs.len()
        invariant
            i <= cs@.len(),
            dv == char_views(cs@),
            char_views(out@) + drop_dots(dv.subrange(i as int, dv.len() as int))
                == norm_components(p@),
        decreases cs@.len() - i,
    {
        let ghost tail = dv.subrange(i as int, dv.len() as int);
        proof {
            assert(char_views(cs@)[i as int] == cs@[i as int]@);
            assert(tail[0] == dv[i as int]);
            assert(tail.drop_first() =~= dv.subrange(i + 1, dv.len() as int));
        }
        if !is_dot(&cs[i]) {
            let piece = sub_vec(&cs[i], 0, cs[i].len());
            let ghost old_out = out@;
            out.push(piece);
            proof {
                assert(piece@ =~= cs@[i as int]@);
                assert(char_views(out@) =~= char_views(old_out).push(dv[i as int]));
                assert(drop_dots(tail) == seq![dv[i as int]] + drop_dots(tail.drop_first()));
                assert(char_views(out@) + drop_dots(tail.drop_first()) =~= char_views(old_out)
                    + drop_dots(tail));
            }
        } else {
            proof {
                assert(drop_dots(tail) == drop_dots(tail.drop_first()));
            }
        }
        i += 1;
    }
    proof {
        assert(drop_dots(dv.subrange(dv.len() as int, dv.len() as int)) =~= Seq::<Seq<
            char,
        >>::empty());
        assert(char_views(out@) =~= char_views(out@) + Seq::<Seq<char>>::empty());
    }
    out
}

/// The first `upto` components of `cs` joined with `/`.
pub fn join_components(cs: &Vec<Vec<char>>, upto: usize) -> (v: Vec<char>)
    requires
        upto <= cs@.len(),
    ensures
        v@ == join_slash(char_views(cs@).subrange(0, upto as int)),
{
    let ghost dv = char_views(cs@);
    let mut v: Vec<char> = Vec::new();
    let mut i: usize = 0;
    proof {
        assert(dv.subrange(0, 0) =~= Seq::<Seq<char>>::empty());
    }
    while i < upto
        invariant
            i <= upto <= cs@.len(),
            dv == char_views(cs@),
            v@ == join_slash(dv.subrange(0, i as int)),
        decreases upto - i,
    {
        let ghost before = v@;
        let ghost pre = dv.subrange(0, i as int);
        if i > 0 {
            v.push('/');
        }
        let mut j: usize = 0;
        let n = cs[i].len();
        while j < n
            invariant
                j <= n,
                i < cs@.len(),
                n == cs@[i as int]@.len(),
                dv == char_views(cs@),
                v@ == (if i > 0 {
                    before.push('/')
                } else {
                    before
                }) + cs@[i as int]@.subrange(0, j as int),
            decreases n - j,
        {
            v.push(cs[i][j]);
            proof {
                assert(cs@[i as int]@.subrange(0, j + 1) =~= cs@[i as int]@.subrange(
                    0,
                    j as int,
                ).push(cs@[i as int]@[j as int]));
            }
            j += 1;
        }
        proof {
            assert(char_views(cs@)[i as int] == cs@[i as int]@);
            assert(cs@[i as int]@.subrange(0, n as int) =~= dv[i as int]);
            lemma_join_push(pre, dv[i as int]);
            assert(dv.subrange(0, i + 1) =~= pre.push(dv[i as int]));
            if i > 0 {
                assert(v@ =~= join_slash(pre) + seq!['/'] + dv[i as int]);
            } else {
                assert(pre.len() == 0);
                assert(v@ =~= dv[i as int]);
            }
        }
        i += 1;
    }
    v
}

/// The canonical spelling of `p`, as `norm_path` gives it.
pub fn normal_form(p: &Vec<char>) -> (v: Vec<char>)
    ensures
        v@ == norm_path(p@),
{
    let cs = normalize_components(p);
    let n = cs.len();
    proof {
        assert(char_views(cs@).subrange(0, char_views(cs@).len() as int) =~= char_views(cs@));
    }
    join_components(&cs, n)
}

/// Character-for-character equality of two vectors.
pub fn vec_chars_eq(a: &Vec<char>, b: &Vec<char>) -> (r: bool)
    ensures
        r == (a@ == b@),
{
    if a.len() != b.len() {
        return false;
    }
    let n = a.len();
    let mut i: usize = 0;
    while i < n
        invariant
            i <= n,
            n == a@.len() == b@.len(),
            forall|k: int| 0 <= k < i ==> a@[k] == b@[k],
        decreases n - i,
    {
        if a[i] != b[i] {
            return false;
        }
        i += 1;
    }
    proof {
        assert(a@ =~= b@);
    }
    true
}

/// Whether `x` occurs among the vectors of `seen`.
pub fn contains_chars(seen: &Vec<Vec<char>>, x: &Vec<char>) -> (r: bool)
    ensures
        r == char_views(seen@).contains(x@),
{
    let n = seen.len();
    let mut i: usize = 0;
    while i < n
        invariant
            i <= n,
            n == seen@.len(),
            forall|k: int| 0 <= k < i ==> char_views(seen@)[k] != x@,
        decreases n - i,
    {
        proof {
            assert(char_views(seen@)[i as int] == seen@[i as int]@);
        }
        if vec_chars_eq(&seen[i], x) {
            assert(char_views(seen@)[i as int] == x@);
            return true;
        }
        i += 1;
    }
    proof {
        if char_views(seen@).contains(x@) {
            let k = choose|k: int| 0 <= k < char_views(seen@).len() && char_views(seen@)[k] == x@;
            assert(char_views(seen@)[k] != x@);
        }
    }
    false
}

} // verus!
