//! Collision planning for materializing entries under an output root.
//!
//! The filesystem itself is outside this library, so the caller stats the
//! paths the library names and hands the answers back as plain values: for
//! each entry, the status of the joined target path and of every ancestor
//! prefix that `ancestor_paths` lists.  `check_for_collisions` then
//! decides, entry by entry, whether the target already exists or an
//! ancestor directory component is a plain file.

use vstd::prelude::*;
use crate::parser::{entries_view, ParsedEntry};
use crate::paths::{char_views, join_slash, norm_components, normalize_components, join_components};
use crate::text::{chars_to_string, str_chars};

verus! {

/// What a path currently is under the output root.
#[derive(Debug, Clone, Copy, PartialEq, Eq)]
pub enum PathStatus {
    Missing,
    IsFile,
    IsDir,
}

/// The filesystem's answers for one entry: the target path's status and,
/// in order, the status of each ancestor prefix of the entry's path.
#[derive(Debug, Clone)]
pub struct EntryProbe {
    pub target: PathStatus,
    pub ancestors: Vec<PathStatus>,
}

/// The views of a sequence of strings.
pub open spec fn string_views(v: Seq<String>) -> Seq<Seq<char>> {
    v.map_values(|s: String| s@)
}

/// How many ancestor prefixes an entry's path has: one per component of
/// its parent.
pub open spec fn ancestor_count(p: Seq<char>) -> int {
    if norm_components(p).len() == 0 {
        0
    } else {
        norm_components(p).len() - 1
    }
}

/// The `j`-th ancestor prefix of `p`: its first `j + 1` normalized
/// components, joined.
pub open spec fn ancestor_prefix(p: Seq<char>, j: int) -> Seq<char> {
    join_slash(norm_components(p).subrange(0, j + 1))
}

/// Every ancestor prefix of `p`, shortest first.
pub open spec fn ancestor_prefix_list(p: Seq<char>) -> Seq<Seq<char>> {
    Seq::new(ancestor_count(p) as nat, |j: int| ancestor_prefix(p, j))
}

/// Index of the first ancestor that is a plain file, if any.
pub open spec fn first_file_idx(anc: Seq<PathStatus>, i: int) -> Option<int>
    decreases anc.len() - i + 1,
{
    if i < 0 || i >= anc.len() {
        None
    } else if anc[i] == PathStatus::IsFile {
        Some(i)
    } else {
        first_file_idx(anc, i + 1)
    }
}

/// What one entry contributes to the collision report: its own path when
/// the target already exists; otherwise the first ancestor prefix that is
/// a plain file, because a file cannot serve as a directory.
pub open spec fn entry_collisions(
    path: Seq<char>,
    target: PathStatus,
    anc: Seq<PathStatus>,
) -> Seq<Seq<char>> {
    if target != PathStatus::Missing {
        seq![path]
    } else {
        match first_file_idx(anc, 0) {
            Some(j) => seq![ancestor_prefix(path, j)],
            None => Seq::empty(),
        }
    }
}

/// The collision report for all entries, in entry order.
pub open spec fn collision_list(
    entries: Seq<crate::model::EntryModel>,
    probes: Seq<EntryProbe>,
) -> Seq<Seq<char>>
    decreases entries.len(),
{
    if entries.len() == 0 || probes.len() == 0 {
        Seq::empty()
    } else {
        entry_collisions(entries[0].path, probes[0].target, probes[0].ancestors@) + collision_list(
            entries.drop_first(),
            probes.drop_first(),
        )
    }
}

/// The probes of one entry agree in shape with its path.
pub open spec fn probe_shaped(path: Seq<char>, probe: EntryProbe) -> bool {
    probe.ancestors@.len() == ancestor_count(path)
}

/// The ancestor prefixes of `path`, shortest first: the relative paths
/// whose status under the output root `check_for_collisions` needs.
pub fn ancestor_paths(path: &String) -> (r: Vec<String>)
    ensures
        string_views(r@) == ancestor_prefix_list(path@),
{
    let chars = str_chars(path.as_str());
    let cs = normalize_components(&chars);
    let ghost dv = char_views(cs@);
    let mut r: Vec<String> = Vec::new();
    let count: usize = if cs.len() == 0 {
        0
    } else {
        cs.len() - 1
    };
    let mut j: usize = 0;
    while j < count
        invariant
            j <= count,
            count == ancestor_count(path@),
            dv == char_views(cs@),
            dv == norm_components(path@),
            r@.len() == j,
            forall|k: int| 0 <= k < j ==> string_views(r@)[k] == ancestor_prefix(path@, k),
        decreases count - j,
    {
        let joined = join_components(&cs, j + 1);
        let ghost r0 = r@;
        r.push(chars_to_string(&joined));
        proof {
            assert forall|k: int| 0 <= k < j + 1 implies string_views(r@)[k] == ancestor_prefix(
                path@,
                k,
            ) by {
                if k < j {
                    assert(string_views(r0)[k] == ancestor_prefix(path@, k));
                    assert(string_views(r@)[k] == string_views(r0)[k]);
                }
            }
        }
        j += 1;
    }
    proof {
        assert(string_views(r@) =~= ancestor_prefix_list(path@));
    }
    r
}

fn status_is_file(s: &PathStatus) -> (r: bool)
    ensures
        r == (*s == PathStatus::IsFile),
{
    match s {
        PathStatus::IsFile => true,
        _ => false,
    }
}

fn status_is_missing(s: &PathStatus) -> (r: bool)
    ensures
        r == (*s == PathStatus::Missing),
{
    match s {
        PathStatus::Missing => true,
        _ => false,
    }
}

/// Checks every entry against what already exists under the output root,
/// as the probes report it, and accumulates all collisions: the entry's
/// own path when its target exists, else the first ancestor prefix that
/// is a plain file.  `Ok` comes exactly when no entry collides.
pub fn check_for_collisions(entries: &Vec<ParsedEntry>, probes: &Vec<EntryProbe>) -> (r: Result<
    (),
    Vec<String>,
>)
    requires
        probes@.len() == entries@.len(),
        forall|i: int| 0 <= i < entries@.len() ==> probe_shaped(entries@[i]@.path, #[trigger] probes@[i]),
    ensures
        match r {
            Ok(_) => collision_list(entries_view(entries@), probes@).len() == 0,
            Err(v) => v@.len() > 0 && string_views(v@) == collision_list(
                entries_view(entries@),
                probes@,
            ),
        },
{
    let n = entries.len();
    let mut out: Vec<String> = Vec::new();
    let mut i: usize = 0;
    proof {
        assert(entries_view(entries@).subrange(0, n as int) =~= entries_view(entries@));
        assert(probes@.subrange(0, n as int) =~= probes@);
        assert(string_views(out@) =~= Seq::<Seq<char>>::empty());
        assert(Seq::<Seq<char>>::empty() + collision_list(entries_view(entries@), probes@)
            =~= collision_list(entries_view(entries@), probes@));
    }
    while i < n
        invariant
            i <= n,
            n == entries@.len() == probes@.len(),
            forall|k: int| 0 <= k < entries@.len() ==> probe_shaped(
                entries@[k]@.path,
                #[trigger] probes@[k],
            ),
            string_views(out@) + collision_list(
                entries_view(entries@).subrange(i as int, n as int),
                probes@.subrange(i as int, n as int),
            ) == collision_list(entries_view(entries@), probes@),
        decreases n - i,
    {
        let ghost etail = entries_view(entries@).subrange(i as int, n as int);
        let ghost ptail = probes@.subrange(i as int, n as int);
        proof {
            assert(etail[0] == entries_view(entries@)[i as int]);
            assert(entries_view(entries@)[i as int] == entries@[i as int]@);
            assert(ptail[0] == probes@[i as int]);
            assert(etail.drop_first() =~= entries_view(entries@).subrange(i + 1, n as int));
            assert(ptail.drop_first() =~= probes@.subrange(i + 1, n as int));
        }
        let ghost epath = entries@[i as int]@.path;
        let ghost added = entry_collisions(
            epath,
            probes@[i as int].target,
            probes@[i as int].ancestors@,
        );
        if !status_is_missing(&probes[i].target) {
            let ghost out0 = out@;
            out.push(entries[i].path.clone());
            proof {
                assert(string_views(out@) =~= string_views(out0).push(epath));
                assert(string_views(out0).push(epath) =~= string_views(out0) + added);
            }
        } else {
            let anc = &probes[i].ancestors;
            let m = anc.len();
            let mut j: usize = 0;
            let mut found = false;
            while j < m && !found
                invariant
                    j <= m,
                    m == probes@[i as int].ancestors@.len(),
                    i < entries@.len() == probes@.len(),
                    anc == &probes@[i as int].ancestors,
                    found ==> j < m && probes@[i as int].ancestors@[j as int]
                        == PathStatus::IsFile && first_file_idx(
                        probes@[i as int].ancestors@,
                        0,
                    ) == Some(j as int),
                    !found ==> first_file_idx(probes@[i as int].ancestors@, 0) == first_file_idx(
                        probes@[i as int].ancestors@,
                        j as int,
                    ),
                decreases m - j + (if found {
                    0int
                } else {
                    1int
                }),
            {
                if status_is_file(&anc[j]) {
                    found = true;
                } else {
                    j += 1;
                }
            }
            if found {
                let chars = str_chars(entries[i].path.as_str());
                let cs = normalize_components(&chars);
                proof {
                    assert(probe_shaped(epath, probes@[i as int]));
                    assert(char_views(cs@).len() == norm_components(epath).len());
                    assert(j + 1 <= char_views(cs@).len());
                    assert(char_views(cs@).subrange(0, j + 1) =~= norm_components(
                        epath,
                    ).subrange(0, j + 1));
                }
                let joined = join_components(&cs, j + 1);
                let ghost out0 = out@;
                out.push(chars_to_string(&joined));
                proof {
                    assert(string_views(out@) =~= string_views(out0).push(
                        ancestor_prefix(epath, j as int),
                    ));
                    assert(added =~= seq![ancestor_prefix(epath, j as int)]);
                    assert(string_views(out0).push(ancestor_prefix(epath, j as int))
                        =~= string_views(out0) + added);
                }
            } else {
                proof {
                    assert(first_file_idx(probes@[i as int].ancestors@, j as int) is None);
                    assert(added =~= Seq::<Seq<char>>::empty());
                    assert(string_views(out@) =~= string_views(out@) + added);
                }
            }
        }
        proof {
            assert(collision_list(etail, ptail) == added + collision_list(
                etail.drop_first(),
                ptail.drop_first(),
            ));
        }
        i += 1;
    }
    proof {
        assert(collision_list(
            entries_view(entries@).subrange(n as int, n as int),
            probes@.subrange(n as int, n as int),
        ) =~= Seq::<Seq<char>>::empty());
        assert(string_views(out@) =~= string_views(out@) + Seq::<Seq<char>>::empty());
    }
    if out.len() == 0 {
        Ok(())
    } else {
        Err(out)
    }
}

} // verus!
