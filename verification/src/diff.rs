//! Classifying the differences between two flat path-to-hash indices.
use vstd::prelude::*;
use crate::common::{
    flat_of, lemma_map_of_entries_contains, lemma_map_of_entries_value, DirectoryInfo, FlatIndex,
};
use crate::order::{
    lemma_lex_le_reflexive, lemma_lex_le_total, lemma_lex_lt_transitive, lex_lt, str_eq, str_le,
};

verus! {

/// One classified difference between two snapshots, carrying the path it
/// concerns: the file was added, removed, or its content changed.
#[derive(Debug, PartialEq, Eq)]
pub enum Diff {
    Add(String),
    Remove(String),
    Changed(String),
}

/// The path a difference concerns.
pub open spec fn diff_path(d: Diff) -> Seq<char> {
    match d {
        Diff::Add(p) => p@,
        Diff::Remove(p) => p@,
        Diff::Changed(p) => p@,
    }
}

/// Some entry of `r` concerns the path `p`.
pub open spec fn has_diff(r: Seq<Diff>, p: Seq<char>) -> bool {
    exists|i: int| 0 <= i < r.len() && diff_path(#[trigger] r[i]) == p
}

/// One entry is correctly classified against the two indices.
pub open spec fn entry_ok(m1: Map<Seq<char>, Seq<char>>, m2: Map<Seq<char>, Seq<char>>, d: Diff) -> bool {
    match d {
        Diff::Add(p) => m2.contains_key(p@) && !m1.contains_key(p@),
        Diff::Remove(p) => m1.contains_key(p@) && !m2.contains_key(p@),
        Diff::Changed(p) => m1.contains_key(p@) && m2.contains_key(p@) && m1[p@] != m2[p@],
    }
}

/// What a correct diff of `m1` (the older index) against `m2` (the newer
/// one) is: strictly sorted by path; every entry is a `Changed` for a
/// path in both indices whose hashes differ, a `Remove` for a path only
/// in `m1`, or an `Add` for a path only in `m2`; and every such path has
/// an entry. Paths with equal hashes in both indices produce nothing, and
/// no path occurs twice (the sort is strict).
pub open spec fn diff_ok(
    m1: Map<Seq<char>, Seq<char>>,
    m2: Map<Seq<char>, Seq<char>>,
    r: Seq<Diff>,
) -> bool {
    &&& forall|i: int, j: int|
        0 <= i < j < r.len() ==> lex_lt(diff_path(#[trigger] r[i]), diff_path(#[trigger] r[j]))
    &&& forall|i: int| 0 <= i < r.len() ==> entry_ok(m1, m2, #[trigger] r[i])
    &&& forall|p: Seq<char>|
        #![trigger m1.contains_key(p), m2.contains_key(p)]
        {
            &&& (m1.contains_key(p) && !m2.contains_key(p) ==> has_diff(r, p))
            &&& (m2.contains_key(p) && !m1.contains_key(p) ==> has_diff(r, p))
            &&& (m1.contains_key(p) && m2.contains_key(p) && m1[p] != m2[p] ==> has_diff(r, p))
        }
}

/// Flattens two snapshots and classifies every difference between them:
/// one sorted pass over the two flat indices.
pub fn calc_diff(dir1: DirectoryInfo, dir2: DirectoryInfo) -> (r: Vec<Diff>)
    ensures
        diff_ok(flat_of(dir1@), flat_of(dir2@), r@),
{
    let map1 = dir1.flatten();
    let map2 = dir2.flatten();
    diff_flat(&map1, &map2)
}

/// Classifies every path of two flat indices in one merge over the two
/// path-sorted entry lists, emitting entries already in path order.
pub fn diff_flat(a: &FlatIndex, b: &FlatIndex) -> (r: Vec<Diff>)
    requires
        a.wf(),
        b.wf(),
    ensures
        diff_ok(a@, b@, r@),
{
    let ghost sa = a.entries_seq();
    let ghost sb = b.entries_seq();
    let ghost m1 = a@;
    let ghost m2 = b@;
    broadcast use crate::order::lemma_lex_lt_transitive_auto;

    proof {
        a.lemma_wf_unique();
        b.lemma_wf_unique();
    }
    let mut out: Vec<Diff> = Vec::new();
    let mut i: usize = 0;
    let mut j: usize = 0;
    while i < a.entries.len() || j < b.entries.len()
        invariant
            a.wf(),
            b.wf(),
            sa == a.entries_seq(),
            sb == b.entries_seq(),
            m1 == a@,
            m2 == b@,
            i <= sa.len(),
            j <= sb.len(),
            sa.len() == a.entries@.len(),
            sb.len() == b.entries@.len(),
            // everything emitted lies before both frontiers
            forall|k: int|
                0 <= k < out@.len() && i < sa.len() ==> lex_lt(
                    diff_path(#[trigger] out@[k]),
                    sa[i as int].path,
                ),
            forall|k: int|
                0 <= k < out@.len() && j < sb.len() ==> lex_lt(
                    diff_path(#[trigger] out@[k]),
                    sb[j as int].path,
                ),
            // everything consumed lies before both frontiers
            forall|k: int|
                0 <= k < i && j < sb.len() ==> lex_lt(
                    (#[trigger] sa[k]).path,
                    sb[j as int].path,
                ),
            forall|k: int|
                0 <= k < j && i < sa.len() ==> lex_lt(
                    (#[trigger] sb[k]).path,
                    sa[i as int].path,
                ),
            // emitted entries are strictly sorted
            forall|k: int, l: int|
                0 <= k < l < out@.len() ==> lex_lt(
                    diff_path(#[trigger] out@[k]),
                    diff_path(#[trigger] out@[l]),
                ),
            // each emitted entry is correctly classified
            forall|k: int| 0 <= k < out@.len() ==> entry_ok(m1, m2, #[trigger] out@[k]),
            // every consumed path that needs an entry has one
            forall|p: Seq<char>|
                #![trigger m1.contains_key(p), m2.contains_key(p)]
                ((exists|k: int| 0 <= k < i && (#[trigger] sa[k]).path == p) || (exists|k: int|
                    0 <= k < j && (#[trigger] sb[k]).path == p)) ==> {
                    &&& (m1.contains_key(p) && !m2.contains_key(p) ==> has_diff(out@, p))
                    &&& (m2.contains_key(p) && !m1.contains_key(p) ==> has_diff(out@, p))
                    &&& (m1.contains_key(p) && m2.contains_key(p) && m1[p] != m2[p] ==> has_diff(
                        out@,
                        p,
                    ))
                },
        decreases sa.len() + sb.len() - i - j,
    {
        let ghost out0 = out@;
        let ghost i0 = i as int;
        let ghost j0 = j as int;
        if j >= b.entries.len() {
            let ghost p = sa[i as int].path;
            proof {
                lemma_map_of_entries_value(sa, i as int);
                lemma_map_of_entries_contains(sb, p);
                lemma_lex_le_reflexive(p);
            }
            out.push(Diff::Remove(a.entries[i].path.clone()));
            i = i + 1;
        } else if i >= a.entries.len() {
            let ghost p = sb[j as int].path;
            proof {
                lemma_map_of_entries_value(sb, j as int);
                lemma_map_of_entries_contains(sa, p);
                lemma_lex_le_reflexive(p);
            }
            out.push(Diff::Add(b.entries[j].path.clone()));
            j = j + 1;
        } else {
            let ghost p = sa[i as int].path;
            let ghost q = sb[j as int].path;
            if str_eq(a.entries[i].path.as_str(), b.entries[j].path.as_str()) {
                proof {
                    lemma_map_of_entries_value(sa, i as int);
                    lemma_map_of_entries_value(sb, j as int);
                }
                if !str_eq(a.entries[i].hash.as_str(), b.entries[j].hash.as_str()) {
                    out.push(Diff::Changed(a.entries[i].path.clone()));
                }
                i = i + 1;
                j = j + 1;
            } else if str_le(a.entries[i].path.as_str(), b.entries[j].path.as_str()) {
                proof {
                    lemma_map_of_entries_value(sa, i as int);
                    lemma_map_of_entries_contains(sb, p);
                    if m2.contains_key(p) {
                        let k = choose|k: int| 0 <= k < sb.len() && (#[trigger] sb[k]).path == p;
                        if k < j {
                            assert(lex_lt(sb[k].path, sa[i as int].path));
                        } else {
                            if k > j {
                                assert(lex_lt(sb[j as int].path, sb[k].path));
                                lemma_lex_lt_transitive(p, sb[j as int].path, sb[k].path);
                            }
                        }
                    }
                }
                out.push(Diff::Remove(a.entries[i].path.clone()));
                i = i + 1;
            } else {
                proof {
                    lemma_lex_le_total(p, q);
                    lemma_map_of_entries_value(sb, j as int);
                    lemma_map_of_entries_contains(sa, q);
                    if m1.contains_key(q) {
                        let k = choose|k: int| 0 <= k < sa.len() && (#[trigger] sa[k]).path == q;
                        if k < i {
                            assert(lex_lt(sa[k].path, sb[j as int].path));
                        } else {
                            if k > i {
                                assert(lex_lt(sa[i as int].path, sa[k].path));
                                lemma_lex_lt_transitive(q, sa[i as int].path, sa[k].path);
                            }
                        }
                    }
                }
                out.push(Diff::Add(b.entries[j].path.clone()));
                j = j + 1;
            }
        }
        proof {
            assert forall|k: int|
                0 <= k < out@.len() && (i as int) < sa.len() implies lex_lt(
                diff_path(#[trigger] out@[k]),
                sa[i as int].path,
            ) by {
                if i > i0 {
                    assert(lex_lt(sa[i0].path, sa[i as int].path));
                }
                if k < out0.len() {
                    if i > i0 {
                        assert(lex_lt(diff_path(out0[k]), sa[i0].path));
                        lemma_lex_lt_transitive(
                            diff_path(out@[k]),
                            sa[i0].path,
                            sa[i as int].path,
                        );
                    }
                } else {
                    if i > i0 {
                        assert(diff_path(out@[k]) == sa[i0].path);
                    }
                }
            }
            assert forall|k: int|
                0 <= k < out@.len() && (j as int) < sb.len() implies lex_lt(
                diff_path(#[trigger] out@[k]),
                sb[j as int].path,
            ) by {
                if j > j0 {
                    assert(lex_lt(sb[j0].path, sb[j as int].path));
                }
                if k < out0.len() {
                    if j > j0 {
                        assert(lex_lt(diff_path(out0[k]), sb[j0].path));
                        lemma_lex_lt_transitive(
                            diff_path(out@[k]),
                            sb[j0].path,
                            sb[j as int].path,
                        );
                    }
                } else {
                    if j > j0 {
                        if i > i0 {
                            assert(sa[i0].path == sb[j0].path);
                        }
                        assert(diff_path(out@[k]) == sb[j0].path);
                    }
                }
            }
            assert forall|k: int|
                0 <= k < i && (j as int) < sb.len() implies lex_lt(
                (#[trigger] sa[k]).path,
                sb[j as int].path,
            ) by {
                if k < i0 {
                    if j > j0 {
                        assert(lex_lt(sa[k].path, sb[j0].path));
                        assert(lex_lt(sb[j0].path, sb[j as int].path));
                        lemma_lex_lt_transitive(sa[k].path, sb[j0].path, sb[j as int].path);
                    }
                } else {
                    if j > j0 {
                        assert(sa[i0].path == sb[j0].path);
                        assert(lex_lt(sb[j0].path, sb[j as int].path));
                    }
                }
            }
            assert forall|k: int|
                0 <= k < j && (i as int) < sa.len() implies lex_lt(
                (#[trigger] sb[k]).path,
                sa[i as int].path,
            ) by {
                if k < j0 {
                    if i > i0 {
                        assert(lex_lt(sb[k].path, sa[i0].path));
                        assert(lex_lt(sa[i0].path, sa[i as int].path));
                        lemma_lex_lt_transitive(sb[k].path, sa[i0].path, sa[i as int].path);
                    }
                } else {
                    if i > i0 {
                        assert(sa[i0].path == sb[j0].path);
                        assert(lex_lt(sa[i0].path, sa[i as int].path));
                    }
                }
            }
            assert forall|p: Seq<char>|
                #![trigger m1.contains_key(p), m2.contains_key(p)]
                ((exists|k: int| 0 <= k < i && (#[trigger] sa[k]).path == p) || (exists|k: int|
                    0 <= k < j && (#[trigger] sb[k]).path == p)) implies {
                &&& (m1.contains_key(p) && !m2.contains_key(p) ==> has_diff(out@, p))
                &&& (m2.contains_key(p) && !m1.contains_key(p) ==> has_diff(out@, p))
                &&& (m1.contains_key(p) && m2.contains_key(p) && m1[p] != m2[p] ==> has_diff(
                    out@,
                    p,
                ))
            } by {
                assert(forall|k: int| 0 <= k < out0.len() ==> out@[k] == out0[k]);
                let old_consumed = (exists|k: int|
                    0 <= k < i0 && (#[trigger] sa[k]).path == p) || (exists|k: int|
                    0 <= k < j0 && (#[trigger] sb[k]).path == p);
                if old_consumed {
                    if (m1.contains_key(p) && !m2.contains_key(p)) || (m2.contains_key(p)
                        && !m1.contains_key(p)) || (m1.contains_key(p) && m2.contains_key(p)
                        && m1[p] != m2[p]) {
                        assert(has_diff(out0, p));
                        let k = choose|k: int|
                            0 <= k < out0.len() && diff_path(#[trigger] out0[k]) == p;
                        assert(diff_path(out@[k]) == p);
                        assert(has_diff(out@, p));
                    }
                } else {
                    if exists|k: int| 0 <= k < i && (#[trigger] sa[k]).path == p {
                        let k = choose|k: int| 0 <= k < i && (#[trigger] sa[k]).path == p;
                        assert(k == i0 && i > i0);
                    } else {
                        let k = choose|k: int| 0 <= k < j && (#[trigger] sb[k]).path == p;
                        assert(k == j0 && j > j0);
                    }
                    if out@.len() > out0.len() {
                        assert(diff_path(out@[out0.len() as int]) == p);
                        assert(has_diff(out@, p));
                    } else {
                        assert(m1.contains_key(p) && m2.contains_key(p) && m1[p] == m2[p]);
                    }
                }
            }
        }
    }
    proof {
        assert forall|p: Seq<char>|
            #![trigger m1.contains_key(p), m2.contains_key(p)]
            true implies {
            &&& (m1.contains_key(p) && !m2.contains_key(p) ==> has_diff(out@, p))
            &&& (m2.contains_key(p) && !m1.contains_key(p) ==> has_diff(out@, p))
            &&& (m1.contains_key(p) && m2.contains_key(p) && m1[p] != m2[p] ==> has_diff(out@, p))
        } by {
            lemma_map_of_entries_contains(sa, p);
            lemma_map_of_entries_contains(sb, p);
        }
    }
    out
}

/// Every key of either index is classified exactly once: a path only in
/// the older index has exactly one entry, a `Remove`; a path only in the
/// newer one an `Add`; a path in both with differing hashes a `Changed`;
/// a path in both with equal hashes, or in neither, has no entry.
pub proof fn lemma_diff_complete_and_disjoint(
    m1: Map<Seq<char>, Seq<char>>,
    m2: Map<Seq<char>, Seq<char>>,
    r: Seq<Diff>,
    p: Seq<char>,
)
    requires
        diff_ok(m1, m2, r),
    ensures
        m1.contains_key(p) && !m2.contains_key(p) ==> exists|i: int|
            0 <= i < r.len() && ((#[trigger] r[i]) matches Diff::Remove(q) && q@ == p),
        m2.contains_key(p) && !m1.contains_key(p) ==> exists|i: int|
            0 <= i < r.len() && ((#[trigger] r[i]) matches Diff::Add(q) && q@ == p),
        m1.contains_key(p) && m2.contains_key(p) && m1[p] != m2[p] ==> exists|i: int|
            0 <= i < r.len() && ((#[trigger] r[i]) matches Diff::Changed(q) && q@ == p),
        m1.contains_key(p) && m2.contains_key(p) && m1[p] == m2[p] ==> forall|i: int|
            0 <= i < r.len() ==> diff_path(#[trigger] r[i]) != p,
        !m1.contains_key(p) && !m2.contains_key(p) ==> forall|i: int|
            0 <= i < r.len() ==> diff_path(#[trigger] r[i]) != p,
        forall|i: int, j: int|
            0 <= i < r.len() && 0 <= j < r.len() && diff_path(#[trigger] r[i]) == p && diff_path(
                #[trigger] r[j],
            ) == p ==> i == j,
{
    if m1.contains_key(p) && !m2.contains_key(p) {
        let i = choose|i: int| 0 <= i < r.len() && diff_path(#[trigger] r[i]) == p;
        assert(r[i] matches Diff::Remove(q) && q@ == p);
    }
    if m2.contains_key(p) && !m1.contains_key(p) {
        let i = choose|i: int| 0 <= i < r.len() && diff_path(#[trigger] r[i]) == p;
        assert(r[i] matches Diff::Add(q) && q@ == p);
    }
    if m1.contains_key(p) && m2.contains_key(p) && m1[p] != m2[p] {
        let i = choose|i: int| 0 <= i < r.len() && diff_path(#[trigger] r[i]) == p;
        assert(r[i] matches Diff::Changed(q) && q@ == p);
    }
    assert forall|i: int, j: int|
        0 <= i < r.len() && 0 <= j < r.len() && diff_path(#[trigger] r[i]) == p && diff_path(
            #[trigger] r[j],
        ) == p implies i == j by {
        if i < j {
            assert(lex_lt(diff_path(r[i]), diff_path(r[j])));
        }
        if j < i {
            assert(lex_lt(diff_path(r[j]), diff_path(r[i])));
        }
    }
}

/// Diffing an index against itself yields the empty sequence.
pub proof fn lemma_diff_self_empty(m: Map<Seq<char>, Seq<char>>, r: Seq<Diff>)
    requires
        diff_ok(m, m, r),
    ensures
        r == Seq::<Diff>::empty(),
{
    if r.len() > 0 {
        assert(entry_ok(m, m, r[0]));
        assert(false);
    }
    assert(r =~= Seq::<Diff>::empty());
}

} // verus!
