//! The diff engine: compares the canonical listings of the source and
//! destination roots and classifies every path as added, modified, removed
//! or unchanged, with a warning list for destination entries that look newer
//! than their source counterpart.

use vstd::prelude::*;

use crate::entry::{
    Entry, EntryKind, entries_sorted, entry_at, find_entry, has_path, lemma_entry_at_index,
    path_index,
};
use crate::fspath::{
    RelPath, lemma_segs_lt_asym, lemma_segs_lt_connected, lemma_segs_lt_irrefl, segs_lt,
};

verus! {

/// The classification rule for a path present under both roots: two
/// directories are never modified (their membership differences are carried
/// by their children); a kind change always is; otherwise any difference of
/// the modification timestamps is.
pub open spec fn spec_modified(s: Entry, d: Entry) -> bool {
    if s.kind == EntryKind::Directory && d.kind == EntryKind::Directory {
        false
    } else if s.kind != d.kind {
        true
    } else {
        s.mtime != d.mtime
    }
}

/// The destination looks newer than the source: reported as a non-fatal
/// warning, never an error, and only where the pair is not two directories.
pub open spec fn spec_dst_newer(s: Entry, d: Entry) -> bool {
    !(s.kind == EntryKind::Directory && d.kind == EntryKind::Directory) && s.mtime < d.mtime
}

/// Whether a source/destination entry pair counts as modified.
pub fn is_modified(src: &Entry, dst: &Entry) -> (r: bool)
    ensures
        r == spec_modified(*src, *dst),
{
    if src.kind == EntryKind::Directory && dst.kind == EntryKind::Directory {
        false
    } else if src.kind != dst.kind {
        true
    } else {
        src.mtime != dst.mtime
    }
}

/// Path `p` stands somewhere in the path list `ps`.
pub open spec fn path_in(ps: Seq<RelPath>, p: Seq<Seq<u8>>) -> bool {
    exists|k: int| 0 <= k < ps.len() && (#[trigger] ps[k])@ == p
}

/// The path list is strictly ascending in the canonical order.
pub open spec fn paths_sorted(ps: Seq<RelPath>) -> bool {
    forall|i: int, j: int| 0 <= i < j < ps.len() ==> segs_lt((#[trigger] ps[i])@, (#[trigger] ps[j])@)
}

/// Path `p` is listed among the first `i` source entries.
pub open spec fn in_prefix(src: Seq<Entry>, i: int, p: Seq<Seq<u8>>) -> bool {
    has_path(src, p) && path_index(src, p) < i
}

/// The computed plan: three disjoint path sets over the two listings, plus
/// the destination-newer warnings. Each list is strictly sorted.
#[derive(Debug, PartialEq, Eq)]
pub struct SyncPlan {
    /// Present under the source root only.
    pub added: Vec<RelPath>,
    /// Present under both roots and judged modified.
    pub modified: Vec<RelPath>,
    /// Present under the destination root only.
    pub removed: Vec<RelPath>,
    /// Present under both roots with the destination timestamp ahead of the
    /// source one; reported as warnings alongside the plan.
    pub dst_newer: Vec<RelPath>,
}

/// What a correct plan says of the two listings it was computed from.
pub open spec fn plan_wf_for(plan: SyncPlan, src: Seq<Entry>, dst: Seq<Entry>) -> bool {
    &&& paths_sorted(plan.added@)
    &&& paths_sorted(plan.modified@)
    &&& paths_sorted(plan.removed@)
    &&& paths_sorted(plan.dst_newer@)
    &&& forall|p: Seq<Seq<u8>>|
        #[trigger] path_in(plan.added@, p) <==> has_path(src, p) && !has_path(dst, p)
    &&& forall|p: Seq<Seq<u8>>|
        #[trigger] path_in(plan.removed@, p) <==> has_path(dst, p) && !has_path(src, p)
    &&& forall|p: Seq<Seq<u8>>|
        #[trigger] path_in(plan.modified@, p) <==> has_path(src, p) && has_path(dst, p)
            && spec_modified(entry_at(src, p), entry_at(dst, p))
    &&& forall|p: Seq<Seq<u8>>|
        #[trigger] path_in(plan.dst_newer@, p) <==> has_path(src, p) && has_path(dst, p)
            && spec_dst_newer(entry_at(src, p), entry_at(dst, p))
}

/// The three sets of a correct plan are pairwise disjoint, and every
/// modified path is present in both listings.
pub proof fn lemma_plan_disjoint(plan: SyncPlan, src: Seq<Entry>, dst: Seq<Entry>)
    requires
        plan_wf_for(plan, src, dst),
    ensures
        forall|p: Seq<Seq<u8>>| !(#[trigger] path_in(plan.added@, p) && path_in(plan.removed@, p)),
        forall|p: Seq<Seq<u8>>|
            !(#[trigger] path_in(plan.added@, p) && path_in(plan.modified@, p)),
        forall|p: Seq<Seq<u8>>|
            !(#[trigger] path_in(plan.removed@, p) && path_in(plan.modified@, p)),
        forall|p: Seq<Seq<u8>>|
            #[trigger] path_in(plan.modified@, p) ==> has_path(src, p) && has_path(dst, p),
{
}

/// A strictly sorted path list is determined by its membership alone.
proof fn lemma_sorted_paths_determined(a: Seq<RelPath>, b: Seq<RelPath>)
    requires
        paths_sorted(a),
        paths_sorted(b),
        forall|p: Seq<Seq<u8>>| #[trigger] path_in(a, p) <==> path_in(b, p),
    ensures
        a.len() == b.len(),
        forall|i: int| 0 <= i < a.len() ==> (#[trigger] a[i])@ == b[i]@,
    decreases a.len(),
{
    if a.len() == 0 {
        if b.len() > 0 {
            assert(path_in(b, b[0]@));
            assert(path_in(a, b[0]@));
            assert(false);
        }
    } else if b.len() == 0 {
        assert(path_in(a, a[0]@));
        assert(path_in(b, a[0]@));
        assert(false);
    } else {
        lemma_segs_lt_connected(a[0]@, b[0]@);
        if segs_lt(a[0]@, b[0]@) {
            assert(path_in(a, a[0]@));
            assert(path_in(b, a[0]@));
            let j = choose|j: int| 0 <= j < b.len() && (#[trigger] b[j])@ == a[0]@;
            if j == 0 {
                lemma_segs_lt_irrefl(a[0]@);
            } else {
                assert(segs_lt(b[0]@, b[j]@));
                lemma_segs_lt_asym(a[0]@, b[0]@);
            }
            assert(false);
        } else if segs_lt(b[0]@, a[0]@) {
            assert(path_in(b, b[0]@));
            assert(path_in(a, b[0]@));
            let j = choose|j: int| 0 <= j < a.len() && (#[trigger] a[j])@ == b[0]@;
            if j == 0 {
                lemma_segs_lt_irrefl(b[0]@);
            } else {
                assert(segs_lt(a[0]@, a[j]@));
                lemma_segs_lt_asym(b[0]@, a[0]@);
            }
            assert(false);
        }
        assert(a[0]@ == b[0]@);
        let at = a.skip(1);
        let bt = b.skip(1);
        assert forall|i: int, j: int| 0 <= i < j < at.len() implies segs_lt(
            (#[trigger] at[i])@,
            (#[trigger] at[j])@,
        ) by {
            assert(at[i] == a[i + 1] && at[j] == a[j + 1]);
        }
        assert forall|i: int, j: int| 0 <= i < j < bt.len() implies segs_lt(
            (#[trigger] bt[i])@,
            (#[trigger] bt[j])@,
        ) by {
            assert(bt[i] == b[i + 1] && bt[j] == b[j + 1]);
        }
        assert forall|p: Seq<Seq<u8>>| #[trigger] path_in(at, p) <==> path_in(bt, p) by {
            lemma_tail_membership(a, p);
            lemma_tail_membership(b, p);
            assert(b[0]@ == a[0]@);
        }
        lemma_sorted_paths_determined(at, bt);
        assert forall|i: int| 0 <= i < a.len() implies (#[trigger] a[i])@ == b[i]@ by {
            if i > 0 {
                assert(at[i - 1] == a[i] && bt[i - 1] == b[i]);
                assert(at[i - 1]@ == bt[i - 1]@);
            }
        }
    }
}

/// Membership in the tail of a strictly sorted path list.
proof fn lemma_tail_membership(a: Seq<RelPath>, p: Seq<Seq<u8>>)
    requires
        paths_sorted(a),
        a.len() > 0,
    ensures
        path_in(a.skip(1), p) <==> (path_in(a, p) && p != a[0]@),
{
    let at = a.skip(1);
    if path_in(at, p) {
        let k = choose|k: int| 0 <= k < at.len() && (#[trigger] at[k])@ == p;
        assert(at[k] == a[k + 1]);
        assert(path_in(a, p));
        assert(segs_lt(a[0]@, a[k + 1]@));
        if p == a[0]@ {
            lemma_segs_lt_irrefl(p);
        }
    }
    if path_in(a, p) && p != a[0]@ {
        let k = choose|k: int| 0 <= k < a.len() && (#[trigger] a[k])@ == p;
        assert(k > 0);
        assert(at[k - 1] == a[k]);
        assert(path_in(at, p));
    }
}

/// The plan is a function of the two listings alone: any two correct plans
/// for the same listings hold the same paths in the same order, list for
/// list. In particular a dry run reports exactly the plan that a mutating
/// run would execute.
pub proof fn theorem_plan_deterministic(
    p1: SyncPlan,
    p2: SyncPlan,
    src: Seq<Entry>,
    dst: Seq<Entry>,
)
    requires
        plan_wf_for(p1, src, dst),
        plan_wf_for(p2, src, dst),
    ensures
        p1.added@.len() == p2.added@.len(),
        forall|i: int| 0 <= i < p1.added@.len() ==> (#[trigger] p1.added@[i])@ == p2.added@[i]@,
        p1.modified@.len() == p2.modified@.len(),
        forall|i: int|
            0 <= i < p1.modified@.len() ==> (#[trigger] p1.modified@[i])@ == p2.modified@[i]@,
        p1.removed@.len() == p2.removed@.len(),
        forall|i: int|
            0 <= i < p1.removed@.len() ==> (#[trigger] p1.removed@[i])@ == p2.removed@[i]@,
        p1.dst_newer@.len() == p2.dst_newer@.len(),
        forall|i: int|
            0 <= i < p1.dst_newer@.len() ==> (#[trigger] p1.dst_newer@[i])@ == p2.dst_newer@[i]@,
{
    lemma_sorted_paths_determined(p1.added@, p2.added@);
    lemma_sorted_paths_determined(p1.modified@, p2.modified@);
    lemma_sorted_paths_determined(p1.removed@, p2.removed@);
    lemma_sorted_paths_determined(p1.dst_newer@, p2.dst_newer@);
}

/// Classify every path of the two canonical listings.
pub fn compute_plan(src: &Vec<Entry>, dst: &Vec<Entry>) -> (plan: SyncPlan)
    requires
        entries_sorted(src@),
        entries_sorted(dst@),
    ensures
        plan_wf_for(plan, src@, dst@),
{
    let mut added: Vec<RelPath> = Vec::new();
    let mut modified: Vec<RelPath> = Vec::new();
    let mut removed: Vec<RelPath> = Vec::new();
    let mut dst_newer: Vec<RelPath> = Vec::new();

    let mut i: usize = 0;
    while i < src.len()
        invariant
            i <= src.len(),
            entries_sorted(src@),
            entries_sorted(dst@),
            paths_sorted(added@),
            paths_sorted(modified@),
            paths_sorted(dst_newer@),
            forall|m: int, k: int|
                0 <= m < added@.len() && i <= k < src@.len() ==> segs_lt(
                    (#[trigger] added@[m])@,
                    (#[trigger] src@[k].path@),
                ),
            forall|m: int, k: int|
                0 <= m < modified@.len() && i <= k < src@.len() ==> segs_lt(
                    (#[trigger] modified@[m])@,
                    (#[trigger] src@[k].path@),
                ),
            forall|m: int, k: int|
                0 <= m < dst_newer@.len() && i <= k < src@.len() ==> segs_lt(
                    (#[trigger] dst_newer@[m])@,
                    (#[trigger] src@[k].path@),
                ),
            forall|p: Seq<Seq<u8>>|
                #[trigger] path_in(added@, p) <==> in_prefix(src@, i as int, p) && !has_path(
                    dst@,
                    p,
                ),
            forall|p: Seq<Seq<u8>>|
                #[trigger] path_in(modified@, p) <==> in_prefix(src@, i as int, p) && has_path(
                    dst@,
                    p,
                ) && spec_modified(entry_at(src@, p), entry_at(dst@, p)),
            forall|p: Seq<Seq<u8>>|
                #[trigger] path_in(dst_newer@, p) <==> in_prefix(src@, i as int, p) && has_path(
                    dst@,
                    p,
                ) && spec_dst_newer(entry_at(src@, p), entry_at(dst@, p)),
        decreases src.len() - i,
    {
        let s = &src[i];
        proof {
            lemma_entry_at_index(src@, i as int);
        }
        match find_entry(dst, &s.path) {
            Some(j) => {
                let d = &dst[j];
                proof {
                    lemma_entry_at_index(dst@, j as int);
                    assert(entry_at(dst@, s.path@) == dst@[j as int]);
                }
                if is_modified(s, d) {
                    let ghost old_modified = modified@;
                    modified.push(s.path.duplicate());
                    proof {
                        assert forall|p: Seq<Seq<u8>>| #[trigger]
                            path_in(modified@, p) implies in_prefix(src@, i as int + 1, p)
                            && has_path(dst@, p) && spec_modified(
                            entry_at(src@, p),
                            entry_at(dst@, p),
                        ) by {
                            let k = choose|k: int|
                                0 <= k < modified@.len() && (#[trigger] modified@[k])@ == p;
                            if k < old_modified.len() {
                                assert(modified@[k] == old_modified[k]);
                                assert(path_in(old_modified, p));
                            } else {
                                assert(p == src@[i as int].path@);
                            }
                        }
                        assert forall|p: Seq<Seq<u8>>|
                            in_prefix(src@, i as int + 1, p) && has_path(dst@, p) && spec_modified(
                                entry_at(src@, p),
                                entry_at(dst@, p),
                            ) implies #[trigger] path_in(modified@, p) by {
                            if path_index(src@, p) < i as int {
                                assert(path_in(old_modified, p));
                                let k = choose|k: int|
                                    0 <= k < old_modified.len() && (#[trigger] old_modified[k])@
                                        == p;
                                assert(modified@[k]@ == p);
                            } else {
                                assert(p == src@[i as int].path@);
                                assert(modified@[modified@.len() - 1]@ == p);
                            }
                        }
                    }
                } else {
                    proof {
                        assert forall|p: Seq<Seq<u8>>|
                            in_prefix(src@, i as int + 1, p) && has_path(dst@, p) && spec_modified(
                                entry_at(src@, p),
                                entry_at(dst@, p),
                            ) implies #[trigger] path_in(modified@, p) by {
                            if path_index(src@, p) < i as int {
                            } else {
                                assert(p == src@[i as int].path@);
                                assert(entry_at(src@, p) == src@[i as int]);
                                assert(false);
                            }
                        }
                    }
                }
                if s.kind == EntryKind::Directory && d.kind == EntryKind::Directory {
                    proof {
                        lemma_prefix_step_absent(src@, dst@, dst_newer@, i as int);
                    }
                } else if s.mtime < d.mtime {
                    let ghost old_warn = dst_newer@;
                    dst_newer.push(s.path.duplicate());
                    proof {
                        assert forall|p: Seq<Seq<u8>>| #[trigger]
                            path_in(dst_newer@, p) implies in_prefix(src@, i as int + 1, p)
                            && has_path(dst@, p) && spec_dst_newer(
                            entry_at(src@, p),
                            entry_at(dst@, p),
                        ) by {
                            let k = choose|k: int|
                                0 <= k < dst_newer@.len() && (#[trigger] dst_newer@[k])@ == p;
                            if k < old_warn.len() {
                                assert(dst_newer@[k] == old_warn[k]);
                                assert(path_in(old_warn, p));
                            } else {
                                assert(p == src@[i as int].path@);
                            }
                        }
                        assert forall|p: Seq<Seq<u8>>|
                            in_prefix(src@, i as int + 1, p) && has_path(dst@, p)
                                && spec_dst_newer(
                                entry_at(src@, p),
                                entry_at(dst@, p),
                            ) implies #[trigger] path_in(dst_newer@, p) by {
                            if path_index(src@, p) < i as int {
                                assert(path_in(old_warn, p));
                                let k = choose|k: int|
                                    0 <= k < old_warn.len() && (#[trigger] old_warn[k])@ == p;
                                assert(dst_newer@[k]@ == p);
                            } else {
                                assert(p == src@[i as int].path@);
                                assert(dst_newer@[dst_newer@.len() - 1]@ == p);
                            }
                        }
                    }
                } else {
                    proof {
                        lemma_prefix_step_absent(src@, dst@, dst_newer@, i as int);
                    }
                }
            },
            None => {
                let ghost old_added = added@;
                added.push(s.path.duplicate());
                proof {
                    assert forall|p: Seq<Seq<u8>>| #[trigger]
                        path_in(added@, p) implies in_prefix(src@, i as int + 1, p) && !has_path(
                        dst@,
                        p,
                    ) by {
                        let k = choose|k: int| 0 <= k < added@.len() && (#[trigger] added@[k])@ == p;
                        if k < old_added.len() {
                            assert(added@[k] == old_added[k]);
                            assert(path_in(old_added, p));
                        } else {
                            assert(p == src@[i as int].path@);
                        }
                    }
                    assert forall|p: Seq<Seq<u8>>|
                        in_prefix(src@, i as int + 1, p) && !has_path(dst@, p) implies #[trigger]
                        path_in(added@, p) by {
                        if path_index(src@, p) < i as int {
                            assert(path_in(old_added, p));
                            let k = choose|k: int|
                                0 <= k < old_added.len() && (#[trigger] old_added[k])@ == p;
                            assert(added@[k]@ == p);
                        } else {
                            assert(p == src@[i as int].path@);
                            assert(added@[added@.len() - 1]@ == p);
                        }
                    }
                }
            },
        }
        i += 1;
    }
    proof {
        lemma_prefix_complete(src@, added@, dst@);
        lemma_prefix_complete(src@, modified@, dst@);
        lemma_prefix_complete(src@, dst_newer@, dst@);
    }

    let mut j: usize = 0;
    while j < dst.len()
        invariant
            j <= dst.len(),
            entries_sorted(src@),
            entries_sorted(dst@),
            paths_sorted(removed@),
            forall|m: int, k: int|
                0 <= m < removed@.len() && j <= k < dst@.len() ==> segs_lt(
                    (#[trigger] removed@[m])@,
                    (#[trigger] dst@[k].path@),
                ),
            forall|p: Seq<Seq<u8>>|
                #[trigger] path_in(removed@, p) <==> in_prefix(dst@, j as int, p) && !has_path(
                    src@,
                    p,
                ),
        decreases dst.len() - j,
    {
        let d = &dst[j];
        proof {
            lemma_entry_at_index(dst@, j as int);
        }
        match find_entry(src, &d.path) {
            Some(_) => {
                proof {
                    assert forall|p: Seq<Seq<u8>>|
                        in_prefix(dst@, j as int + 1, p) && !has_path(src@, p) implies #[trigger]
                        path_in(removed@, p) by {
                        if path_index(dst@, p) < j as int {
                        } else {
                            assert(p == dst@[j as int].path@);
                            assert(false);
                        }
                    }
                }
            },
            None => {
                let ghost old_removed = removed@;
                removed.push(d.path.duplicate());
                proof {
                    assert forall|p: Seq<Seq<u8>>| #[trigger]
                        path_in(removed@, p) implies in_prefix(dst@, j as int + 1, p) && !has_path(
                        src@,
                        p,
                    ) by {
                        let k = choose|k: int|
                            0 <= k < removed@.len() && (#[trigger] removed@[k])@ == p;
                        if k < old_removed.len() {
                            assert(removed@[k] == old_removed[k]);
                            assert(path_in(old_removed, p));
                        } else {
                            assert(p == dst@[j as int].path@);
                        }
                    }
                    assert forall|p: Seq<Seq<u8>>|
                        in_prefix(dst@, j as int + 1, p) && !has_path(src@, p) implies #[trigger]
                        path_in(removed@, p) by {
                        if path_index(dst@, p) < j as int {
                            assert(path_in(old_removed, p));
                            let k = choose|k: int|
                                0 <= k < old_removed.len() && (#[trigger] old_removed[k])@ == p;
                            assert(removed@[k]@ == p);
                        } else {
                            assert(p == dst@[j as int].path@);
                            assert(removed@[removed@.len() - 1]@ == p);
                        }
                    }
                }
            },
        }
        j += 1;
    }
    proof {
        lemma_prefix_complete(dst@, removed@, src@);
    }

    SyncPlan { added, modified, removed, dst_newer }
}

/// When the listing entry at index `i` itself fails a classification test,
/// membership over the prefix of length `i + 1` is membership over `i`.
proof fn lemma_prefix_step_absent(src: Seq<Entry>, dst: Seq<Entry>, ps: Seq<RelPath>, i: int)
    requires
        entries_sorted(src),
        0 <= i < src.len(),
    ensures
        forall|p: Seq<Seq<u8>>|
            in_prefix(src, i + 1, p) ==> in_prefix(src, i, p) || p == src[i].path@,
{
    assert forall|p: Seq<Seq<u8>>| in_prefix(src, i + 1, p) implies in_prefix(src, i, p) || p
        == src[i].path@ by {
        if path_index(src, p) == i {
            assert(src[i].path@ == p);
        }
    }
}

/// At the end of a listing walk, prefix membership is plain membership.
proof fn lemma_prefix_complete(src: Seq<Entry>, ps: Seq<RelPath>, other: Seq<Entry>)
    ensures
        forall|p: Seq<Seq<u8>>| has_path(src, p) ==> in_prefix(src, src.len() as int, p),
{
    assert forall|p: Seq<Seq<u8>>| has_path(src, p) implies in_prefix(
        src,
        src.len() as int,
        p,
    ) by {
        let k = choose|k: int| 0 <= k < src.len() && (#[trigger] src[k].path@) == p;
        assert(0 <= path_index(src, p) < src.len());
    }
}

} // verus!
