//! The apply engine's decision layer: turns a plan into the ordered list of
//! destination mutations. The strict execution order — all removals in
//! reverse path order, then all updates, then all additions in forward path
//! order — is what makes nested removal and parent-before-child creation
//! safe; the per-operation variants carry the type-change decisions.

use vstd::prelude::*;
use vstd::pervasive::unreached;

use crate::diff::{SyncPlan, path_in, plan_wf_for, spec_modified};
use crate::entry::{
    Entry, EntryKind, entries_sorted, entry_at, find_entry, has_path, lemma_entry_at_index,
};
use crate::fspath::{
    RelPath, is_strict_prefix, lemma_segs_lt_asym, lemma_strict_prefix_lt, segs_lt,
};

verus! {

/// One destination mutation, tagged the way the run report prints it.
#[derive(Debug, PartialEq, Eq)]
pub enum SyncOp {
    /// Create a directory that exists only under the source.
    AddDir(RelPath),
    /// Copy a file that exists only under the source, then give the copy the
    /// source's timestamps.
    AddFile(RelPath),
    /// Overwrite a destination file from its modified source counterpart and
    /// reapply the source's timestamps, deleting the destination first when
    /// it is read-only.
    UpdateFile(RelPath),
    /// The source turned a file into a directory: delete the destination
    /// file, create a directory in its place.
    FileToDir(RelPath),
    /// The source turned a directory into a file: remove the destination
    /// directory (empty by the removal ordering), then copy file and
    /// timestamps.
    DirToFile(RelPath),
    /// Delete a destination file that the source no longer has.
    RemoveFile(RelPath),
    /// Remove a destination directory that the source no longer has, empty
    /// by the removal ordering.
    RemoveDir(RelPath),
}

/// The path an operation acts on.
pub open spec fn op_path(op: SyncOp) -> Seq<Seq<u8>> {
    match op {
        SyncOp::AddDir(p) => p@,
        SyncOp::AddFile(p) => p@,
        SyncOp::UpdateFile(p) => p@,
        SyncOp::FileToDir(p) => p@,
        SyncOp::DirToFile(p) => p@,
        SyncOp::RemoveFile(p) => p@,
        SyncOp::RemoveDir(p) => p@,
    }
}

/// Some operation with path `p` stands in `ops[lo..hi]`.
pub open spec fn op_in_range(ops: Seq<SyncOp>, lo: int, hi: int, p: Seq<Seq<u8>>) -> bool {
    exists|k: int| lo <= k < hi && op_path(#[trigger] ops[k]) == p
}

/// A removal operation is for a path present only under the destination,
/// and removes a directory exactly where the destination entry is one.
pub open spec fn removal_ok(op: SyncOp, src: Seq<Entry>, dst: Seq<Entry>) -> bool {
    let p = op_path(op);
    &&& has_path(dst, p) && !has_path(src, p)
    &&& match op {
        SyncOp::RemoveDir(_) => entry_at(dst, p).kind == EntryKind::Directory,
        SyncOp::RemoveFile(_) => entry_at(dst, p).kind == EntryKind::File,
        _ => false,
    }
}

/// An update operation is for a modified path present under both roots, and
/// its variant matches the source and destination kinds.
pub open spec fn update_ok(op: SyncOp, src: Seq<Entry>, dst: Seq<Entry>) -> bool {
    let p = op_path(op);
    &&& has_path(src, p) && has_path(dst, p)
    &&& spec_modified(entry_at(src, p), entry_at(dst, p))
    &&& match op {
        SyncOp::FileToDir(_) => entry_at(src, p).kind == EntryKind::Directory,
        SyncOp::DirToFile(_) => entry_at(src, p).kind == EntryKind::File && entry_at(dst, p).kind
            == EntryKind::Directory,
        SyncOp::UpdateFile(_) => entry_at(src, p).kind == EntryKind::File && entry_at(dst, p).kind
            == EntryKind::File,
        _ => false,
    }
}

/// An addition operation is for a path present only under the source, and
/// creates a directory exactly where the source entry is one.
pub open spec fn add_ok(op: SyncOp, src: Seq<Entry>, dst: Seq<Entry>) -> bool {
    let p = op_path(op);
    &&& has_path(src, p) && !has_path(dst, p)
    &&& match op {
        SyncOp::AddDir(_) => entry_at(src, p).kind == EntryKind::Directory,
        SyncOp::AddFile(_) => entry_at(src, p).kind == EntryKind::File,
        _ => false,
    }
}

/// The whole contract of an operation list: `ops[0..r]` are the removals in
/// strictly descending path order, `ops[r..u]` the updates and
/// `ops[u..]` the additions, each in strictly ascending path order; each
/// operation is sound for its listings; and every path the plan classifies
/// is covered by an operation of the right phase.
pub open spec fn ops_wf(ops: Seq<SyncOp>, r: int, u: int, src: Seq<Entry>, dst: Seq<Entry>) -> bool {
    &&& 0 <= r <= u <= ops.len()
    &&& forall|k: int| 0 <= k < r ==> removal_ok(#[trigger] ops[k], src, dst)
    &&& forall|k: int| r <= k < u ==> update_ok(#[trigger] ops[k], src, dst)
    &&& forall|k: int| u <= k < ops.len() ==> add_ok(#[trigger] ops[k], src, dst)
    &&& forall|i: int, j: int|
        0 <= i < j < r ==> segs_lt(op_path(#[trigger] ops[j]), op_path(#[trigger] ops[i]))
    &&& forall|i: int, j: int|
        r <= i < j < u ==> segs_lt(op_path(#[trigger] ops[i]), op_path(#[trigger] ops[j]))
    &&& forall|i: int, j: int|
        u <= i < j < ops.len() ==> segs_lt(op_path(#[trigger] ops[i]), op_path(#[trigger] ops[j]))
    &&& forall|p: Seq<Seq<u8>>|
        #![trigger has_path(dst, p), has_path(src, p)]
        has_path(dst, p) && !has_path(src, p) ==> op_in_range(ops, 0, r, p)
    &&& forall|p: Seq<Seq<u8>>|
        #![trigger has_path(dst, p), has_path(src, p)]
        has_path(src, p) && has_path(dst, p) && spec_modified(entry_at(src, p), entry_at(dst, p))
            ==> op_in_range(ops, r, u, p)
    &&& forall|p: Seq<Seq<u8>>|
        #![trigger has_path(dst, p), has_path(src, p)]
        has_path(src, p) && !has_path(dst, p) ==> op_in_range(ops, u, ops.len() as int, p)
}

/// The index of an operation with path `p` in `ops[lo..hi]`, where one
/// stands there.
pub open spec fn op_index_in(ops: Seq<SyncOp>, lo: int, hi: int, p: Seq<Seq<u8>>) -> int {
    choose|k: int| lo <= k < hi && op_path(#[trigger] ops[k]) == p
}

pub proof fn lemma_op_index_in(ops: Seq<SyncOp>, lo: int, hi: int, p: Seq<Seq<u8>>)
    requires
        op_in_range(ops, lo, hi, p),
    ensures
        lo <= op_index_in(ops, lo, hi, p) < hi,
        op_path(ops[op_index_in(ops, lo, hi, p)]) == p,
{
}

/// Order the plan's operations for execution.
///
/// Besides the phase contract (`ops_wf`), the removal phase never removes an
/// ancestor before one of its descendants: reverse path order puts every
/// descendant first, so a directory is empty by the time it is removed.
pub fn build_ops(plan: &SyncPlan, src: &Vec<Entry>, dst: &Vec<Entry>) -> (ops: Vec<SyncOp>)
    requires
        entries_sorted(src@),
        entries_sorted(dst@),
        plan_wf_for(*plan, src@, dst@),
    ensures
        ops_wf(
            ops@,
            plan.removed@.len() as int,
            plan.removed@.len() + plan.modified@.len() as int,
            src@,
            dst@,
        ),
        ops@.len() == plan.removed@.len() + plan.modified@.len() + plan.added@.len(),
        forall|k: int|
            0 <= k < plan.removed@.len() ==> op_path(#[trigger] ops@[k]) == plan.removed@[plan.removed@.len()
                - 1 - k]@,
        forall|k: int|
            0 <= k < plan.modified@.len() ==> op_path(
                #[trigger] ops@[plan.removed@.len() + k],
            ) == plan.modified@[k]@,
        forall|k: int|
            0 <= k < plan.added@.len() ==> op_path(
                #[trigger] ops@[plan.removed@.len() + plan.modified@.len() + k],
            ) == plan.added@[k]@,
        forall|i: int, j: int|
            0 <= i < j < plan.removed@.len() ==> !is_strict_prefix(
                op_path(#[trigger] ops@[i]),
                op_path(#[trigger] ops@[j]),
            ),
{
    let r_len = plan.removed.len();
    let m_len = plan.modified.len();
    let a_len = plan.added.len();
    let mut ops: Vec<SyncOp> = Vec::new();

    let mut k: usize = 0;
    while k < r_len
        invariant
            k <= r_len,
            r_len == plan.removed@.len(),
            entries_sorted(src@),
            entries_sorted(dst@),
            plan_wf_for(*plan, src@, dst@),
            ops@.len() == k,
            forall|m: int|
                0 <= m < k ==> op_path(#[trigger] ops@[m]) == plan.removed@[r_len - 1 - m]@,
            forall|m: int| 0 <= m < k ==> removal_ok(#[trigger] ops@[m], src@, dst@),
        decreases r_len - k,
    {
        let idx = r_len - 1 - k;
        let p = &plan.removed[idx];
        proof {
            assert(plan.removed@[idx as int]@ == p@);
            assert(path_in(plan.removed@, p@));
        }
        match find_entry(dst, p) {
            Some(j) => {
                proof {
                    lemma_entry_at_index(dst@, j as int);
                }
                let q = p.duplicate();
                let op = if dst[j].kind == EntryKind::Directory {
                    SyncOp::RemoveDir(q)
                } else {
                    SyncOp::RemoveFile(q)
                };
                proof {
                    assert(op_path(op) == p@);
                    assert(removal_ok(op, src@, dst@));
                }
                ops.push(op);
            },
            None => {
                proof {
                    assert(false);
                }
                unreached()
            },
        }
        k += 1;
    }

    let mut k: usize = 0;
    while k < m_len
        invariant
            k <= m_len,
            r_len == plan.removed@.len(),
            m_len == plan.modified@.len(),
            entries_sorted(src@),
            entries_sorted(dst@),
            plan_wf_for(*plan, src@, dst@),
            ops@.len() == r_len + k,
            forall|m: int|
                0 <= m < r_len ==> op_path(#[trigger] ops@[m]) == plan.removed@[r_len - 1 - m]@,
            forall|m: int| 0 <= m < r_len ==> removal_ok(#[trigger] ops@[m], src@, dst@),
            forall|m: int|
                0 <= m < k ==> op_path(#[trigger] ops@[r_len + m]) == plan.modified@[m]@,
            forall|m: int| r_len <= m < r_len + k ==> update_ok(#[trigger] ops@[m], src@, dst@),
        decreases m_len - k,
    {
        let p = &plan.modified[k];
        proof {
            assert(plan.modified@[k as int]@ == p@);
            assert(path_in(plan.modified@, p@));
        }
        let sj = match find_entry(src, p) {
            Some(j) => j,
            None => {
                proof {
                    assert(false);
                }
                unreached()
            },
        };
        let dj = match find_entry(dst, p) {
            Some(j) => j,
            None => {
                proof {
                    assert(false);
                }
                unreached()
            },
        };
        proof {
            lemma_entry_at_index(src@, sj as int);
            lemma_entry_at_index(dst@, dj as int);
        }
        let q = p.duplicate();
        let op = if src[sj].kind == EntryKind::Directory {
            SyncOp::FileToDir(q)
        } else if dst[dj].kind == EntryKind::Directory {
            SyncOp::DirToFile(q)
        } else {
            SyncOp::UpdateFile(q)
        };
        proof {
            assert(op_path(op) == p@);
            assert(update_ok(op, src@, dst@));
        }
        ops.push(op);
        k += 1;
    }

    let mut k: usize = 0;
    while k < a_len
        invariant
            k <= a_len,
            r_len == plan.removed@.len(),
            m_len == plan.modified@.len(),
            a_len == plan.added@.len(),
            entries_sorted(src@),
            entries_sorted(dst@),
            plan_wf_for(*plan, src@, dst@),
            ops@.len() == r_len + m_len + k,
            forall|m: int|
                0 <= m < r_len ==> op_path(#[trigger] ops@[m]) == plan.removed@[r_len - 1 - m]@,
            forall|m: int| 0 <= m < r_len ==> removal_ok(#[trigger] ops@[m], src@, dst@),
            forall|m: int|
                0 <= m < m_len ==> op_path(#[trigger] ops@[r_len + m]) == plan.modified@[m]@,
            forall|m: int|
                r_len <= m < r_len + m_len ==> update_ok(#[trigger] ops@[m], src@, dst@),
            forall|m: int|
                0 <= m < k ==> op_path(#[trigger] ops@[r_len + m_len + m]) == plan.added@[m]@,
            forall|m: int|
                r_len + m_len <= m < r_len + m_len + k ==> add_ok(#[trigger] ops@[m], src@, dst@),
        decreases a_len - k,
    {
        let p = &plan.added[k];
        proof {
            assert(plan.added@[k as int]@ == p@);
            assert(path_in(plan.added@, p@));
        }
        let sj = match find_entry(src, p) {
            Some(j) => j,
            None => {
                proof {
                    assert(false);
                }
                unreached()
            },
        };
        proof {
            lemma_entry_at_index(src@, sj as int);
        }
        let q = p.duplicate();
        let op = if src[sj].kind == EntryKind::Directory {
            SyncOp::AddDir(q)
        } else {
            SyncOp::AddFile(q)
        };
        proof {
            assert(op_path(op) == p@);
            assert(add_ok(op, src@, dst@));
        }
        ops.push(op);
        k += 1;
    }

    proof {
        let r = r_len as int;
        let u = r_len + m_len as int;
        let n = ops@.len() as int;
        // Phase orderings follow from the plan lists being sorted.
        assert forall|i: int, j: int| 0 <= i < j < r implies segs_lt(
            op_path(#[trigger] ops@[j]),
            op_path(#[trigger] ops@[i]),
        ) by {
            assert(op_path(ops@[i]) == plan.removed@[r - 1 - i]@);
            assert(op_path(ops@[j]) == plan.removed@[r - 1 - j]@);
        }
        assert forall|i: int, j: int| r <= i < j < u implies segs_lt(
            op_path(#[trigger] ops@[i]),
            op_path(#[trigger] ops@[j]),
        ) by {
            let mi = i - r;
            let mj = j - r;
            assert(op_path(ops@[r_len as int + mi]) == plan.modified@[mi]@);
            assert(op_path(ops@[r_len as int + mj]) == plan.modified@[mj]@);
            assert(r_len as int + mi == i && r_len as int + mj == j);
        }
        assert forall|i: int, j: int| u <= i < j < n implies segs_lt(
            op_path(#[trigger] ops@[i]),
            op_path(#[trigger] ops@[j]),
        ) by {
            let ai = i - u;
            let aj = j - u;
            assert(op_path(ops@[r_len as int + m_len as int + ai]) == plan.added@[ai]@);
            assert(op_path(ops@[r_len as int + m_len as int + aj]) == plan.added@[aj]@);
            assert(r_len as int + m_len as int + ai == i && r_len as int + m_len as int + aj == j);
        }
        // Completeness: the plan's membership conditions name an operation.
        assert forall|p: Seq<Seq<u8>>|
            has_path(dst@, p) && !has_path(src@, p) implies op_in_range(ops@, 0, r, p) by {
            assert(path_in(plan.removed@, p));
            let m = choose|m: int| 0 <= m < plan.removed@.len() && (#[trigger] plan.removed@[m])@ == p;
            assert(op_path(ops@[r - 1 - m]) == p);
        }
        assert forall|p: Seq<Seq<u8>>|
            has_path(src@, p) && has_path(dst@, p) && spec_modified(
                entry_at(src@, p),
                entry_at(dst@, p),
            ) implies op_in_range(ops@, r, u, p) by {
            assert(path_in(plan.modified@, p));
            let m = choose|m: int|
                0 <= m < plan.modified@.len() && (#[trigger] plan.modified@[m])@ == p;
            assert(op_path(ops@[r + m]) == p);
        }
        assert forall|p: Seq<Seq<u8>>|
            has_path(src@, p) && !has_path(dst@, p) implies op_in_range(ops@, u, n, p) by {
            assert(path_in(plan.added@, p));
            let m = choose|m: int| 0 <= m < plan.added@.len() && (#[trigger] plan.added@[m])@ == p;
            assert(op_path(ops@[u + m]) == p);
        }
        // Removal never deletes an ancestor before a descendant: an ancestor
        // orders strictly before its descendants, and the removal phase runs
        // in strictly descending order.
        assert forall|i: int, j: int| 0 <= i < j < r implies !is_strict_prefix(
            op_path(#[trigger] ops@[i]),
            op_path(#[trigger] ops@[j]),
        ) by {
            if is_strict_prefix(op_path(ops@[i]), op_path(ops@[j])) {
                lemma_strict_prefix_lt(op_path(ops@[i]), op_path(ops@[j]));
                assert(segs_lt(op_path(ops@[j]), op_path(ops@[i])));
                lemma_segs_lt_asym(op_path(ops@[i]), op_path(ops@[j]));
            }
        }
    }
    ops
}

} // verus!
