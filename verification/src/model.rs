//! A ghost model of the destination tree and of what executing an operation
//! list does to it, with the engine's central guarantees proved against it:
//!
//! - coverage: executing a well-formed operation list leaves the destination
//!   mirroring the source — same paths, same kinds, file contents and
//!   timestamps taken from the source;
//! - idempotence: once the destination mirrors the source, a second run
//!   classifies nothing, so its plan and its operation list are empty;
//! - type-change correctness: a path that turned from file to directory ends
//!   as a directory holding exactly the source's entries beneath it.

use vstd::prelude::*;

use crate::diff::{SyncPlan, path_in, plan_wf_for, spec_modified};
use crate::entry::{Entry, EntryKind, entries_sorted, entry_at, has_path, path_index};
use crate::fspath::{is_strict_prefix, lemma_segs_lt_irrefl};
use crate::ops::{
    SyncOp, add_ok, lemma_op_index_in, op_in_range, op_index_in, op_path, ops_wf, removal_ok,
    update_ok,
};

verus! {

/// One modelled filesystem entry: its kind, its modification time, and — for
/// files — its content.
pub struct Node {
    pub kind: EntryKind,
    pub mtime: int,
    pub content: Seq<u8>,
}

/// The model node for a freshly created directory. Its time and content are
/// immaterial: no rule of the engine reads either for a directory.
pub open spec fn dir_node() -> Node {
    Node { kind: EntryKind::Directory, mtime: 0, content: Seq::empty() }
}

/// What a single operation leaves at its own path: a directory for the
/// directory-creating operations, the source's node for the copying ones,
/// nothing for the removals.
pub open spec fn op_effect(src_m: Map<Seq<Seq<u8>>, Node>, op: SyncOp) -> Option<Node> {
    match op {
        SyncOp::AddDir(_) => Some(dir_node()),
        SyncOp::FileToDir(_) => Some(dir_node()),
        SyncOp::AddFile(_) => Some(src_m[op_path(op)]),
        SyncOp::UpdateFile(_) => Some(src_m[op_path(op)]),
        SyncOp::DirToFile(_) => Some(src_m[op_path(op)]),
        SyncOp::RemoveFile(_) => None,
        SyncOp::RemoveDir(_) => None,
    }
}

/// Execute one operation against the modelled destination.
pub open spec fn apply_op(
    src_m: Map<Seq<Seq<u8>>, Node>,
    dst_m: Map<Seq<Seq<u8>>, Node>,
    op: SyncOp,
) -> Map<Seq<Seq<u8>>, Node> {
    match op_effect(src_m, op) {
        Some(n) => dst_m.insert(op_path(op), n),
        None => dst_m.remove(op_path(op)),
    }
}

/// Execute an operation list left to right.
pub open spec fn apply_ops(
    src_m: Map<Seq<Seq<u8>>, Node>,
    dst_m: Map<Seq<Seq<u8>>, Node>,
    ops: Seq<SyncOp>,
) -> Map<Seq<Seq<u8>>, Node>
    decreases ops.len(),
{
    if ops.len() == 0 {
        dst_m
    } else {
        apply_ops(src_m, apply_op(src_m, dst_m, ops[0]), ops.skip(1))
    }
}

/// The modelled tree and a canonical listing describe the same root: same
/// paths, and the listing's kind and timestamp for each.
pub open spec fn agrees(m: Map<Seq<Seq<u8>>, Node>, entries: Seq<Entry>) -> bool {
    &&& forall|p: Seq<Seq<u8>>| #[trigger] m.dom().contains(p) <==> has_path(entries, p)
    &&& forall|i: int|
        0 <= i < entries.len() ==> m[(#[trigger] entries[i]).path@].kind == entries[i].kind
            && m[entries[i].path@].mtime == entries[i].mtime as int
}

/// The destination mirrors the source: the same paths with the same kinds,
/// and every file with the source's content and timestamp. Directory times
/// are immaterial, as in the classification rule.
pub open spec fn mirrors(src_m: Map<Seq<Seq<u8>>, Node>, dst_m: Map<Seq<Seq<u8>>, Node>) -> bool {
    &&& forall|p: Seq<Seq<u8>>| #[trigger] dst_m.dom().contains(p) <==> src_m.dom().contains(p)
    &&& forall|p: Seq<Seq<u8>>|
        src_m.dom().contains(p) ==> (#[trigger] dst_m[p]).kind == src_m[p].kind
    &&& forall|p: Seq<Seq<u8>>|
        src_m.dom().contains(p) && (#[trigger] src_m[p]).kind == EntryKind::File
            ==> dst_m[p].content == src_m[p].content && dst_m[p].mtime == src_m[p].mtime
}

/// The engine's working assumption about unchanged files: where a path is a
/// file under both roots with equal timestamps, the contents agree already.
/// Timestamp comparison can detect no more than this.
pub open spec fn content_agrees_when_unchanged(
    src_m: Map<Seq<Seq<u8>>, Node>,
    dst_m: Map<Seq<Seq<u8>>, Node>,
) -> bool {
    forall|p: Seq<Seq<u8>>|
        src_m.dom().contains(p) && dst_m.dom().contains(p) && (#[trigger] src_m[p]).kind
            == EntryKind::File && (#[trigger] dst_m[p]).kind == EntryKind::File && src_m[p].mtime
            == dst_m[p].mtime ==> dst_m[p].content == src_m[p].content
}

/// The node the model holds for a listed path.
pub proof fn lemma_agrees_at(m: Map<Seq<Seq<u8>>, Node>, entries: Seq<Entry>, p: Seq<Seq<u8>>)
    requires
        agrees(m, entries),
        has_path(entries, p),
    ensures
        m.dom().contains(p),
        m[p].kind == entry_at(entries, p).kind,
        m[p].mtime == entry_at(entries, p).mtime as int,
{
    let i = path_index(entries, p);
    assert(0 <= i < entries.len() && entries[i].path@ == p);
    assert(m[(entries[i]).path@].kind == entries[i].kind && m[entries[i].path@].mtime
        == entries[i].mtime as int);
}

/// A path no operation touches keeps whatever the destination held.
proof fn lemma_apply_ops_untouched(
    src_m: Map<Seq<Seq<u8>>, Node>,
    dst_m: Map<Seq<Seq<u8>>, Node>,
    ops: Seq<SyncOp>,
    p: Seq<Seq<u8>>,
)
    requires
        forall|k: int| 0 <= k < ops.len() ==> op_path(#[trigger] ops[k]) != p,
    ensures
        apply_ops(src_m, dst_m, ops).dom().contains(p) == dst_m.dom().contains(p),
        dst_m.dom().contains(p) ==> apply_ops(src_m, dst_m, ops)[p] == dst_m[p],
    decreases ops.len(),
{
    if ops.len() > 0 {
        let d1 = apply_op(src_m, dst_m, ops[0]);
        assert(op_path(ops[0]) != p);
        assert(d1.dom().contains(p) == dst_m.dom().contains(p));
        assert(dst_m.dom().contains(p) ==> d1[p] == dst_m[p]);
        assert forall|k: int|
            0 <= k < ops.skip(1).len() implies op_path(#[trigger] ops.skip(1)[k]) != p by {
            assert(ops.skip(1)[k] == ops[k + 1]);
        }
        lemma_apply_ops_untouched(src_m, d1, ops.skip(1), p);
    }
}

/// A path exactly one operation touches ends as that operation's effect.
proof fn lemma_apply_ops_touched_once(
    src_m: Map<Seq<Seq<u8>>, Node>,
    dst_m: Map<Seq<Seq<u8>>, Node>,
    ops: Seq<SyncOp>,
    t: int,
    p: Seq<Seq<u8>>,
)
    requires
        0 <= t < ops.len(),
        op_path(ops[t]) == p,
        forall|k: int| 0 <= k < ops.len() && k != t ==> op_path(#[trigger] ops[k]) != p,
    ensures
        match op_effect(src_m, ops[t]) {
            Some(n) => apply_ops(src_m, dst_m, ops).dom().contains(p) && apply_ops(
                src_m,
                dst_m,
                ops,
            )[p] == n,
            None => !apply_ops(src_m, dst_m, ops).dom().contains(p),
        },
    decreases ops.len(),
{
    let d1 = apply_op(src_m, dst_m, ops[0]);
    if t == 0 {
        assert forall|k: int|
            0 <= k < ops.skip(1).len() implies op_path(#[trigger] ops.skip(1)[k]) != p by {
            assert(ops.skip(1)[k] == ops[k + 1]);
        }
        lemma_apply_ops_untouched(src_m, d1, ops.skip(1), p);
    } else {
        assert(op_path(ops[0]) != p);
        assert(d1.dom().contains(p) == dst_m.dom().contains(p));
        assert forall|k: int|
            0 <= k < ops.skip(1).len() && k != t - 1 implies op_path(
            #[trigger] ops.skip(1)[k],
        ) != p by {
            assert(ops.skip(1)[k] == ops[k + 1]);
        }
        assert(ops.skip(1)[t - 1] == ops[t]);
        lemma_apply_ops_touched_once(src_m, d1, ops.skip(1), t - 1, p);
    }
}

/// What executing a well-formed operation list leaves at any one path.
proof fn lemma_coverage_at(
    src_m: Map<Seq<Seq<u8>>, Node>,
    dst_m: Map<Seq<Seq<u8>>, Node>,
    src_e: Seq<Entry>,
    dst_e: Seq<Entry>,
    ops: Seq<SyncOp>,
    r: int,
    u: int,
    p: Seq<Seq<u8>>,
)
    requires
        entries_sorted(src_e),
        entries_sorted(dst_e),
        agrees(src_m, src_e),
        agrees(dst_m, dst_e),
        content_agrees_when_unchanged(src_m, dst_m),
        ops_wf(ops, r, u, src_e, dst_e),
    ensures
        apply_ops(src_m, dst_m, ops).dom().contains(p) <==> src_m.dom().contains(p),
        src_m.dom().contains(p) ==> apply_ops(src_m, dst_m, ops)[p].kind == src_m[p].kind,
        src_m.dom().contains(p) && src_m[p].kind == EntryKind::File ==> apply_ops(
            src_m,
            dst_m,
            ops,
        )[p].content == src_m[p].content && apply_ops(src_m, dst_m, ops)[p].mtime
            == src_m[p].mtime,
{
    let res = apply_ops(src_m, dst_m, ops);
    let n = ops.len() as int;
    if has_path(dst_e, p) && !has_path(src_e, p) {
        assert(op_in_range(ops, 0, r, p));
        lemma_op_index_in(ops, 0, r, p);
        let t = op_index_in(ops, 0, r, p);
        assert forall|k: int| 0 <= k < n && k != t implies op_path(#[trigger] ops[k]) != p by {
            if op_path(ops[k]) == p {
                if k < r {
                    lemma_segs_lt_irrefl(p);
                } else if k < u {
                    assert(update_ok(ops[k], src_e, dst_e));
                } else {
                    assert(add_ok(ops[k], src_e, dst_e));
                }
            }
        }
        assert(removal_ok(ops[t], src_e, dst_e));
        lemma_apply_ops_touched_once(src_m, dst_m, ops, t, p);
        assert(!res.dom().contains(p));
    } else if has_path(src_e, p) && has_path(dst_e, p) && spec_modified(
        entry_at(src_e, p),
        entry_at(dst_e, p),
    ) {
        assert(op_in_range(ops, r, u, p));
        lemma_op_index_in(ops, r, u, p);
        let t = op_index_in(ops, r, u, p);
        assert forall|k: int| 0 <= k < n && k != t implies op_path(#[trigger] ops[k]) != p by {
            if op_path(ops[k]) == p {
                if k < r {
                    assert(removal_ok(ops[k], src_e, dst_e));
                } else if k < u {
                    lemma_segs_lt_irrefl(p);
                } else {
                    assert(add_ok(ops[k], src_e, dst_e));
                }
            }
        }
        assert(update_ok(ops[t], src_e, dst_e));
        lemma_apply_ops_touched_once(src_m, dst_m, ops, t, p);
        lemma_agrees_at(src_m, src_e, p);
        match ops[t] {
            SyncOp::FileToDir(_) => {
                assert(res[p] == dir_node());
                assert(src_m[p].kind == EntryKind::Directory);
            },
            SyncOp::DirToFile(_) => {
                assert(res[p] == src_m[p]);
            },
            SyncOp::UpdateFile(_) => {
                assert(res[p] == src_m[p]);
            },
            _ => {
                assert(false);
            },
        }
    } else if has_path(src_e, p) && !has_path(dst_e, p) {
        assert(op_in_range(ops, u, n, p));
        lemma_op_index_in(ops, u, n, p);
        let t = op_index_in(ops, u, n, p);
        assert forall|k: int| 0 <= k < n && k != t implies op_path(#[trigger] ops[k]) != p by {
            if op_path(ops[k]) == p {
                if k < r {
                    assert(removal_ok(ops[k], src_e, dst_e));
                } else if k < u {
                    assert(update_ok(ops[k], src_e, dst_e));
                } else {
                    lemma_segs_lt_irrefl(p);
                }
            }
        }
        assert(add_ok(ops[t], src_e, dst_e));
        lemma_apply_ops_touched_once(src_m, dst_m, ops, t, p);
        lemma_agrees_at(src_m, src_e, p);
        match ops[t] {
            SyncOp::AddDir(_) => {
                assert(res[p] == dir_node());
                assert(src_m[p].kind == EntryKind::Directory);
            },
            SyncOp::AddFile(_) => {
                assert(res[p] == src_m[p]);
            },
            _ => {
                assert(false);
            },
        }
    } else if has_path(src_e, p) && has_path(dst_e, p) {
        assert forall|k: int| 0 <= k < n implies op_path(#[trigger] ops[k]) != p by {
            if op_path(ops[k]) == p {
                if k < r {
                    assert(removal_ok(ops[k], src_e, dst_e));
                } else if k < u {
                    assert(update_ok(ops[k], src_e, dst_e));
                } else {
                    assert(add_ok(ops[k], src_e, dst_e));
                }
            }
        }
        lemma_apply_ops_untouched(src_m, dst_m, ops, p);
        lemma_agrees_at(src_m, src_e, p);
        lemma_agrees_at(dst_m, dst_e, p);
        let s = entry_at(src_e, p);
        let d = entry_at(dst_e, p);
        assert(!spec_modified(s, d));
        assert(res[p] == dst_m[p]);
        if s.kind == EntryKind::Directory && d.kind == EntryKind::Directory {
        } else {
            assert(s.kind == d.kind && s.mtime == d.mtime);
            if s.kind == EntryKind::File {
                assert(src_m[p].mtime == dst_m[p].mtime);
                assert(dst_m[p].content == src_m[p].content);
            }
        }
    } else {
        assert(!has_path(src_e, p) && !has_path(dst_e, p));
        assert forall|k: int| 0 <= k < n implies op_path(#[trigger] ops[k]) != p by {
            if op_path(ops[k]) == p {
                if k < r {
                    assert(removal_ok(ops[k], src_e, dst_e));
                } else if k < u {
                    assert(update_ok(ops[k], src_e, dst_e));
                } else {
                    assert(add_ok(ops[k], src_e, dst_e));
                }
            }
        }
        lemma_apply_ops_untouched(src_m, dst_m, ops, p);
        assert(!dst_m.dom().contains(p));
        assert(!src_m.dom().contains(p));
    }
}

/// Coverage: executing a well-formed operation list leaves the destination
/// mirroring the source — the same paths with the same kinds, every file
/// with the source's content and timestamp. Holds for any modelled contents
/// consistent with the two listings and with the timestamp assumption on
/// unchanged files.
pub proof fn theorem_coverage(
    src_m: Map<Seq<Seq<u8>>, Node>,
    dst_m: Map<Seq<Seq<u8>>, Node>,
    src_e: Seq<Entry>,
    dst_e: Seq<Entry>,
    ops: Seq<SyncOp>,
    r: int,
    u: int,
)
    requires
        entries_sorted(src_e),
        entries_sorted(dst_e),
        agrees(src_m, src_e),
        agrees(dst_m, dst_e),
        content_agrees_when_unchanged(src_m, dst_m),
        ops_wf(ops, r, u, src_e, dst_e),
    ensures
        mirrors(src_m, apply_ops(src_m, dst_m, ops)),
{
    let res = apply_ops(src_m, dst_m, ops);
    assert forall|p: Seq<Seq<u8>>| #[trigger]
        res.dom().contains(p) <==> src_m.dom().contains(p) by {
        lemma_coverage_at(src_m, dst_m, src_e, dst_e, ops, r, u, p);
    }
    assert forall|p: Seq<Seq<u8>>|
        src_m.dom().contains(p) implies (#[trigger] res[p]).kind == src_m[p].kind by {
        lemma_coverage_at(src_m, dst_m, src_e, dst_e, ops, r, u, p);
    }
    assert forall|p: Seq<Seq<u8>>|
        src_m.dom().contains(p) && (#[trigger] src_m[p]).kind == EntryKind::File implies res[p].content
            == src_m[p].content && res[p].mtime == src_m[p].mtime by {
        lemma_coverage_at(src_m, dst_m, src_e, dst_e, ops, r, u, p);
    }
}

/// Idempotence, first half: when the destination already mirrors the
/// source, the classification finds nothing — no path is source-only or
/// destination-only, and no common path counts as modified.
pub proof fn theorem_idempotence(
    src_m: Map<Seq<Seq<u8>>, Node>,
    dst_m: Map<Seq<Seq<u8>>, Node>,
    src_e: Seq<Entry>,
    dst_e: Seq<Entry>,
)
    requires
        entries_sorted(src_e),
        entries_sorted(dst_e),
        agrees(src_m, src_e),
        agrees(dst_m, dst_e),
        mirrors(src_m, dst_m),
    ensures
        forall|p: Seq<Seq<u8>>| #[trigger] has_path(src_e, p) <==> has_path(dst_e, p),
        forall|p: Seq<Seq<u8>>|
            #[trigger] has_path(src_e, p) && has_path(dst_e, p) ==> !spec_modified(
                entry_at(src_e, p),
                entry_at(dst_e, p),
            ),
{
    assert forall|p: Seq<Seq<u8>>| #[trigger] has_path(src_e, p) <==> has_path(dst_e, p) by {
        assert(src_m.dom().contains(p) <==> has_path(src_e, p));
        assert(dst_m.dom().contains(p) <==> has_path(dst_e, p));
    }
    assert forall|p: Seq<Seq<u8>>|
        #[trigger] has_path(src_e, p) && has_path(dst_e, p) implies !spec_modified(
        entry_at(src_e, p),
        entry_at(dst_e, p),
    ) by {
        lemma_agrees_at(src_m, src_e, p);
        lemma_agrees_at(dst_m, dst_e, p);
        let s = entry_at(src_e, p);
        let d = entry_at(dst_e, p);
        assert(d.kind == dst_m[p].kind && dst_m[p].kind == src_m[p].kind && src_m[p].kind
            == s.kind);
        if s.kind == EntryKind::File {
            assert(dst_m[p].mtime == src_m[p].mtime);
            assert(s.mtime == d.mtime);
        }
    }
}

/// Idempotence, second half: a plan computed over listings of a mirrored
/// pair is empty in all three sets, so the second run performs no mutation.
pub proof fn theorem_second_run_plan_empty(
    plan: SyncPlan,
    src_m: Map<Seq<Seq<u8>>, Node>,
    dst_m: Map<Seq<Seq<u8>>, Node>,
    src_e: Seq<Entry>,
    dst_e: Seq<Entry>,
)
    requires
        entries_sorted(src_e),
        entries_sorted(dst_e),
        agrees(src_m, src_e),
        agrees(dst_m, dst_e),
        mirrors(src_m, dst_m),
        plan_wf_for(plan, src_e, dst_e),
    ensures
        plan.added@.len() == 0,
        plan.modified@.len() == 0,
        plan.removed@.len() == 0,
{
    theorem_idempotence(src_m, dst_m, src_e, dst_e);
    if plan.added@.len() > 0 {
        assert(path_in(plan.added@, plan.added@[0]@));
    }
    if plan.modified@.len() > 0 {
        assert(path_in(plan.modified@, plan.modified@[0]@));
    }
    if plan.removed@.len() > 0 {
        assert(path_in(plan.removed@, plan.removed@[0]@));
    }
}

/// Type-change correctness: where the source holds a directory and the
/// destination held a file at the same path, executing the plan leaves a
/// directory there, and beneath it exactly the source's own entries — in
/// particular, an empty directory where the source one is empty.
pub proof fn theorem_type_change(
    src_m: Map<Seq<Seq<u8>>, Node>,
    dst_m: Map<Seq<Seq<u8>>, Node>,
    src_e: Seq<Entry>,
    dst_e: Seq<Entry>,
    ops: Seq<SyncOp>,
    r: int,
    u: int,
    a: Seq<Seq<u8>>,
)
    requires
        entries_sorted(src_e),
        entries_sorted(dst_e),
        agrees(src_m, src_e),
        agrees(dst_m, dst_e),
        content_agrees_when_unchanged(src_m, dst_m),
        ops_wf(ops, r, u, src_e, dst_e),
        src_m.dom().contains(a),
        src_m[a].kind == EntryKind::Directory,
        dst_m.dom().contains(a),
        dst_m[a].kind == EntryKind::File,
    ensures
        apply_ops(src_m, dst_m, ops).dom().contains(a),
        apply_ops(src_m, dst_m, ops)[a].kind == EntryKind::Directory,
        forall|q: Seq<Seq<u8>>|
            is_strict_prefix(a, q) ==> (#[trigger] apply_ops(src_m, dst_m, ops).dom().contains(q)
                <==> src_m.dom().contains(q)),
{
    theorem_coverage(src_m, dst_m, src_e, dst_e, ops, r, u);
}

/// Both halves of idempotence in one statement: after a run's operations
/// execute, a second run over the unchanged source and the resulting
/// destination computes an empty plan, so it performs no mutation.
pub proof fn theorem_two_runs(
    src_m: Map<Seq<Seq<u8>>, Node>,
    dst_m: Map<Seq<Seq<u8>>, Node>,
    src_e: Seq<Entry>,
    dst_e: Seq<Entry>,
    ops: Seq<SyncOp>,
    r: int,
    u: int,
    dst_e2: Seq<Entry>,
    plan2: SyncPlan,
)
    requires
        entries_sorted(src_e),
        entries_sorted(dst_e),
        entries_sorted(dst_e2),
        agrees(src_m, src_e),
        agrees(dst_m, dst_e),
        content_agrees_when_unchanged(src_m, dst_m),
        ops_wf(ops, r, u, src_e, dst_e),
        agrees(apply_ops(src_m, dst_m, ops), dst_e2),
        plan_wf_for(plan2, src_e, dst_e2),
    ensures
        plan2.added@.len() == 0,
        plan2.modified@.len() == 0,
        plan2.removed@.len() == 0,
{
    theorem_coverage(src_m, dst_m, src_e, dst_e, ops, r, u);
    theorem_second_run_plan_empty(plan2, src_m, apply_ops(src_m, dst_m, ops), src_e, dst_e2);
}

} // verus!
