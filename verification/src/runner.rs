//! The run orchestrator: canonicalize both walks into listings, classify,
//! and — unless the run is a dry run — order the operations to execute.
//! The caller prints the report and performs the filesystem work.

use vstd::prelude::*;

use crate::collect::{RawEntry, entry_matches_raw, full_invalid, get_paths, kept_path, reported_in};
use crate::config::DirSyncConfig;
use crate::diff::{SyncPlan, compute_plan, plan_wf_for};
use crate::entry::{Entry, entries_sorted, has_path};
use crate::errors::DirSyncError;
use crate::ops::{SyncOp, build_ops, op_path, ops_wf};

verus! {

/// Everything one run computes: the two canonical listings, the plan, and
/// the ordered operations (empty for a dry run).
#[derive(Debug)]
pub struct SyncReport {
    /// The source root's canonical listing.
    pub src_entries: Vec<Entry>,
    /// The destination root's canonical listing.
    pub dst_entries: Vec<Entry>,
    /// The classification of every path of the two listings.
    pub plan: SyncPlan,
    /// The mutations to execute, in their strict order: removals in reverse
    /// path order, then updates, then additions in forward path order.
    /// Empty when the run is a dry run.
    pub ops: Vec<SyncOp>,
}

/// What a report says of the raw walks it was computed from. The plan is a
/// function of the two walks alone — the dry-run flag decides only whether
/// the operation list is filled in or left empty.
pub open spec fn report_wf(
    rep: SyncReport,
    src_raw: Seq<RawEntry>,
    dst_raw: Seq<RawEntry>,
    dry_run: bool,
) -> bool {
    &&& entries_sorted(rep.src_entries@)
    &&& entries_sorted(rep.dst_entries@)
    &&& forall|p: Seq<Seq<u8>>|
        #[trigger] has_path(rep.src_entries@, p) <==> kept_path(src_raw, p)
    &&& forall|k: int|
        0 <= k < rep.src_entries@.len() ==> entry_matches_raw(
            src_raw,
            #[trigger] rep.src_entries@[k],
        )
    &&& forall|p: Seq<Seq<u8>>|
        #[trigger] has_path(rep.dst_entries@, p) <==> kept_path(dst_raw, p)
    &&& forall|k: int|
        0 <= k < rep.dst_entries@.len() ==> entry_matches_raw(
            dst_raw,
            #[trigger] rep.dst_entries@[k],
        )
    &&& plan_wf_for(rep.plan, rep.src_entries@, rep.dst_entries@)
    &&& if dry_run {
        rep.ops@.len() == 0
    } else {
        &&& ops_wf(
            rep.ops@,
            rep.plan.removed@.len() as int,
            rep.plan.removed@.len() + rep.plan.modified@.len() as int,
            rep.src_entries@,
            rep.dst_entries@,
        )
        &&& rep.ops@.len() == rep.plan.removed@.len() + rep.plan.modified@.len()
            + rep.plan.added@.len()
        &&& forall|k: int|
            0 <= k < rep.plan.removed@.len() ==> op_path(#[trigger] rep.ops@[k])
                == rep.plan.removed@[rep.plan.removed@.len() - 1 - k]@
        &&& forall|k: int|
            0 <= k < rep.plan.modified@.len() ==> op_path(
                #[trigger] rep.ops@[rep.plan.removed@.len() + k],
            ) == rep.plan.modified@[k]@
        &&& forall|k: int|
            0 <= k < rep.plan.added@.len() ==> op_path(
                #[trigger] rep.ops@[rep.plan.removed@.len() + rep.plan.modified@.len() + k],
            ) == rep.plan.added@[k]@
    }
}

/// One full run over the two raw walks: canonicalize both listings, fail
/// with the collected invalid paths if either walk reported any (source
/// first), classify, and order the operations unless this is a dry run.
pub fn sync_dirs(config: &DirSyncConfig, src_raw: Vec<RawEntry>, dst_raw: Vec<RawEntry>) -> (r:
    Result<SyncReport, DirSyncError>)
    ensures
        match r {
            Ok(rep) => {
                &&& report_wf(rep, src_raw@, dst_raw@, config.dry_run)
                &&& forall|k: int|
                    0 <= k < src_raw@.len() ==> !((#[trigger] src_raw@[k].rel) is None)
                &&& forall|k: int|
                    0 <= k < dst_raw@.len() ==> !((#[trigger] dst_raw@[k].rel) is None)
            },
            Err(e) => {
                &&& e matches DirSyncError::InvalidPaths(v)
                &&& v@.len() > 0
                &&& {
                    ||| {
                        &&& forall|m: int|
                            0 <= m < v@.len() ==> full_invalid(src_raw@, (#[trigger] v@[m])@)
                        &&& forall|k: int|
                            0 <= k < src_raw@.len() && (#[trigger] src_raw@[k].rel) is None
                                ==> reported_in(v@, src_raw@[k].full@)
                        &&& exists|k: int|
                            0 <= k < src_raw@.len() && (#[trigger] src_raw@[k].rel) is None
                    }
                    ||| {
                        &&& forall|k: int|
                            0 <= k < src_raw@.len() ==> !((#[trigger] src_raw@[k].rel) is None)
                        &&& forall|m: int|
                            0 <= m < v@.len() ==> full_invalid(dst_raw@, (#[trigger] v@[m])@)
                        &&& forall|k: int|
                            0 <= k < dst_raw@.len() && (#[trigger] dst_raw@[k].rel) is None
                                ==> reported_in(v@, dst_raw@[k].full@)
                    }
                }
            },
        },
{
    let src_entries = match get_paths(src_raw) {
        Ok(v) => v,
        Err(e) => {
            proof {
                if let DirSyncError::InvalidPaths(ref v) = e {
                    assert(full_invalid(src_raw@, v@[0]@));
                }
            }
            return Err(e);
        },
    };
    let dst_entries = match get_paths(dst_raw) {
        Ok(v) => v,
        Err(e) => {
            return Err(e);
        },
    };
    let plan = compute_plan(&src_entries, &dst_entries);
    let ops: Vec<SyncOp> = if config.dry_run {
        Vec::new()
    } else {
        build_ops(&plan, &src_entries, &dst_entries)
    };
    Ok(SyncReport { src_entries, dst_entries, plan, ops })
}

} // verus!
