//! The path collector: turns the raw result of walking one root into the
//! canonical listing the engine diffs — relative paths filtered by the fixed
//! ignore rules, the pairing marker excluded, sorted and deduplicated.
//!
//! The walk itself is the caller's: it hands in one `RawEntry` per visited
//! filesystem entry, already expressed relative to the root where possible.

use vstd::prelude::*;

use crate::entry::{Entry, EntryKind, entries_sorted, has_path, insert_entry};
use crate::errors::DirSyncError;
use crate::fspath::RelPath;

verus! {

/// One entry as the walk reported it, before filtering.
#[derive(Debug)]
pub struct RawEntry {
    /// The entry's location relative to the walked root, or `None` when the
    /// walked path could not be expressed relative to it.
    pub rel: Option<RelPath>,
    /// The path text as walked, kept for error reporting.
    pub full: Vec<u8>,
    /// File or directory.
    pub kind: EntryKind,
    /// Modification time in whole seconds since the Unix epoch.
    pub mtime: i64,
    /// Whether the entry's permissions mark it read-only.
    pub readonly: bool,
}

/// The name of the macOS Finder metadata file, `.DS_Store`.
pub open spec fn ds_store_name() -> Seq<u8> {
    seq![46u8, 68u8, 83u8, 95u8, 83u8, 116u8, 111u8, 114u8, 101u8]
}

/// The name `_nosync`, an explicit opt-out marker.
pub open spec fn nosync_name() -> Seq<u8> {
    seq![95u8, 110u8, 111u8, 115u8, 121u8, 110u8, 99u8]
}

/// The name `node_modules`, a heavyweight dependency directory.
pub open spec fn node_modules_name() -> Seq<u8> {
    seq![110u8, 111u8, 100u8, 101u8, 95u8, 109u8, 111u8, 100u8, 117u8, 108u8, 101u8, 115u8]
}

/// The name of the pairing marker file, `.dirsync`.
pub open spec fn marker_name() -> Seq<u8> {
    seq![46u8, 100u8, 105u8, 114u8, 115u8, 121u8, 110u8, 99u8]
}

/// A name the ignore filter excludes: system metadata, the opt-out marker,
/// the dependency directory, or any AppleDouble `._` resource name.
pub open spec fn name_ignored(name: Seq<u8>) -> bool {
    name == ds_store_name() || name == nosync_name() || name == node_modules_name() || (name.len()
        >= 2 && name[0] == 46u8 && name[1] == 95u8)
}

/// A path is excluded when any of its segments is ignored, which also
/// excludes the whole subtree below an ignored directory.
pub open spec fn path_ignored(p: Seq<Seq<u8>>) -> bool {
    exists|i: int| 0 <= i < p.len() && name_ignored(#[trigger] p[i])
}

/// The pairing marker file at the root's top level.
pub open spec fn is_marker_path(p: Seq<Seq<u8>>) -> bool {
    p.len() == 1 && p[0] == marker_name()
}

/// The walked entry survives filtering: it is relative to the root, no
/// segment of it is ignored, and it is not the pairing marker.
pub open spec fn raw_kept(r: RawEntry) -> bool {
    match r.rel {
        Some(p) => !path_ignored(p@) && !is_marker_path(p@),
        None => false,
    }
}

/// The relative path of a walked entry, where it has one.
pub open spec fn rel_of(r: RawEntry) -> Seq<Seq<u8>> {
    match r.rel {
        Some(p) => p@,
        None => Seq::empty(),
    }
}

/// Some kept entry of the walk has relative path `p`.
pub open spec fn kept_path(raw: Seq<RawEntry>, p: Seq<Seq<u8>>) -> bool {
    kept_from(raw, 0, p)
}

/// The listing entry `e` reports the path and metadata of some kept entry of
/// the walk.
pub open spec fn entry_matches_raw(raw: Seq<RawEntry>, e: Entry) -> bool {
    exists|k: int|
        0 <= k < raw.len() && raw_kept(#[trigger] raw[k]) && rel_of(raw[k]) == e.path@ && raw[k].kind
            == e.kind && raw[k].mtime == e.mtime && raw[k].readonly == e.readonly
}

/// Some walked entry at index `lo` or later could not be expressed relative
/// to the root and was reported with path text `b`.
pub open spec fn invalid_from(raw: Seq<RawEntry>, lo: int, b: Seq<u8>) -> bool {
    exists|k: int| lo <= k < raw.len() && (#[trigger] raw[k].rel) is None && raw[k].full@ == b
}

/// Some walked entry could not be expressed relative to the root and was
/// reported with path text `b`.
pub open spec fn full_invalid(raw: Seq<RawEntry>, b: Seq<u8>) -> bool {
    invalid_from(raw, 0, b)
}

/// Some kept walk entry at index `lo` or later has relative path `p`.
pub open spec fn kept_from(raw: Seq<RawEntry>, lo: int, p: Seq<Seq<u8>>) -> bool {
    exists|k: int| lo <= k < raw.len() && raw_kept(#[trigger] raw[k]) && rel_of(raw[k]) == p
}

/// The path text `b` stands somewhere in the reported list `v`.
pub open spec fn reported_in(v: Seq<Vec<u8>>, b: Seq<u8>) -> bool {
    exists|m: int| 0 <= m < v.len() && (#[trigger] v[m])@ == b
}

proof fn lemma_invalid_from_widen(raw: Seq<RawEntry>, lo: int, lo2: int, b: Seq<u8>)
    requires
        invalid_from(raw, lo, b),
        lo2 <= lo,
    ensures
        invalid_from(raw, lo2, b),
{
    let k = choose|k: int| lo <= k < raw.len() && (#[trigger] raw[k].rel) is None && raw[k].full@ == b;
    assert(lo2 <= k < raw.len() && (raw[k].rel) is None && raw[k].full@ == b);
}

proof fn lemma_kept_from_widen(raw: Seq<RawEntry>, lo: int, lo2: int, p: Seq<Seq<u8>>)
    requires
        kept_from(raw, lo, p),
        lo2 <= lo,
    ensures
        kept_from(raw, lo2, p),
{
    let k = choose|k: int| lo <= k < raw.len() && raw_kept(#[trigger] raw[k]) && rel_of(raw[k]) == p;
    assert(lo2 <= k < raw.len() && raw_kept(raw[k]) && rel_of(raw[k]) == p);
}

fn is_ds_store(name: &Vec<u8>) -> (r: bool)
    ensures
        r == (name@ == ds_store_name()),
{
    let r = name.len() == 9 && name[0] == 46 && name[1] == 68 && name[2] == 83 && name[3] == 95
        && name[4] == 83 && name[5] == 116 && name[6] == 111 && name[7] == 114 && name[8] == 101;
    proof {
        if r {
            assert(name@ =~= ds_store_name());
        }
    }
    r
}

fn is_nosync(name: &Vec<u8>) -> (r: bool)
    ensures
        r == (name@ == nosync_name()),
{
    let r = name.len() == 7 && name[0] == 95 && name[1] == 110 && name[2] == 111 && name[3] == 115
        && name[4] == 121 && name[5] == 110 && name[6] == 99;
    proof {
        if r {
            assert(name@ =~= nosync_name());
        }
    }
    r
}

fn is_node_modules(name: &Vec<u8>) -> (r: bool)
    ensures
        r == (name@ == node_modules_name()),
{
    let r = name.len() == 12 && name[0] == 110 && name[1] == 111 && name[2] == 100 && name[3]
        == 101 && name[4] == 95 && name[5] == 109 && name[6] == 111 && name[7] == 100 && name[8]
        == 117 && name[9] == 108 && name[10] == 101 && name[11] == 115;
    proof {
        if r {
            assert(name@ =~= node_modules_name());
        }
    }
    r
}

fn is_marker_name(name: &Vec<u8>) -> (r: bool)
    ensures
        r == (name@ == marker_name()),
{
    let r = name.len() == 8 && name[0] == 46 && name[1] == 100 && name[2] == 105 && name[3] == 114
        && name[4] == 115 && name[5] == 121 && name[6] == 110 && name[7] == 99;
    proof {
        if r {
            assert(name@ =~= marker_name());
        }
    }
    r
}

/// Whether the ignore filter keeps an entry with this name.
pub fn is_not_ignored(name: &Vec<u8>) -> (r: bool)
    ensures
        r == !name_ignored(name@),
{
    !(is_ds_store(name) || is_nosync(name) || is_node_modules(name) || (name.len() >= 2 && name[0]
        == 46 && name[1] == 95))
}

fn path_not_ignored(p: &RelPath) -> (r: bool)
    ensures
        r == !path_ignored(p@),
{
    let mut i: usize = 0;
    while i < p.segs.len()
        invariant
            i <= p.segs.len(),
            forall|k: int| 0 <= k < i ==> !name_ignored(#[trigger] p@[k]),
        decreases p.segs.len() - i,
    {
        if !is_not_ignored(&p.segs[i]) {
            proof {
                assert(name_ignored(p@[i as int]));
            }
            return false;
        }
        i += 1;
    }
    true
}

fn is_marker(p: &RelPath) -> (r: bool)
    ensures
        r == is_marker_path(p@),
{
    p.segs.len() == 1 && is_marker_name(&p.segs[0])
}

/// Build one root's canonical listing from the raw result of walking it.
///
/// On success the listing is strictly sorted by path, holds exactly the
/// relative paths of the kept walk entries — no ignored name anywhere on the
/// path, the pairing marker excluded — and each listing entry carries the
/// metadata some kept walk entry reported for that path. If any walked entry
/// could not be expressed relative to the root, the walk is still processed
/// to the end and exactly those path texts are reported together.
pub fn get_paths(raw: Vec<RawEntry>) -> (r: Result<Vec<Entry>, DirSyncError>)
    ensures
        match r {
            Ok(out) => {
                &&& entries_sorted(out@)
                &&& forall|p: Seq<Seq<u8>>| #[trigger] has_path(out@, p) <==> kept_path(raw@, p)
                &&& forall|k: int|
                    0 <= k < out@.len() ==> entry_matches_raw(raw@, #[trigger] out@[k])
                &&& forall|k: int| 0 <= k < raw@.len() ==> !((#[trigger] raw@[k].rel) is None)
            },
            Err(e) => {
                &&& e matches DirSyncError::InvalidPaths(v)
                &&& v@.len() > 0
                &&& forall|m: int| 0 <= m < v@.len() ==> full_invalid(raw@, (#[trigger] v@[m])@)
                &&& forall|k: int|
                    0 <= k < raw@.len() && (#[trigger] raw@[k].rel) is None ==> reported_in(
                        v@,
                        raw@[k].full@,
                    )
            },
        },
{
    let ghost all = raw@;
    let mut raw = raw;
    let mut out: Vec<Entry> = Vec::new();
    let mut invalid: Vec<Vec<u8>> = Vec::new();
    proof {
        assert(raw@ == all.take(all.len() as int));
    }
    while raw.len() > 0
        invariant
            raw@.len() <= all.len(),
            raw@ == all.take(raw@.len() as int),
            entries_sorted(out@),
            forall|p: Seq<Seq<u8>>|
                #[trigger] has_path(out@, p) <==> kept_from(all, raw@.len() as int, p),
            forall|j: int| 0 <= j < out@.len() ==> entry_matches_raw(all, #[trigger] out@[j]),
            forall|m: int|
                0 <= m < invalid@.len() ==> invalid_from(
                    all,
                    raw@.len() as int,
                    (#[trigger] invalid@[m])@,
                ),
            forall|k: int|
                raw@.len() <= k < all.len() && (#[trigger] all[k].rel) is None ==> reported_in(
                    invalid@,
                    all[k].full@,
                ),
        decreases raw.len(),
    {
        let ghost prev = raw@;
        let r = raw.pop().unwrap();
        let ghost cur = raw@.len() as int;
        proof {
            assert(prev == all.take(prev.len() as int));
            assert(raw@ =~= all.take(cur));
            assert(r == all[cur]);
            // Invariant facts carry into the window widened by one index.
            assert forall|p: Seq<Seq<u8>>|
                #[trigger] has_path(out@, p) implies kept_from(all, cur, p) by {
                lemma_kept_from_widen(all, cur + 1, cur, p);
            }
            assert forall|m: int| 0 <= m < invalid@.len() implies invalid_from(
                all,
                cur,
                (#[trigger] invalid@[m])@,
            ) by {
                lemma_invalid_from_widen(all, cur + 1, cur, invalid@[m]@);
            }
        }
        match r.rel {
            Some(p) => {
                if path_not_ignored(&p) && !is_marker(&p) {
                    let e = Entry { path: p, kind: r.kind, mtime: r.mtime, readonly: r.readonly };
                    proof {
                        assert(raw_kept(all[cur]));
                        assert(rel_of(all[cur]) == e.path@);
                    }
                    let ghost old_out = out@;
                    insert_entry(&mut out, e);
                    proof {
                        assert forall|q: Seq<Seq<u8>>|
                            #[trigger] has_path(out@, q) implies kept_from(all, cur, q) by {
                            if has_path(old_out, q) {
                            } else {
                                assert(q == e.path@);
                                assert(raw_kept(all[cur]) && rel_of(all[cur]) == q);
                            }
                        }
                        assert forall|q: Seq<Seq<u8>>|
                            kept_from(all, cur, q) implies #[trigger] has_path(out@, q) by {
                            let k = choose|k: int|
                                cur <= k < all.len() && raw_kept(#[trigger] all[k]) && rel_of(
                                    all[k],
                                ) == q;
                            if k == cur {
                                assert(q == e.path@);
                            } else {
                                assert(kept_from(all, cur + 1, q));
                            }
                        }
                        assert forall|j: int| 0 <= j < out@.len() implies entry_matches_raw(
                            all,
                            #[trigger] out@[j],
                        ) by {
                            if out@[j] == e {
                                assert(raw_kept(all[cur]) && rel_of(all[cur]) == e.path@
                                    && all[cur].kind == e.kind && all[cur].mtime == e.mtime
                                    && all[cur].readonly == e.readonly);
                            } else {
                                assert(old_out.contains(out@[j]));
                                let j0 = choose|j0: int|
                                    0 <= j0 < old_out.len() && old_out[j0] == out@[j];
                                assert(entry_matches_raw(all, old_out[j0]));
                            }
                        }
                    }
                } else {
                    proof {
                        assert(!raw_kept(all[cur]));
                        assert forall|q: Seq<Seq<u8>>|
                            kept_from(all, cur, q) implies #[trigger] has_path(out@, q) by {
                            let k = choose|k: int|
                                cur <= k < all.len() && raw_kept(#[trigger] all[k]) && rel_of(
                                    all[k],
                                ) == q;
                            assert(k != cur);
                            assert(kept_from(all, cur + 1, q));
                        }
                    }
                }
            },
            None => {
                proof {
                    assert((all[cur].rel) is None);
                    assert(all[cur].full@ == r.full@);
                    assert forall|q: Seq<Seq<u8>>|
                        kept_from(all, cur, q) implies #[trigger] has_path(out@, q) by {
                        let k = choose|k: int|
                            cur <= k < all.len() && raw_kept(#[trigger] all[k]) && rel_of(all[k])
                                == q;
                        assert(k != cur);
                        assert(kept_from(all, cur + 1, q));
                    }
                }
                let ghost old_invalid = invalid@;
                invalid.push(r.full);
                proof {
                    assert forall|m: int| 0 <= m < invalid@.len() implies invalid_from(
                        all,
                        cur,
                        (#[trigger] invalid@[m])@,
                    ) by {
                        if m < old_invalid.len() {
                            assert(invalid@[m] == old_invalid[m]);
                        } else {
                            assert(invalid@[m]@ == all[cur].full@);
                            assert((all[cur].rel) is None);
                        }
                    }
                    assert forall|k: int|
                        cur <= k < all.len() && (#[trigger] all[k].rel) is None
                            implies reported_in(invalid@, all[k].full@) by {
                        if k == cur {
                            assert(invalid@[invalid@.len() - 1]@ == all[k].full@);
                        } else {
                            let m = choose|m: int|
                                0 <= m < old_invalid.len() && (#[trigger] old_invalid[m])@
                                    == all[k].full@;
                            assert(invalid@[m]@ == all[k].full@);
                        }
                    }
                }
            },
        }
    }
    proof {
        assert(raw@.len() == 0);
    }
    if invalid.len() == 0 {
        proof {
            assert forall|k: int|
                0 <= k < all.len() implies !((#[trigger] all[k].rel) is None) by {
                if (all[k].rel) is None {
                    assert(reported_in(invalid@, all[k].full@));
                }
            }
        }
        Ok(out)
    } else {
        Err(DirSyncError::InvalidPaths(invalid))
    }
}

} // verus!
