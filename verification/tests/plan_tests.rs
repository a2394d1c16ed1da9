//! Scenario tests for the diff engine and the operation ordering.

use dirsync::{Entry, EntryKind, RelPath, SyncOp};
use dirsync::diff::compute_plan;
use dirsync::ops::build_ops;

fn rp(s: &str) -> RelPath {
    let segs: Vec<Vec<u8>> = if s.is_empty() {
        Vec::new()
    } else {
        s.split('/').map(|x| x.as_bytes().to_vec()).collect()
    };
    RelPath { segs }
}

fn ent(path: &str, kind: EntryKind, mtime: i64) -> Entry {
    Entry { path: rp(path), kind, mtime, readonly: false }
}

fn paths(v: &[RelPath]) -> Vec<String> {
    v.iter()
        .map(|p| {
            p.segs
                .iter()
                .map(|s| String::from_utf8_lossy(s).into_owned())
                .collect::<Vec<_>>()
                .join("/")
        })
        .collect()
}

#[test]
fn concrete_scenario_plan() {
    // source: f.txt (mtime T, content "A"), sub/ (dir), sub/g.txt (mtime T)
    // destination: f.txt (mtime T-1, content "B"), old.txt
    let t = 1_000_000i64;
    let src = vec![
        ent("f.txt", EntryKind::File, t),
        ent("sub", EntryKind::Directory, t),
        ent("sub/g.txt", EntryKind::File, t),
    ];
    let dst = vec![ent("f.txt", EntryKind::File, t - 1), ent("old.txt", EntryKind::File, t - 1)];
    let plan = compute_plan(&src, &dst);
    assert_eq!(paths(&plan.added), vec!["sub", "sub/g.txt"]);
    assert_eq!(paths(&plan.modified), vec!["f.txt"]);
    assert_eq!(paths(&plan.removed), vec!["old.txt"]);
    assert_eq!(paths(&plan.dst_newer), Vec::<String>::new());
}

#[test]
fn concrete_scenario_ops() {
    let t = 1_000_000i64;
    let src = vec![
        ent("f.txt", EntryKind::File, t),
        ent("sub", EntryKind::Directory, t),
        ent("sub/g.txt", EntryKind::File, t),
    ];
    let dst = vec![ent("f.txt", EntryKind::File, t - 1), ent("old.txt", EntryKind::File, t - 1)];
    let plan = compute_plan(&src, &dst);
    let ops = build_ops(&plan, &src, &dst);
    assert_eq!(
        ops,
        vec![
            SyncOp::RemoveFile(rp("old.txt")),
            SyncOp::UpdateFile(rp("f.txt")),
            SyncOp::AddDir(rp("sub")),
            SyncOp::AddFile(rp("sub/g.txt")),
        ]
    );
}

#[test]
fn identical_listings_give_empty_plan() {
    let t = 5i64;
    let listing = vec![
        ent("a", EntryKind::Directory, t),
        ent("a/b.txt", EntryKind::File, t),
        ent("c.txt", EntryKind::File, t + 7),
    ];
    let plan = compute_plan(&listing, &listing);
    assert!(plan.added.is_empty());
    assert!(plan.modified.is_empty());
    assert!(plan.removed.is_empty());
    assert!(plan.dst_newer.is_empty());
    let ops = build_ops(&plan, &listing, &listing);
    assert!(ops.is_empty());
}

#[test]
fn directory_pair_never_modified_despite_mtime() {
    let src = vec![ent("d", EntryKind::Directory, 10)];
    let dst = vec![ent("d", EntryKind::Directory, 99)];
    let plan = compute_plan(&src, &dst);
    assert!(plan.modified.is_empty());
    assert!(plan.dst_newer.is_empty());
}

#[test]
fn kind_change_is_modified_even_with_equal_mtime() {
    let src = vec![ent("x", EntryKind::Directory, 10)];
    let dst = vec![ent("x", EntryKind::File, 10)];
    let plan = compute_plan(&src, &dst);
    assert_eq!(paths(&plan.modified), vec!["x"]);
}

#[test]
fn equal_file_pair_is_unchanged() {
    let src = vec![ent("x", EntryKind::File, 10)];
    let dst = vec![ent("x", EntryKind::File, 10)];
    let plan = compute_plan(&src, &dst);
    assert!(plan.added.is_empty());
    assert!(plan.modified.is_empty());
    assert!(plan.removed.is_empty());
}

#[test]
fn newer_destination_warns_and_counts_as_modified() {
    let src = vec![ent("x", EntryKind::File, 10)];
    let dst = vec![ent("x", EntryKind::File, 20)];
    let plan = compute_plan(&src, &dst);
    assert_eq!(paths(&plan.modified), vec!["x"]);
    assert_eq!(paths(&plan.dst_newer), vec!["x"]);
}

#[test]
fn removal_order_deletes_descendants_first() {
    let src: Vec<Entry> = Vec::new();
    let dst = vec![
        ent("d", EntryKind::Directory, 1),
        ent("d/e", EntryKind::Directory, 1),
        ent("d/e/f.txt", EntryKind::File, 1),
        ent("d/g.txt", EntryKind::File, 1),
    ];
    let plan = compute_plan(&src, &dst);
    let ops = build_ops(&plan, &src, &dst);
    assert_eq!(
        ops,
        vec![
            SyncOp::RemoveFile(rp("d/g.txt")),
            SyncOp::RemoveFile(rp("d/e/f.txt")),
            SyncOp::RemoveDir(rp("d/e")),
            SyncOp::RemoveDir(rp("d")),
        ]
    );
}

#[test]
fn type_change_file_to_directory() {
    // source a is a directory, destination a is a file: the plan updates a
    // with a file-to-directory operation.
    let src = vec![ent("a", EntryKind::Directory, 3)];
    let dst = vec![ent("a", EntryKind::File, 3)];
    let plan = compute_plan(&src, &dst);
    let ops = build_ops(&plan, &src, &dst);
    assert_eq!(ops, vec![SyncOp::FileToDir(rp("a"))]);
}

#[test]
fn type_change_directory_to_file() {
    let src = vec![ent("a", EntryKind::File, 3)];
    let dst = vec![ent("a", EntryKind::Directory, 3)];
    let plan = compute_plan(&src, &dst);
    let ops = build_ops(&plan, &src, &dst);
    assert_eq!(ops, vec![SyncOp::DirToFile(rp("a"))]);
}

#[test]
fn additions_create_parents_before_children() {
    let src = vec![
        ent("p", EntryKind::Directory, 1),
        ent("p/q", EntryKind::Directory, 1),
        ent("p/q/r.txt", EntryKind::File, 1),
    ];
    let dst: Vec<Entry> = Vec::new();
    let plan = compute_plan(&src, &dst);
    let ops = build_ops(&plan, &src, &dst);
    assert_eq!(
        ops,
        vec![
            SyncOp::AddDir(rp("p")),
            SyncOp::AddDir(rp("p/q")),
            SyncOp::AddFile(rp("p/q/r.txt")),
        ]
    );
}
