//! Tests for configuration building, validation and the full runner,
//! including dry-run purity.

use dirsync::{DirSyncConfig, DirSyncError, EntryKind, RawEntry, RelPath};
use dirsync::config::{check_path, check_sync, get_config, validate};
use dirsync::runner::sync_dirs;

fn rp(s: &str) -> RelPath {
    let segs: Vec<Vec<u8>> = if s.is_empty() {
        Vec::new()
    } else {
        s.split('/').map(|x| x.as_bytes().to_vec()).collect()
    };
    RelPath { segs }
}

fn raw(rel: &str, kind: EntryKind, mtime: i64) -> RawEntry {
    RawEntry {
        rel: Some(rp(rel)),
        full: format!("/root/{rel}").into_bytes(),
        kind,
        mtime,
        readonly: false,
    }
}

fn config(dry_run: bool) -> DirSyncConfig {
    DirSyncConfig { src_dir: b"/src".to_vec(), dst_dir: b"/dst".to_vec(), dry_run }
}

#[test]
fn get_config_builds_from_all_arguments() {
    let c = get_config(Some(b"/a".to_vec()), Some(b"/b".to_vec()), Some(true)).unwrap();
    assert_eq!(c.src_dir, b"/a".to_vec());
    assert_eq!(c.dst_dir, b"/b".to_vec());
    assert!(c.dry_run);
}

#[test]
fn get_config_names_missing_source() {
    let e = get_config(None, Some(b"/b".to_vec()), Some(false)).unwrap_err();
    assert!(matches!(e, DirSyncError::MissingArgument(s) if s == "src_dir"));
}

#[test]
fn get_config_names_missing_destination() {
    let e = get_config(Some(b"/a".to_vec()), None, Some(false)).unwrap_err();
    assert!(matches!(e, DirSyncError::MissingArgument(s) if s == "dst_dir"));
}

#[test]
fn get_config_names_missing_dry_run() {
    let e = get_config(Some(b"/a".to_vec()), Some(b"/b".to_vec()), None).unwrap_err();
    assert!(matches!(e, DirSyncError::MissingArgument(s) if s == "dry_run"));
}

#[test]
fn check_path_rejects_missing_root() {
    assert!(check_path(true, &b"/a".to_vec()).is_ok());
    let e = check_path(false, &b"/a".to_vec()).unwrap_err();
    assert!(matches!(e, DirSyncError::NonExistentPath(p) if p == b"/a".to_vec()));
}

#[test]
fn check_sync_rejects_same_directory() {
    let e = check_sync(
        &b"/same".to_vec(),
        &b"/same".to_vec(),
        &Some(b"/src".to_vec()),
        &b"/src".to_vec(),
    )
    .unwrap_err();
    assert!(matches!(e, DirSyncError::SameDirectory));
}

#[test]
fn check_sync_rejects_missing_marker() {
    let e = check_sync(&b"/a".to_vec(), &b"/b".to_vec(), &None, &b"/src".to_vec()).unwrap_err();
    assert!(matches!(e, DirSyncError::SyncFileMissing));
}

#[test]
fn check_sync_rejects_mismatched_marker() {
    let e = check_sync(
        &b"/a".to_vec(),
        &b"/b".to_vec(),
        &Some(b"/other".to_vec()),
        &b"/src".to_vec(),
    )
    .unwrap_err();
    assert!(matches!(e, DirSyncError::SyncPathMismatch));
}

#[test]
fn check_sync_accepts_matching_marker() {
    assert!(check_sync(&b"/a".to_vec(), &b"/b".to_vec(), &Some(b"/src".to_vec()), &b"/src".to_vec())
        .is_ok());
}

#[test]
fn validate_reports_first_failure() {
    let c = config(false);
    let e = validate(&c, false, true, &b"/a".to_vec(), &b"/b".to_vec(), &None).unwrap_err();
    assert!(matches!(e, DirSyncError::NonExistentPath(p) if p == b"/src".to_vec()));
    let e = validate(&c, true, false, &b"/a".to_vec(), &b"/b".to_vec(), &None).unwrap_err();
    assert!(matches!(e, DirSyncError::NonExistentPath(p) if p == b"/dst".to_vec()));
    let e =
        validate(&c, true, true, &b"/a".to_vec(), &b"/b".to_vec(), &Some(b"/x".to_vec()))
            .unwrap_err();
    assert!(matches!(e, DirSyncError::SyncPathMismatch));
    assert!(validate(&c, true, true, &b"/a".to_vec(), &b"/b".to_vec(), &Some(b"/src".to_vec()))
        .is_ok());
}

#[test]
fn joined_paths_use_slash_separator() {
    let c = config(false);
    assert_eq!(c.src_path(&rp("sub/f.txt")), b"/src/sub/f.txt".to_vec());
    assert_eq!(c.dst_path(&rp("sub/f.txt")), b"/dst/sub/f.txt".to_vec());
    assert_eq!(c.src_path(&rp("")), b"/src".to_vec());
}

#[test]
fn dry_run_reports_same_plan_but_no_ops() {
    let src_walk = || {
        vec![raw("f.txt", EntryKind::File, 10), raw("sub", EntryKind::Directory, 10)]
    };
    let dst_walk = || vec![raw("old.txt", EntryKind::File, 5)];

    let dry = sync_dirs(&config(true), src_walk(), dst_walk()).unwrap();
    let wet = sync_dirs(&config(false), src_walk(), dst_walk()).unwrap();

    assert_eq!(dry.plan, wet.plan);
    assert!(dry.ops.is_empty());
    assert_eq!(wet.ops.len(), 3);
}

#[test]
fn runner_propagates_invalid_paths() {
    let src_walk = vec![RawEntry {
        rel: None,
        full: b"/weird".to_vec(),
        kind: EntryKind::File,
        mtime: 0,
        readonly: false,
    }];
    let e = sync_dirs(&config(false), src_walk, Vec::new()).unwrap_err();
    assert!(matches!(e, DirSyncError::InvalidPaths(v) if v == vec![b"/weird".to_vec()]));
}

#[test]
fn second_run_after_mirroring_is_empty() {
    // once the destination listing matches the source listing, the next run
    // classifies nothing and would execute nothing
    let listing = || {
        vec![
            raw("a", EntryKind::Directory, 3),
            raw("a/b.txt", EntryKind::File, 9),
            raw("c.txt", EntryKind::File, 4),
        ]
    };
    let rep = sync_dirs(&config(false), listing(), listing()).unwrap();
    assert!(rep.plan.added.is_empty());
    assert!(rep.plan.modified.is_empty());
    assert!(rep.plan.removed.is_empty());
    assert!(rep.ops.is_empty());
}
