//! Tests for the path collector: ignore filter, marker exclusion, sorting,
//! deduplication and invalid-path aggregation.

use dirsync::{DirSyncError, EntryKind, RawEntry, RelPath};
use dirsync::collect::{get_paths, is_not_ignored};

fn rp(s: &str) -> RelPath {
    let segs: Vec<Vec<u8>> = if s.is_empty() {
        Vec::new()
    } else {
        s.split('/').map(|x| x.as_bytes().to_vec()).collect()
    };
    RelPath { segs }
}

fn raw(rel: &str, kind: EntryKind, mtime: i64) -> RawEntry {
    RawEntry {
        rel: Some(rp(rel)),
        full: format!("/root/{rel}").into_bytes(),
        kind,
        mtime,
        readonly: false,
    }
}

fn bad(full: &str) -> RawEntry {
    RawEntry {
        rel: None,
        full: full.as_bytes().to_vec(),
        kind: EntryKind::File,
        mtime: 0,
        readonly: false,
    }
}

fn listed(entries: &[dirsync::Entry]) -> Vec<String> {
    entries
        .iter()
        .map(|e| {
            e.path
                .segs
                .iter()
                .map(|s| String::from_utf8_lossy(s).into_owned())
                .collect::<Vec<_>>()
                .join("/")
        })
        .collect()
}

#[test]
fn filter_keeps_ordinary_names() {
    assert!(is_not_ignored(&b"notes.txt".to_vec()));
    assert!(is_not_ignored(&b"_nosyncx".to_vec()));
    assert!(is_not_ignored(&b".dotfile".to_vec()));
}

#[test]
fn filter_drops_ignored_names() {
    assert!(!is_not_ignored(&b".DS_Store".to_vec()));
    assert!(!is_not_ignored(&b"_nosync".to_vec()));
    assert!(!is_not_ignored(&b"node_modules".to_vec()));
    assert!(!is_not_ignored(&b"._resource".to_vec()));
    assert!(!is_not_ignored(&b"._".to_vec()));
}

#[test]
fn collector_filters_sorts_and_excludes_marker() {
    let raws = vec![
        raw("zebra.txt", EntryKind::File, 4),
        raw(".dirsync", EntryKind::File, 1),
        raw("sub/.DS_Store", EntryKind::File, 2),
        raw("node_modules/pkg/index.js", EntryKind::File, 2),
        raw("sub", EntryKind::Directory, 3),
        raw("alpha.txt", EntryKind::File, 5),
        raw("._apple", EntryKind::File, 6),
    ];
    let out = get_paths(raws).unwrap();
    assert_eq!(listed(&out), vec!["alpha.txt", "sub", "zebra.txt"]);
}

#[test]
fn collector_keeps_marker_name_below_top_level() {
    // only the top-level marker is special
    let raws = vec![raw("sub", EntryKind::Directory, 1), raw("sub/.dirsync", EntryKind::File, 1)];
    let out = get_paths(raws).unwrap();
    assert_eq!(listed(&out), vec!["sub", "sub/.dirsync"]);
}

#[test]
fn collector_deduplicates_paths() {
    let raws = vec![
        raw("a.txt", EntryKind::File, 1),
        raw("a.txt", EntryKind::File, 1),
        raw("b.txt", EntryKind::File, 2),
    ];
    let out = get_paths(raws).unwrap();
    assert_eq!(listed(&out), vec!["a.txt", "b.txt"]);
}

#[test]
fn collector_reports_all_invalid_paths_together() {
    let raws = vec![
        raw("good.txt", EntryKind::File, 1),
        bad("/elsewhere/one"),
        raw("fine.txt", EntryKind::File, 1),
        bad("/elsewhere/two"),
    ];
    let err = get_paths(raws).unwrap_err();
    match err {
        DirSyncError::InvalidPaths(v) => {
            let mut texts: Vec<String> =
                v.iter().map(|b| String::from_utf8_lossy(b).into_owned()).collect();
            texts.sort();
            assert_eq!(texts, vec!["/elsewhere/one", "/elsewhere/two"]);
        },
        other => panic!("expected InvalidPaths, got {other:?}"),
    }
}

#[test]
fn collector_keeps_metadata() {
    let raws = vec![RawEntry {
        rel: Some(rp("r.txt")),
        full: b"/root/r.txt".to_vec(),
        kind: EntryKind::File,
        mtime: 42,
        readonly: true,
    }];
    let out = get_paths(raws).unwrap();
    assert_eq!(out.len(), 1);
    assert_eq!(out[0].kind, EntryKind::File);
    assert_eq!(out[0].mtime, 42);
    assert!(out[0].readonly);
}

#[test]
fn collector_includes_root_itself() {
    let raws = vec![raw("", EntryKind::Directory, 1), raw("x.txt", EntryKind::File, 1)];
    let out = get_paths(raws).unwrap();
    assert_eq!(listed(&out), vec!["", "x.txt"]);
}
