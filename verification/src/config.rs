//! The run configuration and the validation that precedes any mutation:
//! both roots exist, they are not the same directory, and the destination's
//! pairing marker names the configured source root.
//!
//! The caller queries the filesystem (existence, canonical paths, the marker
//! file's content) and hands the plain results in; every decision over them
//! is made here.

use vstd::prelude::*;

use crate::errors::DirSyncError;
use crate::fspath::{RelPath, bytes_eq, copy_bytes};

verus! {

/// `root` with the path's segments appended, '/'-separated.
pub open spec fn joined(root: Seq<u8>, p: Seq<Seq<u8>>) -> Seq<u8>
    decreases p.len(),
{
    if p.len() == 0 {
        root
    } else {
        joined(root.push(47u8) + p[0], p.skip(1))
    }
}

/// The immutable run configuration: the two root paths as byte text, exactly
/// as configured, and the dry-run flag.
#[derive(Debug)]
pub struct DirSyncConfig {
    pub src_dir: Vec<u8>,
    pub dst_dir: Vec<u8>,
    pub dry_run: bool,
}

fn join_path(root: &Vec<u8>, path: &RelPath) -> (r: Vec<u8>)
    ensures
        r@ == joined(root@, path@),
{
    let mut r = copy_bytes(root);
    let mut i: usize = 0;
    proof {
        assert(path@.skip(0) =~= path@);
    }
    while i < path.segs.len()
        invariant
            i <= path.segs.len(),
            joined(root@, path@) == joined(r@, path@.skip(i as int)),
        decreases path.segs.len() - i,
    {
        let ghost before = r@;
        r.push(47u8);
        let ghost sep = r@;
        let seg = &path.segs[i];
        let mut j: usize = 0;
        while j < seg.len()
            invariant
                j <= seg.len(),
                r@ == sep + seg@.take(j as int),
            decreases seg.len() - j,
        {
            r.push(seg[j]);
            proof {
                assert(r@ =~= sep + seg@.take(j as int + 1));
            }
            j += 1;
        }
        proof {
            assert(seg@.take(seg@.len() as int) =~= seg@);
            assert(r@ == before.push(47u8) + path@[i as int]);
            assert(path@.skip(i as int)[0] == path@[i as int]);
            assert(path@.skip(i as int).skip(1) =~= path@.skip(i as int + 1));
        }
        i += 1;
    }
    proof {
        assert(path@.skip(path@.len() as int).len() == 0);
    }
    r
}

impl DirSyncConfig {
    /// The path of `path`'s source counterpart: the source root with the
    /// relative path appended.
    pub fn src_path(&self, path: &RelPath) -> (r: Vec<u8>)
        ensures
            r@ == joined(self.src_dir@, path@),
    {
        join_path(&self.src_dir, path)
    }

    /// The path of `path`'s destination counterpart: the destination root
    /// with the relative path appended.
    pub fn dst_path(&self, path: &RelPath) -> (r: Vec<u8>)
        ensures
            r@ == joined(self.dst_dir@, path@),
    {
        join_path(&self.dst_dir, path)
    }
}

/// Build the configuration from the command line's values, naming the first
/// argument that is missing.
pub fn get_config(src_dir: Option<Vec<u8>>, dst_dir: Option<Vec<u8>>, dry_run: Option<bool>) -> (r:
    Result<DirSyncConfig, DirSyncError>)
    ensures
        src_dir is None ==> (r matches Err(DirSyncError::MissingArgument(s)) && s@ == "src_dir"@),
        src_dir is Some && dst_dir is None ==> (r matches Err(DirSyncError::MissingArgument(s))
            && s@ == "dst_dir"@),
        src_dir is Some && dst_dir is Some && dry_run is None ==> (r matches Err(
            DirSyncError::MissingArgument(s),
        ) && s@ == "dry_run"@),
        (match (src_dir, dst_dir, dry_run) {
            (Some(sv), Some(dv), Some(f)) => r matches Ok(c) && c.src_dir@ == sv@ && c.dst_dir@
                == dv@ && c.dry_run == f,
            _ => true,
        }),
{
    let src = match src_dir {
        Some(v) => v,
        None => {
            return Err(DirSyncError::MissingArgument("src_dir".to_owned()));
        },
    };
    let dst = match dst_dir {
        Some(v) => v,
        None => {
            return Err(DirSyncError::MissingArgument("dst_dir".to_owned()));
        },
    };
    let flag = match dry_run {
        Some(v) => v,
        None => {
            return Err(DirSyncError::MissingArgument("dry_run".to_owned()));
        },
    };
    Ok(DirSyncConfig { src_dir: src, dst_dir: dst, dry_run: flag })
}

/// Reject a root that does not exist, reporting its path.
pub fn check_path(path_exists: bool, path: &Vec<u8>) -> (r: Result<(), DirSyncError>)
    ensures
        path_exists ==> r matches Ok(_),
        !path_exists ==> (r matches Err(DirSyncError::NonExistentPath(q)) && q@ == path@),
{
    if path_exists {
        Ok(())
    } else {
        Err(DirSyncError::NonExistentPath(copy_bytes(path)))
    }
}

/// The pairing checks, over the canonical forms of the two roots and the
/// marker file's content: the roots must differ, the marker must exist, and
/// its text must equal the configured source path exactly.
pub fn check_sync(
    src_canon: &Vec<u8>,
    dst_canon: &Vec<u8>,
    marker: &Option<Vec<u8>>,
    src_dir: &Vec<u8>,
) -> (r: Result<(), DirSyncError>)
    ensures
        src_canon@ == dst_canon@ ==> r matches Err(DirSyncError::SameDirectory),
        src_canon@ != dst_canon@ && marker is None ==> r matches Err(
            DirSyncError::SyncFileMissing,
        ),
        src_canon@ != dst_canon@ && (marker matches Some(m) && m@ != src_dir@) ==> r matches Err(
            DirSyncError::SyncPathMismatch,
        ),
        src_canon@ != dst_canon@ && (marker matches Some(m) && m@ == src_dir@) ==> r matches Ok(_),
{
    if bytes_eq(src_canon, dst_canon) {
        return Err(DirSyncError::SameDirectory);
    }
    match marker {
        None => Err(DirSyncError::SyncFileMissing),
        Some(m) => {
            if !bytes_eq(m, src_dir) {
                Err(DirSyncError::SyncPathMismatch)
            } else {
                Ok(())
            }
        },
    }
}

/// All the checks that precede a run, in the order they are reported:
/// source root exists, destination root exists, then the pairing checks.
pub fn validate(
    config: &DirSyncConfig,
    src_exists: bool,
    dst_exists: bool,
    src_canon: &Vec<u8>,
    dst_canon: &Vec<u8>,
    marker: &Option<Vec<u8>>,
) -> (r: Result<(), DirSyncError>)
    ensures
        !src_exists ==> (r matches Err(DirSyncError::NonExistentPath(q)) && q@ == config.src_dir@),
        src_exists && !dst_exists ==> (r matches Err(DirSyncError::NonExistentPath(q)) && q@
            == config.dst_dir@),
        src_exists && dst_exists && src_canon@ == dst_canon@ ==> r matches Err(
            DirSyncError::SameDirectory,
        ),
        src_exists && dst_exists && src_canon@ != dst_canon@ && marker is None ==> r matches Err(
            DirSyncError::SyncFileMissing,
        ),
        src_exists && dst_exists && src_canon@ != dst_canon@ && (marker matches Some(m) && m@
            != config.src_dir@) ==> r matches Err(DirSyncError::SyncPathMismatch),
        src_exists && dst_exists && src_canon@ != dst_canon@ && (marker matches Some(m) && m@
            == config.src_dir@) ==> r matches Ok(_),
{
    let checked_src = check_path(src_exists, &config.src_dir);
    match checked_src {
        Ok(_) => {},
        Err(e) => {
            return Err(e);
        },
    }
    let checked_dst = check_path(dst_exists, &config.dst_dir);
    match checked_dst {
        Ok(_) => {},
        Err(e) => {
            return Err(e);
        },
    }
    check_sync(src_canon, dst_canon, marker, &config.src_dir)
}

} // verus!
