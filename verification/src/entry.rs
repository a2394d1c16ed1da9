//! Filesystem entries as the engine sees them: a relative path plus the
//! metadata that classification and apply decisions read (kind, modification
//! time in whole seconds, and the read-only flag of destination files).
//!
//! A canonical listing is a vector of entries strictly sorted by path, so a
//! path occurs at most once and ancestors come before descendants.

use vstd::prelude::*;

use crate::fspath::{
    RelPath, lemma_segs_lt_connected, lemma_segs_lt_irrefl, lemma_segs_lt_trans, segs_lt,
};

verus! {

/// Whether a filesystem entry is a regular file or a directory, always
/// re-derived from the filesystem at comparison or apply time, never cached
/// between runs.
#[derive(Clone, Copy, Debug, PartialEq, Eq, Structural)]
pub enum EntryKind {
    File,
    Directory,
}

/// One entry of a canonical listing.
#[derive(Debug, PartialEq, Eq)]
pub struct Entry {
    /// Location relative to the listed root.
    pub path: RelPath,
    /// File or directory, as the filesystem reported it for this run.
    pub kind: EntryKind,
    /// Modification time in whole seconds since the Unix epoch.
    pub mtime: i64,
    /// Whether the entry's permissions mark it read-only.
    pub readonly: bool,
}

/// The listing is strictly sorted by path, so paths are unique and every
/// ancestor directory stands before its descendants.
pub open spec fn entries_sorted(s: Seq<Entry>) -> bool {
    forall|i: int, j: int|
        0 <= i < j < s.len() ==> segs_lt(#[trigger] s[i].path@, #[trigger] s[j].path@)
}

/// Some entry of the listing has path `p`.
pub open spec fn has_path(s: Seq<Entry>, p: Seq<Seq<u8>>) -> bool {
    exists|i: int| 0 <= i < s.len() && (#[trigger] s[i].path@) == p
}

/// The index of the entry with path `p`, where one exists.
pub open spec fn path_index(s: Seq<Entry>, p: Seq<Seq<u8>>) -> int {
    choose|i: int| 0 <= i < s.len() && (#[trigger] s[i].path@) == p
}

/// The entry of the listing with path `p`, where one exists.
pub open spec fn entry_at(s: Seq<Entry>, p: Seq<Seq<u8>>) -> Entry {
    s[path_index(s, p)]
}

/// In a sorted listing a path determines its index.
pub proof fn lemma_sorted_path_unique(s: Seq<Entry>, i: int, j: int)
    requires
        entries_sorted(s),
        0 <= i < s.len(),
        0 <= j < s.len(),
        s[i].path@ == s[j].path@,
    ensures
        i == j,
{
    if i < j {
        lemma_segs_lt_irrefl(s[i].path@);
    }
    if j < i {
        lemma_segs_lt_irrefl(s[i].path@);
    }
}

/// In a sorted listing, the entry found at index `j` is the entry that
/// `entry_at` names for its path.
pub proof fn lemma_entry_at_index(s: Seq<Entry>, j: int)
    requires
        entries_sorted(s),
        0 <= j < s.len(),
    ensures
        has_path(s, s[j].path@),
        entry_at(s, s[j].path@) == s[j],
        path_index(s, s[j].path@) == j,
{
    assert(has_path(s, s[j].path@));
    lemma_sorted_path_unique(s, path_index(s, s[j].path@), j);
}

/// Linear search for the entry with the given path.
pub fn find_entry(entries: &Vec<Entry>, path: &RelPath) -> (r: Option<usize>)
    ensures
        match r {
            Some(j) => j < entries.len() && entries@[j as int].path@ == path@,
            None => !has_path(entries@, path@),
        },
{
    let mut i: usize = 0;
    while i < entries.len()
        invariant
            i <= entries.len(),
            forall|k: int| 0 <= k < i ==> (#[trigger] entries@[k].path@) != path@,
        decreases entries.len() - i,
    {
        if entries[i].path.same_path(path) {
            return Some(i);
        }
        i += 1;
    }
    None
}

/// Insert an entry into a sorted listing, keeping it sorted. A path already
/// present keeps its first-seen entry; the new one is dropped.
pub fn insert_entry(list: &mut Vec<Entry>, e: Entry)
    requires
        entries_sorted(old(list)@),
    ensures
        entries_sorted(final(list)@),
        forall|p: Seq<Seq<u8>>|
            #[trigger] has_path(final(list)@, p) <==> (has_path(old(list)@, p) || p == e.path@),
        forall|k: int|
            0 <= k < final(list)@.len() ==> final(list)@[k] == e || old(list)@.contains(
                #[trigger] final(list)@[k],
            ),
{
    let ghost orig = list@;
    let mut i: usize = 0;
    loop
        invariant
            i <= list.len(),
            list@ == orig,
            entries_sorted(orig),
            forall|k: int| 0 <= k < i ==> segs_lt(#[trigger] orig[k].path@, e.path@),
        ensures
            i <= list@.len(),
            list@ == orig,
            forall|k: int| 0 <= k < i ==> segs_lt(#[trigger] orig[k].path@, e.path@),
            i == list@.len() || !segs_lt(orig[i as int].path@, e.path@),
        decreases list.len() - i,
    {
        if i == list.len() {
            break ;
        }
        if list[i].path.precedes(&e.path) {
            i += 1;
        } else {
            break ;
        }
    }
    if i < list.len() {
        if list[i].path.same_path(&e.path) {
            proof {
                assert(has_path(orig, e.path@));
                assert forall|p: Seq<Seq<u8>>|
                    #[trigger] has_path(list@, p) <==> (has_path(orig, p)
                        || p == e.path@) by {}
                assert forall|k: int| 0 <= k < list@.len() implies orig.contains(
                    #[trigger] list@[k],
                ) by {
                    assert(orig[k] == list@[k]);
                }
            }
            return ;
        }
    }
    proof {
        // The new entry orders strictly after everything before position i
        // and strictly before everything at or after it.
        if i < list.len() {
            lemma_segs_lt_connected(e.path@, orig[i as int].path@);
            assert(segs_lt(e.path@, orig[i as int].path@));
        }
        assert forall|k: int| i <= k < orig.len() implies segs_lt(
            e.path@,
            #[trigger] orig[k].path@,
        ) by {
            if k > i {
                lemma_segs_lt_trans(e.path@, orig[i as int].path@, orig[k].path@);
            }
        }
        orig.insert_ensures(i as int, e);
    }
    list.insert(i, e);
    proof {
        let new = list@;
        assert(new == orig.insert(i as int, e));
        assert forall|a: int, b: int| 0 <= a < b < new.len() implies segs_lt(
            #[trigger] new[a].path@,
            #[trigger] new[b].path@,
        ) by {
            let ia = if a < i as int { a } else { a - 1 };
            let ib = if b < i as int { b } else { b - 1 };
            if a == i as int {
                assert(new[a] == e);
                assert(new[b] == orig[ib]);
            } else if b == i as int {
                assert(new[b] == e);
                assert(new[a] == orig[ia]);
            } else {
                assert(new[a] == orig[ia]);
                assert(new[b] == orig[ib]);
                if ia < ib {
                } else {
                    assert(ia == ib);
                    assert(a < i as int && b > i as int);
                    lemma_segs_lt_trans(orig[ia].path@, e.path@, orig[ib].path@);
                }
            }
        }
        assert forall|p: Seq<Seq<u8>>|
            #[trigger] has_path(new, p) implies (has_path(orig, p) || p == e.path@) by {
            let w = choose|k: int| 0 <= k < new.len() && (#[trigger] new[k].path@) == p;
            if w < i as int {
                assert(new[w] == orig[w]);
            } else if w == i as int {
                assert(new[w] == e);
            } else {
                assert(new[w] == orig[w - 1]);
            }
        }
        assert forall|p: Seq<Seq<u8>>|
            has_path(orig, p) || p == e.path@ implies #[trigger] has_path(new, p) by {
            if has_path(orig, p) {
                let w = choose|k: int| 0 <= k < orig.len() && (#[trigger] orig[k].path@) == p;
                if w < i as int {
                    assert(new[w] == orig[w]);
                    assert(new[w].path@ == p);
                } else {
                    assert(new[w + 1] == orig[w]);
                    assert(new[w + 1].path@ == p);
                }
            } else {
                assert(new[i as int] == e);
                assert(new[i as int].path@ == p);
            }
        }
        assert forall|k: int| 0 <= k < new.len() implies new[k] == e || orig.contains(
            #[trigger] new[k],
        ) by {
            if k < i as int {
                assert(new[k] == orig[k]);
            } else if k == i as int {
                assert(new[k] == e);
            } else {
                assert(new[k] == orig[k - 1]);
            }
        }
    }
}

} // verus!
