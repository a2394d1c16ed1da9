//! Relative paths as sequences of name segments, with the total lexicographic
//! order used for canonical listings and for safe operation ordering.
//!
//! A path is ordered segment by segment; a strict prefix (an ancestor
//! directory) always orders before any of its extensions (its descendants),
//! which is what makes reverse-order removal safe.

use vstd::prelude::*;

verus! {

/// Strict bytewise lexicographic order on name segments.
pub open spec fn bytes_lt(a: Seq<u8>, b: Seq<u8>) -> bool
    decreases a.len(),
{
    if b.len() == 0 {
        false
    } else if a.len() == 0 {
        true
    } else if a[0] < b[0] {
        true
    } else if b[0] < a[0] {
        false
    } else {
        bytes_lt(a.skip(1), b.skip(1))
    }
}

/// Strict lexicographic order on segment sequences: segment by segment by
/// `bytes_lt`, with a shorter path ordering before any extension of it.
pub open spec fn segs_lt(a: Seq<Seq<u8>>, b: Seq<Seq<u8>>) -> bool
    decreases a.len(),
{
    if b.len() == 0 {
        false
    } else if a.len() == 0 {
        true
    } else if bytes_lt(a[0], b[0]) {
        true
    } else if bytes_lt(b[0], a[0]) {
        false
    } else {
        segs_lt(a.skip(1), b.skip(1))
    }
}

/// `a` names an ancestor of `b`: a proper leading subsequence of its segments.
pub open spec fn is_strict_prefix(a: Seq<Seq<u8>>, b: Seq<Seq<u8>>) -> bool {
    a.len() < b.len() && a =~= b.take(a.len() as int)
}

pub proof fn lemma_bytes_lt_irrefl(a: Seq<u8>)
    ensures
        !bytes_lt(a, a),
    decreases a.len(),
{
    if a.len() > 0 {
        lemma_bytes_lt_irrefl(a.skip(1));
    }
}

pub proof fn lemma_bytes_lt_connected(a: Seq<u8>, b: Seq<u8>)
    ensures
        bytes_lt(a, b) || bytes_lt(b, a) || a == b,
    decreases a.len(),
{
    if a.len() == 0 {
        if b.len() == 0 {
            assert(a =~= b);
        }
    } else if b.len() == 0 {
    } else if a[0] == b[0] {
        lemma_bytes_lt_connected(a.skip(1), b.skip(1));
        if !bytes_lt(a, b) && !bytes_lt(b, a) {
            assert(a.skip(1) == b.skip(1));
            assert forall|i: int| 0 <= i < a.len() implies a[i] == b[i] by {
                if i > 0 {
                    assert(a.skip(1)[i - 1] == a[i]);
                    assert(b.skip(1)[i - 1] == b[i]);
                }
            }
            assert(a =~= b);
        }
    }
}

pub proof fn lemma_bytes_lt_trans(a: Seq<u8>, b: Seq<u8>, c: Seq<u8>)
    requires
        bytes_lt(a, b),
        bytes_lt(b, c),
    ensures
        bytes_lt(a, c),
    decreases a.len(),
{
    if a.len() > 0 {
        if a[0] == b[0] {
            if b[0] == c[0] {
                lemma_bytes_lt_trans(a.skip(1), b.skip(1), c.skip(1));
            }
        }
    }
}

pub proof fn lemma_bytes_lt_asym(a: Seq<u8>, b: Seq<u8>)
    requires
        bytes_lt(a, b),
    ensures
        !bytes_lt(b, a),
{
    if bytes_lt(b, a) {
        lemma_bytes_lt_trans(a, b, a);
        lemma_bytes_lt_irrefl(a);
    }
}

pub proof fn lemma_segs_lt_irrefl(a: Seq<Seq<u8>>)
    ensures
        !segs_lt(a, a),
    decreases a.len(),
{
    if a.len() > 0 {
        lemma_bytes_lt_irrefl(a[0]);
        lemma_segs_lt_irrefl(a.skip(1));
    }
}

pub proof fn lemma_segs_lt_connected(a: Seq<Seq<u8>>, b: Seq<Seq<u8>>)
    ensures
        segs_lt(a, b) || segs_lt(b, a) || a == b,
    decreases a.len(),
{
    if a.len() == 0 {
        if b.len() == 0 {
            assert(a =~= b);
        }
    } else if b.len() == 0 {
    } else {
        lemma_bytes_lt_connected(a[0], b[0]);
        if !bytes_lt(a[0], b[0]) && !bytes_lt(b[0], a[0]) {
            lemma_segs_lt_connected(a.skip(1), b.skip(1));
            if !segs_lt(a, b) && !segs_lt(b, a) {
                assert(a.skip(1) == b.skip(1));
                assert forall|i: int| 0 <= i < a.len() implies a[i] == b[i] by {
                    if i > 0 {
                        assert(a.skip(1)[i - 1] == a[i]);
                        assert(b.skip(1)[i - 1] == b[i]);
                    }
                }
                assert(a =~= b);
            }
        }
    }
}

pub proof fn lemma_segs_lt_trans(a: Seq<Seq<u8>>, b: Seq<Seq<u8>>, c: Seq<Seq<u8>>)
    requires
        segs_lt(a, b),
        segs_lt(b, c),
    ensures
        segs_lt(a, c),
    decreases a.len(),
{
    if a.len() > 0 {
        lemma_bytes_lt_connected(a[0], b[0]);
        lemma_bytes_lt_connected(b[0], c[0]);
        if bytes_lt(a[0], b[0]) {
            if bytes_lt(b[0], c[0]) {
                lemma_bytes_lt_trans(a[0], b[0], c[0]);
            } else {
                assert(b[0] == c[0]);
            }
            lemma_bytes_lt_asym(a[0], c[0]);
        } else {
            assert(a[0] == b[0]);
            if bytes_lt(b[0], c[0]) {
                lemma_bytes_lt_asym(a[0], c[0]);
            } else {
                assert(b[0] == c[0]);
                lemma_bytes_lt_irrefl(a[0]);
                lemma_segs_lt_trans(a.skip(1), b.skip(1), c.skip(1));
            }
        }
    }
}

pub proof fn lemma_segs_lt_asym(a: Seq<Seq<u8>>, b: Seq<Seq<u8>>)
    requires
        segs_lt(a, b),
    ensures
        !segs_lt(b, a),
{
    if segs_lt(b, a) {
        lemma_segs_lt_trans(a, b, a);
        lemma_segs_lt_irrefl(a);
    }
}

/// An ancestor orders strictly before each of its descendants.
pub proof fn lemma_strict_prefix_lt(a: Seq<Seq<u8>>, b: Seq<Seq<u8>>)
    requires
        is_strict_prefix(a, b),
    ensures
        segs_lt(a, b),
    decreases a.len(),
{
    if a.len() == 0 {
    } else {
        assert(b.take(a.len() as int)[0] == b[0]);
        assert(a[0] == b[0]);
        lemma_bytes_lt_irrefl(a[0]);
        assert forall|i: int| 0 <= i < a.len() - 1 implies a.skip(1)[i] == b.skip(1).take(
            a.len() - 1,
        )[i] by {
            assert(a.skip(1)[i] == a[i + 1]);
            assert(b.take(a.len() as int)[i + 1] == b[i + 1]);
            assert(b.skip(1).take(a.len() - 1)[i] == b.skip(1)[i]);
            assert(b.skip(1)[i] == b[i + 1]);
        }
        assert(a.skip(1) =~= b.skip(1).take(a.len() - 1));
        lemma_strict_prefix_lt(a.skip(1), b.skip(1));
    }
}

/// The view of a vector of segments as a sequence of byte sequences.
pub open spec fn segs_view(v: Vec<Vec<u8>>) -> Seq<Seq<u8>> {
    Seq::new(v@.len(), |i: int| v@[i]@)
}

/// A filesystem location relative to a mirrored root: the sequence of name
/// segments from the root down to the entry. The empty path names the root
/// itself.
#[derive(Debug, PartialEq, Eq)]
pub struct RelPath {
    pub segs: Vec<Vec<u8>>,
}

impl View for RelPath {
    type V = Seq<Seq<u8>>;

    open spec fn view(&self) -> Seq<Seq<u8>> {
        segs_view(self.segs)
    }
}

fn bytes_less_from(a: &Vec<u8>, b: &Vec<u8>, i: usize) -> (r: bool)
    requires
        i <= a.len(),
        i <= b.len(),
    ensures
        r == bytes_lt(a@.skip(i as int), b@.skip(i as int)),
    decreases a.len() - i,
{
    proof {
        if i < a.len() {
            assert(a@.skip(i as int)[0] == a@[i as int]);
        }
        if i < b.len() {
            assert(b@.skip(i as int)[0] == b@[i as int]);
        }
    }
    if i == b.len() {
        false
    } else if i == a.len() {
        true
    } else if a[i] < b[i] {
        true
    } else if b[i] < a[i] {
        false
    } else {
        let r = bytes_less_from(a, b, i + 1);
        proof {
            assert(a@.skip(i as int).skip(1) =~= a@.skip(i as int + 1));
            assert(b@.skip(i as int).skip(1) =~= b@.skip(i as int + 1));
        }
        r
    }
}

/// Bytewise lexicographic strict comparison of two segments.
pub fn bytes_less(a: &Vec<u8>, b: &Vec<u8>) -> (r: bool)
    ensures
        r == bytes_lt(a@, b@),
{
    proof {
        assert(a@.skip(0) =~= a@);
        assert(b@.skip(0) =~= b@);
    }
    bytes_less_from(a, b, 0)
}

/// Bytewise equality of two segments.
pub fn bytes_eq(a: &Vec<u8>, b: &Vec<u8>) -> (r: bool)
    ensures
        r == (a@ == b@),
{
    if a.len() != b.len() {
        return false;
    }
    let mut i: usize = 0;
    while i < a.len()
        invariant
            i <= a.len(),
            a.len() == b.len(),
            forall|k: int| 0 <= k < i ==> a@[k] == b@[k],
        decreases a.len() - i,
    {
        if a[i] != b[i] {
            return false;
        }
        i += 1;
    }
    proof {
        assert(a@ =~= b@);
    }
    true
}

fn segs_less_from(a: &Vec<Vec<u8>>, b: &Vec<Vec<u8>>, i: usize) -> (r: bool)
    requires
        i <= a.len(),
        i <= b.len(),
    ensures
        r == segs_lt(segs_view(*a).skip(i as int), segs_view(*b).skip(i as int)),
    decreases a.len() - i,
{
    proof {
        if i < a.len() {
            assert(segs_view(*a).skip(i as int)[0] == a@[i as int]@);
        }
        if i < b.len() {
            assert(segs_view(*b).skip(i as int)[0] == b@[i as int]@);
        }
    }
    if i == b.len() {
        false
    } else if i == a.len() {
        true
    } else if bytes_less(&a[i], &b[i]) {
        true
    } else if bytes_less(&b[i], &a[i]) {
        false
    } else {
        let r = segs_less_from(a, b, i + 1);
        proof {
            assert(segs_view(*a).skip(i as int).skip(1) =~= segs_view(*a).skip(i as int + 1));
            assert(segs_view(*b).skip(i as int).skip(1) =~= segs_view(*b).skip(i as int + 1));
        }
        r
    }
}

/// An owned copy of a byte segment, equal to the original.
pub fn copy_bytes(v: &Vec<u8>) -> (r: Vec<u8>)
    ensures
        r@ == v@,
{
    let mut r: Vec<u8> = Vec::new();
    let mut i: usize = 0;
    while i < v.len()
        invariant
            i <= v.len(),
            r@ == v@.take(i as int),
        decreases v.len() - i,
    {
        r.push(v[i]);
        proof {
            assert(r@ =~= v@.take(i as int + 1));
        }
        i += 1;
    }
    proof {
        assert(v@.take(v@.len() as int) =~= v@);
    }
    r
}

impl RelPath {
    /// An owned copy of the path, equal to the original.
    pub fn duplicate(&self) -> (r: RelPath)
        ensures
            r@ == self@,
    {
        let mut segs: Vec<Vec<u8>> = Vec::new();
        let mut i: usize = 0;
        while i < self.segs.len()
            invariant
                i <= self.segs.len(),
                segs@.len() == i,
                forall|k: int| 0 <= k < i ==> (#[trigger] segs@[k])@ == self@[k],
            decreases self.segs.len() - i,
        {
            segs.push(copy_bytes(&self.segs[i]));
            i += 1;
        }
        let r = RelPath { segs };
        proof {
            assert(r@ =~= self@);
        }
        r
    }

    /// `self` orders strictly before `other` in the canonical listing order.
    pub fn precedes(&self, other: &RelPath) -> (r: bool)
        ensures
            r == segs_lt(self@, other@),
    {
        proof {
            assert(segs_view(self.segs).skip(0) =~= segs_view(self.segs));
            assert(segs_view(other.segs).skip(0) =~= segs_view(other.segs));
        }
        segs_less_from(&self.segs, &other.segs, 0)
    }

    /// Segment-for-segment equality of the two paths.
    pub fn same_path(&self, other: &RelPath) -> (r: bool)
        ensures
            r == (self@ == other@),
    {
        if self.segs.len() != other.segs.len() {
            proof {
                assert(self@.len() != other@.len());
            }
            return false;
        }
        let mut i: usize = 0;
        while i < self.segs.len()
            invariant
                i <= self.segs.len(),
                self.segs.len() == other.segs.len(),
                forall|k: int| 0 <= k < i ==> self@[k] == other@[k],
            decreases self.segs.len() - i,
        {
            if !bytes_eq(&self.segs[i], &other.segs[i]) {
                proof {
                    assert(self@[i as int] != other@[i as int]);
                }
                return false;
            }
            i += 1;
        }
        proof {
            assert(self@ =~= other@);
        }
        true
    }
}

} // verus!
