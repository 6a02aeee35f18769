//! Sets of relative paths, one per entry kind, and their set algebra.
//!
//! Difference and intersection classify every path of the two trees into the
//! copy, compare and delete buckets of one run.

use vstd::prelude::*;

use crate::path::{is_normalized, RelPath};

verus! {

broadcast use vstd::seq_lib::lemma_seq_contains_after_push;

/// The views of a sequence of paths.
pub open spec fn views(v: Seq<RelPath>) -> Seq<Seq<u8>> {
    v.map_values(|p: RelPath| p@)
}

/// A set of relative paths of one entry kind.
pub struct PathSet {
    paths: Vec<RelPath>,
}

impl PathSet {
    /// The paths as a sequence, without repetition, in insertion order.
    pub closed spec fn seq(&self) -> Seq<Seq<u8>> {
        views(self.paths@)
    }

    /// The paths as a set.
    pub open spec fn view(&self) -> Set<Seq<u8>> {
        Set::new(|s: Seq<u8>| self.seq().contains(s))
    }

    /// The paths are distinct and normalized.
    pub open spec fn wf(&self) -> bool {
        &&& forall|i: int, j: int| 0 <= i < j < self.seq().len() ==> self.seq()[i] != self.seq()[j]
        &&& forall|i: int| 0 <= i < self.seq().len() ==> is_normalized(#[trigger] self.seq()[i])
    }

    /// An empty set.
    pub fn new() -> (r: PathSet)
        ensures
            r.wf(),
            r.seq() == Seq::<Seq<u8>>::empty(),
            r@ == Set::<Seq<u8>>::empty(),
    {
        let r = PathSet { paths: Vec::new() };
        proof {
            assert(r.seq() =~= Seq::<Seq<u8>>::empty());
            assert(r@ =~= Set::<Seq<u8>>::empty());
        }
        r
    }

    /// How many paths the set holds.
    pub fn len(&self) -> (r: usize)
        ensures
            r == self.seq().len(),
    {
        self.paths.len()
    }

    /// The path at position `i`.
    pub fn get(&self, i: usize) -> (r: &RelPath)
        requires
            i < self.seq().len(),
        ensures
            r@ == self.seq()[i as int],
            self@.contains(r@),
            self.wf() ==> r.wf(),
    {
        proof {
            assert(self.seq()[i as int] == self.paths@[i as int]@);
            assert(self.seq().contains(self.seq()[i as int]));
        }
        &self.paths[i]
    }

    /// Whether the set holds `p`.
    pub fn contains(&self, p: &RelPath) -> (r: bool)
        ensures
            r == self@.contains(p@),
    {
        let n = self.paths.len();
        let mut i: usize = 0;
        while i < n
            invariant
                n == self.paths@.len(),
                i <= n,
                forall|j: int| 0 <= j < i ==> self.seq()[j] != p@,
            decreases n - i,
        {
            if self.paths[i].eq_path(p) {
                proof {
                    assert(self.seq()[i as int] == p@);
                    assert(self.seq().contains(p@));
                }
                return true;
            }
            proof {
                assert(self.seq()[i as int] == self.paths@[i as int]@);
            }
            i += 1;
        }
        proof {
            if self.seq().contains(p@) {
                let j = choose|j: int| 0 <= j < self.seq().len() && self.seq()[j] == p@;
                assert(false);
            }
        }
        false
    }

    /// Adds `p` if it is not already present.
    pub fn insert(&mut self, p: RelPath)
        requires
            old(self).wf(),
            p.wf(),
        ensures
            final(self).wf(),
            final(self)@ == old(self)@.insert(p@),
            final(self).seq() == if old(self)@.contains(p@) {
                old(self).seq()
            } else {
                old(self).seq().push(p@)
            },
    {
        if self.contains(&p) {
            proof {
                assert(self@ =~= old(self)@.insert(p@));
            }
            return ;
        }
        self.paths.push(p);
        proof {
            assert(self.seq() =~= old(self).seq().push(p@));
            assert(self@ =~= old(self)@.insert(p@));
        }
    }

    /// The paths of this set that `other` does not hold.
    pub fn difference(&self, other: &PathSet) -> (r: PathSet)
        requires
            self.wf(),
        ensures
            r.wf(),
            r@ == self@.difference(other@),
    {
        let n = self.paths.len();
        let mut out = PathSet::new();
        let mut i: usize = 0;
        while i < n
            invariant
                self.wf(),
                out.wf(),
                n == self.paths@.len(),
                i <= n,
                forall|s: Seq<u8>|
                    out@.contains(s) == (self.seq().take(i as int).contains(s) && !other@.contains(
                        s,
                    )),
            decreases n - i,
        {
            let p = self.get(i);
            proof {
                assert(self.seq().take(i + 1) =~= self.seq().take(i as int).push(
                    self.seq()[i as int],
                ));
            }
            if !other.contains(p) {
                out.insert(p.duplicate());
            }
            i += 1;
        }
        proof {
            assert(self.seq().take(n as int) =~= self.seq());
            assert(out@ =~= self@.difference(other@));
        }
        out
    }

    /// The paths that this set and `other` both hold.
    pub fn intersection(&self, other: &PathSet) -> (r: PathSet)
        requires
            self.wf(),
        ensures
            r.wf(),
            r@ == self@.intersect(other@),
    {
        let n = self.paths.len();
        let mut out = PathSet::new();
        let mut i: usize = 0;
        while i < n
            invariant
                self.wf(),
                out.wf(),
                n == self.paths@.len(),
                i <= n,
                forall|s: Seq<u8>|
                    out@.contains(s) == (self.seq().take(i as int).contains(s) && other@.contains(
                        s,
                    )),
            decreases n - i,
        {
            let p = self.get(i);
            proof {
                assert(self.seq().take(i + 1) =~= self.seq().take(i as int).push(
                    self.seq()[i as int],
                ));
            }
            if other.contains(p) {
                out.insert(p.duplicate());
            }
            i += 1;
        }
        proof {
            assert(self.seq().take(n as int) =~= self.seq());
            assert(out@ =~= self@.intersect(other@));
        }
        out
    }
}

/// The three path sets of one scanned root: its files, directories and
/// symlinks, each path relative to that root.
pub struct FileSets {
    pub files: PathSet,
    pub dirs: PathSet,
    pub symlinks: PathSet,
}

impl FileSets {
    /// Bundles the three kind sets of one root.
    pub fn new(files: PathSet, dirs: PathSet, symlinks: PathSet) -> (r: FileSets)
        ensures
            r.files@ == files@ && r.files.seq() == files.seq(),
            r.dirs@ == dirs@ && r.dirs.seq() == dirs.seq(),
            r.symlinks@ == symlinks@ && r.symlinks.seq() == symlinks.seq(),
            files.wf() && dirs.wf() && symlinks.wf() ==> r.sets_wf(),
    {
        FileSets { files, dirs, symlinks }
    }

    /// The file paths of the root.
    pub fn files(&self) -> (r: &PathSet)
        ensures
            r == self.files,
    {
        &self.files
    }

    /// The directory paths of the root.
    pub fn dirs(&self) -> (r: &PathSet)
        ensures
            r == self.dirs,
    {
        &self.dirs
    }

    /// The symlink paths of the root.
    pub fn symlinks(&self) -> (r: &PathSet)
        ensures
            r == self.symlinks,
    {
        &self.symlinks
    }

    /// The file paths, as a set.
    pub open spec fn spec_files(&self) -> Set<Seq<u8>> {
        self.files@
    }

    /// The directory paths, as a set.
    pub open spec fn spec_dirs(&self) -> Set<Seq<u8>> {
        self.dirs@
    }

    /// The symlink paths, as a set.
    pub open spec fn spec_symlinks(&self) -> Set<Seq<u8>> {
        self.symlinks@
    }

    /// The three sets are themselves well formed.
    pub open spec fn sets_wf(&self) -> bool {
        self.files.wf() && self.dirs.wf() && self.symlinks.wf()
    }

    /// A path lies in at most one kind set: an entry cannot be both a file
    /// and a directory in one scan.
    pub open spec fn kinds_disjoint(&self) -> bool {
        &&& forall|p: Seq<u8>| self.files@.contains(p) ==> !self.dirs@.contains(p) && !self.symlinks@.contains(p)
        &&& forall|p: Seq<u8>| self.dirs@.contains(p) ==> !self.symlinks@.contains(p)
    }

}

} // verus!
