//! A model of one directory tree: a finite map from normalized relative
//! paths to entries (file, directory or symlink).
//!
//! The engine's operations are specified as transformations of this map.
//! The I/O shell mirrors each transformation onto the real filesystem; under
//! the assumption that every filesystem call succeeds, the tree it leaves
//! behind is the one the model computes.

use vstd::prelude::*;

use crate::path::{is_ancestor, is_normalized, RelPath};

verus! {

broadcast use vstd::seq_lib::lemma_seq_contains_after_push;

/// What one tree entry is, at the specification level.
pub enum EntryV {
    /// A regular file and its byte content.
    File { content: Seq<u8> },
    /// A directory.
    Dir,
    /// A symbolic link and the target string it holds, never resolved.
    Symlink { target: Seq<u8> },
}

/// What one tree entry is.
#[derive(PartialEq, Eq, Debug)]
pub enum Entry {
    /// A regular file and its byte content.
    File { content: Vec<u8> },
    /// A directory.
    Dir,
    /// A symbolic link and the target string it holds, never resolved.
    Symlink { target: Vec<u8> },
}

impl View for Entry {
    type V = EntryV;

    open spec fn view(&self) -> EntryV {
        match self {
            Entry::File { content } => EntryV::File { content: content@ },
            Entry::Dir => EntryV::Dir,
            Entry::Symlink { target } => EntryV::Symlink { target: target@ },
        }
    }
}

/// A byte string of `n` filler zeros.
pub open spec fn zeros(n: nat) -> Seq<u8> {
    Seq::new(n, |i: int| 0u8)
}

fn copy_bytes(src: &Vec<u8>) -> (r: Vec<u8>)
    ensures
        r@ == src@,
{
    let n = src.len();
    let mut out: Vec<u8> = Vec::new();
    let mut i: usize = 0;
    while i < n
        invariant
            n == src.len(),
            i <= n,
            out@ =~= src@.take(i as int),
        decreases n - i,
    {
        out.push(src[i]);
        i += 1;
    }
    proof {
        assert(out@ =~= src@);
    }
    out
}

fn bytes_eq(a: &Vec<u8>, b: &Vec<u8>) -> (r: bool)
    ensures
        r == (a@ == b@),
{
    let n = a.len();
    if n != b.len() {
        proof {
            assert(a@ !~= b@);
        }
        return false;
    }
    let mut i: usize = 0;
    while i < n
        invariant
            n == a@.len() == b@.len(),
            i <= n,
            forall|j: int| 0 <= j < i ==> a@[j] == b@[j],
        decreases n - i,
    {
        if a[i] != b[i] {
            return false;
        }
        i += 1;
    }
    proof {
        assert(a@ =~= b@);
    }
    true
}

/// Whether the two entries are the same: the same kind, and for files the
/// same content, for symlinks the same target.
pub fn entry_eq(a: &Entry, b: &Entry) -> (r: bool)
    ensures
        r == (a@ == b@),
{
    match (a, b) {
        (Entry::File { content: c1 }, Entry::File { content: c2 }) => bytes_eq(c1, c2),
        (Entry::Dir, Entry::Dir) => true,
        (Entry::Symlink { target: t1 }, Entry::Symlink { target: t2 }) => bytes_eq(t1, t2),
        _ => false,
    }
}

impl Entry {
    /// A copy of this entry.
    pub fn duplicate(&self) -> (r: Entry)
        ensures
            r@ == self@,
    {
        match self {
            Entry::File { content } => Entry::File { content: copy_bytes(content) },
            Entry::Dir => Entry::Dir,
            Entry::Symlink { target } => Entry::Symlink { target: copy_bytes(target) },
        }
    }
}

struct Node {
    path: RelPath,
    entry: Entry,
}

/// One directory tree, as a map from normalized relative paths to entries.
pub struct FsTree {
    nodes: Vec<Node>,
}

impl FsTree {
    /// The paths of the tree, one per entry, in insertion order.
    pub closed spec fn dom_seq(&self) -> Seq<Seq<u8>> {
        self.nodes@.map_values(|n: Node| n.path@)
    }

    /// The entry stored at `p`, assuming `p` is in the tree.
    pub closed spec fn entry_of(&self, p: Seq<u8>) -> EntryV {
        let i = choose|i: int| 0 <= i < self.nodes@.len() && self.nodes@[i].path@ == p;
        self.nodes@[i].entry@
    }

    /// Each path occurs once and is normalized.
    pub open spec fn wf(&self) -> bool {
        &&& forall|i: int, j: int|
            0 <= i < j < self.dom_seq().len() ==> self.dom_seq()[i] != self.dom_seq()[j]
        &&& forall|i: int| 0 <= i < self.dom_seq().len() ==> is_normalized(#[trigger] self.dom_seq()[i])
    }

    proof fn lemma_entry_at_index(&self, idx: int)
        requires
            self.wf(),
            0 <= idx < self.nodes@.len(),
        ensures
            self.entry_of(self.nodes@[idx].path@) == self.nodes@[idx].entry@,
    {
        let p = self.nodes@[idx].path@;
        assert(exists|i: int| 0 <= i < self.nodes@.len() && self.nodes@[i].path@ == p) by {
            assert(0 <= idx < self.nodes@.len() && self.nodes@[idx].path@ == p);
        }
        let j = choose|i: int| 0 <= i < self.nodes@.len() && self.nodes@[i].path@ == p;
        assert(0 <= j < self.nodes@.len() && self.nodes@[j].path@ == p);
        assert(self.dom_seq()[idx] == p && self.dom_seq()[j] == p);
        if idx != j {
            assert(false);
        }
        assert forall|a: int, b: int|
            0 <= a < self.nodes@.len() && 0 <= b < self.nodes@.len() && (#[trigger] self.nodes@[a].path@)
                == (#[trigger] self.nodes@[b].path@) implies a == b by {
            assert(self.dom_seq()[a] == self.nodes@[a].path@);
            assert(self.dom_seq()[b] == self.nodes@[b].path@);
        }
        assert(self.entry_of(p) == self.nodes@[j].entry@);
    }

    /// An empty tree.
    pub fn new() -> (r: FsTree)
        ensures
            r.wf(),
            r@ == Map::<Seq<u8>, EntryV>::empty(),
            r.dom_seq() == Seq::<Seq<u8>>::empty(),
    {
        let r = FsTree { nodes: Vec::new() };
        proof {
            assert(r.dom_seq() =~= Seq::<Seq<u8>>::empty());
            assert(r@ =~= Map::<Seq<u8>, EntryV>::empty());
        }
        r
    }

    /// How many entries the tree has.
    pub fn len(&self) -> (r: usize)
        ensures
            r == self.dom_seq().len(),
    {
        self.nodes.len()
    }

    /// The path of the entry at position `i`.
    pub fn path_at(&self, i: usize) -> (r: &RelPath)
        requires
            i < self.dom_seq().len(),
        ensures
            r@ == self.dom_seq()[i as int],
            self.wf() ==> r.wf(),
    {
        proof {
            assert(self.dom_seq()[i as int] == self.nodes@[i as int].path@);
        }
        &self.nodes[i].path
    }

    /// The entry at position `i`.
    pub fn entry_at(&self, i: usize) -> (r: &Entry)
        requires
            self.wf(),
            i < self.dom_seq().len(),
        ensures
            self@.contains_key(self.dom_seq()[i as int]),
            r@ == self@[self.dom_seq()[i as int]],
    {
        proof {
            self.lemma_entry_at_index(i as int);
        }
        &self.nodes[i].entry
    }

    /// The entry at path `p`, if the tree has one.
    pub fn get(&self, p: &RelPath) -> (r: Option<&Entry>)
        requires
            self.wf(),
        ensures
            r is Some <==> self@.contains_key(p@),
            r matches Some(e) ==> e@ == self@[p@],
    {
        let n = self.nodes.len();
        let mut i: usize = 0;
        while i < n
            invariant
                self.wf(),
                n == self.nodes@.len(),
                i <= n,
                forall|j: int| 0 <= j < i ==> self.dom_seq()[j] != p@,
            decreases n - i,
        {
            if self.nodes[i].path.eq_path(p) {
                proof {
                    assert(self.dom_seq()[i as int] == p@);
                    self.lemma_entry_at_index(i as int);
                }
                return Some(&self.nodes[i].entry);
            }
            proof {
                assert(self.dom_seq()[i as int] != p@);
            }
            i += 1;
        }
        proof {
            if self.dom_seq().contains(p@) {
                let j = choose|j: int| 0 <= j < self.dom_seq().len() && self.dom_seq()[j] == p@;
                assert(false);
            }
        }
        None
    }

    /// Removes the entry at `p`, if any.
    pub fn remove(&mut self, p: &RelPath)
        requires
            old(self).wf(),
        ensures
            final(self).wf(),
            final(self)@ == old(self)@.remove(p@),
    {
        let ghost old_dom = self.dom_seq();
        let n = self.nodes.len();
        let mut i: usize = 0;
        while i < n
            invariant
                self == old(self),
                old_dom == self.dom_seq(),
                self.wf(),
                n == self.nodes@.len(),
                i <= n,
                forall|j: int| 0 <= j < i ==> self.dom_seq()[j] != p@,
            decreases n - i,
        {
            if self.nodes[i].path.eq_path(p) {
                proof {
                    assert(self.dom_seq()[i as int] == p@);
                }
                let ghost old_nodes = self.nodes@;
                self.nodes.remove(i);
                proof {
                    assert(old_dom.len() == old_nodes.len());
                    old_nodes.remove_ensures(i as int);
                    old_dom.remove_ensures(i as int);
                    assert forall|j: int| 0 <= j < self.dom_seq().len() implies self.dom_seq()[j]
                        == old_dom.remove(i as int)[j] by {
                        if j < i {
                            assert(self.nodes@[j] == old_nodes[j]);
                        } else {
                            assert(self.nodes@[j] == old_nodes[j + 1]);
                        }
                    }
                    assert(self.dom_seq() =~= old_dom.remove(i as int));
                    assert(self.wf());
                    assert forall|q: Seq<u8>|
                        self.dom_seq().contains(q) == (old_dom.contains(q) && q != p@) by {
                        if self.dom_seq().contains(q) {
                            let k = choose|k: int|
                                0 <= k < self.dom_seq().len() && self.dom_seq()[k] == q;
                            if k < i {
                                assert(old_dom[k] == q);
                            } else {
                                assert(old_dom[k + 1] == q);
                            }
                            assert(old_dom.contains(q));
                            assert(q != p@);
                        }
                        if old_dom.contains(q) && q != p@ {
                            let k = choose|k: int| 0 <= k < old_dom.len() && old_dom[k] == q;
                            if k < i {
                                assert(self.dom_seq()[k] == q);
                            } else {
                                assert(k != i);
                                assert(self.dom_seq()[k - 1] == q);
                            }
                            assert(self.dom_seq().contains(q));
                        }
                    }
                    assert forall|q: Seq<u8>| #[trigger]
                        self@.contains_key(q) implies self@[q] == old(self)@[q] by {
                        let k = choose|k: int|
                            0 <= k < self.nodes@.len() && self.nodes@[k].path@ == q;
                        self.lemma_entry_at_index(k);
                        if k < i {
                            old(self).lemma_entry_at_index(k);
                        } else {
                            old(self).lemma_entry_at_index(k + 1);
                        }
                    }
                    assert(self@ =~= old(self)@.remove(p@));
                }
                return ;
            }
            proof {
                assert(self.dom_seq()[i as int] != p@);
            }
            i += 1;
        }
        proof {
            if self.dom_seq().contains(p@) {
                let j = choose|j: int| 0 <= j < self.dom_seq().len() && self.dom_seq()[j] == p@;
                assert(false);
            }
            assert(self@ =~= old(self)@.remove(p@));
        }
    }

    /// Inserts or replaces the entry at `path`.
    pub fn upsert(&mut self, path: RelPath, entry: Entry)
        requires
            old(self).wf(),
            path.wf(),
        ensures
            final(self).wf(),
            final(self)@ == old(self)@.insert(path@, entry@),
    {
        self.remove(&path);
        let ghost mid = *self;
        let ghost mid_dom = self.dom_seq();
        self.nodes.push(Node { path, entry });
        proof {
            assert(self.dom_seq() =~= mid_dom.push(path@));
            assert forall|q: Seq<u8>|
                self.dom_seq().contains(q) == (mid_dom.contains(q) || q == path@) by {
                if self.dom_seq().contains(q) {
                    let k = choose|k: int| 0 <= k < self.dom_seq().len() && self.dom_seq()[k] == q;
                    if k < mid_dom.len() {
                        assert(mid_dom[k] == q);
                        assert(mid_dom.contains(q));
                    } else {
                        assert(self.dom_seq()[k] == path@);
                    }
                }
                if mid_dom.contains(q) {
                    let k = choose|k: int| 0 <= k < mid_dom.len() && mid_dom[k] == q;
                    assert(self.dom_seq()[k] == q);
                    assert(self.dom_seq().contains(q));
                }
                assert(self.dom_seq()[mid_dom.len() as int] == path@);
                assert(self.dom_seq().contains(path@));
            }
            assert(!mid_dom.contains(path@)) by {
                if mid_dom.contains(path@) {
                    let k = choose|k: int| 0 <= k < mid_dom.len() && mid_dom[k] == path@;
                    assert(mid@.contains_key(path@));
                }
            }
            assert(self.wf());
            let n = mid_dom.len() as int;
            assert(mid_dom.len() == mid.nodes@.len());
            assert(self.nodes@.len() == mid.nodes@.len() + 1);
            assert(self.nodes@[n].path@ == path@);
            assert(self.nodes@[n].entry@ == entry@);
            self.lemma_entry_at_index(n);
            assert(self@.contains_key(path@));
            assert(self@[path@] == entry@);
            assert forall|q: Seq<u8>| #[trigger] self@.contains_key(q) && q != path@ implies self@[q]
                == mid@[q] by {
                assert(self.dom_seq().contains(q));
                let k = choose|k: int|
                    0 <= k < self.dom_seq().len() && self.dom_seq()[k] == q;
                assert(self.nodes@[k].path@ == q);
                self.lemma_entry_at_index(k);
                assert(self@[q] == self.nodes@[k].entry@);
                assert(k != n);
                assert(mid.nodes@[k] == self.nodes@[k]);
                mid.lemma_entry_at_index(k);
                assert(mid.dom_seq()[k] == q);
                assert(mid.dom_seq().contains(q));
                assert(mid@[q] == mid.nodes@[k].entry@);
            }
            assert(mid@ == old(self)@.remove(path@));
            assert forall|q: Seq<u8>|
                self@.contains_key(q) == old(self)@.insert(path@, entry@).contains_key(q) by {
                assert(self@.contains_key(q) == self.dom_seq().contains(q));
                assert(mid@.contains_key(q) == mid_dom.contains(q));
            }
            assert(self@ =~= old(self)@.insert(path@, entry@));
        }
    }

    /// A copy of this tree.
    pub fn duplicate(&self) -> (r: FsTree)
        requires
            self.wf(),
        ensures
            r.wf(),
            r@ == self@,
    {
        let n = self.len();
        let mut r = FsTree::new();
        let mut i: usize = 0;
        while i < n
            invariant
                self.wf(),
                r.wf(),
                n == self.dom_seq().len(),
                i <= n,
                forall|q: Seq<u8>|
                    r@.contains_key(q) == #[trigger] self.dom_seq().take(i as int).contains(q),
                forall|q: Seq<u8>| #[trigger]
                    r@.contains_key(q) ==> self@.contains_key(q) && r@[q] == self@[q],
            decreases n - i,
        {
            let p = self.path_at(i);
            let e = self.entry_at(i);
            proof {
                assert(self.dom_seq().take(i + 1) =~= self.dom_seq().take(i as int).push(
                    self.dom_seq()[i as int],
                ));
                assert(self.dom_seq().contains(self.dom_seq()[i as int]));
            }
            r.upsert(p.duplicate(), e.duplicate());
            i += 1;
        }
        proof {
            assert(self.dom_seq().take(n as int) =~= self.dom_seq());
            assert(r@ =~= self@);
        }
        r
    }

    /// The tree, as a map from each path to its entry.
    pub open spec fn view(&self) -> Map<Seq<u8>, EntryV> {
        Map::new(|p: Seq<u8>| self.dom_seq().contains(p), |p: Seq<u8>| self.entry_of(p))
    }
}

/// A tree in which nothing dangles: every path that lies inside a directory
/// path has that directory present, as a directory. Every tree produced by
/// scanning a real filesystem has this shape.
pub open spec fn tree_closed(m: Map<Seq<u8>, EntryV>) -> bool {
    forall|q: Seq<u8>, p: Seq<u8>|
        m.contains_key(p) && #[trigger] is_ancestor(q, p) ==> m.contains_key(q) && m[q] is Dir
}

} // verus!
