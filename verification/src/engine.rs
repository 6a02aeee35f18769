//! The synchronization engine: scanning a tree into kind sets, classifying
//! every path into copy, compare and delete buckets, ordering directory
//! deletions, and the effect of one `synchronize` or `copy` run on the
//! destination tree.

use vstd::prelude::*;

use crate::flags::{flag_set, contains_flag, Flag};
use crate::path::{
    delete_before, is_ancestor, is_normalized, lemma_ancestor_deeper, lemma_delete_before_total,
    lemma_delete_before_trans, RelPath,
};
use crate::sets::{views, FileSets, PathSet};
use crate::tree::{entry_eq, tree_closed, EntryV, FsTree};

verus! {

broadcast use vstd::seq_lib::lemma_seq_contains_after_push;

/// The set of path views of a sequence of paths.
pub open spec fn path_set_of(v: Seq<RelPath>) -> Set<Seq<u8>> {
    Set::new(|p: Seq<u8>| views(v).contains(p))
}

/// Scans a tree into its three kind sets: every path of the tree lands in
/// the set matching its entry's kind, and in no other.
pub fn scan_sets(t: &FsTree) -> (s: FileSets)
    requires
        t.wf(),
    ensures
        s.sets_wf(),
        s.kinds_disjoint(),
        forall|p: Seq<u8>| s.files@.contains(p) == (t@.contains_key(p) && t@[p] is File),
        forall|p: Seq<u8>| s.dirs@.contains(p) == (t@.contains_key(p) && t@[p] is Dir),
        forall|p: Seq<u8>| s.symlinks@.contains(p) == (t@.contains_key(p) && t@[p] is Symlink),
{
    let n = t.len();
    let mut files = PathSet::new();
    let mut dirs = PathSet::new();
    let mut symlinks = PathSet::new();
    let mut i: usize = 0;
    while i < n
        invariant
            t.wf(),
            n == t.dom_seq().len(),
            i <= n,
            files.wf(),
            dirs.wf(),
            symlinks.wf(),
            forall|p: Seq<u8>|
                files@.contains(p) == (t.dom_seq().take(i as int).contains(p) && t@.contains_key(p)
                    && t@[p] is File),
            forall|p: Seq<u8>|
                dirs@.contains(p) == (t.dom_seq().take(i as int).contains(p) && t@.contains_key(p)
                    && t@[p] is Dir),
            forall|p: Seq<u8>|
                symlinks@.contains(p) == (t.dom_seq().take(i as int).contains(p)
                    && t@.contains_key(p) && t@[p] is Symlink),
        decreases n - i,
    {
        let p = t.path_at(i);
        let e = t.entry_at(i);
        proof {
            assert(t.dom_seq().take(i + 1) =~= t.dom_seq().take(i as int).push(
                t.dom_seq()[i as int],
            ));
            assert(t.dom_seq().contains(t.dom_seq()[i as int]));
        }
        match e {
            crate::tree::Entry::File { .. } => files.insert(p.duplicate()),
            crate::tree::Entry::Dir => dirs.insert(p.duplicate()),
            crate::tree::Entry::Symlink { .. } => symlinks.insert(p.duplicate()),
        }
        i += 1;
    }
    proof {
        assert(t.dom_seq().take(n as int) =~= t.dom_seq());
    }
    FileSets::new(files, dirs, symlinks)
}

/// The symlinks of `a` that `b` does not hold identically: a symlink is
/// matched by path and target together, so one whose target changed counts
/// as absent from the other tree.
pub fn symlink_diff(a: &FsTree, b: &FsTree) -> (r: PathSet)
    requires
        a.wf(),
        b.wf(),
    ensures
        r.wf(),
        forall|p: Seq<u8>|
            r@.contains(p) == (a@.contains_key(p) && a@[p] is Symlink && !(b@.contains_key(p)
                && b@[p] == a@[p])),
{
    let n = a.len();
    let mut out = PathSet::new();
    let mut i: usize = 0;
    while i < n
        invariant
            a.wf(),
            b.wf(),
            n == a.dom_seq().len(),
            i <= n,
            out.wf(),
            forall|p: Seq<u8>|
                out@.contains(p) == (a.dom_seq().take(i as int).contains(p) && a@.contains_key(p)
                    && a@[p] is Symlink && !(b@.contains_key(p) && b@[p] == a@[p])),
        decreases n - i,
    {
        let p = a.path_at(i);
        let e = a.entry_at(i);
        proof {
            assert(a.dom_seq().take(i + 1) =~= a.dom_seq().take(i as int).push(
                a.dom_seq()[i as int],
            ));
            assert(a.dom_seq().contains(a.dom_seq()[i as int]));
        }
        let is_unmatched_symlink = match e {
            crate::tree::Entry::Symlink { .. } => {
                match b.get(p) {
                    Some(be) => !entry_eq(be, e),
                    None => true,
                }
            },
            _ => false,
        };
        if is_unmatched_symlink {
            out.insert(p.duplicate());
        }
        i += 1;
    }
    proof {
        assert(a.dom_seq().take(n as int) =~= a.dom_seq());
    }
    out
}

/// Removes every path of `paths` from the tree. The I/O shell performs the
/// matching unlinks in parallel; removals of distinct paths are independent,
/// so their order does not matter.
pub fn delete_files(t: &mut FsTree, paths: &PathSet)
    requires
        old(t).wf(),
    ensures
        final(t).wf(),
        final(t)@ == old(t)@.remove_keys(paths@),
{
    let n = paths.len();
    let mut i: usize = 0;
    while i < n
        invariant
            t.wf(),
            n == paths.seq().len(),
            i <= n,
            forall|q: Seq<u8>|
                t@.contains_key(q) == (old(t)@.contains_key(q) && !paths.seq().take(
                    i as int,
                ).contains(q)),
            forall|q: Seq<u8>| #[trigger] t@.contains_key(q) ==> t@[q] == old(t)@[q],
        decreases n - i,
    {
        proof {
            assert(paths.seq().take(i + 1) =~= paths.seq().take(i as int).push(
                paths.seq()[i as int],
            ));
        }
        t.remove(paths.get(i));
        i += 1;
    }
    proof {
        assert(paths.seq().take(n as int) =~= paths.seq());
        assert(t@ =~= old(t)@.remove_keys(paths@));
    }
}

/// Removes every path of `dirs` from the tree, strictly in the order the
/// sequence gives; used for directories, whose removal order is a
/// correctness requirement.
pub fn delete_files_sequential(t: &mut FsTree, dirs: &Vec<RelPath>)
    requires
        old(t).wf(),
    ensures
        final(t).wf(),
        final(t)@ == old(t)@.remove_keys(path_set_of(dirs@)),
{
    let n = dirs.len();
    let mut i: usize = 0;
    while i < n
        invariant
            t.wf(),
            n == dirs@.len(),
            i <= n,
            forall|q: Seq<u8>|
                t@.contains_key(q) == (old(t)@.contains_key(q) && !views(dirs@).take(
                    i as int,
                ).contains(q)),
            forall|q: Seq<u8>| #[trigger] t@.contains_key(q) ==> t@[q] == old(t)@[q],
        decreases n - i,
    {
        proof {
            assert(views(dirs@).take(i + 1) =~= views(dirs@).take(i as int).push(
                views(dirs@)[i as int],
            ));
            assert(views(dirs@)[i as int] == dirs@[i as int]@);
        }
        t.remove(&dirs[i]);
        i += 1;
    }
    proof {
        assert(views(dirs@).take(n as int) =~= views(dirs@));
        assert(t@ =~= old(t)@.remove_keys(path_set_of(dirs@)));
    }
}

/// Copies the entry of `src` at every path of `paths` into the tree,
/// overwriting whatever the tree held there. The I/O shell performs the
/// matching creations in parallel; entries at distinct paths are
/// independent.
pub fn copy_files(t: &mut FsTree, src: &FsTree, paths: &PathSet)
    requires
        old(t).wf(),
        src.wf(),
        paths.wf(),
        forall|p: Seq<u8>| #[trigger] paths@.contains(p) ==> src@.contains_key(p),
    ensures
        final(t).wf(),
        final(t)@ == old(t)@.union_prefer_right(src@.restrict(paths@)),
{
    let n = paths.len();
    let mut i: usize = 0;
    while i < n
        invariant
            t.wf(),
            src.wf(),
            paths.wf(),
            forall|p: Seq<u8>| #[trigger] paths@.contains(p) ==> src@.contains_key(p),
            n == paths.seq().len(),
            i <= n,
            forall|q: Seq<u8>|
                !(#[trigger] paths.seq().take(i as int).contains(q)) ==> t@.contains_key(q) == old(
                    t,
                )@.contains_key(q) && (t@.contains_key(q) ==> t@[q] == old(t)@[q]),
            forall|q: Seq<u8>|
                #[trigger] paths.seq().take(i as int).contains(q) ==> t@.contains_key(q) && t@[q]
                    == src@[q],
        decreases n - i,
    {
        let p = paths.get(i);
        proof {
            assert(paths.seq().take(i + 1) =~= paths.seq().take(i as int).push(
                paths.seq()[i as int],
            ));
            assert(paths.seq().contains(p@));
            assert(paths@.contains(p@));
            assert(src@.contains_key(p@));
        }
        let ghost t_pre = t@;
        match src.get(p) {
            Some(e) => {
                t.upsert(p.duplicate(), e.duplicate());
            },
            None => {
                proof {
                    assert(false);
                }
            },
        }
        proof {
            let tk1 = paths.seq().take(i + 1);
            let tk = paths.seq().take(i as int);
            assert(t@ == t_pre.insert(p@, src@[p@]));
            assert forall|q: Seq<u8>| !(#[trigger] tk1.contains(q)) implies t@.contains_key(q)
                == old(t)@.contains_key(q) && (t@.contains_key(q) ==> t@[q] == old(t)@[q]) by {
                assert(tk1 == tk.push(p@));
                assert(!tk.contains(q) && q != p@);
            }
            assert forall|q: Seq<u8>| #[trigger] tk1.contains(q) implies t@.contains_key(q) && t@[q]
                == src@[q] by {
                assert(tk1 == tk.push(p@));
                if q != p@ {
                    assert(tk.contains(q));
                }
            }
        }
        i += 1;
    }
    proof {
        let u = old(t)@.union_prefer_right(src@.restrict(paths@));
        assert(paths.seq().take(n as int) =~= paths.seq());
        assert forall|q: Seq<u8>| t@.contains_key(q) == u.contains_key(q) by {
            assert(paths@.contains(q) == paths.seq().contains(q));
            assert(paths.seq().take(n as int).contains(q) == paths.seq().contains(q));
        }
        assert forall|q: Seq<u8>| #[trigger] t@.contains_key(q) implies t@[q] == u[q] by {
            assert(paths@.contains(q) == paths.seq().contains(q));
            assert(paths.seq().take(n as int).contains(q) == paths.seq().contains(q));
        }
        assert(t@ =~= u);
    }
}

/// For every path of `paths`, present in both trees, copies the entry of
/// `src` into the tree exactly when the two entries differ; returns the
/// paths it copied. An unchanged entry causes no write at all.
pub fn compare_and_copy_files(t: &mut FsTree, src: &FsTree, paths: &PathSet) -> (copied: Vec<
    RelPath,
>)
    requires
        old(t).wf(),
        src.wf(),
        paths.wf(),
        forall|p: Seq<u8>| #[trigger] paths@.contains(p) ==> src@.contains_key(p),
        forall|p: Seq<u8>| #[trigger] paths@.contains(p) ==> old(t)@.contains_key(p),
    ensures
        final(t).wf(),
        final(t)@ == old(t)@.union_prefer_right(src@.restrict(paths@)),
        forall|q: Seq<u8>|
            #[trigger] views(copied@).contains(q) == (paths@.contains(q) && old(t)@[q] != src@[q]),
{
    let n = paths.len();
    let mut copied: Vec<RelPath> = Vec::new();
    let mut i: usize = 0;
    while i < n
        invariant
            t.wf(),
            src.wf(),
            paths.wf(),
            forall|p: Seq<u8>| #[trigger] paths@.contains(p) ==> src@.contains_key(p),
            forall|p: Seq<u8>| #[trigger] paths@.contains(p) ==> old(t)@.contains_key(p),
            n == paths.seq().len(),
            i <= n,
            forall|q: Seq<u8>|
                !(#[trigger] paths.seq().take(i as int).contains(q)) ==> t@.contains_key(q) == old(
                    t,
                )@.contains_key(q) && (t@.contains_key(q) ==> t@[q] == old(t)@[q]),
            forall|q: Seq<u8>|
                #[trigger] paths.seq().take(i as int).contains(q) ==> t@.contains_key(q) && t@[q]
                    == src@[q],
            forall|q: Seq<u8>|
                #[trigger] views(copied@).contains(q) == (paths.seq().take(i as int).contains(q)
                    && old(t)@[q] != src@[q]),
        decreases n - i,
    {
        let p = paths.get(i);
        proof {
            assert(paths.seq().take(i + 1) =~= paths.seq().take(i as int).push(
                paths.seq()[i as int],
            ));
            assert(paths.seq().contains(p@));
            assert(paths@.contains(p@));
            assert(!paths.seq().take(i as int).contains(p@)) by {
                if paths.seq().take(i as int).contains(p@) {
                    let j = choose|j: int| 0 <= j < i && paths.seq().take(i as int)[j] == p@;
                    assert(paths.seq()[j] == paths.seq()[i as int]);
                }
            }
            assert(src@.contains_key(p@));
            assert(old(t)@.contains_key(p@));
            assert(t@.contains_key(p@));
            assert(t@[p@] == old(t)@[p@]);
        }
        let src_entry = match src.get(p) {
            Some(e) => e,
            None => {
                proof {
                    assert(false);
                }
                unreached()
            },
        };
        let equal = match t.get(p) {
            Some(e) => entry_eq(e, src_entry),
            None => {
                proof {
                    assert(false);
                }
                unreached()
            },
        };
        let ghost t_pre = t@;
        let ghost copied_pre = copied@;
        if !equal {
            t.upsert(p.duplicate(), src_entry.duplicate());
            copied.push(p.duplicate());
            proof {
                assert(views(copied@) =~= views(copied_pre).push(p@));
            }
        }
        proof {
            let tk1 = paths.seq().take(i + 1);
            let tk = paths.seq().take(i as int);
            assert(tk1 == tk.push(p@));
            assert forall|q: Seq<u8>| !(#[trigger] tk1.contains(q)) implies t@.contains_key(q)
                == old(t)@.contains_key(q) && (t@.contains_key(q) ==> t@[q] == old(t)@[q]) by {
                assert(!tk.contains(q) && q != p@);
            }
            assert forall|q: Seq<u8>| #[trigger] tk1.contains(q) implies t@.contains_key(q) && t@[q]
                == src@[q] by {
                if q != p@ {
                    assert(tk.contains(q));
                }
            }
            assert forall|q: Seq<u8>|
                #[trigger] views(copied@).contains(q) == (tk1.contains(q) && old(t)@[q]
                    != src@[q]) by {
                assert(views(copied_pre).contains(q) == (tk.contains(q) && old(t)@[q] != src@[q]));
                if equal {
                    assert(views(copied@) == views(copied_pre));
                    if q == p@ {
                        assert(old(t)@[p@] == src@[p@]);
                    }
                } else {
                    if q == p@ {
                        assert(old(t)@[p@] != src@[p@]);
                        assert(views(copied@).contains(p@));
                    }
                }
            }
        }
        i += 1;
    }
    proof {
        let u = old(t)@.union_prefer_right(src@.restrict(paths@));
        assert(paths.seq().take(n as int) =~= paths.seq());
        assert forall|q: Seq<u8>| t@.contains_key(q) == u.contains_key(q) by {
            assert(paths@.contains(q) == paths.seq().contains(q));
            assert(paths.seq().take(n as int).contains(q) == paths.seq().contains(q));
        }
        assert forall|q: Seq<u8>| #[trigger] t@.contains_key(q) implies t@[q] == u[q] by {
            assert(paths@.contains(q) == paths.seq().contains(q));
            assert(paths.seq().take(n as int).contains(q) == paths.seq().contains(q));
        }
        assert(t@ =~= u);
        assert forall|q: Seq<u8>|
            #[trigger] views(copied@).contains(q) == (paths@.contains(q) && old(t)@[q]
                != src@[q]) by {
            assert(paths@.contains(q) == paths.seq().contains(q));
            assert(paths.seq().take(n as int).contains(q) == paths.seq().contains(q));
        }
    }
    copied
}

proof fn lemma_views_remove(v: Seq<RelPath>, i: int)
    requires
        0 <= i < v.len(),
    ensures
        views(v.remove(i)) =~= views(v).remove(i),
{
    v.remove_ensures(i);
    views(v).remove_ensures(i);
    assert forall|j: int| 0 <= j < views(v.remove(i)).len() implies #[trigger] views(v.remove(i))[j]
        == views(v).remove(i)[j] by {
        if j < i {
            assert(v.remove(i)[j] == v[j]);
        } else {
            assert(v.remove(i)[j] == v[j + 1]);
        }
    }
}

/// The order in which scheduled directories are removed: each one before
/// everything shallower than it, ties broken by reverse lexicographic order.
pub open spec fn sorted_for_deletion(s: Seq<Seq<u8>>) -> bool {
    forall|i: int, j: int| 0 <= i < j < s.len() ==> delete_before(#[trigger] s[i], #[trigger] s[j])
}

/// Orders the paths of `s` for removal: strictly deeper paths first, ties
/// broken by reverse lexicographic order, so that a directory is never
/// scheduled before anything it contains.
pub fn sort_files(s: &PathSet) -> (r: Vec<RelPath>)
    requires
        s.wf(),
    ensures
        forall|p: Seq<u8>| #[trigger] views(r@).contains(p) == s@.contains(p),
        forall|a: int, b: int| 0 <= a < b < r@.len() ==> views(r@)[a] != views(r@)[b],
        sorted_for_deletion(views(r@)),
        forall|a: int| 0 <= a < r@.len() ==> is_normalized(#[trigger] views(r@)[a]),
{
    let n = s.len();
    let mut remaining: Vec<RelPath> = Vec::new();
    let mut i: usize = 0;
    while i < n
        invariant
            s.wf(),
            n == s.seq().len(),
            i <= n,
            views(remaining@) =~= s.seq().take(i as int),
        decreases n - i,
    {
        let ghost rem_pre = remaining@;
        remaining.push(s.get(i).duplicate());
        proof {
            assert(views(remaining@) =~= views(rem_pre).push(s.seq()[i as int]));
            assert(s.seq().take(i + 1) =~= s.seq().take(i as int).push(s.seq()[i as int]));
        }
        i += 1;
    }
    proof {
        assert(s.seq().take(n as int) =~= s.seq());
        assert(views(remaining@) =~= s.seq());
    }
    let mut out: Vec<RelPath> = Vec::new();
    while remaining.len() > 0
        invariant
            forall|p: Seq<u8>|
                (views(out@).contains(p) || views(remaining@).contains(p)) == s.seq().contains(p),
            forall|a: int, b: int|
                0 <= a < b < out@.len() ==> views(out@)[a] != views(out@)[b],
            forall|a: int, b: int|
                0 <= a < b < remaining@.len() ==> views(remaining@)[a] != views(remaining@)[b],
            forall|p: Seq<u8>| #[trigger]
                views(out@).contains(p) ==> !views(remaining@).contains(p),
            sorted_for_deletion(views(out@)),
            forall|a: int, b: int|
                0 <= a < out@.len() && 0 <= b < remaining@.len() ==> delete_before(
                    #[trigger] views(out@)[a],
                    #[trigger] views(remaining@)[b],
                ),
            forall|a: int|
                0 <= a < out@.len() ==> is_normalized(#[trigger] views(out@)[a]),
            forall|a: int|
                0 <= a < remaining@.len() ==> is_normalized(#[trigger] views(remaining@)[a]),
        decreases remaining.len(),
    {
        let m = remaining.len();
        let mut best: usize = 0;
        let mut k: usize = 1;
        proof {
            lemma_delete_before_total(views(remaining@)[0], views(remaining@)[0]);
        }
        while k < m
            invariant
                m == remaining@.len(),
                0 < m,
                best < k,
                k <= m,
                forall|j: int|
                    0 <= j < k ==> delete_before(
                        views(remaining@)[best as int],
                        #[trigger] views(remaining@)[j],
                    ),
            decreases m - k,
        {
            proof {
                assert(views(remaining@)[k as int] == remaining@[k as int]@);
                assert(views(remaining@)[best as int] == remaining@[best as int]@);
            }
            if remaining[k].deletes_before(&remaining[best]) {
                proof {
                    assert forall|j: int| 0 <= j < k + 1 implies delete_before(
                        views(remaining@)[k as int],
                        #[trigger] views(remaining@)[j],
                    ) by {
                        if j < k {
                            lemma_delete_before_trans(
                                views(remaining@)[k as int],
                                views(remaining@)[best as int],
                                views(remaining@)[j],
                            );
                        } else {
                            lemma_delete_before_total(
                                views(remaining@)[k as int],
                                views(remaining@)[k as int],
                            );
                        }
                    }
                }
                best = k;
            } else {
                proof {
                    lemma_delete_before_total(
                        views(remaining@)[best as int],
                        views(remaining@)[k as int],
                    );
                }
            }
            k += 1;
        }
        let ghost rem_pre = remaining@;
        let ghost out_pre = out@;
        let picked = remaining.remove(best);
        out.push(picked);
        proof {
            lemma_views_remove(rem_pre, best as int);
            views(rem_pre).remove_ensures(best as int);
            let pv = views(rem_pre)[best as int];
            assert(views(out@) =~= views(out_pre).push(pv));
            assert(views(rem_pre).contains(pv));
            assert forall|p: Seq<u8>|
                views(remaining@).contains(p) == (views(rem_pre).contains(p) && p != pv) by {
                if views(remaining@).contains(p) {
                    let c = choose|c: int|
                        0 <= c < views(remaining@).len() && views(remaining@)[c] == p;
                    if c < best {
                        assert(views(rem_pre)[c] == p);
                        assert(views(rem_pre).contains(p));
                    } else {
                        assert(views(rem_pre)[c + 1] == p);
                        assert(views(rem_pre).contains(p));
                    }
                    assert(p != pv);
                }
                if views(rem_pre).contains(p) && p != pv {
                    let c = choose|c: int| 0 <= c < views(rem_pre).len() && views(rem_pre)[c] == p;
                    assert(c != best);
                    if c < best {
                        assert(views(remaining@)[c] == p);
                        assert(views(remaining@).contains(p));
                    } else {
                        assert(views(remaining@)[c - 1] == p);
                        assert(views(remaining@).contains(p));
                    }
                }
            }
            assert(!views(out_pre).contains(pv));
            assert(!views(remaining@).contains(pv));
            assert forall|p: Seq<u8>|
                (views(out@).contains(p) || views(remaining@).contains(p)) == s.seq().contains(
                    p,
                ) by {
                assert(views(out@).contains(p) == (views(out_pre).contains(p) || p == pv));
                assert((views(out_pre).contains(p) || views(rem_pre).contains(p))
                    == s.seq().contains(p));
            }
            assert forall|a: int, b: int| 0 <= a < b < out@.len() implies views(out@)[a]
                != views(out@)[b] by {
                if b == out@.len() - 1 {
                    assert(views(out@)[a] == views(out_pre)[a]);
                    assert(views(out_pre).contains(views(out_pre)[a]));
                }
            }
            assert forall|p: Seq<u8>| #[trigger]
                views(out@).contains(p) implies !views(remaining@).contains(p) by {
                assert(views(out@).contains(p) == (views(out_pre).contains(p) || p == pv));
                if views(out_pre).contains(p) {
                    assert(!views(rem_pre).contains(p));
                }
            }
            assert forall|a: int, b: int| 0 <= a < b < out@.len() implies delete_before(
                #[trigger] views(out@)[a],
                #[trigger] views(out@)[b],
            ) by {
                if b == out@.len() - 1 {
                    assert(views(out@)[a] == views(out_pre)[a]);
                    assert(views(out@)[b] == pv);
                } else {
                    assert(views(out@)[a] == views(out_pre)[a]);
                    assert(views(out@)[b] == views(out_pre)[b]);
                }
            }
            assert forall|a: int, b: int|
                0 <= a < out@.len() && 0 <= b < remaining@.len() implies delete_before(
                #[trigger] views(out@)[a],
                #[trigger] views(remaining@)[b],
            ) by {
                let q = views(remaining@)[b];
                if b < best {
                    assert(views(rem_pre)[b] == q);
                } else {
                    assert(views(rem_pre)[b + 1] == q);
                }
                if a == out@.len() - 1 {
                    assert(views(out@)[a] == pv);
                } else {
                    assert(views(out@)[a] == views(out_pre)[a]);
                }
            }
            assert forall|a: int| 0 <= a < out@.len() implies is_normalized(
                #[trigger] views(out@)[a],
            ) by {
                if a == out@.len() - 1 {
                    assert(views(out@)[a] == pv);
                } else {
                    assert(views(out@)[a] == views(out_pre)[a]);
                }
            }
            assert forall|a: int| 0 <= a < remaining@.len() implies is_normalized(
                #[trigger] views(remaining@)[a],
            ) by {
                if a < best {
                    assert(views(remaining@)[a] == views(rem_pre)[a]);
                } else {
                    assert(views(remaining@)[a] == views(rem_pre)[a + 1]);
                }
            }
        }
    }
    proof {
        assert forall|p: Seq<u8>| #[trigger] views(out@).contains(p) == s@.contains(p) by {
            assert(s@.contains(p) == s.seq().contains(p));
            assert(views(remaining@).len() == 0);
            if views(remaining@).contains(p) {
                let c = choose|c: int| 0 <= c < views(remaining@).len() && views(remaining@)[c] == p;
                assert(false);
            }
        }
    }
    out
}

/// The destination symlinks one run removes: those not held identically
/// by the source.
pub open spec fn spec_symlinks_to_delete(
    src: Map<Seq<u8>, EntryV>,
    dest: Map<Seq<u8>, EntryV>,
) -> Set<Seq<u8>> {
    Set::new(
        |p: Seq<u8>|
            dest.contains_key(p) && dest[p] is Symlink && !(src.contains_key(p) && src[p]
                == dest[p]),
    )
}

/// The destination files one run removes: those whose path is not a file
/// of the source.
pub open spec fn spec_files_to_delete(
    src: Map<Seq<u8>, EntryV>,
    dest: Map<Seq<u8>, EntryV>,
) -> Set<Seq<u8>> {
    Set::new(
        |p: Seq<u8>|
            dest.contains_key(p) && dest[p] is File && !(src.contains_key(p) && src[p] is File),
    )
}

/// The source directories one run creates: those whose path is not a
/// directory of the destination.
pub open spec fn spec_dirs_to_copy(
    src: Map<Seq<u8>, EntryV>,
    dest: Map<Seq<u8>, EntryV>,
) -> Set<Seq<u8>> {
    Set::new(
        |p: Seq<u8>|
            src.contains_key(p) && src[p] is Dir && !(dest.contains_key(p) && dest[p] is Dir),
    )
}

/// The source symlinks one run recreates: those not held identically by
/// the destination.
pub open spec fn spec_symlinks_to_copy(
    src: Map<Seq<u8>, EntryV>,
    dest: Map<Seq<u8>, EntryV>,
) -> Set<Seq<u8>> {
    Set::new(
        |p: Seq<u8>|
            src.contains_key(p) && src[p] is Symlink && !(dest.contains_key(p) && dest[p]
                == src[p]),
    )
}

/// The source files one run copies unconditionally: those whose path is
/// not a file of the destination.
pub open spec fn spec_files_to_copy(
    src: Map<Seq<u8>, EntryV>,
    dest: Map<Seq<u8>, EntryV>,
) -> Set<Seq<u8>> {
    Set::new(
        |p: Seq<u8>|
            src.contains_key(p) && src[p] is File && !(dest.contains_key(p) && dest[p] is File),
    )
}

/// The file paths present in both trees, compared and copied only when
/// they differ.
pub open spec fn spec_files_to_compare(
    src: Map<Seq<u8>, EntryV>,
    dest: Map<Seq<u8>, EntryV>,
) -> Set<Seq<u8>> {
    Set::new(
        |p: Seq<u8>|
            src.contains_key(p) && src[p] is File && dest.contains_key(p) && dest[p] is File,
    )
}

/// The destination directories one run removes: those whose path is not a
/// directory of the source.
pub open spec fn spec_dirs_to_delete(
    src: Map<Seq<u8>, EntryV>,
    dest: Map<Seq<u8>, EntryV>,
) -> Set<Seq<u8>> {
    Set::new(
        |p: Seq<u8>|
            dest.contains_key(p) && dest[p] is Dir && !(src.contains_key(p) && src[p] is Dir),
    )
}

/// The partition of both trees' paths into the work buckets of one run,
/// with the scheduled directories already in their removal order.
pub struct ClassifiedWork {
    pub symlinks_to_delete: PathSet,
    pub files_to_delete: PathSet,
    pub dirs_to_copy: PathSet,
    pub symlinks_to_copy: PathSet,
    pub files_to_copy: PathSet,
    pub files_to_compare: PathSet,
    pub dirs_to_delete: Vec<RelPath>,
}

impl ClassifiedWork {
    /// Each bucket holds exactly what the two trees assign to it.
    pub open spec fn describes(&self, src: Map<Seq<u8>, EntryV>, dest: Map<Seq<u8>, EntryV>) -> bool {
        &&& self.symlinks_to_delete@ == spec_symlinks_to_delete(src, dest)
        &&& self.files_to_delete@ == spec_files_to_delete(src, dest)
        &&& self.dirs_to_copy@ == spec_dirs_to_copy(src, dest)
        &&& self.symlinks_to_copy@ == spec_symlinks_to_copy(src, dest)
        &&& self.files_to_copy@ == spec_files_to_copy(src, dest)
        &&& self.files_to_compare@ == spec_files_to_compare(src, dest)
        &&& path_set_of(self.dirs_to_delete@) == spec_dirs_to_delete(src, dest)
    }
}

/// Classifies every path of the two trees into the copy, compare and
/// delete buckets of one run, and orders the directories to delete
/// deepest first.
pub fn classify(src: &FsTree, dest: &FsTree) -> (w: ClassifiedWork)
    requires
        src.wf(),
        dest.wf(),
    ensures
        w.describes(src@, dest@),
        w.symlinks_to_delete.wf(),
        w.files_to_delete.wf(),
        w.dirs_to_copy.wf(),
        w.symlinks_to_copy.wf(),
        w.files_to_copy.wf(),
        w.files_to_compare.wf(),
        sorted_for_deletion(views(w.dirs_to_delete@)),
        forall|a: int, b: int|
            0 <= a < b < w.dirs_to_delete@.len() ==> views(w.dirs_to_delete@)[a] != views(
                w.dirs_to_delete@,
            )[b],
{
    let ss = scan_sets(src);
    let ds = scan_sets(dest);
    let symlinks_to_delete = symlink_diff(dest, src);
    let files_to_delete = ds.files().difference(ss.files());
    let dirs_to_copy = ss.dirs().difference(ds.dirs());
    let symlinks_to_copy = symlink_diff(src, dest);
    let files_to_copy = ss.files().difference(ds.files());
    let files_to_compare = ss.files().intersection(ds.files());
    let dirs_del_set = ds.dirs().difference(ss.dirs());
    let dirs_to_delete = sort_files(&dirs_del_set);
    proof {
        assert(symlinks_to_delete@ =~= spec_symlinks_to_delete(src@, dest@));
        assert(files_to_delete@ =~= spec_files_to_delete(src@, dest@));
        assert(dirs_to_copy@ =~= spec_dirs_to_copy(src@, dest@));
        assert(symlinks_to_copy@ =~= spec_symlinks_to_copy(src@, dest@));
        assert(files_to_copy@ =~= spec_files_to_copy(src@, dest@));
        assert(files_to_compare@ =~= spec_files_to_compare(src@, dest@));
        assert(path_set_of(dirs_to_delete@) =~= spec_dirs_to_delete(src@, dest@));
    }
    ClassifiedWork {
        symlinks_to_delete,
        files_to_delete,
        dirs_to_copy,
        symlinks_to_copy,
        files_to_copy,
        files_to_compare,
        dirs_to_delete,
    }
}

/// Whether `p` is a directory of the destination but something else in the
/// source. Such a path is scheduled both as a copy (its source entry) and,
/// later, as a directory removal, so with deletion enabled the run leaves
/// it absent.
pub open spec fn kind_conflict(
    src: Map<Seq<u8>, EntryV>,
    dest: Map<Seq<u8>, EntryV>,
    p: Seq<u8>,
) -> bool {
    dest.contains_key(p) && dest[p] is Dir && src.contains_key(p) && !(src[p] is Dir)
}

/// The tree a synchronize run leaves at the destination, assuming every
/// filesystem operation succeeds: the source tree itself when deletion is
/// enabled (less the paths a kind conflict removes), and the destination
/// overlaid with the whole source tree when deletion is suppressed.
pub open spec fn sync_result(
    src: Map<Seq<u8>, EntryV>,
    dest: Map<Seq<u8>, EntryV>,
    nodelete: bool,
) -> Map<Seq<u8>, EntryV> {
    if nodelete {
        dest.union_prefer_right(src)
    } else {
        src.remove_keys(Set::new(|p: Seq<u8>| kind_conflict(src, dest, p)))
    }
}

/// Synchronizes the destination tree with the source tree: deletes what the
/// source lacks (unless `NoDelete` is set), creates missing directories and
/// symlinks, copies missing files, and overwrites shared files that differ,
/// in the phase order that keeps every intermediate tree consistent.
pub fn synchronize(src: &FsTree, dest: &FsTree, flags: u32) -> (r: FsTree)
    requires
        src.wf(),
        dest.wf(),
    ensures
        r.wf(),
        r@ == sync_result(src@, dest@, flag_set(flags, Flag::NoDelete)),
{
    let w = classify(src, dest);
    let delete = !contains_flag(flags, Flag::NoDelete);
    let mut r = dest.duplicate();
    proof {
        assert forall|p: Seq<u8>| #[trigger] w.dirs_to_copy@.contains(p) implies src@.contains_key(
            p,
        ) by {}
        assert forall|p: Seq<u8>| #[trigger]
            w.symlinks_to_copy@.contains(p) implies src@.contains_key(p) by {}
        assert forall|p: Seq<u8>| #[trigger] w.files_to_copy@.contains(p) implies src@.contains_key(
            p,
        ) by {}
        assert forall|p: Seq<u8>| #[trigger]
            w.files_to_compare@.contains(p) implies src@.contains_key(p) by {}
    }
    if delete {
        delete_files(&mut r, &w.symlinks_to_delete);
        delete_files(&mut r, &w.files_to_delete);
    }
    proof {
        assert forall|p: Seq<u8>| #[trigger] w.files_to_compare@.contains(p) implies r@.contains_key(
            p,
        ) by {
            assert(!w.symlinks_to_delete@.contains(p));
            assert(!w.files_to_delete@.contains(p));
        }
    }
    copy_files(&mut r, src, &w.dirs_to_copy);
    copy_files(&mut r, src, &w.symlinks_to_copy);
    copy_files(&mut r, src, &w.files_to_copy);
    proof {
        assert forall|p: Seq<u8>| #[trigger] w.files_to_compare@.contains(p) implies r@.contains_key(
            p,
        ) by {}
    }
    let _copied = compare_and_copy_files(&mut r, src, &w.files_to_compare);
    if delete {
        delete_files_sequential(&mut r, &w.dirs_to_delete);
    }
    proof {
        let nodelete = flag_set(flags, Flag::NoDelete);
        let goal = sync_result(src@, dest@, nodelete);
        assert forall|q: Seq<u8>|
            r@.contains_key(q) == goal.contains_key(q) && (r@.contains_key(q) ==> r@[q]
                == goal[q]) by {
            if src@.contains_key(q) {
                assert(src@[q] is File || src@[q] is Dir || src@[q] is Symlink);
            }
            if dest@.contains_key(q) {
                assert(dest@[q] is File || dest@[q] is Dir || dest@[q] is Symlink);
            }
            assert(path_set_of(w.dirs_to_delete@).contains(q) == spec_dirs_to_delete(
                src@,
                dest@,
            ).contains(q));
        }
        assert(r@ =~= goal);
    }
    r
}

/// Copies everything the source holds into the destination tree:
/// directories, then files, then symlinks, each overwritten from the
/// source; nothing is compared and nothing is removed, so every
/// pre-existing destination entry whose path the source lacks survives
/// unchanged.
pub fn copy(src: &FsTree, dest: &FsTree) -> (r: FsTree)
    requires
        src.wf(),
        dest.wf(),
    ensures
        r.wf(),
        r@ == dest@.union_prefer_right(src@),
        forall|p: Seq<u8>| #[trigger] dest@.contains_key(p) ==> r@.contains_key(p),
        forall|p: Seq<u8>|
            dest@.contains_key(p) && !src@.contains_key(p) ==> r@[p] == dest@[p],
{
    let ss = scan_sets(src);
    let mut r = dest.duplicate();
    proof {
        assert forall|p: Seq<u8>| #[trigger] ss.dirs@.contains(p) implies src@.contains_key(p) by {}
        assert forall|p: Seq<u8>| #[trigger] ss.files@.contains(p) implies src@.contains_key(p) by {}
        assert forall|p: Seq<u8>| #[trigger]
            ss.symlinks@.contains(p) implies src@.contains_key(p) by {}
    }
    copy_files(&mut r, src, ss.dirs());
    copy_files(&mut r, src, ss.files());
    copy_files(&mut r, src, ss.symlinks());
    proof {
        assert forall|q: Seq<u8>|
            r@.contains_key(q) == dest@.union_prefer_right(src@).contains_key(q) && (
            r@.contains_key(q) ==> r@[q] == dest@.union_prefer_right(src@)[q]) by {
            if src@.contains_key(q) {
                assert(src@[q] is File || src@[q] is Dir || src@[q] is Symlink);
            }
        }
        assert(r@ =~= dest@.union_prefer_right(src@));
    }
    r
}

/// Mirroring: with deletion enabled and no kind conflict, a run leaves the
/// destination holding exactly the source's paths, each with the source's
/// kind and content.
pub proof fn lemma_mirroring(src: Map<Seq<u8>, EntryV>, dest: Map<Seq<u8>, EntryV>)
    requires
        forall|p: Seq<u8>| !kind_conflict(src, dest, p),
    ensures
        sync_result(src, dest, false) == src,
        forall|p: Seq<u8>| #[trigger]
            sync_result(src, dest, false).contains_key(p) == src.contains_key(p),
        forall|p: Seq<u8>|
            src.contains_key(p) ==> sync_result(src, dest, false)[p] == src[p],
{
    assert(sync_result(src, dest, false) =~= src);
}

/// With `NoDelete` set, every path present only in the destination before
/// the run is still present, unchanged, after it.
pub proof fn lemma_nodelete_preserves_extras(src: Map<Seq<u8>, EntryV>, dest: Map<Seq<u8>, EntryV>)
    ensures
        forall|p: Seq<u8>|
            dest.contains_key(p) && !src.contains_key(p) ==> #[trigger] sync_result(
                src,
                dest,
                true,
            ).contains_key(p) && sync_result(src, dest, true)[p] == dest[p],
{
}

/// Running a synchronize twice changes nothing the second time: the result
/// of the first run is a fixed point, and after the first run every source
/// path is already present with the source's entry, so the second run has
/// nothing to copy and no shared file differs.
pub proof fn lemma_synchronize_idempotent(
    src: Map<Seq<u8>, EntryV>,
    dest: Map<Seq<u8>, EntryV>,
    nodelete: bool,
)
    requires
        !nodelete ==> forall|p: Seq<u8>| !kind_conflict(src, dest, p),
    ensures
        sync_result(src, sync_result(src, dest, nodelete), nodelete) == sync_result(
            src,
            dest,
            nodelete,
        ),
        forall|p: Seq<u8>|
            src.contains_key(p) ==> #[trigger] sync_result(src, dest, nodelete).contains_key(p)
                && sync_result(src, dest, nodelete)[p] == src[p],
{
    let r1 = sync_result(src, dest, nodelete);
    if nodelete {
        assert(sync_result(src, r1, nodelete) =~= r1);
    } else {
        assert(r1 =~= src);
        assert(sync_result(src, r1, nodelete) =~= r1);
    }
}

/// Of two nested directories scheduled for deletion, the inner one is
/// removed strictly first.
pub proof fn lemma_nested_dir_deleted_first(dirs: Seq<Seq<u8>>, i: int, j: int)
    requires
        sorted_for_deletion(dirs),
        0 <= i < dirs.len(),
        0 <= j < dirs.len(),
        is_ancestor(dirs[i], dirs[j]),
    ensures
        j < i,
{
    lemma_ancestor_deeper(dirs[i], dirs[j]);
    if i < j {
        assert(delete_before(dirs[i], dirs[j]));
        assert(false);
    }
    if i == j {
        assert(false);
    }
}

/// A scheduled directory is never removed while something is still inside
/// it: every path of either tree strictly inside it was scheduled strictly
/// earlier — symlinks and files in the phases that precede directory
/// removal, subdirectories earlier in the removal order — and a path the
/// run itself creates never lies inside a scheduled directory at all.
pub proof fn lemma_dir_delete_safe(
    src: Map<Seq<u8>, EntryV>,
    dest: Map<Seq<u8>, EntryV>,
    dirs: Seq<Seq<u8>>,
    k: int,
    p: Seq<u8>,
)
    requires
        tree_closed(src),
        sorted_for_deletion(dirs),
        forall|q: Seq<u8>| #[trigger] dirs.contains(q) == spec_dirs_to_delete(src, dest).contains(q),
        0 <= k < dirs.len(),
        dest.contains_key(p) || src.contains_key(p),
        is_ancestor(dirs[k], p),
    ensures
        spec_symlinks_to_delete(src, dest).contains(p) || spec_files_to_delete(src, dest).contains(
            p,
        ) || (exists|m: int| 0 <= m < k && dirs[m] == p),
{
    let d = dirs[k];
    assert(dirs.contains(d));
    assert(spec_dirs_to_delete(src, dest).contains(d));
    if src.contains_key(p) {
        assert(src.contains_key(d) && src[d] is Dir);
        assert(false);
    }
    if dest[p] is Dir {
        assert(spec_dirs_to_delete(src, dest).contains(p));
        assert(dirs.contains(p));
        let m = choose|m: int| 0 <= m < dirs.len() && dirs[m] == p;
        lemma_nested_dir_deleted_first(dirs, k, m);
        assert(0 <= m < k && dirs[m] == p);
    } else if dest[p] is File {
        assert(spec_files_to_delete(src, dest).contains(p));
    } else {
        assert(dest[p] is File || dest[p] is Dir || dest[p] is Symlink);
        assert(spec_symlinks_to_delete(src, dest).contains(p));
    }
}

} // verus!
