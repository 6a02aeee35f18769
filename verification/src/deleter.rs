//! The deletion plan at the level of single disk operations, and the
//! secure-erase discipline: a file's bytes are overwritten with filler and
//! flushed before its directory entry is unlinked.
//!
//! Overwriting bounds what a later read of the freed blocks can recover; it
//! does not defeat every recovery technique (wear-leveling flash can keep
//! stale copies), and that limit is part of the contract, not a defect.

use vstd::prelude::*;

use crate::path::{is_normalized, RelPath};
use crate::tree::{zeros, Entry, EntryV, FsTree};

verus! {

/// One primitive operation against the destination filesystem, at the
/// specification level.
pub enum DiskOpV {
    /// Overwrite the full byte length of the file at `path` with filler
    /// zeros and flush; the entry itself stays.
    Overwrite { path: Seq<u8> },
    /// Remove the entry at `path`.
    Unlink { path: Seq<u8> },
}

/// One primitive operation against the destination filesystem.
pub enum DiskOp {
    /// Overwrite the full byte length of the file at `path` with filler
    /// zeros and flush; the entry itself stays.
    Overwrite { path: RelPath },
    /// Remove the entry at `path`.
    Unlink { path: RelPath },
}

impl View for DiskOp {
    type V = DiskOpV;

    open spec fn view(&self) -> DiskOpV {
        match self {
            DiskOp::Overwrite { path } => DiskOpV::Overwrite { path: path@ },
            DiskOp::Unlink { path } => DiskOpV::Unlink { path: path@ },
        }
    }
}

/// The path an operation touches.
pub open spec fn op_path(op: DiskOpV) -> Seq<u8> {
    match op {
        DiskOpV::Overwrite { path } => path,
        DiskOpV::Unlink { path } => path,
    }
}

/// The byte content of a file entry; the empty string for anything else.
pub open spec fn file_content(e: EntryV) -> Seq<u8> {
    match e {
        EntryV::File { content } => content,
        EntryV::Dir => Seq::empty(),
        EntryV::Symlink { target: _ } => Seq::empty(),
    }
}

/// The plan that removes every path of `paths`: one unlink per path, and,
/// with `secure` set, an overwrite of the file's bytes placed before each
/// unlink, so that no entry is unlinked while its content is still on disk.
pub fn deletion_ops(paths: &crate::sets::PathSet, secure: bool) -> (ops: Vec<DiskOp>)
    requires
        paths.wf(),
    ensures
        forall|j: int| 0 <= j < ops@.len() ==> is_normalized(op_path(#[trigger] ops@[j]@)),
        secure ==> ops@.len() == 2 * paths.seq().len(),
        secure ==> forall|i: int|
            0 <= i < paths.seq().len() ==> ops@[2 * i]@ == (DiskOpV::Overwrite {
                path: paths.seq()[i],
            }) && ops@[2 * i + 1]@ == (DiskOpV::Unlink { path: paths.seq()[i] }),
        secure ==> forall|j: int|
            0 <= j < ops@.len() && #[trigger] ops@[j]@ is Unlink ==> 0 < j && ops@[j - 1]@ == (
            DiskOpV::Overwrite { path: op_path(ops@[j]@) }),
        !secure ==> ops@.len() == paths.seq().len(),
        !secure ==> forall|i: int|
            0 <= i < paths.seq().len() ==> #[trigger] ops@[i]@ == (DiskOpV::Unlink {
                path: paths.seq()[i],
            }),
{
    let n = paths.len();
    let mut ops: Vec<DiskOp> = Vec::new();
    let mut i: usize = 0;
    while i < n
        invariant
            paths.wf(),
            n == paths.seq().len(),
            i <= n,
            forall|j: int| 0 <= j < ops@.len() ==> is_normalized(op_path(#[trigger] ops@[j]@)),
            secure ==> ops@.len() == 2 * i,
            secure ==> forall|k: int|
                0 <= k < i ==> ops@[2 * k]@ == (DiskOpV::Overwrite { path: paths.seq()[k] })
                    && ops@[2 * k + 1]@ == (DiskOpV::Unlink { path: paths.seq()[k] }),
            secure ==> forall|j: int|
                0 <= j < ops@.len() && #[trigger] ops@[j]@ is Unlink ==> 0 < j && ops@[j - 1]@ == (
                DiskOpV::Overwrite { path: op_path(ops@[j]@) }),
            !secure ==> ops@.len() == i,
            !secure ==> forall|k: int|
                0 <= k < i ==> #[trigger] ops@[k]@ == (DiskOpV::Unlink { path: paths.seq()[k] }),
        decreases n - i,
    {
        let p = paths.get(i);
        if secure {
            ops.push(DiskOp::Overwrite { path: p.duplicate() });
            ops.push(DiskOp::Unlink { path: p.duplicate() });
        } else {
            ops.push(DiskOp::Unlink { path: p.duplicate() });
        }
        i += 1;
    }
    ops
}

fn zero_bytes(n: usize) -> (r: Vec<u8>)
    ensures
        r@ == zeros(n as nat),
{
    let mut out: Vec<u8> = Vec::new();
    let mut i: usize = 0;
    while i < n
        invariant
            i <= n,
            out@ =~= zeros(i as nat),
        decreases n - i,
    {
        out.push(0u8);
        proof {
            assert(out@ =~= zeros((i + 1) as nat));
        }
        i += 1;
    }
    proof {
        assert(out@ =~= zeros(n as nat));
    }
    out
}

/// Applies one disk operation to the tree model: an unlink removes the
/// entry; an overwrite replaces a file's content with filler zeros of the
/// same length and touches nothing else.
pub fn apply_disk_op(t: &mut FsTree, op: &DiskOp)
    requires
        old(t).wf(),
        is_normalized(op_path(op@)),
    ensures
        final(t).wf(),
        op@ matches DiskOpV::Unlink { path } ==> final(t)@ == old(t)@.remove(path),
        op@ matches DiskOpV::Overwrite { path } ==> (if old(t)@.contains_key(path) && old(
            t,
        )@[path] is File {
            final(t)@ == old(t)@.insert(
                path,
                EntryV::File { content: zeros(file_content(old(t)@[path]).len()) },
            )
        } else {
            final(t)@ == old(t)@
        }),
{
    match op {
        DiskOp::Unlink { path } => {
            t.remove(path);
        },
        DiskOp::Overwrite { path } => {
            let len_opt: Option<usize> = match t.get(path) {
                Some(Entry::File { content }) => Some(content.len()),
                _ => None,
            };
            match len_opt {
                Some(len) => {
                    t.upsert(path.duplicate(), Entry::File { content: zero_bytes(len) });
                },
                None => {},
            }
        },
    }
}

} // verus!
