use lumins::deleter::{apply_disk_op, deletion_ops, DiskOp};
use lumins::flags::{contains_flag, make_flags, Flag};
use lumins::path::RelPath;
use lumins::sets::PathSet;
use lumins::tree::{Entry, FsTree};

fn rel(s: &str) -> RelPath {
    RelPath::new(s.as_bytes().to_vec()).expect("path should be normalized")
}

#[test]
fn flag_bits_match_mask() {
    assert!(contains_flag(1, Flag::CopyOnly));
    assert!(contains_flag(2, Flag::NoDelete));
    assert!(contains_flag(4, Flag::Secure));
    assert!(contains_flag(8, Flag::Verbose));
    assert!(!contains_flag(0, Flag::CopyOnly));
    assert!(!contains_flag(13, Flag::NoDelete));
    assert!(contains_flag(13, Flag::CopyOnly));
    assert!(contains_flag(13, Flag::Secure));
    assert!(contains_flag(13, Flag::Verbose));
}

#[test]
fn make_flags_round_trip() {
    let flags = make_flags(true, false, true, false);
    assert!(contains_flag(flags, Flag::CopyOnly));
    assert!(!contains_flag(flags, Flag::Verbose));
    assert!(contains_flag(flags, Flag::NoDelete));
    assert!(!contains_flag(flags, Flag::Secure));
    assert_eq!(make_flags(false, false, false, false), 0);
    assert_eq!(make_flags(true, true, true, true), 15);
}

#[test]
fn relpath_accepts_normalized() {
    for ok in ["a", "a/b.txt", ".hidden", "a.b", "...", "a/..b", "x/y/z"] {
        assert!(RelPath::new(ok.as_bytes().to_vec()).is_some(), "{ok}");
    }
}

#[test]
fn relpath_rejects_unnormalized() {
    for bad in [
        "", "/a", "a/", "a//b", ".", "..", "a/./b", "a/../b", "a/.", "./a", "../a", "a/..",
    ] {
        assert!(RelPath::new(bad.as_bytes().to_vec()).is_none(), "{bad}");
    }
}

#[test]
fn path_set_difference_and_intersection() {
    let mut a = PathSet::new();
    a.insert(rel("x"));
    a.insert(rel("y"));
    a.insert(rel("z"));
    a.insert(rel("y"));
    assert_eq!(a.len(), 3);
    let mut b = PathSet::new();
    b.insert(rel("y"));
    b.insert(rel("w"));
    let d = a.difference(&b);
    assert_eq!(d.len(), 2);
    assert!(d.contains(&rel("x")));
    assert!(d.contains(&rel("z")));
    assert!(!d.contains(&rel("y")));
    let i = a.intersection(&b);
    assert_eq!(i.len(), 1);
    assert!(i.contains(&rel("y")));
}

#[test]
fn tree_upsert_get_remove() {
    let mut t = FsTree::new();
    assert_eq!(t.len(), 0);
    t.upsert(
        rel("f"),
        Entry::File {
            content: b"abc".to_vec(),
        },
    );
    t.upsert(rel("d"), Entry::Dir);
    t.upsert(
        rel("f"),
        Entry::File {
            content: b"xyz".to_vec(),
        },
    );
    assert_eq!(t.len(), 2);
    assert_eq!(
        t.get(&rel("f")),
        Some(&Entry::File {
            content: b"xyz".to_vec()
        })
    );
    t.remove(&rel("f"));
    assert_eq!(t.get(&rel("f")), None);
    assert_eq!(t.len(), 1);
}

#[test]
fn secure_delete_overwrites_before_unlink() {
    let mut paths = PathSet::new();
    paths.insert(rel("c.txt"));
    let ops = deletion_ops(&paths, true);
    assert_eq!(ops.len(), 2);
    assert!(matches!(&ops[0], DiskOp::Overwrite { path } if path.as_bytes() == b"c.txt"));
    assert!(matches!(&ops[1], DiskOp::Unlink { path } if path.as_bytes() == b"c.txt"));

    let mut t = FsTree::new();
    t.upsert(
        rel("c.txt"),
        Entry::File {
            content: b"z".to_vec(),
        },
    );
    apply_disk_op(&mut t, &ops[0]);
    assert_eq!(
        t.get(&rel("c.txt")),
        Some(&Entry::File {
            content: vec![0u8]
        })
    );
    apply_disk_op(&mut t, &ops[1]);
    assert_eq!(t.get(&rel("c.txt")), None);
}

#[test]
fn plain_delete_has_no_overwrite() {
    let mut paths = PathSet::new();
    paths.insert(rel("c.txt"));
    paths.insert(rel("d.txt"));
    let ops = deletion_ops(&paths, false);
    assert_eq!(ops.len(), 2);
    assert!(ops
        .iter()
        .all(|op| matches!(op, DiskOp::Unlink { .. })));
}
