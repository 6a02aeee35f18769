use lumins::engine::{classify, compare_and_copy_files, copy, sort_files, synchronize};
use lumins::flags::make_flags;
use lumins::path::RelPath;
use lumins::sets::PathSet;
use lumins::tree::{Entry, FsTree};

fn rel(s: &str) -> RelPath {
    RelPath::new(s.as_bytes().to_vec()).expect("path should be normalized")
}

fn file(content: &str) -> Entry {
    Entry::File {
        content: content.as_bytes().to_vec(),
    }
}

fn symlink(target: &str) -> Entry {
    Entry::Symlink {
        target: target.as_bytes().to_vec(),
    }
}

fn scenario_src() -> FsTree {
    let mut src = FsTree::new();
    src.upsert(rel("a"), Entry::Dir);
    src.upsert(rel("a/f.txt"), file("x"));
    src.upsert(rel("b.lnk"), symlink("/etc/hosts"));
    src
}

fn scenario_dest() -> FsTree {
    let mut dest = FsTree::new();
    dest.upsert(rel("a"), Entry::Dir);
    dest.upsert(rel("a/f.txt"), file("y"));
    dest.upsert(rel("c.txt"), file("z"));
    dest
}

#[test]
fn scenario_synchronize() {
    let src = scenario_src();
    let dest = scenario_dest();
    let r = synchronize(&src, &dest, 0);
    assert_eq!(r.len(), 3);
    assert_eq!(r.get(&rel("a")), Some(&Entry::Dir));
    assert_eq!(r.get(&rel("a/f.txt")), Some(&file("x")));
    assert_eq!(r.get(&rel("b.lnk")), Some(&symlink("/etc/hosts")));
    assert_eq!(r.get(&rel("c.txt")), None);
}

#[test]
fn scenario_nodelete() {
    let src = scenario_src();
    let dest = scenario_dest();
    let flags = make_flags(false, false, true, false);
    let r = synchronize(&src, &dest, flags);
    assert_eq!(r.len(), 4);
    assert_eq!(r.get(&rel("c.txt")), Some(&file("z")));
    assert_eq!(r.get(&rel("a/f.txt")), Some(&file("x")));
    assert_eq!(r.get(&rel("b.lnk")), Some(&symlink("/etc/hosts")));
}

#[test]
fn second_run_changes_nothing() {
    let src = scenario_src();
    let dest = scenario_dest();
    let first = synchronize(&src, &dest, 0);
    let second = synchronize(&src, &first, 0);
    assert_eq!(second.len(), first.len());
    assert_eq!(second.get(&rel("a")), first.get(&rel("a")));
    assert_eq!(second.get(&rel("a/f.txt")), first.get(&rel("a/f.txt")));
    assert_eq!(second.get(&rel("b.lnk")), first.get(&rel("b.lnk")));
}

#[test]
fn second_run_copies_nothing() {
    let src = scenario_src();
    let dest = scenario_dest();
    let first = synchronize(&src, &dest, 0);
    let work = classify(&src, &first);
    assert_eq!(work.dirs_to_copy.len(), 0);
    assert_eq!(work.files_to_copy.len(), 0);
    assert_eq!(work.symlinks_to_copy.len(), 0);
    assert_eq!(work.symlinks_to_delete.len(), 0);
    assert_eq!(work.files_to_delete.len(), 0);
    assert_eq!(work.dirs_to_delete.len(), 0);
    let mut again = first;
    let copied = compare_and_copy_files(&mut again, &src, &work.files_to_compare);
    assert_eq!(copied.len(), 0);
}

#[test]
fn copy_is_additive_only() {
    let src = scenario_src();
    let dest = scenario_dest();
    let r = copy(&src, &dest);
    assert_eq!(r.len(), 4);
    assert_eq!(r.get(&rel("c.txt")), Some(&file("z")));
    assert_eq!(r.get(&rel("a/f.txt")), Some(&file("x")));
    assert_eq!(r.get(&rel("b.lnk")), Some(&symlink("/etc/hosts")));
}

#[test]
fn change_symlink() {
    let mut src = FsTree::new();
    src.upsert(rel("file"), symlink("../Cargo.lock"));
    let mut dest = FsTree::new();
    dest.upsert(rel("file"), symlink("../Cargo.toml"));
    let r = synchronize(&src, &dest, 0);
    assert_eq!(r.len(), 1);
    assert_eq!(r.get(&rel("file")), Some(&symlink("../Cargo.lock")));
}

#[test]
fn classify_scenario_buckets() {
    let src = scenario_src();
    let dest = scenario_dest();
    let work = classify(&src, &dest);
    assert!(work.symlinks_to_copy.contains(&rel("b.lnk")));
    assert_eq!(work.symlinks_to_copy.len(), 1);
    assert!(work.files_to_delete.contains(&rel("c.txt")));
    assert_eq!(work.files_to_delete.len(), 1);
    assert!(work.files_to_compare.contains(&rel("a/f.txt")));
    assert_eq!(work.files_to_compare.len(), 1);
    assert_eq!(work.files_to_copy.len(), 0);
    assert_eq!(work.dirs_to_copy.len(), 0);
    assert_eq!(work.dirs_to_delete.len(), 0);
}

#[test]
fn nested_dirs_deleted_deepest_first() {
    let mut dirs = PathSet::new();
    dirs.insert(rel("a"));
    dirs.insert(rel("a/b"));
    dirs.insert(rel("a/b/c"));
    dirs.insert(rel("d"));
    dirs.insert(rel("b"));
    let sorted = sort_files(&dirs);
    let got: Vec<&[u8]> = sorted.iter().map(|p| p.as_bytes().as_slice()).collect();
    let want: Vec<&[u8]> = vec![b"a/b/c", b"a/b", b"d", b"b", b"a"];
    assert_eq!(got, want);
}

#[test]
fn dir_replaced_by_file_is_dropped_when_deleting() {
    let mut src = FsTree::new();
    src.upsert(rel("a"), file("now a file"));
    let mut dest = FsTree::new();
    dest.upsert(rel("a"), Entry::Dir);
    let r = synchronize(&src, &dest, 0);
    assert_eq!(r.get(&rel("a")), None);
    let flags = make_flags(false, false, true, false);
    let kept = synchronize(&src, &dest, flags);
    assert_eq!(kept.get(&rel("a")), Some(&file("now a file")));
}

#[test]
fn kind_change_file_to_dir() {
    let mut src = FsTree::new();
    src.upsert(rel("a"), Entry::Dir);
    let mut dest = FsTree::new();
    dest.upsert(rel("a"), file("old"));
    let r = synchronize(&src, &dest, 0);
    assert_eq!(r.len(), 1);
    assert_eq!(r.get(&rel("a")), Some(&Entry::Dir));
}

#[test]
fn synchronize_empty_source_empties_dest() {
    let src = FsTree::new();
    let dest = scenario_dest();
    let r = synchronize(&src, &dest, 0);
    assert_eq!(r.len(), 0);
    let flags = make_flags(false, false, true, false);
    let kept = synchronize(&src, &dest, flags);
    assert_eq!(kept.len(), 3);
}

#[test]
fn nested_extra_dirs_removed_bottom_up() {
    let src = FsTree::new();
    let mut dest = FsTree::new();
    dest.upsert(rel("a"), Entry::Dir);
    dest.upsert(rel("a/b"), Entry::Dir);
    dest.upsert(rel("a/b/f.txt"), file("data"));
    let work = classify(&src, &dest);
    assert!(work.files_to_delete.contains(&rel("a/b/f.txt")));
    let order: Vec<&[u8]> = work
        .dirs_to_delete
        .iter()
        .map(|p| p.as_bytes().as_slice())
        .collect();
    let want: Vec<&[u8]> = vec![b"a/b", b"a"];
    assert_eq!(order, want);
    let r = synchronize(&src, &dest, 0);
    assert_eq!(r.len(), 0);
}
