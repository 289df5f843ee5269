//! End-to-end scenarios: a directory tree held in memory is scanned through
//! the step-by-step walk, then diffed, planned and summarised.

use runesync::diff::{diff_scans, Diff};
use runesync::plan::{plan_sync, OpSummary, SyncOp};
use runesync::scan::Scan;
use runesync::walk::{not_a_directory_message, scan_start, DirChild, EntryKind, ScanStart, ScanWalk, WalkStep};
use std::path::Path;

fn s(x: &str) -> String {
    String::from(x)
}

/// A directory tree held in memory: the listing of each directory and the
/// contents of each file, by path relative to the root.
struct Tree {
    dirs: Vec<(String, Vec<(String, EntryKind)>)>,
    files: Vec<(String, Vec<u8>)>,
}

impl Tree {
    fn new() -> Tree {
        Tree { dirs: vec![(s(""), vec![])], files: vec![] }
    }

    fn listing(&mut self, dir: &str) -> &mut Vec<(String, EntryKind)> {
        if !self.dirs.iter().any(|(d, _)| d == dir) {
            self.dirs.push((s(dir), vec![]));
        }
        &mut self.dirs.iter_mut().find(|(d, _)| d == dir).unwrap().1
    }

    fn add(&mut self, parent: &str, name: &str, kind: EntryKind) {
        let listing = self.listing(parent);
        if !listing.iter().any(|(n, _)| n == name) {
            listing.push((s(name), kind));
        }
    }

    /// Write `content` at relative path `rel`, creating its directories.
    fn write_file(&mut self, rel: &str, content: &str) {
        let parts: Vec<&str> = rel.split('/').collect();
        let mut dir = String::new();
        for part in &parts[..parts.len() - 1] {
            self.add(&dir.clone(), part, EntryKind::Dir);
            dir = if dir.is_empty() { s(part) } else { format!("{dir}/{part}") };
            self.listing(&dir.clone());
        }
        self.add(&dir, parts[parts.len() - 1], EntryKind::File);
        self.files.retain(|(f, _)| f != rel);
        self.files.push((s(rel), content.as_bytes().to_vec()));
    }

    fn symlink(&mut self, rel: &str) {
        self.add("", rel, EntryKind::Symlink);
    }

    /// Drive a scan of the tree to its end.
    fn scan(&self) -> Scan {
        let mut walk = ScanWalk::new();
        loop {
            match walk.next_step() {
                WalkStep::Done => return walk.into_scan(),
                WalkStep::ListDir { dir } => {
                    let listing = &self.dirs.iter().find(|(d, _)| *d == dir).unwrap().1;
                    let children =
                        listing.iter().map(|(n, k)| DirChild { name: n.clone(), kind: *k }).collect();
                    walk.add_listing(&dir, children);
                }
                WalkStep::ReadFile { path } => {
                    let data = &self.files.iter().find(|(f, _)| *f == path).unwrap().1;
                    walk.add_file(path, data.len() as u64, data);
                }
            }
        }
    }
}

#[test]
fn scan_empty_directory() {
    let src = Tree::new();
    let scan = src.scan();
    assert!(scan.is_empty());
}

#[test]
fn scan_finds_files() {
    let mut src = Tree::new();
    src.write_file("a.txt", "hello");
    src.write_file("sub/b.txt", "world");

    let scan = src.scan();
    assert_eq!(scan.len(), 2);
    assert!(scan.contains_key(&s("a.txt")));
    assert!(scan.contains_key(&s("sub/b.txt")));
}

#[test]
fn scan_nonexistent_returns_empty() {
    let root = Path::new("/nonexistent/path/that/does/not/exist");
    let start = scan_start(root.exists(), root.is_dir());
    assert_eq!(start, ScanStart::Empty);
    let scan = Scan::new();
    assert!(scan.is_empty());
}

#[test]
fn scan_file_returns_error() {
    let start = scan_start(true, false);
    assert_eq!(start, ScanStart::NotADirectory);
    let err = not_a_directory_message(&s("/tmp/runesync-test-scan-file/src/not-a-dir.txt"));
    assert!(err.contains("not a directory"), "unexpected error: {err}");
}

#[test]
fn scan_skips_symlinks() {
    let mut src = Tree::new();
    src.write_file("real.txt", "real content");
    src.symlink("link.txt");

    let scan = src.scan();
    assert_eq!(scan.len(), 1);
    assert!(scan.contains_key(&s("real.txt")));
    assert!(!scan.contains_key(&s("link.txt")));
}

#[test]
fn scan_deterministic_order() {
    let mut src = Tree::new();
    src.write_file("c.txt", "c");
    src.write_file("a.txt", "a");
    src.write_file("b.txt", "b");

    let keys1 = src.scan().keys();
    let keys2 = src.scan().keys();
    assert_eq!(keys1, keys2);

    // Verify sorted order.
    assert_eq!(keys1[0], s("a.txt"));
    assert_eq!(keys1[1], s("b.txt"));
    assert_eq!(keys1[2], s("c.txt"));
}

#[test]
fn diff_real_directories() {
    let mut src = Tree::new();
    let mut dst = Tree::new();
    src.write_file("same.txt", "same content");
    src.write_file("new.txt", "new file");
    src.write_file("changed.txt", "version 2");
    dst.write_file("same.txt", "same content");
    dst.write_file("changed.txt", "version 1");
    dst.write_file("extra.txt", "only in dst");

    let diffs = diff_scans(&src.scan(), &dst.scan());
    assert_eq!(diffs.len(), 4);

    // Sorted by path: changed.txt, extra.txt, new.txt, same.txt
    assert!(matches!(&diffs[0], Diff::ContentDiffers { path } if path == "changed.txt"));
    assert!(matches!(&diffs[1], Diff::MissingInSource { path } if path == "extra.txt"));
    assert!(matches!(&diffs[2], Diff::MissingInDest { path } if path == "new.txt"));
    assert!(matches!(&diffs[3], Diff::Identical { path } if path == "same.txt"));
}

#[test]
fn plan_no_delete() {
    let mut src = Tree::new();
    let mut dst = Tree::new();
    src.write_file("new.txt", "new");
    dst.write_file("extra.txt", "extra");

    let diffs = diff_scans(&src.scan(), &dst.scan());
    let ops = plan_sync(diffs, false);

    assert_eq!(ops.len(), 2);
    assert!(matches!(&ops[0], SyncOp::Skip { path, .. } if path == "extra.txt"));
    assert!(matches!(&ops[1], SyncOp::Copy { path } if path == "new.txt"));
}

#[test]
fn plan_with_delete() {
    let mut src = Tree::new();
    let mut dst = Tree::new();
    src.write_file("new.txt", "new");
    dst.write_file("extra.txt", "extra");

    let diffs = diff_scans(&src.scan(), &dst.scan());
    let ops = plan_sync(diffs, true);

    assert_eq!(ops.len(), 2);
    assert!(matches!(&ops[0], SyncOp::Delete { path } if path == "extra.txt"));
    assert!(matches!(&ops[1], SyncOp::Copy { path } if path == "new.txt"));
}

#[test]
fn summary_real_scenario() {
    let mut src = Tree::new();
    let mut dst = Tree::new();
    src.write_file("same.txt", "same");
    src.write_file("new.txt", "new");
    dst.write_file("same.txt", "same");
    dst.write_file("extra.txt", "extra");

    let diffs = diff_scans(&src.scan(), &dst.scan());
    let ops = plan_sync(diffs, false);
    let summary = OpSummary::from_ops(&ops);

    assert_eq!(summary.copies, 1);
    assert_eq!(summary.deletes, 0);
    assert_eq!(summary.skips, 2); // same.txt (identical) + extra.txt (no --delete)
    assert!(!summary.in_sync());
}

#[test]
fn summary_in_sync_scenario() {
    let mut src = Tree::new();
    let mut dst = Tree::new();
    src.write_file("a.txt", "aaa");
    dst.write_file("a.txt", "aaa");

    let diffs = diff_scans(&src.scan(), &dst.scan());
    let ops = plan_sync(diffs, false);
    let summary = OpSummary::from_ops(&ops);

    assert!(summary.in_sync());
    assert_eq!(summary.copies, 0);
    assert_eq!(summary.deletes, 0);
    assert_eq!(summary.skips, 1);
}

#[test]
fn content_hash_detects_changes() {
    let mut src = Tree::new();
    src.write_file("file.txt", "version 1");
    let hash1 = src.scan().get(&s("file.txt")).unwrap().content_hash;

    src.write_file("file.txt", "version 2");
    let hash2 = src.scan().get(&s("file.txt")).unwrap().content_hash;

    assert_ne!(hash1, hash2);
}

#[test]
fn content_hash_same_for_same_content() {
    let mut src = Tree::new();
    src.write_file("a.txt", "identical content");
    src.write_file("b.txt", "identical content");

    let scan = src.scan();
    let hash_a = scan.get(&s("a.txt")).unwrap().content_hash;
    let hash_b = scan.get(&s("b.txt")).unwrap().content_hash;

    assert_eq!(hash_a, hash_b);
}

#[test]
fn scan_nested_directories_in_path_order() {
    let mut src = Tree::new();
    src.write_file("a.txt", "1");
    src.write_file("a/b/c.txt", "2");
    src.write_file("a/a.txt", "3");
    assert_eq!(src.scan().keys(), vec![s("a/a.txt"), s("a/b/c.txt"), s("a.txt")]);
}
