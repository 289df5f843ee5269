use runesync::diff::{diff_scans, Diff};
use runesync::hash::{fnv1a_hash, FNV_OFFSET};
use runesync::plan::{plan_sync, OpSummary, SyncOp};
use runesync::scan::{FileEntry, Scan};

fn entry(path: &str, size: u64, hash: u64) -> FileEntry {
    FileEntry {
        path: String::from(path),
        size,
        content_hash: hash,
    }
}

fn make_scan(entries: Vec<(&str, u64, u64)>) -> Scan {
    Scan::from_entries(entries.into_iter().map(|(p, s, h)| entry(p, s, h)).collect())
}

// -- FNV-1a hash tests ---------------------------------------------------

#[test]
fn fnv1a_empty() {
    assert_eq!(fnv1a_hash(b""), FNV_OFFSET);
}

#[test]
fn fnv1a_deterministic() {
    let h1 = fnv1a_hash(b"hello");
    let h2 = fnv1a_hash(b"hello");
    assert_eq!(h1, h2);
}

#[test]
fn fnv1a_different_inputs() {
    assert_ne!(fnv1a_hash(b"hello"), fnv1a_hash(b"world"));
}

// -- diff_scans tests ----------------------------------------------------

#[test]
fn diff_missing_in_dest() {
    let src = make_scan(vec![("file.txt", 100, 111)]);
    let dst = make_scan(vec![]);
    let diffs = diff_scans(&src, &dst);
    assert_eq!(diffs.len(), 1);
    assert!(matches!(diffs[0], Diff::MissingInDest { .. }));
}

#[test]
fn diff_missing_in_source() {
    let src = make_scan(vec![]);
    let dst = make_scan(vec![("old.txt", 50, 222)]);
    let diffs = diff_scans(&src, &dst);
    assert_eq!(diffs.len(), 1);
    assert!(matches!(diffs[0], Diff::MissingInSource { .. }));
}

#[test]
fn diff_identical() {
    let src = make_scan(vec![("file.txt", 100, 111)]);
    let dst = make_scan(vec![("file.txt", 100, 111)]);
    let diffs = diff_scans(&src, &dst);
    assert_eq!(diffs.len(), 1);
    assert!(matches!(diffs[0], Diff::Identical { .. }));
}

#[test]
fn diff_content_differs_by_hash() {
    let src = make_scan(vec![("file.txt", 100, 111)]);
    let dst = make_scan(vec![("file.txt", 100, 999)]);
    let diffs = diff_scans(&src, &dst);
    assert_eq!(diffs.len(), 1);
    assert!(matches!(diffs[0], Diff::ContentDiffers { .. }));
}

#[test]
fn diff_content_differs_by_size() {
    let src = make_scan(vec![("file.txt", 100, 111)]);
    let dst = make_scan(vec![("file.txt", 200, 111)]);
    let diffs = diff_scans(&src, &dst);
    assert_eq!(diffs.len(), 1);
    assert!(matches!(diffs[0], Diff::ContentDiffers { .. }));
}

#[test]
fn diff_sorted_output() {
    let src = make_scan(vec![("b.txt", 1, 1), ("a.txt", 1, 1)]);
    let dst = make_scan(vec![]);
    let diffs = diff_scans(&src, &dst);
    assert_eq!(diffs.len(), 2);
    // Should be sorted by path.
    if let Diff::MissingInDest { path } = &diffs[0] {
        assert_eq!(path, &String::from("a.txt"));
    } else {
        panic!("expected MissingInDest");
    }
}

// -- plan_sync tests -----------------------------------------------------

#[test]
fn plan_copy_for_new() {
    let diffs = vec![Diff::MissingInDest {
        path: String::from("new.txt"),
    }];
    let ops = plan_sync(diffs, false);
    assert_eq!(ops.len(), 1);
    assert!(matches!(ops[0], SyncOp::Copy { .. }));
}

#[test]
fn plan_copy_for_changed() {
    let diffs = vec![Diff::ContentDiffers {
        path: String::from("changed.txt"),
    }];
    let ops = plan_sync(diffs, false);
    assert_eq!(ops.len(), 1);
    assert!(matches!(ops[0], SyncOp::Copy { .. }));
}

#[test]
fn plan_skip_for_identical() {
    let diffs = vec![Diff::Identical {
        path: String::from("same.txt"),
    }];
    let ops = plan_sync(diffs, false);
    assert_eq!(ops.len(), 1);
    assert!(matches!(ops[0], SyncOp::Skip { .. }));
}

#[test]
fn plan_skip_for_extra_without_delete() {
    let diffs = vec![Diff::MissingInSource {
        path: String::from("old.txt"),
    }];
    let ops = plan_sync(diffs, false);
    assert_eq!(ops.len(), 1);
    assert!(matches!(ops[0], SyncOp::Skip { .. }));
}

#[test]
fn plan_delete_for_extra_with_delete() {
    let diffs = vec![Diff::MissingInSource {
        path: String::from("old.txt"),
    }];
    let ops = plan_sync(diffs, true);
    assert_eq!(ops.len(), 1);
    assert!(matches!(ops[0], SyncOp::Delete { .. }));
}

// -- OpSummary tests -----------------------------------------------------

#[test]
fn summary_counts() {
    let ops = vec![
        SyncOp::Copy {
            path: String::from("a"),
        },
        SyncOp::Copy {
            path: String::from("b"),
        },
        SyncOp::Delete {
            path: String::from("c"),
        },
        SyncOp::Skip {
            path: String::from("d"),
            reason: "identical".into(),
        },
    ];
    let s = OpSummary::from_ops(&ops);
    assert_eq!(s.copies, 2);
    assert_eq!(s.deletes, 1);
    assert_eq!(s.skips, 1);
    assert!(!s.in_sync());
}

#[test]
fn summary_in_sync() {
    let ops = vec![SyncOp::Skip {
        path: String::from("a"),
        reason: "identical".into(),
    }];
    let s = OpSummary::from_ops(&ops);
    assert!(s.in_sync());
}

// -- Display tests -------------------------------------------------------

#[test]
fn diff_display() {
    let d = Diff::MissingInDest {
        path: String::from("foo/bar.txt"),
    };
    assert_eq!(d.display_string(), "NEW      foo/bar.txt");
}

#[test]
fn syncop_display() {
    let op = SyncOp::Copy {
        path: String::from("a.txt"),
    };
    assert_eq!(op.display_string(), "COPY     a.txt");
}

#[test]
fn summary_display() {
    let s = OpSummary {
        copies: 3,
        deletes: 1,
        skips: 5,
    };
    assert_eq!(s.display_string(), "3 to copy, 1 to delete, 5 skipped");
}
