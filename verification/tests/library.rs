use runesync::apply::{join_paths, op_action, path_components, starts_with_path, OpAction};
use runesync::cli::{
    check_in_sync, parse_command, parse_sync_args, plan_step, sync_step, validate_source, ArgError, Command,
    ParsedArgs, SourceError, Step,
};
use runesync::diff::{count_identical, diff_scans, Diff, DiffKind};
use runesync::hash::{fnv1a_hash, FNV_OFFSET, FNV_PRIME};
use runesync::path_order::{compare_paths, is_entry_name, is_relative_path, PathOrder};
use runesync::plan::{compute_plan, plan_sync, OpKind, OpSummary, SyncOp};
use runesync::scan::{FileEntry, Scan};
use runesync::text::decimal_string;
use runesync::walk::{not_a_directory_message, scan_start, DirChild, EntryKind, ScanStart, ScanWalk, WalkStep};

fn s(x: &str) -> String {
    String::from(x)
}

fn entry(path: &str, size: u64, hash: u64) -> FileEntry {
    FileEntry { path: s(path), size, content_hash: hash }
}

fn scan_of(entries: &[(&str, u64, u64)]) -> Scan {
    Scan::from_entries(entries.iter().map(|(p, z, h)| entry(p, *z, *h)).collect())
}

fn args(words: &[&str]) -> Vec<String> {
    words.iter().map(|w| s(w)).collect()
}

// -- hashing ---------------------------------------------------------------

#[test]
fn fnv1a_single_byte_value() {
    let expected = (FNV_OFFSET ^ 0x61).wrapping_mul(FNV_PRIME);
    assert_eq!(fnv1a_hash(b"a"), expected);
    assert_eq!(fnv1a_hash(b"a"), 0xaf63dc4c8601ec8c);
}

#[test]
fn fnv1a_known_vector() {
    assert_eq!(fnv1a_hash(b"foobar"), 0x85944171f73967e8);
}

// -- path order --------------------------------------------------------------

#[test]
fn path_order_separator_first() {
    // A directory's contents come before a sibling that extends its name.
    assert_eq!(compare_paths(&s("a/b"), &s("a.txt")), PathOrder::Before);
    assert_eq!(compare_paths(&s("a"), &s("a/b")), PathOrder::Before);
    assert_eq!(compare_paths(&s("ab"), &s("a/c")), PathOrder::After);
    assert_eq!(compare_paths(&s("x"), &s("x")), PathOrder::Same);
}

#[test]
fn relative_path_shapes() {
    for ok in ["a", "a.txt", "dir/b.txt", ".hidden/x", "a/..b", "...", "a/.git/c"] {
        assert!(is_relative_path(&s(ok)), "{ok}");
    }
    for bad in ["", "/a", "a/", "a//b", ".", "..", "./a", "a/./b", "a/../b", "a/.", "a/.."] {
        assert!(!is_relative_path(&s(bad)), "{bad}");
    }
}

#[test]
fn keys_compare_as_components() {
    let keys = ["a", "a/b", "a.b", "ab", "a/b/c", ".x/y", "b"];
    for p in keys {
        for q in keys {
            assert!(is_relative_path(&s(p)) && is_relative_path(&s(q)));
            assert_eq!(p == q, path_components(&s(p)) == path_components(&s(q)), "{p} {q}");
        }
    }
    // Keys are ordered as their component lists are.
    for p in keys {
        for q in keys {
            let before = compare_paths(&s(p), &s(q)) == PathOrder::Before;
            assert_eq!(before, path_components(&s(p)) < path_components(&s(q)), "{p} {q}");
        }
    }
    // Spellings that name the same path are not keys.
    assert_eq!(path_components(&s("a/./b")), path_components(&s("a/b")));
    assert!(!is_relative_path(&s("a/./b")));
}

#[test]
fn entry_name_shapes() {
    for ok in ["a", ".hidden", "...", "..x", "a b"] {
        assert!(is_entry_name(&s(ok)), "{ok}");
    }
    for bad in ["", ".", "..", "a/b", "/"] {
        assert!(!is_entry_name(&s(bad)), "{bad}");
    }
}

// -- scans -------------------------------------------------------------------

#[test]
fn scan_insert_replaces_and_sorts() {
    let mut scan = Scan::new();
    assert!(scan.is_empty());
    scan.insert(entry("c.txt", 1, 1));
    scan.insert(entry("a.txt", 2, 2));
    scan.insert(entry("b.txt", 3, 3));
    scan.insert(entry("a.txt", 9, 9));
    assert_eq!(scan.len(), 3);
    assert_eq!(scan.keys(), args(&["a.txt", "b.txt", "c.txt"]));
    assert_eq!(scan.get(&s("a.txt")).unwrap().size, 9);
    assert!(scan.contains_key(&s("b.txt")));
    assert!(!scan.contains_key(&s("d.txt")));
    assert!(scan.get(&s("d.txt")).is_none());
}

#[test]
fn scan_from_entries_later_wins() {
    let scan = scan_of(&[("x", 1, 1), ("y", 2, 2), ("x", 3, 3)]);
    assert_eq!(scan.len(), 2);
    assert_eq!(scan.get(&s("x")).unwrap().content_hash, 3);
    assert_eq!(scan.entry(0).path, "x");
}

#[test]
fn scan_keys_component_order() {
    let scan = scan_of(&[("a.txt", 1, 1), ("a/b.txt", 1, 1), ("a", 1, 1)]);
    assert_eq!(scan.keys(), args(&["a", "a/b.txt", "a.txt"]));
}

// -- diffs -------------------------------------------------------------------

#[test]
fn diff_mixed_sorted_and_classified() {
    let src = scan_of(&[("same.txt", 1, 1), ("new.txt", 2, 2), ("changed.txt", 3, 3)]);
    let dst = scan_of(&[("same.txt", 1, 1), ("changed.txt", 3, 4), ("extra.txt", 5, 5)]);
    let diffs = diff_scans(&src, &dst);
    let got: Vec<(DiffKind, String)> = diffs.iter().map(|d| (d.kind(), d.path().clone())).collect();
    assert_eq!(
        got,
        vec![
            (DiffKind::ContentDiffers, s("changed.txt")),
            (DiffKind::MissingInSource, s("extra.txt")),
            (DiffKind::MissingInDest, s("new.txt")),
            (DiffKind::Identical, s("same.txt")),
        ]
    );
    assert_eq!(count_identical(&diffs), 1);
}

#[test]
fn diff_swap_sides_example() {
    let a = scan_of(&[("only_a", 1, 1), ("both", 2, 2)]);
    let b = scan_of(&[("only_b", 1, 1), ("both", 2, 3)]);
    let ab: Vec<DiffKind> = diff_scans(&a, &b).iter().map(|d| d.kind()).collect();
    let ba: Vec<DiffKind> = diff_scans(&b, &a).iter().map(|d| d.kind()).collect();
    assert_eq!(ab, vec![DiffKind::ContentDiffers, DiffKind::MissingInDest, DiffKind::MissingInSource]);
    assert_eq!(ba, vec![DiffKind::ContentDiffers, DiffKind::MissingInSource, DiffKind::MissingInDest]);
}

#[test]
fn diff_of_equal_scans_is_all_identical() {
    let a = scan_of(&[("p", 1, 1), ("q/r", 2, 2)]);
    let b = scan_of(&[("q/r", 2, 2), ("p", 1, 1)]);
    let diffs = diff_scans(&a, &b);
    assert_eq!(count_identical(&diffs), diffs.len());
    assert_eq!(diffs.len(), 2);
}

#[test]
fn diff_empty_scans() {
    assert!(diff_scans(&Scan::new(), &Scan::new()).is_empty());
}

#[test]
fn diff_display_all_kinds() {
    assert_eq!(Diff::MissingInSource { path: s("x") }.display_string(), "EXTRA    x");
    assert_eq!(Diff::ContentDiffers { path: s("x") }.display_string(), "CHANGED  x");
    assert_eq!(Diff::Identical { path: s("x") }.display_string(), "SAME     x");
}

// -- plans -------------------------------------------------------------------

#[test]
fn plan_reasons_and_display() {
    let ops = plan_sync(
        vec![Diff::Identical { path: s("a") }, Diff::MissingInSource { path: s("b") }],
        false,
    );
    assert_eq!(ops[0], SyncOp::Skip { path: s("a"), reason: s("identical") });
    assert_eq!(
        ops[1],
        SyncOp::Skip { path: s("b"), reason: s("exists in dest only (use --delete to remove)") }
    );
    assert_eq!(ops[0].display_string(), "SKIP     a (identical)");
    assert_eq!(SyncOp::Delete { path: s("z") }.display_string(), "DELETE   z");
    assert_eq!(ops[1].kind(), OpKind::Skip);
    assert_eq!(ops[1].path(), "b");
}

#[test]
fn compute_plan_no_delete_never_deletes() {
    let src = scan_of(&[("new.txt", 1, 1)]);
    let dst = scan_of(&[("extra.txt", 1, 1)]);
    let ops = compute_plan(&src, &dst, false);
    assert_eq!(ops.len(), 2);
    assert!(matches!(&ops[0], SyncOp::Skip { path, .. } if path == "extra.txt"));
    assert!(matches!(&ops[1], SyncOp::Copy { path } if path == "new.txt"));
    let ops = compute_plan(&src, &dst, true);
    assert!(matches!(&ops[0], SyncOp::Delete { path } if path == "extra.txt"));
}

#[test]
fn summary_of_plan_counts_every_op() {
    let src = scan_of(&[("same", 1, 1), ("new", 1, 1), ("changed", 1, 1)]);
    let dst = scan_of(&[("same", 1, 1), ("changed", 2, 1), ("extra", 1, 1)]);
    let ops = compute_plan(&src, &dst, true);
    let summary = OpSummary::from_ops(&ops);
    assert_eq!(summary, OpSummary { copies: 2, deletes: 1, skips: 1 });
    assert_eq!(summary.copies + summary.deletes + summary.skips, ops.len());
    assert!(!summary.in_sync());
}

#[test]
fn plan_in_sync_when_equal() {
    let src = scan_of(&[("a", 1, 1)]);
    let ops = compute_plan(&src, &scan_of(&[("a", 1, 1)]), true);
    assert!(OpSummary::from_ops(&ops).in_sync());
    // Without --delete, extra destination files do not count as changes.
    let ops = compute_plan(&src, &scan_of(&[("a", 1, 1), ("b", 1, 1)]), false);
    assert!(OpSummary::from_ops(&ops).in_sync());
}

#[test]
fn applying_plan_makes_dest_equal_source() {
    let src = scan_of(&[("a", 1, 10), ("b/c", 2, 20)]);
    let dst = scan_of(&[("a", 1, 11), ("d", 3, 30)]);
    let ops = compute_plan(&src, &dst, true);
    let mut after = Scan::new();
    for key in dst.keys() {
        let deleted = ops.iter().any(|op| matches!(op, SyncOp::Delete { path } if *path == key));
        if !deleted {
            after.insert(dst.get(&key).unwrap().clone());
        }
    }
    for op in &ops {
        if let SyncOp::Copy { path } = op {
            after.insert(src.get(path).unwrap().clone());
        }
    }
    let diffs = diff_scans(&src, &after);
    assert_eq!(count_identical(&diffs), diffs.len());
    assert_eq!(after.keys(), src.keys());
}

#[test]
fn summary_display_zero() {
    let s0 = OpSummary { copies: 0, deletes: 0, skips: 10 };
    assert_eq!(s0.display_string(), "0 to copy, 0 to delete, 10 skipped");
    assert_eq!(decimal_string(0), "0");
    assert_eq!(decimal_string(1234567890), "1234567890");
}

// -- command line --------------------------------------------------------------

#[test]
fn parse_args_paths_and_flags() {
    let p = parse_sync_args(&args(&["src", "--delete", "dst"]), "plan").unwrap();
    assert_eq!(p.source, "src");
    assert_eq!(p.dest, "dst");
    assert!(p.delete);
    assert!(!p.execute);
    let p = parse_sync_args(&args(&["--execute", "a", "b"]), "sync").unwrap();
    assert!(p.execute && !p.delete);
}

#[test]
fn parse_args_unknown_flag() {
    let e = parse_sync_args(&args(&["a", "--force", "b"]), "sync").unwrap_err();
    assert_eq!(e, ArgError::UnknownFlag { flag: s("--force") });
    assert_eq!(e.message(), "unknown flag '--force'");
}

#[test]
fn parse_args_wrong_count() {
    let e = parse_sync_args(&args(&["a"]), "check").unwrap_err();
    assert_eq!(e, ArgError::WrongPathCount { cmd: s("check") });
    assert_eq!(
        e.message(),
        "'check' requires exactly 2 paths: <source> <dest>\nrun 'runesync --help' for usage"
    );
    // A single dash is a path, not a flag.
    assert!(parse_sync_args(&args(&["-x", "a", "b"]), "plan").is_err());
}

#[test]
fn parse_args_help_first_stop_wins() {
    assert_eq!(parse_sync_args(&args(&["-h", "--bogus"]), "plan"), Err(ArgError::HelpRequested));
    assert_eq!(
        parse_sync_args(&args(&["--bogus", "--help"]), "plan"),
        Err(ArgError::UnknownFlag { flag: s("--bogus") })
    );
}

#[test]
fn command_words() {
    assert_eq!(parse_command(&[]), Command::Missing);
    assert_eq!(parse_command(&args(&["plan", "x"])), Command::Plan);
    assert_eq!(parse_command(&args(&["sync"])), Command::Sync);
    assert_eq!(parse_command(&args(&["check"])), Command::Check);
    assert_eq!(parse_command(&args(&["help"])), Command::Help);
    assert_eq!(parse_command(&args(&["-V"])), Command::Version);
    assert_eq!(parse_command(&args(&["push"])), Command::Unknown);
}

#[test]
fn source_validation() {
    assert_eq!(validate_source(true, true), Ok(()));
    assert_eq!(validate_source(false, false), Err(SourceError::Missing));
    assert_eq!(validate_source(true, false), Err(SourceError::NotADirectory));
    assert_eq!(SourceError::Missing.message(&s("/x")), "source does not exist: /x");
    assert_eq!(SourceError::NotADirectory.message(&s("f")), "source is not a directory: f");
}

// -- executing -------------------------------------------------------------------

#[test]
fn join_and_components() {
    assert_eq!(join_paths(&s("dest"), &s("a/b.txt")), "dest/a/b.txt");
    assert_eq!(join_paths(&s("dest/"), &s("a")), "dest/a");
    assert_eq!(join_paths(&s(""), &s("a")), "a");
    assert_eq!(join_paths(&s("dest"), &s("/etc/passwd")), "/etc/passwd");
    assert_eq!(path_components(&s("a//./b/")), args(&["a", "b"]));
    assert_eq!(path_components(&s("./x")), args(&[".", "x"]));
    assert_eq!(path_components(&s("/")), args(&["/"]));
    assert_eq!(path_components(&s("/usr/../lib")), args(&["/", "usr", "..", "lib"]));
    assert!(path_components(&s("")).is_empty());
    assert!(starts_with_path(&s("dest/a"), &s("dest")));
    assert!(starts_with_path(&s("dest/../x"), &s("dest/")));
    assert!(!starts_with_path(&s("destination/a"), &s("dest")));
    assert!(!starts_with_path(&s("/etc/passwd"), &s("dest")));
}

#[test]
fn actions_for_ops() {
    let src = s("/src");
    let dst = s("/dst");
    assert_eq!(
        op_action(&SyncOp::Copy { path: s("a/b") }, &src, &dst),
        OpAction::CopyFile { from: s("/src/a/b"), to: s("/dst/a/b") }
    );
    assert_eq!(
        op_action(&SyncOp::Delete { path: s("c") }, &src, &dst),
        OpAction::RemoveFile { target: s("/dst/c") }
    );
    assert_eq!(
        op_action(&SyncOp::Skip { path: s("c"), reason: s("identical") }, &src, &dst),
        OpAction::Nothing
    );
    let refused = op_action(&SyncOp::Copy { path: s("/etc/x") }, &src, &dst);
    assert_eq!(refused, OpAction::RefuseWrite { target: s("/etc/x") });
    assert_eq!(refused.refusal_message(), "refusing to write outside dest: /etc/x");
    let refused = op_action(&SyncOp::Delete { path: s("/etc/x") }, &src, &dst);
    assert_eq!(refused.refusal_message(), "refusing to delete outside dest: /etc/x");
}

// -- walking a directory tree ----------------------------------------------------

#[test]
fn scan_start_decisions() {
    assert_eq!(scan_start(false, false), ScanStart::Empty);
    assert_eq!(scan_start(true, false), ScanStart::NotADirectory);
    assert_eq!(scan_start(true, true), ScanStart::Walk);
    assert_eq!(not_a_directory_message(&s("/tmp/f")), "not a directory: /tmp/f");
}

#[test]
fn walk_visits_children_in_name_order() {
    let mut walk = ScanWalk::new();
    assert_eq!(walk.next_step(), WalkStep::ListDir { dir: s("") });
    walk.add_listing(
        &s(""),
        vec![
            DirChild { name: s("c.txt"), kind: EntryKind::File },
            DirChild { name: s("a"), kind: EntryKind::Dir },
            DirChild { name: s("b.txt"), kind: EntryKind::File },
        ],
    );
    assert_eq!(walk.next_step(), WalkStep::ListDir { dir: s("a") });
    walk.add_listing(&s("a"), vec![DirChild { name: s("x"), kind: EntryKind::File }]);
    assert_eq!(walk.next_step(), WalkStep::ReadFile { path: s("a/x") });
    assert_eq!(walk.next_step(), WalkStep::ReadFile { path: s("b.txt") });
    assert_eq!(walk.next_step(), WalkStep::ReadFile { path: s("c.txt") });
    assert_eq!(walk.next_step(), WalkStep::Done);
    assert!(walk.into_scan().is_empty());
}

/// Apply `ops` to a copy of `dst`, taking copied entries from `src`.
fn apply(src: &Scan, dst: &Scan, ops: &[SyncOp]) -> Scan {
    let mut after = Scan::new();
    for key in dst.keys() {
        let deleted = ops.iter().any(|op| matches!(op, SyncOp::Delete { path } if *path == key));
        if !deleted {
            after.insert(dst.get(&key).unwrap().clone());
        }
    }
    for op in ops {
        if let SyncOp::Copy { path } = op {
            after.insert(src.get(path).unwrap().clone());
        }
    }
    after
}

#[test]
fn sync_twice_changes_nothing() {
    for delete in [false, true] {
        let src = scan_of(&[("a", 1, 10), ("b/c", 2, 20)]);
        let dst = scan_of(&[("a", 1, 11), ("d", 3, 30)]);
        let ops = compute_plan(&src, &dst, delete);
        let after = apply(&src, &dst, &ops);
        let again = compute_plan(&src, &after, delete);
        assert!(OpSummary::from_ops(&again).in_sync());
        // Without --delete the destination keeps its own extra file.
        assert_eq!(after.contains_key(&s("d")), !delete);
    }
}

#[test]
fn sync_needs_execute() {
    let no_exec = ParsedArgs { source: s("a"), dest: s("b"), delete: true, execute: false };
    let exec = ParsedArgs { execute: true, ..no_exec.clone() };
    let busy = OpSummary { copies: 1, deletes: 0, skips: 0 };
    let idle = OpSummary { copies: 0, deletes: 0, skips: 4 };
    assert_eq!(sync_step(&no_exec, None), Step::RefuseNoExecute);
    assert_eq!(sync_step(&no_exec, Some(busy)), Step::RefuseNoExecute);
    assert_eq!(sync_step(&exec, None), Step::NeedPlan);
    assert_eq!(sync_step(&exec, Some(idle)), Step::AlreadyInSync);
    assert_eq!(sync_step(&exec, Some(busy)), Step::Apply);
    assert_eq!(sync_step(&exec, Some(OpSummary { copies: 0, deletes: 2, skips: 0 })), Step::Apply);
}

#[test]
fn plan_never_applies() {
    assert_eq!(plan_step(&OpSummary { copies: 3, deletes: 1, skips: 0 }), Step::DryRun);
    assert_eq!(plan_step(&OpSummary { copies: 0, deletes: 0, skips: 7 }), Step::AlreadyInSync);
}

#[test]
fn check_verdict() {
    let a = scan_of(&[("a", 1, 1)]);
    assert!(check_in_sync(&diff_scans(&a, &scan_of(&[("a", 1, 1)]))));
    assert!(!check_in_sync(&diff_scans(&a, &scan_of(&[("a", 1, 1), ("b", 1, 1)]))));
    assert!(check_in_sync(&diff_scans(&Scan::new(), &Scan::new())));
}

#[test]
fn walk_reports_skipped_links_in_order() {
    let mut walk = ScanWalk::new();
    assert_eq!(walk.next_step(), WalkStep::ListDir { dir: s("") });
    walk.add_listing(
        &s(""),
        vec![
            DirChild { name: s("z-link"), kind: EntryKind::Symlink },
            DirChild { name: s("d"), kind: EntryKind::Dir },
            DirChild { name: s("a-link"), kind: EntryKind::Symlink },
            DirChild { name: s("sock"), kind: EntryKind::Other },
        ],
    );
    assert_eq!(walk.skipped_links(), &args(&["a-link", "z-link"]));
    assert_eq!(walk.next_step(), WalkStep::ListDir { dir: s("d") });
    walk.add_listing(&s("d"), vec![DirChild { name: s("l"), kind: EntryKind::Symlink }]);
    assert_eq!(walk.skipped_links(), &args(&["a-link", "z-link", "d/l"]));
    assert_eq!(walk.next_step(), WalkStep::Done);
}
