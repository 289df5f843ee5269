# runesync

Deterministic, dry-run-first directory synchronization, written in Verus.

`src/` is the verified library: FNV-1a hashing, scans keyed by relative
paths (entry names joined by single `/`, so that a key names one path
spelled one way) and kept in path order,
the step-by-step decisions of a recursive scan, diffing two scans, planning
the copy/delete/skip operations, deciding where each operation reads and
writes (and refusing any target that is not lexically under the destination;
`..` is not resolved), whether `sync` may apply anything (never without
`--execute`; `plan` never applies), command-line parsing, and the lines shown
to the user. `src/laws.rs` states and proves
the properties that tie these together: the diff is unique and symmetric,
`check` reports "in sync" exactly when the scans are equal, applying a plan
leaves the destination equal to the source (or the source plus its own extra
files without `--delete`), and a scan finds exactly the regular files
reachable from the root without following symbolic links, and reports
every symbolic link it skipped; and scan keys compare, for equality and
order, exactly as their path components do.

`app/main.rs` is the command-line program: it reads the file system, drives
the scan, prints (skipped symbolic links as warnings), and performs the
copies and deletions the library decides.

`tests/` exercises the library on concrete values, including whole scenarios
over directory trees held in memory.
