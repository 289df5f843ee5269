use vstd::prelude::*;
use vstd::std_specs::iter::IteratorSpec;

use crate::diff::{count_identical, identical_count, Diff};
use crate::plan::OpSummary;
use crate::text::{concat, is_word};

verus! {

/// The argument starts with `--`.
pub open spec fn starts_with_dashes(a: Seq<char>) -> bool {
    a.len() >= 2 && a[0] == '-' && a[1] == '-'
}

/// The argument asks for help.
pub open spec fn is_help_flag(a: Seq<char>) -> bool {
    a == "--help"@ || a == "-h"@
}

/// The argument ends parsing: a request for help, or a `--` flag other
/// than `--delete` and `--execute`.
pub open spec fn ends_parsing(a: Seq<char>) -> bool {
    is_help_flag(a) || (starts_with_dashes(a) && a != "--delete"@ && a != "--execute"@)
}

/// The argument is a path: it neither starts with `--` nor is `-h`.
pub open spec fn is_positional(a: Seq<char>) -> bool {
    !starts_with_dashes(a) && a != "-h"@
}

/// The positional arguments, in order.
pub open spec fn positionals(args: Seq<Seq<char>>) -> Seq<Seq<char>>
    decreases args.len(),
{
    if args.len() == 0 {
        Seq::empty()
    } else if is_positional(args.last()) {
        positionals(args.drop_last()).push(args.last())
    } else {
        positionals(args.drop_last())
    }
}

/// `k` is the first argument that ends parsing.
pub open spec fn first_stop(args: Seq<Seq<char>>, k: int) -> bool {
    &&& 0 <= k < args.len()
    &&& ends_parsing(args[k])
    &&& forall|i: int| 0 <= i < k ==> !ends_parsing(#[trigger] args[i])
}

/// The views of a list of arguments.
pub open spec fn args_view(args: Seq<String>) -> Seq<Seq<char>> {
    args.map_values(|s: String| s@)
}

/// Arguments of `plan`, `sync` and `check`.
#[derive(Clone, Debug, PartialEq, Eq)]
pub struct ParsedArgs {
    pub source: String,
    pub dest: String,
    pub delete: bool,
    pub execute: bool,
}

/// Why the arguments of a command were not accepted.
#[derive(Clone, Debug, PartialEq, Eq)]
pub enum ArgError {
    /// `--help` or `-h` was given: show the usage and stop successfully.
    HelpRequested,
    /// A `--` flag that is not known.
    UnknownFlag { flag: String },
    /// Not exactly two paths were given to command `cmd`.
    WrongPathCount { cmd: String },
}

impl ArgError {
    /// The message shown for the error.
    pub open spec fn message_spec(&self) -> Seq<char> {
        match self {
            ArgError::HelpRequested => Seq::empty(),
            ArgError::UnknownFlag { flag } => "unknown flag '"@ + flag@ + "'"@,
            ArgError::WrongPathCount { cmd } => "'"@ + cmd@
                + "' requires exactly 2 paths: <source> <dest>\nrun 'runesync --help' for usage"@,
        }
    }

    /// The message shown for an unknown flag or a wrong number of paths.
    pub fn message(&self) -> (m: String)
        requires
            !(self is HelpRequested),
        ensures
            m@ == self.message_spec(),
    {
        match self {
            ArgError::HelpRequested => String::new(),
            ArgError::UnknownFlag { flag } => {
                let mut m = concat("unknown flag '", flag.as_str());
                m.append("'");
                m
            },
            ArgError::WrongPathCount { cmd } => {
                let mut m = concat("'", cmd.as_str());
                m.append("' requires exactly 2 paths: <source> <dest>\nrun 'runesync --help' for usage");
                m
            },
        }
    }
}

/// `s` starts with `--`.
fn has_dashes(s: &String) -> (b: bool)
    ensures
        b == starts_with_dashes(s@),
{
    let mut it = s.as_str().chars();
    match it.next() {
        Some(c0) => {
            if c0 != '-' {
                return false;
            }
            assert(s@.skip(0).drop_first() =~= s@.skip(1));
            match it.next() {
                Some(c1) => c1 == '-',
                None => false,
            }
        },
        None => false,
    }
}

/// Parse the arguments of `plan`, `sync` or `check` (named `cmd`): two
/// paths, and the flags `--delete` and `--execute`. Arguments are read in
/// order; the first `--help`/`-h` or unknown `--` flag ends the parse.
pub fn parse_sync_args(args: &[String], cmd: &str) -> (r: Result<ParsedArgs, ArgError>)
    ensures
        match r {
            Ok(p) => (forall|i: int| 0 <= i < args@.len() ==> !ends_parsing(#[trigger] args_view(args@)[i]))
                && positionals(args_view(args@)) == seq![p.source@, p.dest@]
                && p.delete == args_view(args@).contains("--delete"@)
                && p.execute == args_view(args@).contains("--execute"@),
            Err(ArgError::HelpRequested) => exists|k: int| #[trigger] first_stop(args_view(args@), k)
                && is_help_flag(args_view(args@)[k]),
            Err(ArgError::UnknownFlag { flag }) => exists|k: int| #[trigger] first_stop(args_view(args@), k)
                && !is_help_flag(args_view(args@)[k]) && flag@ == args_view(args@)[k],
            Err(ArgError::WrongPathCount { cmd: c }) => (forall|i: int| 0 <= i < args@.len() ==> !ends_parsing(
                #[trigger] args_view(args@)[i],
            )) && positionals(args_view(args@)).len() != 2 && c@ == cmd@,
        },
{
    let ghost av = args_view(args@);
    let mut positional: Vec<&String> = Vec::new();
    let mut delete = false;
    let mut execute = false;
    let n = args.len();
    for i in 0..n
        invariant
            n == args@.len(),
            av == args_view(args@),
            forall|j: int| 0 <= j < i ==> !ends_parsing(#[trigger] av[j]),
            positional@.len() == positionals(av.take(i as int)).len(),
            forall|j: int| 0 <= j < positional@.len() ==> (#[trigger] positional@[j])@ == positionals(av.take(i as int))[j],
            delete == av.take(i as int).contains("--delete"@),
            execute == av.take(i as int).contains("--execute"@),
    {
        let a = &args[i];
        assert(av[i as int] == a@);
        assert(av.take(i + 1).drop_last() =~= av.take(i as int));
        assert(av.take(i + 1).last() == a@);
        proof {
            reveal_strlit("--delete");
            reveal_strlit("--execute");
            reveal_strlit("--help");
            reveal_strlit("-h");
        }
        if is_word(a, "--delete") {
            delete = true;
            assert(av.take(i + 1)[i as int] == a@);
        } else if is_word(a, "--execute") {
            execute = true;
            assert(av.take(i + 1)[i as int] == a@);
        } else if is_word(a, "--help") || is_word(a, "-h") {
            assert(first_stop(av, i as int));
            return Err(ArgError::HelpRequested);
        } else if has_dashes(a) {
            assert(first_stop(av, i as int));
            return Err(ArgError::UnknownFlag { flag: a.clone() });
        } else {
            positional.push(a);
        }
        proof {
            let t0 = av.take(i as int);
            let t1 = av.take(i + 1);
            if a@ != "--delete"@ {
                assert(t1.contains("--delete"@) ==> t0.contains("--delete"@)) by {
                    if t1.contains("--delete"@) {
                        let j = choose|j: int| 0 <= j < t1.len() && t1[j] == "--delete"@;
                        assert(t0[j] == t1[j]);
                    }
                }
            }
            if a@ != "--execute"@ {
                assert(t1.contains("--execute"@) ==> t0.contains("--execute"@)) by {
                    if t1.contains("--execute"@) {
                        let j = choose|j: int| 0 <= j < t1.len() && t1[j] == "--execute"@;
                        assert(t0[j] == t1[j]);
                    }
                }
            }
            if t0.contains("--delete"@) {
                let j = choose|j: int| 0 <= j < t0.len() && t0[j] == "--delete"@;
                assert(t1[j] == t0[j]);
            }
            if t0.contains("--execute"@) {
                let j = choose|j: int| 0 <= j < t0.len() && t0[j] == "--execute"@;
                assert(t1[j] == t0[j]);
            }
        }
    }
    assert(av.take(n as int) =~= av);
    if positional.len() != 2 {
        return Err(ArgError::WrongPathCount { cmd: String::from_str(cmd) });
    }
    let p = ParsedArgs { source: positional[0].clone(), dest: positional[1].clone(), delete, execute };
    assert(positionals(av) =~= seq![p.source@, p.dest@]);
    Ok(p)
}

/// Why the source directory cannot be used.
#[derive(Clone, Copy, Debug, PartialEq, Eq, Structural)]
pub enum SourceError {
    /// Nothing exists at the source path.
    Missing,
    /// The source path exists but is not a directory.
    NotADirectory,
}

/// Check what the file system says of the source path: it must exist and be a directory.
pub fn validate_source(exists: bool, is_dir: bool) -> (r: Result<(), SourceError>)
    ensures
        r == (if !exists {
            Err(SourceError::Missing)
        } else if !is_dir {
            Err(SourceError::NotADirectory)
        } else {
            Ok(())
        }),
{
    if !exists {
        Err(SourceError::Missing)
    } else if !is_dir {
        Err(SourceError::NotADirectory)
    } else {
        Ok(())
    }
}

impl SourceError {
    /// The message shown when source path `path` cannot be used.
    pub open spec fn message_spec(&self, path: Seq<char>) -> Seq<char> {
        match self {
            SourceError::Missing => "source does not exist: "@ + path,
            SourceError::NotADirectory => "source is not a directory: "@ + path,
        }
    }

    /// The message shown when source path `path` cannot be used.
    pub fn message(&self, path: &String) -> (m: String)
        ensures
            m@ == self.message_spec(path@),
    {
        match self {
            SourceError::Missing => concat("source does not exist: ", path.as_str()),
            SourceError::NotADirectory => concat("source is not a directory: ", path.as_str()),
        }
    }
}

/// The command named by the first argument.
#[derive(Clone, Copy, Debug, PartialEq, Eq, Structural)]
pub enum Command {
    /// No argument was given.
    Missing,
    Plan,
    Sync,
    Check,
    Help,
    Version,
    /// Any other word.
    Unknown,
}

/// The command a word names.
pub open spec fn command_of(w: Seq<char>) -> Command {
    if w == "plan"@ {
        Command::Plan
    } else if w == "sync"@ {
        Command::Sync
    } else if w == "check"@ {
        Command::Check
    } else if w == "--help"@ || w == "-h"@ || w == "help"@ {
        Command::Help
    } else if w == "--version"@ || w == "-V"@ || w == "version"@ {
        Command::Version
    } else {
        Command::Unknown
    }
}

/// Which command the arguments (program name excluded) ask for.
pub fn parse_command(args: &[String]) -> (c: Command)
    ensures
        args@.len() == 0 ==> c == Command::Missing,
        args@.len() > 0 ==> c == command_of(args@[0]@),
{
    if args.len() == 0 {
        return Command::Missing;
    }
    let w = &args[0];
    if is_word(w, "plan") {
        Command::Plan
    } else if is_word(w, "sync") {
        Command::Sync
    } else if is_word(w, "check") {
        Command::Check
    } else if is_word(w, "--help") || is_word(w, "-h") || is_word(w, "help") {
        Command::Help
    } else if is_word(w, "--version") || is_word(w, "-V") || is_word(w, "version") {
        Command::Version
    } else {
        Command::Unknown
    }
}

/// What a command does next, once its arguments and its source are checked.
#[derive(Clone, Copy, Debug, PartialEq, Eq, Structural)]
pub enum Step {
    /// `sync` without `--execute`: refuse, changing nothing.
    RefuseNoExecute,
    /// Scan both sides and plan before deciding further.
    NeedPlan,
    /// Nothing to copy or delete: report that the directories are in sync.
    AlreadyInSync,
    /// Show the plan only (what `plan` always does).
    DryRun,
    /// Perform the planned copies and deletions.
    Apply,
}

/// The next step of `sync`: without `--execute` it refuses before any
/// scanning; with it, it first asks for the plan (`summary` is `None`), then
/// reports "already in sync" when the plan copies and deletes nothing, and
/// applies the plan otherwise. Nothing is ever applied without `--execute`.
pub fn sync_step(parsed: &ParsedArgs, summary: Option<OpSummary>) -> (s: Step)
    ensures
        !parsed.execute ==> s == Step::RefuseNoExecute,
        parsed.execute && summary is None ==> s == Step::NeedPlan,
        parsed.execute && (summary matches Some(m) && m.copies == 0 && m.deletes == 0) ==> s
            == Step::AlreadyInSync,
        parsed.execute && (summary matches Some(m) && !(m.copies == 0 && m.deletes == 0)) ==> s
            == Step::Apply,
        s == Step::Apply ==> parsed.execute,
{
    if !parsed.execute {
        return Step::RefuseNoExecute;
    }
    match summary {
        None => Step::NeedPlan,
        Some(m) => {
            if m.in_sync() {
                Step::AlreadyInSync
            } else {
                Step::Apply
            }
        },
    }
}

/// The step of `plan` once the plan is known: report "in sync" when it
/// copies and deletes nothing, else show it as a dry run. `plan` never
/// applies anything.
pub fn plan_step(summary: &OpSummary) -> (s: Step)
    ensures
        s == (if summary.copies == 0 && summary.deletes == 0 {
            Step::AlreadyInSync
        } else {
            Step::DryRun
        }),
        s != Step::Apply,
{
    if summary.in_sync() {
        Step::AlreadyInSync
    } else {
        Step::DryRun
    }
}

/// The verdict of `check`: in sync when every difference is `Identical`
/// (extra destination files count against it, whatever `--delete` says).
pub fn check_in_sync(diffs: &[Diff]) -> (b: bool)
    ensures
        b == (identical_count(diffs@.map_values(|d: Diff| d@)) == diffs@.len()),
{
    count_identical(diffs) == diffs.len()
}

} // verus!
