use vstd::prelude::*;

use crate::hash::{fnv1a, fnv1a_hash};
use crate::keyed::{keyed_map, keys_sorted, lemma_keyed_map_dom, lemma_keyed_map_lookup, lemma_keyed_put};
use crate::path_order::{
    compare_paths, lemma_join_is_relative_path, lemma_name_is_relative_path, path_lt, valid_entry_name,
    valid_relative_path, PathOrder,
};
use crate::scan::{FileEntry, FileEntryView, Scan};

verus! {

/// What the file system reports a directory entry to be.
#[derive(Clone, Copy, Debug, PartialEq, Eq, Structural)]
pub enum EntryKind {
    /// A regular file.
    File,
    /// A directory.
    Dir,
    /// A symbolic link (never followed).
    Symlink,
    /// Anything else: socket, device, fifo.
    Other,
}

/// One entry found when listing a directory.
#[derive(Clone, Debug, PartialEq, Eq)]
pub struct DirChild {
    /// The entry's file name (one path component).
    pub name: String,
    pub kind: EntryKind,
}

impl View for DirChild {
    type V = (Seq<char>, EntryKind);

    open spec fn view(&self) -> (Seq<char>, EntryKind) {
        (self.name@, self.kind)
    }
}

/// What the walk asks its driver to do with a path.
#[derive(Clone, Copy, Debug, PartialEq, Eq, Structural)]
pub enum TaskKind {
    /// List the directory and hand its entries to `ScanWalk::add_listing`.
    ListDir,
    /// Read the file's size and bytes and hand them to `ScanWalk::add_file`.
    ReadFile,
}

/// The next step of a scan.
#[derive(Clone, Debug, PartialEq, Eq)]
pub enum WalkStep {
    /// List this directory (relative to the root; empty for the root itself).
    ListDir { dir: String },
    /// Read this file (relative to the root).
    ReadFile { path: String },
    /// Nothing is left to visit.
    Done,
}

/// A pending task: what to do, and the relative path to do it on.
struct Task {
    kind: TaskKind,
    path: String,
}

impl View for Task {
    type V = (TaskKind, Seq<char>);

    closed spec fn view(&self) -> (TaskKind, Seq<char>) {
        (self.kind, self.path@)
    }
}

/// The relative path of entry `name` inside relative directory `dir` (the
/// root when `dir` is empty).
pub open spec fn join_path(dir: Seq<char>, name: Seq<char>) -> Seq<char> {
    if dir.len() == 0 {
        name
    } else {
        dir + seq!['/'] + name
    }
}

/// The entries of a listing by name (a later entry with the same name
/// replaces an earlier one).
pub open spec fn children_map(cs: Seq<(Seq<char>, EntryKind)>) -> Map<Seq<char>, EntryKind> {
    keyed_map(cs)
}

/// The task a listed entry gives rise to: directories are listed in turn,
/// regular files are read, symlinks and other entries give none.
pub open spec fn task_for(kind: EntryKind) -> Option<TaskKind> {
    match kind {
        EntryKind::File => Some(TaskKind::ReadFile),
        EntryKind::Dir => Some(TaskKind::ListDir),
        EntryKind::Symlink => None,
        EntryKind::Other => None,
    }
}

/// `t` is what listing directory `dir` with entries `cm` adds to the task
/// stack: one task for each directory and each regular file, none for
/// anything else, in strictly decreasing path order, so that they are taken
/// off the stack in increasing name order.
pub open spec fn is_listing_of(
    dir: Seq<char>,
    cm: Map<Seq<char>, EntryKind>,
    t: Seq<(TaskKind, Seq<char>)>,
) -> bool {
    &&& forall|a: int, b: int| 0 <= a < b < t.len() ==> path_lt(#[trigger] t[b].1, #[trigger] t[a].1)
    &&& forall|x: (TaskKind, Seq<char>)| #[trigger] t.contains(x) ==> exists|n: Seq<char>|
        #[trigger] cm.dom().contains(n) && task_for(cm[n]) == Some(x.0) && x.1 == join_path(dir, n)
    &&& forall|n: Seq<char>| #[trigger] cm.dom().contains(n) && task_for(cm[n]) is Some ==> t.contains(
        (task_for(cm[n])->0, join_path(dir, n)),
    )
}

/// `w` reports the symbolic links of directory `dir`'s listing `cm`, which
/// the walk skips without following: their paths, each once, in increasing
/// path order, and nothing else.
pub open spec fn is_link_report_of(dir: Seq<char>, cm: Map<Seq<char>, EntryKind>, w: Seq<Seq<char>>) -> bool {
    &&& forall|a: int, b: int| 0 <= a < b < w.len() ==> path_lt(#[trigger] w[a], #[trigger] w[b])
    &&& forall|x: Seq<char>| #[trigger] w.contains(x) ==> exists|n: Seq<char>|
        #[trigger] cm.dom().contains(n) && cm[n] == EntryKind::Symlink && x == join_path(dir, n)
    &&& forall|n: Seq<char>| #[trigger] cm.dom().contains(n) && cm[n] == EntryKind::Symlink ==> w.contains(
        join_path(dir, n),
    )
}

/// How scanning a root begins, from what the file system says of the root.
#[derive(Clone, Copy, Debug, PartialEq, Eq, Structural)]
pub enum ScanStart {
    /// The root does not exist: the scan is empty (not an error).
    Empty,
    /// The root exists but is not a directory: an error.
    NotADirectory,
    /// The root is a directory: walk it.
    Walk,
}

/// Decide how a scan of a root begins.
pub fn scan_start(exists: bool, is_dir: bool) -> (s: ScanStart)
    ensures
        s == (if !exists {
            ScanStart::Empty
        } else if !is_dir {
            ScanStart::NotADirectory
        } else {
            ScanStart::Walk
        }),
{
    if !exists {
        ScanStart::Empty
    } else if !is_dir {
        ScanStart::NotADirectory
    } else {
        ScanStart::Walk
    }
}

/// The message for a scan root that exists but is not a directory.
pub fn not_a_directory_message(root: &String) -> (m: String)
    ensures
        m@ == "not a directory: "@ + root@,
{
    crate::text::concat("not a directory: ", root.as_str())
}

/// The state of a recursive directory scan driven step by step: the
/// driver asks `next_step` what to do, performs it on the file system, and
/// hands the result back with `add_listing` or `add_file`.
pub struct ScanWalk {
    tasks: Vec<Task>,
    scan: Scan,
    skipped: Vec<String>,
}

/// The path of `dir`'s child `name`.
fn join(dir: &String, name: &String) -> (p: String)
    ensures
        p@ == join_path(dir@, name@),
{
    if dir.as_str().is_empty() {
        name.clone()
    } else {
        let mut p = dir.clone();
        p.append("/");
        p.append(name.as_str());
        proof {
            reveal_strlit("/");
        }
        assert(p@ =~= dir@ + seq!['/'] + name@);
        p
    }
}

proof fn lemma_path_lt_common_prefix(c: Seq<char>, x: Seq<char>, y: Seq<char>)
    ensures
        path_lt(c + x, c + y) == path_lt(x, y),
    decreases c.len(),
{
    if c.len() > 0 {
        assert((c + x).drop_first() =~= c.drop_first() + x);
        assert((c + y).drop_first() =~= c.drop_first() + y);
        lemma_path_lt_common_prefix(c.drop_first(), x, y);
    } else {
        assert(c + x =~= x);
        assert(c + y =~= y);
    }
}

proof fn lemma_join_order(dir: Seq<char>, x: Seq<char>, y: Seq<char>)
    ensures
        path_lt(join_path(dir, x), join_path(dir, y)) == path_lt(x, y),
        join_path(dir, x) == join_path(dir, y) ==> x == y,
{
    if dir.len() > 0 {
        let c = dir + seq!['/'];
        assert(join_path(dir, x) =~= c + x);
        assert(join_path(dir, y) =~= c + y);
        lemma_path_lt_common_prefix(c, x, y);
        if c + x == c + y {
            assert(x =~= (c + x).skip(c.len() as int));
            assert(y =~= (c + y).skip(c.len() as int));
        }
    }
}

/// The path of a task is relative to the root as a scan produces it; only
/// the root itself, listed first, has the empty path.
pub open spec fn task_path_ok(t: (TaskKind, Seq<char>)) -> bool {
    valid_relative_path(t.1) || (t.0 == TaskKind::ListDir && t.1.len() == 0)
}

/// The views of a sequence of tasks.
spec fn tasks_view(v: Seq<Task>) -> Seq<(TaskKind, Seq<char>)> {
    v.map_values(|t: Task| t@)
}

/// The views of a sequence of strings.
pub open spec fn paths_view(v: Seq<String>) -> Seq<Seq<char>> {
    v.map_values(|p: String| p@)
}

/// Every task of `t` is on a path relative to the root.
spec fn tasks_ok(t: Seq<(TaskKind, Seq<char>)>) -> bool {
    forall|i: int| 0 <= i < t.len() ==> task_path_ok(#[trigger] t[i])
}

/// Each name of `s` can name an entry of a directory.
spec fn names_valid(s: Seq<(Seq<char>, EntryKind)>) -> bool {
    forall|j: int| 0 <= j < s.len() ==> valid_entry_name(#[trigger] s[j].0)
}

/// Names strictly increasing.
spec fn names_sorted(s: Seq<(Seq<char>, EntryKind)>) -> bool {
    keys_sorted(s)
}

/// Position of the first child whose name does not come before `name`.
fn child_position(v: &Vec<DirChild>, name: &String) -> (k: usize)
    ensures
        k <= v@.len(),
        forall|i: int| 0 <= i < k ==> path_lt(#[trigger] v@[i]@.0, name@),
        k < v@.len() ==> !path_lt(v@[k as int]@.0, name@),
{
    let n = v.len();
    let mut k: usize = 0;
    while k < n
        invariant
            n == v@.len(),
            k <= n,
            forall|i: int| 0 <= i < k ==> path_lt(#[trigger] v@[i]@.0, name@),
        decreases n - k,
    {
        if compare_paths(&v[k].name, name) != PathOrder::Before {
            return k;
        }
        k = k + 1;
    }
    k
}

/// Put `c` into the name-sorted `v`, replacing an entry of the same name.
fn insert_child(v: &mut Vec<DirChild>, c: DirChild)
    requires
        names_sorted(old(v)@.map_values(|d: DirChild| d@)),
        names_valid(old(v)@.map_values(|d: DirChild| d@)),
        valid_entry_name(c.name@),
    ensures
        names_sorted(final(v)@.map_values(|d: DirChild| d@)),
        names_valid(final(v)@.map_values(|d: DirChild| d@)),
        children_map(final(v)@.map_values(|d: DirChild| d@)) == children_map(
            old(v)@.map_values(|d: DirChild| d@),
        ).insert(c.name@, c.kind),
{
    let ghost old_seq = v@.map_values(|d: DirChild| d@);
    let ghost e = c@;
    let n = v.len();
    let k = child_position(v, &c.name);
    proof {
        assert forall|i: int| 0 <= i < k implies path_lt(#[trigger] old_seq[i].0, e.0) by {
            assert(old_seq[i] == v@[i]@);
        }
        if k < n {
            assert(old_seq[k as int] == v@[k as int]@);
        }
    }
    let replace = k < n && compare_paths(&v[k].name, &c.name) == PathOrder::Same;
    if replace {
        v.set(k, c);
    } else {
        v.insert(k, c);
    }
    let ghost new_seq = v@.map_values(|d: DirChild| d@);
    proof {
        if replace {
            assert(new_seq =~= old_seq.update(k as int, e));
        } else {
            assert(new_seq =~= old_seq.insert(k as int, e));
        }
        lemma_keyed_put(old_seq, k as int, e);
        assert forall|j: int| 0 <= j < new_seq.len() implies valid_entry_name(#[trigger] new_seq[j].0) by {
            if j == k {
                assert(new_seq[j] == e);
            } else if j < k || replace {
                assert(new_seq[j] == old_seq[j]);
            } else {
                assert(new_seq[j] == old_seq[j - 1]);
            }
        }
    }
}

/// The task for entry `e` of directory `dir`, when it gives one.
#[verifier::opaque]
spec fn task_of(dir: Seq<char>, e: (Seq<char>, EntryKind)) -> (TaskKind, Seq<char>) {
    (task_for(e.1)->0, join_path(dir, e.0))
}

/// The tasks pushed for the name-sorted entries `sv[k..]`, pushed from the
/// last entry down to `sv[k]`.
spec fn tasks_from(dir: Seq<char>, sv: Seq<(Seq<char>, EntryKind)>, k: int) -> Seq<(TaskKind, Seq<char>)>
    decreases sv.len() - k,
{
    if k >= sv.len() || k < 0 {
        Seq::empty()
    } else if task_for(sv[k].1) is Some {
        tasks_from(dir, sv, k + 1).push(task_of(dir, sv[k]))
    } else {
        tasks_from(dir, sv, k + 1)
    }
}

/// Each task in `t` is the task of an entry in `sv[k..]`.
spec fn tasks_sound(dir: Seq<char>, sv: Seq<(Seq<char>, EntryKind)>, k: int, t: Seq<(TaskKind, Seq<char>)>) -> bool {
    forall|x: (TaskKind, Seq<char>)| #[trigger] t.contains(x) ==> exists|j: int|
        #![trigger sv[j]] k <= j < sv.len() && task_for(sv[j].1) is Some && x == task_of(dir, sv[j])
}

/// Each entry in `sv[k..]` that gives a task has it in `t`.
spec fn tasks_complete(dir: Seq<char>, sv: Seq<(Seq<char>, EntryKind)>, k: int, t: Seq<(TaskKind, Seq<char>)>) -> bool {
    forall|j: int| #![trigger sv[j]] k <= j < sv.len() && task_for(sv[j].1) is Some ==> t.contains(task_of(dir, sv[j]))
}

/// Paths strictly decreasing.
spec fn paths_decreasing(t: Seq<(TaskKind, Seq<char>)>) -> bool {
    forall|a: int, b: int| 0 <= a < b < t.len() ==> path_lt(#[trigger] t[b].1, #[trigger] t[a].1)
}

proof fn lemma_tasks_from_match(dir: Seq<char>, sv: Seq<(Seq<char>, EntryKind)>, k: int)
    requires
        0 <= k <= sv.len(),
    ensures
        tasks_sound(dir, sv, k, tasks_from(dir, sv, k)),
        tasks_complete(dir, sv, k, tasks_from(dir, sv, k)),
    decreases sv.len() - k,
{
    let t = tasks_from(dir, sv, k);
    if k < sv.len() {
        lemma_tasks_from_match(dir, sv, k + 1);
        let prev = tasks_from(dir, sv, k + 1);
        let some = task_for(sv[k].1) is Some;
        if some {
            assert(t =~= prev.push(task_of(dir, sv[k])));
        } else {
            assert(t == prev);
        }
        assert forall|x: (TaskKind, Seq<char>)| #[trigger] t.contains(x) implies exists|j: int|
            #![trigger sv[j]] k <= j < sv.len() && task_for(sv[j].1) is Some && x == task_of(dir, sv[j]) by {
            let a = choose|a: int| 0 <= a < t.len() && t[a] == x;
            if some && a == t.len() - 1 {
                assert(x == task_of(dir, sv[k]));
            } else {
                assert(prev[a] == x);
                assert(prev.contains(x));
            }
        }
        assert forall|j: int| #![trigger sv[j]] k <= j < sv.len() && task_for(sv[j].1) is Some implies t.contains(
            task_of(dir, sv[j]),
        ) by {
            if j == k {
                assert(t[t.len() - 1] == task_of(dir, sv[j]));
            } else {
                assert(prev.contains(task_of(dir, sv[j])));
                let a = choose|a: int| 0 <= a < prev.len() && prev[a] == task_of(dir, sv[j]);
                assert(t[a] == prev[a]);
            }
        }
    }
}

proof fn lemma_tasks_from_order(dir: Seq<char>, sv: Seq<(Seq<char>, EntryKind)>, k: int)
    requires
        names_sorted(sv),
        0 <= k <= sv.len(),
    ensures
        paths_decreasing(tasks_from(dir, sv, k)),
    decreases sv.len() - k,
{
    if k < sv.len() {
        lemma_tasks_from_order(dir, sv, k + 1);
        lemma_tasks_from_match(dir, sv, k + 1);
        let prev = tasks_from(dir, sv, k + 1);
        let t = tasks_from(dir, sv, k);
        if task_for(sv[k].1) is Some {
            assert(t =~= prev.push(task_of(dir, sv[k])));
            let last = t.len() - 1;
            assert forall|a: int, b: int| 0 <= a < b < t.len() implies path_lt(#[trigger] t[b].1, #[trigger] t[a].1) by {
                assert(t[a] == prev[a]);
                if b == last {
                    assert(prev.contains(prev[a]));
                    let j = choose|j: int| #![trigger sv[j]] k + 1 <= j < sv.len() && task_for(sv[j].1) is Some && prev[a] == task_of(dir, sv[j]);
                    assert(path_lt(sv[k].0, sv[j].0));
                    lemma_join_order(dir, sv[k].0, sv[j].0);
                    reveal(task_of);
                } else {
                    assert(t[b] == prev[b]);
                }
            }
        } else {
            assert(t == prev);
        }
    }
}

proof fn lemma_listing(dir: Seq<char>, sv: Seq<(Seq<char>, EntryKind)>)
    requires
        names_sorted(sv),
    ensures
        is_listing_of(dir, children_map(sv), tasks_from(dir, sv, 0)),
{
    lemma_tasks_from_match(dir, sv, 0);
    lemma_tasks_from_order(dir, sv, 0);
    let t = tasks_from(dir, sv, 0);
    let cm = children_map(sv);
    assert forall|x: (TaskKind, Seq<char>)| #[trigger] t.contains(x) implies exists|n: Seq<char>|
        #[trigger] cm.dom().contains(n) && task_for(cm[n]) == Some(x.0) && x.1 == join_path(dir, n) by {
        let j = choose|j: int| #![trigger sv[j]] 0 <= j < sv.len() && task_for(sv[j].1) is Some && x == task_of(dir, sv[j]);
        lemma_keyed_map_lookup(sv, j);
        reveal(task_of);
        let n = sv[j].0;
        assert(cm.dom().contains(n) && task_for(cm[n]) == Some(x.0) && x.1 == join_path(dir, n));
    }
    assert forall|n: Seq<char>| #[trigger] cm.dom().contains(n) && task_for(cm[n]) is Some implies t.contains(
        (task_for(cm[n])->0, join_path(dir, n)),
    ) by {
        lemma_keyed_map_dom(sv, n);
        let j = choose|j: int| 0 <= j < sv.len() && (#[trigger] sv[j]).0 == n;
        lemma_keyed_map_lookup(sv, j);
        assert(task_for(sv[j].1) is Some);
        reveal(task_of);
        assert(task_of(dir, sv[j]) == (task_for(cm[n])->0, join_path(dir, n)));
    }
}

/// The symbolic links among the name-sorted entries `sv[..k]`, in order.
spec fn links_upto(dir: Seq<char>, sv: Seq<(Seq<char>, EntryKind)>, k: int) -> Seq<Seq<char>>
    decreases k,
{
    if k <= 0 || k > sv.len() {
        Seq::empty()
    } else if sv[k - 1].1 == EntryKind::Symlink {
        links_upto(dir, sv, k - 1).push(join_path(dir, sv[k - 1].0))
    } else {
        links_upto(dir, sv, k - 1)
    }
}

proof fn lemma_links_upto(dir: Seq<char>, sv: Seq<(Seq<char>, EntryKind)>, k: int)
    requires
        names_sorted(sv),
        0 <= k <= sv.len(),
    ensures
        ({
            let w = links_upto(dir, sv, k);
            &&& forall|a: int, b: int| 0 <= a < b < w.len() ==> path_lt(#[trigger] w[a], #[trigger] w[b])
            &&& forall|x: Seq<char>| #[trigger] w.contains(x) ==> exists|j: int|
                #![trigger sv[j]] 0 <= j < k && sv[j].1 == EntryKind::Symlink && x == join_path(dir, sv[j].0)
            &&& forall|j: int| #![trigger sv[j]] 0 <= j < k && sv[j].1 == EntryKind::Symlink ==> w.contains(
                join_path(dir, sv[j].0),
            )
        }),
    decreases k,
{
    if k > 0 {
        lemma_links_upto(dir, sv, k - 1);
        let prev = links_upto(dir, sv, k - 1);
        let w = links_upto(dir, sv, k);
        let link = sv[k - 1].1 == EntryKind::Symlink;
        if link {
            assert(w =~= prev.push(join_path(dir, sv[k - 1].0)));
        } else {
            assert(w == prev);
        }
        assert forall|a: int, b: int| 0 <= a < b < w.len() implies path_lt(#[trigger] w[a], #[trigger] w[b]) by {
            assert(w[a] == prev[a]);
            if link && b == w.len() - 1 {
                assert(prev.contains(prev[a]));
                let j = choose|j: int|
                    #![trigger sv[j]] 0 <= j < k - 1 && sv[j].1 == EntryKind::Symlink && prev[a] == join_path(dir, sv[j].0);
                assert(path_lt(sv[j].0, sv[k - 1].0));
                lemma_join_order(dir, sv[j].0, sv[k - 1].0);
            } else {
                assert(w[b] == prev[b]);
            }
        }
        assert forall|x: Seq<char>| #[trigger] w.contains(x) implies exists|j: int|
            #![trigger sv[j]] 0 <= j < k && sv[j].1 == EntryKind::Symlink && x == join_path(dir, sv[j].0) by {
            let a = choose|a: int| 0 <= a < w.len() && w[a] == x;
            if link && a == w.len() - 1 {
                assert(x == join_path(dir, sv[k - 1].0));
            } else {
                assert(prev[a] == x);
                assert(prev.contains(x));
            }
        }
        assert forall|j: int| #![trigger sv[j]] 0 <= j < k && sv[j].1 == EntryKind::Symlink implies w.contains(
            join_path(dir, sv[j].0),
        ) by {
            if j == k - 1 {
                assert(w[w.len() - 1] == join_path(dir, sv[j].0));
            } else {
                assert(prev.contains(join_path(dir, sv[j].0)));
                let a = choose|a: int| 0 <= a < prev.len() && prev[a] == join_path(dir, sv[j].0);
                assert(w[a] == prev[a]);
            }
        }
    }
}

proof fn lemma_link_report(dir: Seq<char>, sv: Seq<(Seq<char>, EntryKind)>)
    requires
        names_sorted(sv),
    ensures
        is_link_report_of(dir, children_map(sv), links_upto(dir, sv, sv.len() as int)),
{
    let k = sv.len() as int;
    lemma_links_upto(dir, sv, k);
    let w = links_upto(dir, sv, k);
    let cm = children_map(sv);
    assert forall|x: Seq<char>| #[trigger] w.contains(x) implies exists|n: Seq<char>|
        #[trigger] cm.dom().contains(n) && cm[n] == EntryKind::Symlink && x == join_path(dir, n) by {
        let j = choose|j: int|
            #![trigger sv[j]] 0 <= j < k && sv[j].1 == EntryKind::Symlink && x == join_path(dir, sv[j].0);
        lemma_keyed_map_lookup(sv, j);
        assert(cm.dom().contains(sv[j].0) && cm[sv[j].0] == EntryKind::Symlink);
    }
    assert forall|n: Seq<char>| #[trigger] cm.dom().contains(n) && cm[n] == EntryKind::Symlink implies w.contains(
        join_path(dir, n),
    ) by {
        lemma_keyed_map_dom(sv, n);
        let j = choose|j: int| 0 <= j < sv.len() && (#[trigger] sv[j]).0 == n;
        lemma_keyed_map_lookup(sv, j);
    }
}

impl ScanWalk {
    /// The pending tasks; the last one is done next.
    pub closed spec fn tasks(&self) -> Seq<(TaskKind, Seq<char>)> {
        tasks_view(self.tasks@)
    }

    /// The scan gathered so far.
    pub closed spec fn scan(&self) -> Scan {
        self.scan
    }

    /// The symbolic links skipped so far (without being followed), in the
    /// order their directories were listed.
    pub closed spec fn skipped(&self) -> Seq<Seq<char>> {
        paths_view(self.skipped@)
    }

    /// Well-formedness, kept by every operation (a type invariant): each
    /// pending task is on a path relative to the root (`task_path_ok`).
    #[verifier::type_invariant]
    closed spec fn wf(&self) -> bool {
        tasks_ok(tasks_view(self.tasks@))
    }

    /// A walk of a root directory that has not started: its one task is to
    /// list the root, and nothing has been found yet.
    pub fn new() -> (w: ScanWalk)
        ensures
            w.tasks() == seq![(TaskKind::ListDir, Seq::<char>::empty())],
            w.scan()@ == Map::<Seq<char>, FileEntryView>::empty(),
            w.skipped() == Seq::<Seq<char>>::empty(),
    {
        let mut tasks: Vec<Task> = Vec::new();
        tasks.push(Task { kind: TaskKind::ListDir, path: String::new() });
        assert(tasks_view(tasks@) =~= seq![(TaskKind::ListDir, Seq::<char>::empty())]);
        let w = ScanWalk { tasks, scan: Scan::new(), skipped: Vec::new() };
        assert(w.tasks() =~= seq![(TaskKind::ListDir, Seq::<char>::empty())]);
        assert(w.skipped() =~= Seq::<Seq<char>>::empty());
        w
    }

    /// Take the next task off the stack: `Done` when none is left.
    pub fn next_step(&mut self) -> (step: WalkStep)
        ensures
            final(self).scan() == old(self).scan(),
            final(self).skipped() == old(self).skipped(),
            old(self).tasks().len() == 0 ==> step == WalkStep::Done && final(self).tasks() == old(self).tasks(),
            old(self).tasks().len() > 0 ==> final(self).tasks() == old(self).tasks().drop_last() && match step {
                WalkStep::ListDir { dir } => old(self).tasks().last() == (TaskKind::ListDir, dir@),
                WalkStep::ReadFile { path } => old(self).tasks().last() == (TaskKind::ReadFile, path@),
                WalkStep::Done => false,
            },
            match step {
                WalkStep::ListDir { dir } => dir@.len() == 0 || valid_relative_path(dir@),
                WalkStep::ReadFile { path } => valid_relative_path(path@),
                WalkStep::Done => true,
            },
    {
        proof {
            use_type_invariant(&*self);
        }
        let mut tasks: Vec<Task> = Vec::new();
        std::mem::swap(&mut tasks, &mut self.tasks);
        let ghost before = tasks_view(tasks@);
        let popped = tasks.pop();
        proof {
            if before.len() > 0 {
                assert(tasks_view(tasks@) =~= before.drop_last());
                assert(task_path_ok(before[before.len() - 1]));
                assert forall|i: int| 0 <= i < tasks_view(tasks@).len() implies task_path_ok(#[trigger] tasks_view(tasks@)[i]) by {
                    assert(tasks_view(tasks@)[i] == before[i]);
                }
            }
        }
        self.tasks = tasks;
        match popped {
            None => WalkStep::Done,
            Some(t) => match t.kind {
                TaskKind::ListDir => WalkStep::ListDir { dir: t.path },
                TaskKind::ReadFile => WalkStep::ReadFile { path: t.path },
            },
        }
    }

    /// Record the listing of directory `dir`: push a task for each
    /// subdirectory and each regular file so that they are visited in
    /// increasing name order; symlinks are skipped and reported, other
    /// entries are skipped.
    pub fn add_listing(&mut self, dir: &String, children: Vec<DirChild>)
        requires
            dir@.len() == 0 || valid_relative_path(dir@),
            forall|i: int| 0 <= i < children@.len() ==> valid_entry_name(#[trigger] children@[i].name@),
        ensures
            final(self).scan() == old(self).scan(),
            final(self).tasks().len() >= old(self).tasks().len(),
            final(self).tasks().take(old(self).tasks().len() as int) == old(self).tasks(),
            is_listing_of(
                dir@,
                children_map(children@.map_values(|c: DirChild| c@)),
                final(self).tasks().skip(old(self).tasks().len() as int),
            ),
            final(self).skipped().len() >= old(self).skipped().len(),
            final(self).skipped().take(old(self).skipped().len() as int) == old(self).skipped(),
            is_link_report_of(
                dir@,
                children_map(children@.map_values(|c: DirChild| c@)),
                final(self).skipped().skip(old(self).skipped().len() as int),
            ),
    {
        let ghost input = children@.map_values(|c: DirChild| c@);
        let mut sorted: Vec<DirChild> = Vec::new();
        let n = children.len();
        for i in 0..n
            invariant
                n == children@.len(),
                input == children@.map_values(|c: DirChild| c@),
                forall|j: int| 0 <= j < children@.len() ==> valid_entry_name(#[trigger] children@[j].name@),
                names_sorted(sorted@.map_values(|d: DirChild| d@)),
                names_valid(sorted@.map_values(|d: DirChild| d@)),
                children_map(sorted@.map_values(|d: DirChild| d@)) == children_map(input.take(i as int)),
        {
            assert(input.take(i + 1).drop_last() =~= input.take(i as int));
            assert(valid_entry_name(children@[i as int].name@));
            let c = DirChild { name: children[i].name.clone(), kind: children[i].kind };
            insert_child(&mut sorted, c);
        }
        assert(input.take(n as int) =~= input);
        let ghost sv = sorted@.map_values(|d: DirChild| d@);
        proof {
            use_type_invariant(&*self);
        }
        let mut tasks: Vec<Task> = Vec::new();
        std::mem::swap(&mut tasks, &mut self.tasks);
        let mut skipped: Vec<String> = Vec::new();
        std::mem::swap(&mut skipped, &mut self.skipped);
        let ghost base = tasks_view(tasks@);
        let ghost base_links = paths_view(skipped@);
        assert(base == old(self).tasks() && base_links == old(self).skipped());
        let m = sorted.len();
        for i in 0..m
            invariant
                m == sv.len(),
                sv == sorted@.map_values(|d: DirChild| d@),
                paths_view(skipped@) == base_links + links_upto(dir@, sv, i as int),
        {
            assert(sv[i as int] == sorted@[i as int]@);
            if sorted[i].kind == EntryKind::Symlink {
                let p = join(dir, &sorted[i].name);
                let ghost before = paths_view(skipped@);
                skipped.push(p);
                assert(paths_view(skipped@) =~= before.push(join_path(dir@, sv[i as int].0)));
                assert(paths_view(skipped@) =~= base_links + links_upto(dir@, sv, i + 1));
            } else {
                assert(links_upto(dir@, sv, i + 1) == links_upto(dir@, sv, i as int));
            }
        }
        let mut k: usize = m;
        while k > 0
            invariant
                dir@.len() == 0 || valid_relative_path(dir@),
                names_valid(sv),
                k <= m,
                m == sv.len(),
                sv == sorted@.map_values(|d: DirChild| d@),
                tasks_ok(base),
                tasks_ok(tasks_view(tasks@)),
                tasks_view(tasks@) == base + tasks_from(dir@, sv, k as int),
            decreases k,
        {
            k = k - 1;
            let kind = sorted[k].kind;
            assert(sv[k as int] == sorted@[k as int]@);
            match kind {
                EntryKind::File | EntryKind::Dir => {
                    let p = join(dir, &sorted[k].name);
                    let tk = if kind == EntryKind::File { TaskKind::ReadFile } else { TaskKind::ListDir };
                    let ghost before = tasks_view(tasks@);
                    proof {
                        assert(valid_entry_name(sv[k as int].0));
                        if dir@.len() == 0 {
                            lemma_name_is_relative_path(sv[k as int].0);
                        } else {
                            lemma_join_is_relative_path(dir@, sv[k as int].0);
                        }
                    }
                    tasks.push(Task { kind: tk, path: p });
                    proof {
                        let after = tasks_view(tasks@);
                        assert(after =~= before.push((tk, p@)));
                        assert forall|i: int| 0 <= i < after.len() implies task_path_ok(#[trigger] after[i]) by {
                            if i < before.len() {
                                assert(after[i] == before[i]);
                            }
                        }
                        assert(task_for(sv[k as int].1) is Some);
                        reveal(task_of);
                        assert(tasks_from(dir@, sv, k as int) == tasks_from(dir@, sv, k + 1).push(task_of(dir@, sv[k as int])));
                        assert(after =~= before.push(task_of(dir@, sv[k as int])));
                        assert(after =~= base + tasks_from(dir@, sv, k as int));
                    }
                },
                _ => {
                    assert(tasks_from(dir@, sv, k as int) =~= tasks_from(dir@, sv, k + 1));
                },
            }
        }
        proof {
            let t = tasks_view(tasks@);
            assert(t.take(base.len() as int) =~= base);
            assert(t.skip(base.len() as int) =~= tasks_from(dir@, sv, 0));
            lemma_listing(dir@, sv);
            let w = paths_view(skipped@);
            assert(w.take(base_links.len() as int) =~= base_links);
            assert(w.skip(base_links.len() as int) =~= links_upto(dir@, sv, m as int));
            lemma_link_report(dir@, sv);
        }
        self.tasks = tasks;
        self.skipped = skipped;
    }

    /// Record regular file `path` with `size` bytes and contents `data`:
    /// its entry holds the FNV-1a hash of the contents. The path is relative
    /// to the root, as the walk's tasks give it (`is_relative_path`).
    pub fn add_file(&mut self, path: String, size: u64, data: &[u8])
        requires
            valid_relative_path(path@),
        ensures
            final(self).tasks() == old(self).tasks(),
            final(self).skipped() == old(self).skipped(),
            final(self).scan()@ == old(self).scan()@.insert(
                path@,
                FileEntryView { path: path@, size, content_hash: fnv1a(data@) },
            ),
    {
        proof {
            use_type_invariant(&*self);
        }
        let content_hash = fnv1a_hash(data);
        let mut scan = Scan::new();
        std::mem::swap(&mut scan, &mut self.scan);
        scan.insert(FileEntry { path, size, content_hash });
        self.scan = scan;
    }

    /// The paths of the symbolic links skipped so far.
    pub fn skipped_links(&self) -> (v: &Vec<String>)
        ensures
            paths_view(v@) == self.skipped(),
    {
        &self.skipped
    }

    /// The scan gathered so far.
    pub fn into_scan(self) -> (s: Scan)
        ensures
            s == self.scan(),
    {
        self.scan
    }
}

} // verus!
