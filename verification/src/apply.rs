use vstd::prelude::*;
use vstd::std_specs::iter::IteratorSpec;

use crate::plan::{SyncOp, SyncOpView};
use crate::text::{concat, is_word, push_char};

verus! {

/// The pieces of `s` between `/` separators, empty pieces included:
/// `a//b` gives `a`, ``, `b`; the empty path gives one empty piece.
pub open spec fn split_parts(s: Seq<char>) -> Seq<Seq<char>>
    decreases s.len(),
{
    if s.len() == 0 {
        seq![Seq::empty()]
    } else if s.last() == '/' {
        split_parts(s.drop_last()).push(Seq::empty())
    } else {
        let r = split_parts(s.drop_last());
        r.update(r.len() - 1, r.last().push(s.last()))
    }
}

/// A piece that names something: neither empty nor `.`.
pub open spec fn is_normal(p: Seq<char>) -> bool {
    p.len() > 0 && p != seq!['.']
}

/// The pieces that name something, in order.
pub open spec fn normal_parts(ps: Seq<Seq<char>>) -> Seq<Seq<char>>
    decreases ps.len(),
{
    if ps.len() == 0 {
        Seq::empty()
    } else if is_normal(ps.last()) {
        normal_parts(ps.drop_last()).push(ps.last())
    } else {
        normal_parts(ps.drop_last())
    }
}

/// The path starts at the root.
pub open spec fn is_absolute(s: Seq<char>) -> bool {
    s.len() > 0 && s[0] == '/'
}

/// The components of a path, as the file system reads it: `/` first for an
/// absolute path; `.` first for a relative path whose first piece is `.`;
/// then every piece that is neither empty nor `.` (so `a//./b/` has the
/// components `a`, `b`).
pub open spec fn components(s: Seq<char>) -> Seq<Seq<char>> {
    let root: Seq<Seq<char>> = if is_absolute(s) {
        seq![seq!['/']]
    } else {
        Seq::empty()
    };
    let cur: Seq<Seq<char>> = if !is_absolute(s) && split_parts(s)[0] == seq!['.'] {
        seq![seq!['.']]
    } else {
        Seq::empty()
    };
    root + cur + normal_parts(split_parts(s))
}

/// `p` lies lexically under `base`: the components of `base` begin those
/// of `p` (`..` is a component like any other and is not resolved).
pub open spec fn path_starts_with(p: Seq<char>, base: Seq<char>) -> bool {
    let a = components(base);
    let b = components(p);
    a.len() <= b.len() && b.take(a.len() as int) == a
}

/// `p` joined onto `base`: an absolute `p` replaces `base`; otherwise a `/`
/// is put between them unless `base` is empty or already ends with one.
pub open spec fn path_join(base: Seq<char>, p: Seq<char>) -> Seq<char> {
    if is_absolute(p) {
        p
    } else if base.len() == 0 || base.last() == '/' {
        base + p
    } else {
        base + seq!['/'] + p
    }
}

/// Join `p` onto `base`.
pub fn join_paths(base: &String, p: &String) -> (r: String)
    ensures
        r@ == path_join(base@, p@),
{
    let mut it = p.as_str().chars();
    let absolute = match it.next() {
        Some(c) => c == '/',
        None => false,
    };
    if absolute {
        return p.clone();
    }
    let mut last_is_sep = false;
    let mut empty = true;
    let mut bi = base.as_str().chars();
    let ghost mut k: int = 0;
    loop
        invariant
            0 <= k <= base@.len(),
            bi.obeys_prophetic_iter_laws(),
            bi.remaining() == base@.skip(k),
            empty == (k == 0),
            k > 0 ==> last_is_sep == (base@[k - 1] == '/'),
        ensures
            k == base@.len(),
            empty == (k == 0),
            k > 0 ==> last_is_sep == (base@[k - 1] == '/'),
        decreases base@.len() - k,
    {
        match bi.next() {
            Some(c) => {
                assert(base@.skip(k).drop_first() =~= base@.skip(k + 1));
                last_is_sep = c == '/';
                empty = false;
                proof {
                    k = k + 1;
                }
            },
            None => {
                break;
            },
        }
    }
    let mut r = base.clone();
    if !empty && !last_is_sep {
        push_char(&mut r, '/');
    }
    r.append(p.as_str());
    proof {
        reveal_strlit("/");
        if !empty && !last_is_sep {
            assert(base@.last() == base@[k - 1]);
        }
    }
    r
}

/// The views of a list of strings.
pub open spec fn strings_view(v: Seq<String>) -> Seq<Seq<char>> {
    v.map_values(|s: String| s@)
}

/// The components of path `s`.
pub fn path_components(s: &String) -> (cs: Vec<String>)
    ensures
        strings_view(cs@) == components(s@),
{
    let mut done: Vec<String> = Vec::new();
    let mut cur = String::new();
    let mut seen_sep = false;
    let mut first_dot = false;
    let mut absolute = false;
    let mut at_start = true;
    let mut it = s.as_str().chars();
    let ghost mut k: int = 0;
    proof {
        assert(s@.take(0) =~= Seq::<char>::empty());
    }
    loop
        invariant
            0 <= k <= s@.len(),
            it.obeys_prophetic_iter_laws(),
            it.remaining() == s@.skip(k),
            split_parts(s@.take(k)).len() >= 1,
            cur@ == split_parts(s@.take(k)).last(),
            strings_view(done@) == normal_parts(split_parts(s@.take(k)).drop_last()),
            !seen_sep ==> split_parts(s@.take(k)).len() == 1,
            seen_sep ==> split_parts(s@.take(k)).len() >= 2,
            seen_sep ==> first_dot == (split_parts(s@.take(k))[0] == seq!['.']),
            absolute == (k > 0 && s@[0] == '/'),
            at_start == (k == 0),
        ensures
            k == s@.len(),
            split_parts(s@.take(k)).len() >= 1,
            cur@ == split_parts(s@.take(k)).last(),
            strings_view(done@) == normal_parts(split_parts(s@.take(k)).drop_last()),
            !seen_sep ==> split_parts(s@.take(k)).len() == 1,
            seen_sep ==> first_dot == (split_parts(s@.take(k))[0] == seq!['.']),
            absolute == (k > 0 && s@[0] == '/'),
        decreases s@.len() - k,
    {
        let ghost parts = split_parts(s@.take(k));
        match it.next() {
            Some(c) => {
                assert(s@.skip(k).drop_first() =~= s@.skip(k + 1));
                assert(s@.take(k + 1).drop_last() =~= s@.take(k));
                assert(s@.take(k + 1).last() == c);
                if at_start && c == '/' {
                    absolute = true;
                }
                at_start = false;
                if c == '/' {
                    let ghost old_done = done@;
                    let normal = !cur.as_str().is_empty() && !is_word(&cur, ".");
                    proof {
                        reveal_strlit(".");
                        assert("."@ =~= seq!['.']);
                        assert(normal == is_normal(cur@));
                    }
                    if !seen_sep {
                        first_dot = is_word(&cur, ".");
                        seen_sep = true;
                    }
                    if normal {
                        done.push(cur);
                    }
                    cur = String::new();
                    proof {
                        let np = split_parts(s@.take(k + 1));
                        assert(np == parts.push(Seq::empty()));
                        assert(np.drop_last() =~= parts);
                        assert(np[0] == parts[0]);
                        assert(parts[0] == parts.last() || parts.len() > 1);
                        assert(parts =~= parts.drop_last().push(parts.last()));
                        assert(strings_view(done@) =~= normal_parts(parts));
                    }
                } else {
                    push_char(&mut cur, c);
                    proof {
                        let np = split_parts(s@.take(k + 1));
                        assert(np.drop_last() =~= parts.drop_last());
                        assert(np == parts.update(parts.len() - 1, parts.last().push(c)));
                        if seen_sep {
                            assert(np[0] == parts[0]);
                        }
                    }
                }
                proof {
                    k = k + 1;
                }
            },
            None => {
                break;
            },
        }
    }
    assert(s@.take(k) =~= s@);
    let parts_first_dot = if seen_sep {
        first_dot
    } else {
        is_word(&cur, ".")
    };
    proof {
        reveal_strlit(".");
        reveal_strlit("/");
        assert("."@ =~= seq!['.']);
        assert("/"@ =~= seq!['/']);
    }
    let ghost parts = split_parts(s@);
    assert(parts_first_dot == (parts[0] == seq!['.']));
    let mut cs: Vec<String> = Vec::new();
    if absolute {
        cs.push(String::from_str("/"));
    } else if parts_first_dot {
        cs.push(String::from_str("."));
    }
    let ghost prefix = strings_view(cs@);
    let normal = !cur.as_str().is_empty() && !is_word(&cur, ".");
    if normal {
        done.push(cur);
    }
    proof {
        assert(parts =~= parts.drop_last().push(parts.last()));
        assert(strings_view(done@) =~= normal_parts(parts));
    }
    let m = done.len();
    for i in 0..m
        invariant
            m == done@.len(),
            strings_view(cs@) =~= prefix + strings_view(done@).take(i as int),
    {
        let ghost before = strings_view(cs@);
        cs.push(done[i].clone());
        assert(strings_view(cs@) =~= before.push(done@[i as int]@));
        assert(strings_view(done@).take(i + 1) =~= strings_view(done@).take(i as int).push(done@[i as int]@));
    }
    proof {
        assert(strings_view(done@).take(m as int) =~= strings_view(done@));
        let root: Seq<Seq<char>> = if is_absolute(s@) {
            seq![seq!['/']]
        } else {
            Seq::empty()
        };
        let curd: Seq<Seq<char>> = if !is_absolute(s@) && parts[0] == seq!['.'] {
            seq![seq!['.']]
        } else {
            Seq::empty()
        };
        assert(prefix =~= root + curd);
    }
    cs
}

/// `p` lies under `base`, component by component.
pub fn starts_with_path(p: &String, base: &String) -> (b: bool)
    ensures
        b == path_starts_with(p@, base@),
{
    let a = path_components(base);
    let c = path_components(p);
    if a.len() > c.len() {
        return false;
    }
    let n = a.len();
    for i in 0..n
        invariant
            n == a@.len(),
            n <= c@.len(),
            strings_view(a@) == components(base@),
            strings_view(c@) == components(p@),
            strings_view(c@).take(i as int) == strings_view(a@).take(i as int),
    {
        if a[i] != c[i] {
            proof {
                assert(strings_view(c@).take(n as int)[i as int] == c@[i as int]@);
                assert(strings_view(a@)[i as int] == a@[i as int]@);
            }
            return false;
        }
        assert(strings_view(c@).take(i + 1) =~= strings_view(c@).take(i as int).push(c@[i as int]@));
        assert(strings_view(a@).take(i + 1) =~= strings_view(a@).take(i as int).push(a@[i as int]@));
    }
    assert(strings_view(a@).take(n as int) =~= strings_view(a@));
    true
}

/// What executing one planned operation does to the file system.
#[derive(Clone, Debug, PartialEq, Eq)]
pub enum OpAction {
    /// Copy file `from` over `to`, creating `to`'s parent directories first.
    CopyFile { from: String, to: String },
    /// Remove file `target`.
    RemoveFile { target: String },
    /// Nothing to do.
    Nothing,
    /// Refuse: `target`, the copy's destination, does not lie under the destination root.
    RefuseWrite { target: String },
    /// Refuse: `target`, the file to delete, does not lie under the destination root.
    RefuseDelete { target: String },
}

/// What an `OpAction` holds, as mathematical values.
pub enum ActionView {
    CopyFile(Seq<char>, Seq<char>),
    RemoveFile(Seq<char>),
    Nothing,
    RefuseWrite(Seq<char>),
    RefuseDelete(Seq<char>),
}

impl View for OpAction {
    type V = ActionView;

    open spec fn view(&self) -> ActionView {
        match self {
            OpAction::CopyFile { from, to } => ActionView::CopyFile(from@, to@),
            OpAction::RemoveFile { target } => ActionView::RemoveFile(target@),
            OpAction::Nothing => ActionView::Nothing,
            OpAction::RefuseWrite { target } => ActionView::RefuseWrite(target@),
            OpAction::RefuseDelete { target } => ActionView::RefuseDelete(target@),
        }
    }
}

/// The action for `op` when syncing `source` into `dest`: a copy goes from
/// `source` joined with the path to `dest` joined with the path, a delete
/// removes `dest` joined with the path, a skip does nothing; a copy or
/// delete whose target does not lie under `dest` is refused.
pub open spec fn planned_action(op: SyncOpView, source: Seq<char>, dest: Seq<char>) -> ActionView {
    match op {
        SyncOpView::Copy(p) => {
            let to = path_join(dest, p);
            if path_starts_with(to, dest) {
                ActionView::CopyFile(path_join(source, p), to)
            } else {
                ActionView::RefuseWrite(to)
            }
        },
        SyncOpView::Delete(p) => {
            let target = path_join(dest, p);
            if path_starts_with(target, dest) {
                ActionView::RemoveFile(target)
            } else {
                ActionView::RefuseDelete(target)
            }
        },
        SyncOpView::Skip(_, _) => ActionView::Nothing,
    }
}

/// Decide what executing `op` does when syncing directory `source` into `dest`.
pub fn op_action(op: &SyncOp, source: &String, dest: &String) -> (a: OpAction)
    ensures
        a@ == planned_action(op@, source@, dest@),
{
    match op {
        SyncOp::Copy { path } => {
            let from = join_paths(source, path);
            let to = join_paths(dest, path);
            if starts_with_path(&to, dest) {
                OpAction::CopyFile { from, to }
            } else {
                OpAction::RefuseWrite { target: to }
            }
        },
        SyncOp::Delete { path } => {
            let target = join_paths(dest, path);
            if starts_with_path(&target, dest) {
                OpAction::RemoveFile { target }
            } else {
                OpAction::RefuseDelete { target }
            }
        },
        SyncOp::Skip { .. } => OpAction::Nothing,
    }
}

impl OpAction {
    /// The message for a refused action.
    pub open spec fn refusal_spec(&self) -> Seq<char> {
        match self {
            OpAction::RefuseWrite { target } => "refusing to write outside dest: "@ + target@,
            OpAction::RefuseDelete { target } => "refusing to delete outside dest: "@ + target@,
            _ => Seq::empty(),
        }
    }

    /// The message for a refused action.
    pub fn refusal_message(&self) -> (m: String)
        requires
            self is RefuseWrite || self is RefuseDelete,
        ensures
            m@ == self.refusal_spec(),
    {
        match self {
            OpAction::RefuseWrite { target } => concat("refusing to write outside dest: ", target.as_str()),
            OpAction::RefuseDelete { target } => concat("refusing to delete outside dest: ", target.as_str()),
            _ => String::new(),
        }
    }
}

/// Every file that executing an operation writes or removes lies lexically
/// under the destination root (`..` is not resolved).
pub proof fn law_actions_stay_under_dest(op: SyncOpView, source: Seq<char>, dest: Seq<char>)
    ensures
        planned_action(op, source, dest) matches ActionView::CopyFile(_, to) ==> path_starts_with(to, dest),
        planned_action(op, source, dest) matches ActionView::RemoveFile(t) ==> path_starts_with(t, dest),
{
}

proof fn lemma_split_parts_nonempty(s: Seq<char>)
    ensures
        split_parts(s).len() >= 1,
    decreases s.len(),
{
    if s.len() > 0 {
        lemma_split_parts_nonempty(s.drop_last());
    }
}

/// Splitting at a separator splits the pieces.
proof fn lemma_split_parts_concat(x: Seq<char>, y: Seq<char>)
    ensures
        split_parts(x + seq!['/'] + y) == split_parts(x) + split_parts(y),
    decreases y.len(),
{
    let xs = x + seq!['/'];
    lemma_split_parts_nonempty(x);
    if y.len() == 0 {
        assert(xs + y =~= xs);
        assert(xs.drop_last() =~= x);
        assert(split_parts(x) + split_parts(y) =~= split_parts(x).push(Seq::empty()));
    } else {
        lemma_split_parts_concat(x, y.drop_last());
        lemma_split_parts_nonempty(y.drop_last());
        assert((xs + y).drop_last() =~= xs + y.drop_last());
        assert((xs + y).last() == y.last());
        let a = split_parts(x);
        let b = split_parts(y.drop_last());
        if y.last() == '/' {
            assert(split_parts(y) == b.push(Seq::empty()));
            assert((a + b).push(Seq::empty()) =~= a + b.push(Seq::empty()));
        } else {
            assert(split_parts(y) == b.update(b.len() - 1, b.last().push(y.last())));
            assert((a + b).update((a + b).len() - 1, (a + b).last().push(y.last())) =~= a + b.update(
                b.len() - 1,
                b.last().push(y.last()),
            ));
        }
    }
}

/// Keeping the pieces that name something commutes with concatenation.
proof fn lemma_normal_parts_concat(a: Seq<Seq<char>>, b: Seq<Seq<char>>)
    ensures
        normal_parts(a + b) == normal_parts(a) + normal_parts(b),
    decreases b.len(),
{
    if b.len() == 0 {
        assert(a + b =~= a);
        assert(normal_parts(a) + normal_parts(b) =~= normal_parts(a));
    } else {
        lemma_normal_parts_concat(a, b.drop_last());
        assert((a + b).drop_last() =~= a + b.drop_last());
        assert((a + b).last() == b.last());
        if is_normal(b.last()) {
            assert((normal_parts(a) + normal_parts(b.drop_last())).push(b.last()) =~= normal_parts(a)
                + normal_parts(b.drop_last()).push(b.last()));
        }
    }
}

/// Joining a relative path onto `dest` always gives a path lexically under
/// `dest` (its components begin with those of `dest`), so the check made
/// before each copy or delete refuses only absolute operation paths. The
/// check is lexical: `..` is not resolved, so `../x` passes it.
pub proof fn law_relative_paths_stay_under_dest(dest: Seq<char>, p: Seq<char>)
    requires
        !is_absolute(p),
    ensures
        path_starts_with(path_join(dest, p), dest),
{
    let j = path_join(dest, p);
    if dest.len() == 0 {
        assert(dest + p =~= p);
        assert(split_parts(dest) == seq![Seq::<char>::empty()]);
        assert(split_parts(dest).drop_last() =~= Seq::<Seq<char>>::empty());
        assert(!is_normal(split_parts(dest).last()));
        assert(normal_parts(split_parts(dest).drop_last()) =~= Seq::<Seq<char>>::empty());
        assert(normal_parts(split_parts(dest)) =~= Seq::<Seq<char>>::empty());
        assert(split_parts(dest)[0].len() == 0);
        assert(split_parts(dest)[0] != seq!['.']);
        assert(components(dest) =~= Seq::<Seq<char>>::empty());
        assert(components(j).take(0) =~= components(dest));
    } else {
        let d = if dest.last() == '/' {
            dest.drop_last()
        } else {
            dest
        };
        assert(j =~= d + seq!['/'] + p);
        lemma_split_parts_concat(d, p);
        lemma_split_parts_nonempty(d);
        lemma_normal_parts_concat(split_parts(d), split_parts(p));
        if dest.last() == '/' {
            assert(dest =~= d.push('/'));
            assert(split_parts(dest) == split_parts(d).push(Seq::empty()));
            assert(split_parts(dest).drop_last() =~= split_parts(d));
            assert(normal_parts(split_parts(dest)) == normal_parts(split_parts(d)));
            assert(split_parts(dest)[0] == split_parts(d)[0]);
        }
        assert(split_parts(j)[0] == split_parts(d)[0]);
        assert(is_absolute(j) == is_absolute(dest));
        let c = components(j);
        let a = components(dest);
        assert(c =~= a + normal_parts(split_parts(p)));
        assert(c.take(a.len() as int) =~= a);
    }
}


/// A copy or deletion of a path that does not start at the root is always
/// carried out: a copy reads the path joined onto the source and writes it
/// joined onto the destination, a deletion removes it joined onto the
/// destination, whatever characters the path holds.
pub proof fn law_relative_ops_are_carried_out(p: Seq<char>, source: Seq<char>, dest: Seq<char>)
    requires
        !is_absolute(p),
    ensures
        planned_action(SyncOpView::Copy(p), source, dest) == ActionView::CopyFile(
            path_join(source, p),
            path_join(dest, p),
        ),
        planned_action(SyncOpView::Delete(p), source, dest) == ActionView::RemoveFile(path_join(dest, p)),
{
    law_relative_paths_stay_under_dest(dest, p);
}

/// An operation is refused only when its target does not lie under the
/// destination; a copy or deletion whose target does is carried out.
pub proof fn law_refused_only_outside_dest(p: Seq<char>, source: Seq<char>, dest: Seq<char>)
    ensures
        planned_action(SyncOpView::Copy(p), source, dest) is RefuseWrite <==> !path_starts_with(
            path_join(dest, p),
            dest,
        ),
        planned_action(SyncOpView::Delete(p), source, dest) is RefuseDelete <==> !path_starts_with(
            path_join(dest, p),
            dest,
        ),
        path_starts_with(path_join(dest, p), dest) ==> planned_action(SyncOpView::Copy(p), source, dest)
            == ActionView::CopyFile(path_join(source, p), path_join(dest, p)),
        path_starts_with(path_join(dest, p), dest) ==> planned_action(SyncOpView::Delete(p), source, dest)
            == ActionView::RemoveFile(path_join(dest, p)),
{
}

} // verus!
