use vstd::prelude::*;

use crate::apply::{components, is_absolute, is_normal, normal_parts, split_parts};
use crate::diff::{expected_kind, identical_count, is_diff_of, lemma_identical_count, DiffKind};
use crate::path_order::{
    lemma_path_lt_asymmetric, lemma_path_lt_irreflexive, path_lt, path_ok_at, starts_component,
    valid_relative_path,
};
use crate::plan::{count_kind, is_plan_of, op_kind, op_path, planned_op, OpKind, SyncOpView};
use crate::hash::fnv1a;
use crate::scan::FileEntryView;
use crate::walk::{is_link_report_of, is_listing_of, join_path, task_for, EntryKind, TaskKind};

verus! {

/// Every entry of `m` carries the path it is stored under (true of every scan).
pub open spec fn keyed_by_path(m: Map<Seq<char>, FileEntryView>) -> bool {
    forall|p: Seq<char>| #[trigger] m.dom().contains(p) ==> m[p].path == p
}

/// A sequence of paths in strictly increasing path order.
pub open spec fn paths_sorted(s: Seq<Seq<char>>) -> bool {
    forall|a: int, b: int| 0 <= a < b < s.len() ==> path_lt(#[trigger] s[a], #[trigger] s[b])
}

/// Two strictly sorted sequences of paths that hold the same paths are equal.
pub proof fn lemma_sorted_paths_unique(x: Seq<Seq<char>>, y: Seq<Seq<char>>)
    requires
        paths_sorted(x),
        paths_sorted(y),
        forall|p: Seq<char>| x.contains(p) <==> y.contains(p),
    ensures
        x == y,
    decreases x.len(),
{
    if x.len() == 0 {
        if y.len() > 0 {
            assert(y.contains(y[0]));
        }
        assert(x =~= y);
    } else {
        assert(x.contains(x[0]));
        let k = choose|k: int| 0 <= k < y.len() && y[k] == x[0];
        assert(y.contains(y[0]));
        let m = choose|m: int| 0 <= m < x.len() && x[m] == y[0];
        if k > 0 {
            assert(path_lt(y[0], y[k]));
            if m > 0 {
                assert(path_lt(x[0], x[m]));
                lemma_path_lt_asymmetric(x[0], y[0]);
            } else {
                lemma_path_lt_irreflexive(x[0]);
            }
        }
        let xt = x.drop_first();
        let yt = y.drop_first();
        assert forall|p: Seq<char>| xt.contains(p) <==> yt.contains(p) by {
            if xt.contains(p) {
                let i = choose|i: int| 0 <= i < xt.len() && xt[i] == p;
                assert(x[i + 1] == p);
                assert(path_lt(x[0], x[i + 1]));
                assert(y.contains(p));
                let j = choose|j: int| 0 <= j < y.len() && y[j] == p;
                if j == 0 {
                    lemma_path_lt_irreflexive(p);
                }
                assert(yt[j - 1] == p);
            }
            if yt.contains(p) {
                let i = choose|i: int| 0 <= i < yt.len() && yt[i] == p;
                assert(y[i + 1] == p);
                assert(path_lt(y[0], y[i + 1]));
                assert(x.contains(p));
                let j = choose|j: int| 0 <= j < x.len() && x[j] == p;
                if j == 0 {
                    lemma_path_lt_irreflexive(p);
                }
                assert(xt[j - 1] == p);
            }
        }
        assert(paths_sorted(xt)) by {
            assert forall|a: int, b: int| 0 <= a < b < xt.len() implies path_lt(#[trigger] xt[a], #[trigger] xt[b]) by {
                assert(xt[a] == x[a + 1] && xt[b] == x[b + 1]);
            }
        }
        assert(paths_sorted(yt)) by {
            assert forall|a: int, b: int| 0 <= a < b < yt.len() implies path_lt(#[trigger] yt[a], #[trigger] yt[b]) by {
                assert(yt[a] == y[a + 1] && yt[b] == y[b + 1]);
            }
        }
        lemma_sorted_paths_unique(xt, yt);
        assert(x =~= seq![x[0]] + xt);
        assert(y =~= seq![y[0]] + yt);
    }
}

/// The diff of two maps is unique: any two sequences that both satisfy
/// `is_diff_of` for the same source and destination are equal. So the
/// output of `diff_scans` is fully determined by the two scans.
pub proof fn law_diff_is_deterministic(
    src: Map<Seq<char>, FileEntryView>,
    dst: Map<Seq<char>, FileEntryView>,
    x: Seq<(DiffKind, Seq<char>)>,
    y: Seq<(DiffKind, Seq<char>)>,
)
    requires
        is_diff_of(src, dst, x),
        is_diff_of(src, dst, y),
    ensures
        x == y,
{
    let px = x.map_values(|d: (DiffKind, Seq<char>)| d.1);
    let py = y.map_values(|d: (DiffKind, Seq<char>)| d.1);
    assert forall|a: int, b: int| 0 <= a < b < px.len() implies path_lt(#[trigger] px[a], #[trigger] px[b]) by {
        assert(px[a] == x[a].1 && px[b] == x[b].1);
    }
    assert forall|a: int, b: int| 0 <= a < b < py.len() implies path_lt(#[trigger] py[a], #[trigger] py[b]) by {
        assert(py[a] == y[a].1 && py[b] == y[b].1);
    }
    assert forall|p: Seq<char>| px.contains(p) <==> py.contains(p) by {
        if px.contains(p) {
            let i = choose|i: int| 0 <= i < px.len() && px[i] == p;
            assert(x[i].1 == p);
            assert(src.dom().contains(p) || dst.dom().contains(p));
            let j = choose|j: int| 0 <= j < y.len() && (#[trigger] y[j]).1 == p;
            assert(py[j] == p);
        }
        if py.contains(p) {
            let i = choose|i: int| 0 <= i < py.len() && py[i] == p;
            assert(y[i].1 == p);
            assert(src.dom().contains(p) || dst.dom().contains(p));
            let j = choose|j: int| 0 <= j < x.len() && (#[trigger] x[j]).1 == p;
            assert(px[j] == p);
        }
    }
    lemma_sorted_paths_unique(px, py);
    assert forall|i: int| 0 <= i < x.len() implies x[i] == y[i] by {
        assert(px[i] == x[i].1 && py[i] == y[i].1);
        assert(x[i].0 == expected_kind(src, dst, x[i].1));
        assert(y[i].0 == expected_kind(src, dst, y[i].1));
    }
    assert(x =~= y);
}

/// Swapping source and destination in a difference.
pub open spec fn swap_side(d: (DiffKind, Seq<char>)) -> (DiffKind, Seq<char>) {
    match d.0 {
        DiffKind::MissingInDest => (DiffKind::MissingInSource, d.1),
        DiffKind::MissingInSource => (DiffKind::MissingInDest, d.1),
        _ => d,
    }
}

/// Diffing is symmetric: the diff of `dst` against `src` is the diff of
/// `src` against `dst` with "missing in dest" and "missing in source" swapped.
pub proof fn law_diff_swap_sides(
    src: Map<Seq<char>, FileEntryView>,
    dst: Map<Seq<char>, FileEntryView>,
    x: Seq<(DiffKind, Seq<char>)>,
)
    requires
        is_diff_of(src, dst, x),
    ensures
        is_diff_of(dst, src, x.map_values(|d: (DiffKind, Seq<char>)| swap_side(d))),
{
    let y = x.map_values(|d: (DiffKind, Seq<char>)| swap_side(d));
    assert forall|a: int| 0 <= a < y.len() implies (#[trigger] y[a]).1 == x[a].1 by {}
    assert forall|a: int, b: int| 0 <= a < b < y.len() implies path_lt(#[trigger] y[a].1, #[trigger] y[b].1) by {
        assert(y[a].1 == x[a].1 && y[b].1 == x[b].1);
    }
    assert forall|a: int| 0 <= a < y.len() implies (dst.dom().contains(#[trigger] y[a].1) || src.dom().contains(y[a].1)) by {
        assert(y[a].1 == x[a].1);
    }
    assert forall|a: int| 0 <= a < y.len() implies (#[trigger] y[a]).0 == expected_kind(dst, src, y[a].1) by {
        assert(y[a].1 == x[a].1);
        assert(x[a].0 == expected_kind(src, dst, x[a].1));
    }
    assert forall|p: Seq<char>|
        #![trigger dst.dom().contains(p)]
        #![trigger src.dom().contains(p)]
        dst.dom().contains(p) || src.dom().contains(p) implies exists|a: int| 0 <= a < y.len() && (#[trigger] y[a]).1 == p by {
        let a = choose|a: int| 0 <= a < x.len() && (#[trigger] x[a]).1 == p;
        assert(y[a].1 == p);
    }
}

/// Two scans compare as identical everywhere exactly when they are equal:
/// every difference is `Identical` if and only if the maps are the same.
pub proof fn law_all_identical_iff_equal(
    src: Map<Seq<char>, FileEntryView>,
    dst: Map<Seq<char>, FileEntryView>,
    x: Seq<(DiffKind, Seq<char>)>,
)
    requires
        keyed_by_path(src),
        keyed_by_path(dst),
        is_diff_of(src, dst, x),
    ensures
        (forall|a: int| 0 <= a < x.len() ==> (#[trigger] x[a]).0 == DiffKind::Identical) <==> src == dst,
{
    if forall|a: int| 0 <= a < x.len() ==> (#[trigger] x[a]).0 == DiffKind::Identical {
        assert forall|p: Seq<char>| src.dom().contains(p) <==> dst.dom().contains(p) by {
            if src.dom().contains(p) || dst.dom().contains(p) {
                let a = choose|a: int| 0 <= a < x.len() && (#[trigger] x[a]).1 == p;
                assert(x[a].0 == expected_kind(src, dst, p));
            }
        }
        assert forall|p: Seq<char>| #[trigger] src.dom().contains(p) implies src[p] == dst[p] by {
            let a = choose|a: int| 0 <= a < x.len() && (#[trigger] x[a]).1 == p;
            assert(x[a].0 == expected_kind(src, dst, p));
        }
        assert(src =~= dst);
    }
    if src == dst {
        assert forall|a: int| 0 <= a < x.len() implies (#[trigger] x[a]).0 == DiffKind::Identical by {
            assert(x[a].0 == expected_kind(src, dst, x[a].1));
        }
    }
}

/// Without `--delete` no operation deletes anything.
pub proof fn law_no_delete_without_flag(
    src: Map<Seq<char>, FileEntryView>,
    dst: Map<Seq<char>, FileEntryView>,
    ops: Seq<SyncOpView>,
)
    requires
        is_plan_of(src, dst, false, ops),
    ensures
        forall|a: int| 0 <= a < ops.len() ==> !((#[trigger] ops[a]) is Delete),
{
    assert forall|a: int| 0 <= a < ops.len() implies !((#[trigger] ops[a]) is Delete) by {
        assert(ops[a] == planned_op((expected_kind(src, dst, op_path(ops[a])), op_path(ops[a])), false));
    }
}

/// The destination after one operation: a copy stores the source's entry at
/// the path, a delete removes the path, a skip leaves the destination alone.
pub open spec fn apply_op(
    dst: Map<Seq<char>, FileEntryView>,
    src: Map<Seq<char>, FileEntryView>,
    op: SyncOpView,
) -> Map<Seq<char>, FileEntryView> {
    match op {
        SyncOpView::Copy(p) => dst.insert(p, src[p]),
        SyncOpView::Delete(p) => dst.remove(p),
        SyncOpView::Skip(_, _) => dst,
    }
}

/// The destination after the operations, applied in order.
pub open spec fn apply_ops(
    dst: Map<Seq<char>, FileEntryView>,
    src: Map<Seq<char>, FileEntryView>,
    ops: Seq<SyncOpView>,
) -> Map<Seq<char>, FileEntryView>
    decreases ops.len(),
{
    if ops.len() == 0 {
        dst
    } else {
        apply_op(apply_ops(dst, src, ops.drop_last()), src, ops.last())
    }
}

/// What a sync should leave in the destination: the source exactly with
/// `delete_extraneous`, else the source together with the destination-only files.
pub open spec fn synced(
    src: Map<Seq<char>, FileEntryView>,
    dst: Map<Seq<char>, FileEntryView>,
    delete_extraneous: bool,
) -> Map<Seq<char>, FileEntryView> {
    if delete_extraneous {
        src
    } else {
        dst.union_prefer_right(src)
    }
}

/// The destination once the paths in `done` have been synced and the others not yet.
spec fn partly_synced(
    src: Map<Seq<char>, FileEntryView>,
    dst: Map<Seq<char>, FileEntryView>,
    delete_extraneous: bool,
    done: Set<Seq<char>>,
) -> Map<Seq<char>, FileEntryView> {
    let t = synced(src, dst, delete_extraneous);
    Map::new(
        |p: Seq<char>| if done.contains(p) { t.dom().contains(p) } else { dst.dom().contains(p) },
        |p: Seq<char>| if done.contains(p) { t[p] } else { dst[p] },
    )
}

/// The paths of the first `k` operations.
spec fn done_paths(ops: Seq<SyncOpView>, k: int) -> Set<Seq<char>> {
    Set::new(|p: Seq<char>| exists|a: int| 0 <= a < k && op_path(#[trigger] ops[a]) == p)
}

proof fn lemma_apply_prefix(
    src: Map<Seq<char>, FileEntryView>,
    dst: Map<Seq<char>, FileEntryView>,
    delete_extraneous: bool,
    ops: Seq<SyncOpView>,
    k: int,
)
    requires
        keyed_by_path(src),
        keyed_by_path(dst),
        is_plan_of(src, dst, delete_extraneous, ops),
        0 <= k <= ops.len(),
    ensures
        apply_ops(dst, src, ops.take(k)) == partly_synced(src, dst, delete_extraneous, done_paths(ops, k)),
    decreases k,
{
    let t = synced(src, dst, delete_extraneous);
    if k == 0 {
        assert(ops.take(0).len() == 0);
        assert(partly_synced(src, dst, delete_extraneous, done_paths(ops, 0)) =~= dst);
    } else {
        lemma_apply_prefix(src, dst, delete_extraneous, ops, k - 1);
        assert(ops.take(k).drop_last() =~= ops.take(k - 1));
        let prev = partly_synced(src, dst, delete_extraneous, done_paths(ops, k - 1));
        let op = ops[k - 1];
        let p = op_path(op);
        assert(ops.take(k).last() == op);
        let done = done_paths(ops, k);
        let before = done_paths(ops, k - 1);
        assert(!before.contains(p)) by {
            if before.contains(p) {
                let a = choose|a: int| 0 <= a < k - 1 && op_path(#[trigger] ops[a]) == p;
                assert(path_lt(op_path(ops[a]), op_path(ops[k - 1])));
                lemma_path_lt_irreflexive(p);
            }
        }
        assert forall|q: Seq<char>| done.contains(q) <==> (before.contains(q) || q == p) by {
            if done.contains(q) && q != p {
                let a = choose|a: int| 0 <= a < k && op_path(#[trigger] ops[a]) == q;
                assert(a < k - 1);
            }
            if before.contains(q) {
                let a = choose|a: int| 0 <= a < k - 1 && op_path(#[trigger] ops[a]) == q;
                assert(op_path(ops[a]) == q);
            }
            if q == p {
                assert(op_path(ops[k - 1]) == q);
            }
        }
        assert(op == planned_op((expected_kind(src, dst, p), p), delete_extraneous));
        assert(src.dom().contains(p) || dst.dom().contains(p));
        let next = apply_op(prev, src, op);
        let goal = partly_synced(src, dst, delete_extraneous, done);
        assert(next =~= goal) by {
            assert forall|q: Seq<char>| next.dom().contains(q) <==> goal.dom().contains(q) by {}
            assert forall|q: Seq<char>| #[trigger] next.dom().contains(q) implies next[q] == goal[q] by {
                if q == p {
                    match op {
                        SyncOpView::Copy(_) => {},
                        SyncOpView::Delete(_) => {},
                        SyncOpView::Skip(_, _) => {
                            if src.dom().contains(p) {
                                assert(src[p].path == p && dst[p].path == p);
                                assert(src[p] =~= dst[p]);
                            }
                        },
                    }
                }
            }
        }
    }
}

/// Applying the planned operations to the destination leaves exactly what a
/// sync should: with `delete_extraneous` the destination becomes the
/// source, otherwise the source plus the files found only in the destination.
pub proof fn law_applying_plan_syncs(
    src: Map<Seq<char>, FileEntryView>,
    dst: Map<Seq<char>, FileEntryView>,
    delete_extraneous: bool,
    ops: Seq<SyncOpView>,
)
    requires
        keyed_by_path(src),
        keyed_by_path(dst),
        is_plan_of(src, dst, delete_extraneous, ops),
    ensures
        apply_ops(dst, src, ops) == synced(src, dst, delete_extraneous),
{
    lemma_apply_prefix(src, dst, delete_extraneous, ops, ops.len() as int);
    assert(ops.take(ops.len() as int) =~= ops);
    let t = synced(src, dst, delete_extraneous);
    let done = done_paths(ops, ops.len() as int);
    let r = partly_synced(src, dst, delete_extraneous, done);
    assert forall|q: Seq<char>| src.dom().contains(q) || dst.dom().contains(q) implies #[trigger] done.contains(q) by {
        let a = choose|a: int| 0 <= a < ops.len() && op_path(#[trigger] ops[a]) == q;
        assert(op_path(ops[a]) == q);
    }
    assert(r =~= t);
}

/// `check` reports the two scans in sync (every difference identical)
/// exactly when they are equal.
pub proof fn law_check_in_sync_iff_equal(
    src: Map<Seq<char>, FileEntryView>,
    dst: Map<Seq<char>, FileEntryView>,
    ds: Seq<(DiffKind, Seq<char>)>,
)
    requires
        keyed_by_path(src),
        keyed_by_path(dst),
        is_diff_of(src, dst, ds),
    ensures
        (identical_count(ds) == ds.len()) <==> src == dst,
{
    lemma_identical_count(ds);
    law_all_identical_iff_equal(src, dst, ds);
}

proof fn lemma_count_zero(ops: Seq<SyncOpView>, k: OpKind)
    ensures
        count_kind(ops, k) == 0 <==> forall|a: int| 0 <= a < ops.len() ==> op_kind(#[trigger] ops[a]) != k,
    decreases ops.len(),
{
    if ops.len() > 0 {
        let t = ops.drop_last();
        lemma_count_zero(t, k);
        if count_kind(ops, k) == 0 {
            assert forall|a: int| 0 <= a < ops.len() implies op_kind(#[trigger] ops[a]) != k by {
                if a < ops.len() - 1 {
                    assert(t[a] == ops[a]);
                }
            }
        }
        if forall|a: int| 0 <= a < ops.len() ==> op_kind(#[trigger] ops[a]) != k {
            assert forall|a: int| 0 <= a < t.len() implies op_kind(#[trigger] t[a]) != k by {
                assert(t[a] == ops[a]);
            }
            assert(op_kind(ops[ops.len() - 1]) != k);
        }
    }
}

proof fn lemma_apply_skips(
    dst: Map<Seq<char>, FileEntryView>,
    src: Map<Seq<char>, FileEntryView>,
    ops: Seq<SyncOpView>,
)
    requires
        forall|a: int| 0 <= a < ops.len() ==> op_kind(#[trigger] ops[a]) == OpKind::Skip,
    ensures
        apply_ops(dst, src, ops) == dst,
    decreases ops.len(),
{
    if ops.len() > 0 {
        let t = ops.drop_last();
        assert forall|a: int| 0 <= a < t.len() implies op_kind(#[trigger] t[a]) == OpKind::Skip by {
            assert(t[a] == ops[a]);
        }
        lemma_apply_skips(dst, src, t);
        assert(op_kind(ops[ops.len() - 1]) == OpKind::Skip);
    }
}

/// A plan is in sync (nothing to copy, nothing to delete) exactly when the
/// sync it stands for would leave the destination as it is.
pub proof fn law_in_sync_iff_nothing_changes(
    src: Map<Seq<char>, FileEntryView>,
    dst: Map<Seq<char>, FileEntryView>,
    delete_extraneous: bool,
    ops: Seq<SyncOpView>,
)
    requires
        keyed_by_path(src),
        keyed_by_path(dst),
        is_plan_of(src, dst, delete_extraneous, ops),
    ensures
        (count_kind(ops, OpKind::Copy) == 0 && count_kind(ops, OpKind::Delete) == 0)
            <==> synced(src, dst, delete_extraneous) == dst,
{
    lemma_count_zero(ops, OpKind::Copy);
    lemma_count_zero(ops, OpKind::Delete);
    let t = synced(src, dst, delete_extraneous);
    if count_kind(ops, OpKind::Copy) == 0 && count_kind(ops, OpKind::Delete) == 0 {
        assert forall|a: int| 0 <= a < ops.len() implies op_kind(#[trigger] ops[a]) == OpKind::Skip by {
            assert(op_kind(ops[a]) != OpKind::Copy);
            assert(op_kind(ops[a]) != OpKind::Delete);
        }
        lemma_apply_skips(dst, src, ops);
        law_applying_plan_syncs(src, dst, delete_extraneous, ops);
    }
    if t == dst {
        assert forall|a: int| 0 <= a < ops.len() implies op_kind(#[trigger] ops[a]) != OpKind::Copy
            && op_kind(ops[a]) != OpKind::Delete by {
            let p = op_path(ops[a]);
            assert(ops[a] == planned_op((expected_kind(src, dst, p), p), delete_extraneous));
            if src.dom().contains(p) {
                assert(t.dom().contains(p) && t[p] == src[p]);
            }
            if !src.dom().contains(p) && delete_extraneous {
                assert(!t.dom().contains(p));
            }
        }
    }
}

/// Syncing is idempotent: once a plan has been applied, planning again
/// with the same `delete_extraneous` finds nothing to copy or delete.
pub proof fn law_sync_is_idempotent(
    src: Map<Seq<char>, FileEntryView>,
    dst: Map<Seq<char>, FileEntryView>,
    delete_extraneous: bool,
    ops: Seq<SyncOpView>,
    again: Seq<SyncOpView>,
)
    requires
        keyed_by_path(src),
        keyed_by_path(dst),
        is_plan_of(src, dst, delete_extraneous, ops),
        is_plan_of(src, apply_ops(dst, src, ops), delete_extraneous, again),
    ensures
        count_kind(again, OpKind::Copy) == 0,
        count_kind(again, OpKind::Delete) == 0,
{
    law_applying_plan_syncs(src, dst, delete_extraneous, ops);
    let after = synced(src, dst, delete_extraneous);
    assert(keyed_by_path(after));
    assert(synced(src, after, delete_extraneous) =~= after);
    law_in_sync_iff_nothing_changes(src, after, delete_extraneous, again);
}

/// A directory tree as a scan sees it: the listing of each directory (by
/// path relative to the root, the root being the empty path) and the size
/// and contents of each regular file.
pub struct TreeModel {
    pub dirs: Map<Seq<char>, Map<Seq<char>, EntryKind>>,
    pub files: Map<Seq<char>, (u64, Seq<u8>)>,
}

/// `b` is the child `n` of directory `a`, and `a`'s listing marks it `kind`.
pub open spec fn child_of(fs: TreeModel, a: Seq<char>, n: Seq<char>, b: Seq<char>, kind: EntryKind) -> bool {
    &&& fs.dirs.dom().contains(a)
    &&& fs.dirs[a].dom().contains(n)
    &&& fs.dirs[a][n] == kind
    &&& b == join_path(a, n)
}

/// Step `i` of `chain` goes from a directory to one of its subdirectories.
pub open spec fn chain_step(fs: TreeModel, chain: Seq<Seq<char>>, i: int) -> bool {
    exists|n: Seq<char>| #[trigger] child_of(fs, chain[i], n, chain[i + 1], EntryKind::Dir)
}

/// `chain` goes down from the root through subdirectories; symbolic links
/// are never entries of kind `Dir`, so no chain passes through one.
pub open spec fn dir_chain(fs: TreeModel, chain: Seq<Seq<char>>) -> bool {
    &&& chain.len() >= 1
    &&& chain[0] == Seq::<char>::empty()
    &&& forall|i: int| 0 <= i < chain.len() - 1 ==> #[trigger] chain_step(fs, chain, i)
}

/// A directory reached from the root through subdirectories.
pub open spec fn reachable_dir(fs: TreeModel, d: Seq<char>) -> bool {
    exists|chain: Seq<Seq<char>>| #[trigger] dir_chain(fs, chain) && chain.last() == d
}

/// A regular file listed in a directory reached from the root.
pub open spec fn reachable_file(fs: TreeModel, f: Seq<char>) -> bool {
    exists|d: Seq<char>, n: Seq<char>| reachable_dir(fs, d) && #[trigger] child_of(fs, d, n, f, EntryKind::File)
}

/// What scanning the tree should give: every regular file reached from the
/// root, with its size and the FNV-1a hash of its contents.
pub open spec fn expected_scan(fs: TreeModel) -> Map<Seq<char>, FileEntryView> {
    Map::new(
        |f: Seq<char>| reachable_file(fs, f),
        |f: Seq<char>| FileEntryView { path: f, size: fs.files[f].0, content_hash: fnv1a(fs.files[f].1) },
    )
}

/// What holds between the tree, the pending tasks and the files found so
/// far at every step of a scan: pending tasks are reached directories and
/// files, everything found is a reached file recorded as it is, and every
/// reached file is found, pending, or lies below a pending directory.
pub open spec fn walk_inv(fs: TreeModel, tasks: Seq<(TaskKind, Seq<char>)>, found: Map<Seq<char>, FileEntryView>) -> bool {
    &&& forall|i: int| 0 <= i < tasks.len() && (#[trigger] tasks[i]).0 == TaskKind::ListDir ==> reachable_dir(fs, tasks[i].1)
    &&& forall|i: int| 0 <= i < tasks.len() && (#[trigger] tasks[i]).0 == TaskKind::ReadFile ==> reachable_file(fs, tasks[i].1)
    &&& forall|f: Seq<char>| #[trigger] found.dom().contains(f) ==> reachable_file(fs, f) && found[f] == expected_scan(fs)[f]
    &&& forall|f: Seq<char>| #[trigger] reachable_file(fs, f) ==> found.dom().contains(f) || tasks.contains(
        (TaskKind::ReadFile, f),
    ) || pending_below(fs, tasks, f)
}

/// `f` is a file of a directory reached by a chain through a pending directory.
pub open spec fn pending_below(fs: TreeModel, tasks: Seq<(TaskKind, Seq<char>)>, f: Seq<char>) -> bool {
    exists|c: Seq<Seq<char>>, n: Seq<char>, k: int|
        #![trigger dir_chain(fs, c), child_of(fs, c.last(), n, f, EntryKind::File), tasks.contains((TaskKind::ListDir, c[k]))]
        dir_chain(fs, c) && child_of(fs, c.last(), n, f, EntryKind::File) && 0 <= k < c.len()
            && tasks.contains((TaskKind::ListDir, c[k]))
}

/// A scan starts with the root to list and nothing found: the walk invariant holds.
pub proof fn law_walk_starts_well(fs: TreeModel)
    ensures
        walk_inv(fs, seq![(TaskKind::ListDir, Seq::<char>::empty())], Map::empty()),
{
    let tasks = seq![(TaskKind::ListDir, Seq::<char>::empty())];
    let root_chain = seq![Seq::<char>::empty()];
    assert(dir_chain(fs, root_chain));
    assert forall|i: int| 0 <= i < tasks.len() && (#[trigger] tasks[i]).0 == TaskKind::ListDir implies reachable_dir(fs, tasks[i].1) by {
        assert(dir_chain(fs, root_chain) && root_chain.last() == tasks[i].1);
    }
    assert(tasks.contains((TaskKind::ListDir, Seq::<char>::empty()))) by {
        assert(tasks[0] == (TaskKind::ListDir, Seq::<char>::empty()));
    }
    assert forall|f: Seq<char>| #[trigger] reachable_file(fs, f) implies pending_below(fs, tasks, f) by {
        let (d, n) = choose|d: Seq<char>, n: Seq<char>| reachable_dir(fs, d) && #[trigger] child_of(fs, d, n, f, EntryKind::File);
        let c = choose|c: Seq<Seq<char>>| #[trigger] dir_chain(fs, c) && c.last() == d;
        assert(tasks.contains((TaskKind::ListDir, c[0])));
    }
}

proof fn lemma_chain_extend(fs: TreeModel, c: Seq<Seq<char>>, n: Seq<char>, b: Seq<char>)
    requires
        dir_chain(fs, c),
        child_of(fs, c.last(), n, b, EntryKind::Dir),
    ensures
        dir_chain(fs, c.push(b)),
{
    let c2 = c.push(b);
    assert forall|i: int| 0 <= i < c2.len() - 1 implies #[trigger] chain_step(fs, c2, i) by {
        if i < c.len() - 1 {
            assert(chain_step(fs, c, i));
            let m = choose|m: Seq<char>| #[trigger] child_of(fs, c[i], m, c[i + 1], EntryKind::Dir);
            assert(child_of(fs, c2[i], m, c2[i + 1], EntryKind::Dir));
        } else {
            assert(child_of(fs, c2[i], n, c2[i + 1], EntryKind::Dir));
        }
    }
}

/// Listing a pending directory keeps the walk invariant: popping the task
/// for directory `d` and pushing the tasks its listing gives.
pub proof fn law_walk_listing_keeps_invariant(
    fs: TreeModel,
    tasks: Seq<(TaskKind, Seq<char>)>,
    found: Map<Seq<char>, FileEntryView>,
    d: Seq<char>,
    t: Seq<(TaskKind, Seq<char>)>,
)
    requires
        walk_inv(fs, tasks, found),
        tasks.len() > 0,
        tasks.last() == (TaskKind::ListDir, d),
        fs.dirs.dom().contains(d),
        is_listing_of(d, fs.dirs[d], t),
    ensures
        walk_inv(fs, tasks.drop_last() + t, found),
{
    let rest = tasks.drop_last();
    let nt = rest + t;
    assert(reachable_dir(fs, d)) by {
        assert(tasks[tasks.len() - 1].0 == TaskKind::ListDir);
    }
    let dc = choose|c: Seq<Seq<char>>| #[trigger] dir_chain(fs, c) && c.last() == d;
    // New tasks name reached directories and files.
    assert forall|i: int| 0 <= i < nt.len() && (#[trigger] nt[i]).0 == TaskKind::ListDir implies reachable_dir(fs, nt[i].1) by {
        if i < rest.len() {
            assert(nt[i] == tasks[i]);
        } else {
            let x = nt[i];
            assert(t[i - rest.len()] == x);
            assert(t.contains(x));
            let n = choose|n: Seq<char>| #[trigger] fs.dirs[d].dom().contains(n) && task_for(fs.dirs[d][n]) == Some(x.0) && x.1 == join_path(d, n);
            assert(child_of(fs, dc.last(), n, x.1, EntryKind::Dir));
            lemma_chain_extend(fs, dc, n, x.1);
            assert(dc.push(x.1).last() == x.1);
        }
    }
    assert forall|i: int| 0 <= i < nt.len() && (#[trigger] nt[i]).0 == TaskKind::ReadFile implies reachable_file(fs, nt[i].1) by {
        if i < rest.len() {
            assert(nt[i] == tasks[i]);
        } else {
            let x = nt[i];
            assert(t[i - rest.len()] == x);
            assert(t.contains(x));
            let n = choose|n: Seq<char>| #[trigger] fs.dirs[d].dom().contains(n) && task_for(fs.dirs[d][n]) == Some(x.0) && x.1 == join_path(d, n);
            assert(child_of(fs, d, n, x.1, EntryKind::File));
        }
    }
    assert forall|f: Seq<char>| #[trigger] reachable_file(fs, f) implies found.dom().contains(f) || nt.contains(
        (TaskKind::ReadFile, f),
    ) || pending_below(fs, nt, f) by {
        if !found.dom().contains(f) {
            if tasks.contains((TaskKind::ReadFile, f)) {
                let j = choose|j: int| 0 <= j < tasks.len() && tasks[j] == (TaskKind::ReadFile, f);
                assert(j < rest.len());
                assert(nt[j] == tasks[j]);
            } else {
                let (c, n, k) = choose|c: Seq<Seq<char>>, n: Seq<char>, k: int|
                    #![trigger dir_chain(fs, c), child_of(fs, c.last(), n, f, EntryKind::File), tasks.contains((TaskKind::ListDir, c[k]))]
                    dir_chain(fs, c) && child_of(fs, c.last(), n, f, EntryKind::File) && 0 <= k < c.len()
                        && tasks.contains((TaskKind::ListDir, c[k]));
                let j = choose|j: int| 0 <= j < tasks.len() && tasks[j] == (TaskKind::ListDir, c[k]);
                if j < rest.len() {
                    assert(nt[j] == tasks[j]);
                    assert(nt.contains((TaskKind::ListDir, c[k])));
                } else {
                    assert(c[k] == d);
                    if k < c.len() - 1 {
                        assert(chain_step(fs, c, k));
                        let m = choose|m: Seq<char>| #[trigger] child_of(fs, c[k], m, c[k + 1], EntryKind::Dir);
                        assert(fs.dirs[d].dom().contains(m) && task_for(fs.dirs[d][m]) is Some);
                        assert(t.contains((task_for(fs.dirs[d][m])->0, join_path(d, m))));
                        let a = choose|a: int| 0 <= a < t.len() && t[a] == (TaskKind::ListDir, c[k + 1]);
                        assert(nt[rest.len() + a] == t[a]);
                        assert(nt.contains((TaskKind::ListDir, c[k + 1])));
                    } else {
                        assert(c.last() == d);
                        assert(fs.dirs[d].dom().contains(n) && task_for(fs.dirs[d][n]) is Some);
                        assert(t.contains((task_for(fs.dirs[d][n])->0, join_path(d, n))));
                        let a = choose|a: int| 0 <= a < t.len() && t[a] == (TaskKind::ReadFile, f);
                        assert(nt[rest.len() + a] == t[a]);
                    }
                }
            }
        }
    }
}

/// Reading a pending file keeps the walk invariant: popping the task for
/// file `f` and recording it with the tree's size and contents for it.
pub proof fn law_walk_reading_keeps_invariant(
    fs: TreeModel,
    tasks: Seq<(TaskKind, Seq<char>)>,
    found: Map<Seq<char>, FileEntryView>,
    f: Seq<char>,
)
    requires
        walk_inv(fs, tasks, found),
        tasks.len() > 0,
        tasks.last() == (TaskKind::ReadFile, f),
    ensures
        walk_inv(
            fs,
            tasks.drop_last(),
            found.insert(f, FileEntryView { path: f, size: fs.files[f].0, content_hash: fnv1a(fs.files[f].1) }),
        ),
{
    let rest = tasks.drop_last();
    let nf = found.insert(f, FileEntryView { path: f, size: fs.files[f].0, content_hash: fnv1a(fs.files[f].1) });
    assert(reachable_file(fs, f)) by {
        assert(tasks[tasks.len() - 1].0 == TaskKind::ReadFile);
    }
    assert forall|i: int| 0 <= i < rest.len() && (#[trigger] rest[i]).0 == TaskKind::ListDir implies reachable_dir(fs, rest[i].1) by {
        assert(rest[i] == tasks[i]);
    }
    assert forall|i: int| 0 <= i < rest.len() && (#[trigger] rest[i]).0 == TaskKind::ReadFile implies reachable_file(fs, rest[i].1) by {
        assert(rest[i] == tasks[i]);
    }
    assert forall|g: Seq<char>| #[trigger] reachable_file(fs, g) implies nf.dom().contains(g) || rest.contains(
        (TaskKind::ReadFile, g),
    ) || pending_below(fs, rest, g) by {
        if !nf.dom().contains(g) {
            assert(g != f);
            if tasks.contains((TaskKind::ReadFile, g)) {
                let j = choose|j: int| 0 <= j < tasks.len() && tasks[j] == (TaskKind::ReadFile, g);
                assert(j < rest.len());
                assert(rest[j] == tasks[j]);
            } else {
                let (c, n, k) = choose|c: Seq<Seq<char>>, n: Seq<char>, k: int|
                    #![trigger dir_chain(fs, c), child_of(fs, c.last(), n, g, EntryKind::File), tasks.contains((TaskKind::ListDir, c[k]))]
                    dir_chain(fs, c) && child_of(fs, c.last(), n, g, EntryKind::File) && 0 <= k < c.len()
                        && tasks.contains((TaskKind::ListDir, c[k]));
                let j = choose|j: int| 0 <= j < tasks.len() && tasks[j] == (TaskKind::ListDir, c[k]);
                assert(j < rest.len());
                assert(rest[j] == tasks[j]);
                assert(rest.contains((TaskKind::ListDir, c[k])));
            }
        }
    }
}

/// When no task is left, the files found are exactly what scanning the
/// tree should give: every regular file reached from the root through
/// directories (never through a symbolic link), with its size and hash.
pub proof fn law_walk_done_finds_all_files(fs: TreeModel, found: Map<Seq<char>, FileEntryView>)
    requires
        walk_inv(fs, Seq::empty(), found),
    ensures
        found == expected_scan(fs),
{
    let e = expected_scan(fs);
    let empty = Seq::<(TaskKind, Seq<char>)>::empty();
    assert forall|f: Seq<char>| found.dom().contains(f) <==> e.dom().contains(f) by {
        if reachable_file(fs, f) && !found.dom().contains(f) {
            assert(!empty.contains((TaskKind::ReadFile, f)));
            if pending_below(fs, empty, f) {
                let (c, n, k) = choose|c: Seq<Seq<char>>, n: Seq<char>, k: int|
                    #![trigger dir_chain(fs, c), child_of(fs, c.last(), n, f, EntryKind::File), empty.contains((TaskKind::ListDir, c[k]))]
                    dir_chain(fs, c) && child_of(fs, c.last(), n, f, EntryKind::File) && 0 <= k < c.len()
                        && empty.contains((TaskKind::ListDir, c[k]));
            }
        }
    }
    assert(found =~= e);
}

/// A symbolic link listed in a directory reached from the root.
pub open spec fn reachable_link(fs: TreeModel, x: Seq<char>) -> bool {
    exists|d: Seq<char>, n: Seq<char>| reachable_dir(fs, d) && #[trigger] child_of(fs, d, n, x, EntryKind::Symlink)
}

/// `x` is a symbolic link of a directory reached by a chain through a pending directory.
pub open spec fn link_pending(fs: TreeModel, tasks: Seq<(TaskKind, Seq<char>)>, x: Seq<char>) -> bool {
    exists|c: Seq<Seq<char>>, n: Seq<char>, k: int|
        #![trigger dir_chain(fs, c), child_of(fs, c.last(), n, x, EntryKind::Symlink), tasks.contains((TaskKind::ListDir, c[k]))]
        dir_chain(fs, c) && child_of(fs, c.last(), n, x, EntryKind::Symlink) && 0 <= k < c.len()
            && tasks.contains((TaskKind::ListDir, c[k]))
}

/// What holds of the reported symbolic links at every step of a scan:
/// every report is a link of a reached directory, and every such link is
/// reported or lies in a directory still to be listed.
pub open spec fn links_inv(fs: TreeModel, tasks: Seq<(TaskKind, Seq<char>)>, reported: Seq<Seq<char>>) -> bool {
    &&& forall|x: Seq<char>| #[trigger] reported.contains(x) ==> reachable_link(fs, x)
    &&& forall|x: Seq<char>| #[trigger] reachable_link(fs, x) ==> reported.contains(x) || link_pending(fs, tasks, x)
}

/// A scan starts with nothing reported: the link invariant holds.
pub proof fn law_links_start_well(fs: TreeModel)
    ensures
        links_inv(fs, seq![(TaskKind::ListDir, Seq::<char>::empty())], Seq::empty()),
{
    let tasks = seq![(TaskKind::ListDir, Seq::<char>::empty())];
    assert(tasks.contains((TaskKind::ListDir, Seq::<char>::empty()))) by {
        assert(tasks[0] == (TaskKind::ListDir, Seq::<char>::empty()));
    }
    assert forall|x: Seq<char>| #[trigger] reachable_link(fs, x) implies link_pending(fs, tasks, x) by {
        let (d, n) = choose|d: Seq<char>, n: Seq<char>| reachable_dir(fs, d) && #[trigger] child_of(fs, d, n, x, EntryKind::Symlink);
        let c = choose|c: Seq<Seq<char>>| #[trigger] dir_chain(fs, c) && c.last() == d;
        assert(tasks.contains((TaskKind::ListDir, c[0])));
    }
}

/// Listing a pending directory keeps the link invariant: its tasks are
/// pushed and its symbolic links are reported, never followed.
pub proof fn law_links_listing_keeps_invariant(
    fs: TreeModel,
    tasks: Seq<(TaskKind, Seq<char>)>,
    found: Map<Seq<char>, FileEntryView>,
    reported: Seq<Seq<char>>,
    d: Seq<char>,
    t: Seq<(TaskKind, Seq<char>)>,
    w: Seq<Seq<char>>,
)
    requires
        walk_inv(fs, tasks, found),
        links_inv(fs, tasks, reported),
        tasks.len() > 0,
        tasks.last() == (TaskKind::ListDir, d),
        fs.dirs.dom().contains(d),
        is_listing_of(d, fs.dirs[d], t),
        is_link_report_of(d, fs.dirs[d], w),
    ensures
        links_inv(fs, tasks.drop_last() + t, reported + w),
{
    let rest = tasks.drop_last();
    let nt = rest + t;
    let nr = reported + w;
    assert(reachable_dir(fs, d)) by {
        assert(tasks[tasks.len() - 1].0 == TaskKind::ListDir);
    }
    assert forall|x: Seq<char>| #[trigger] nr.contains(x) implies reachable_link(fs, x) by {
        let a = choose|a: int| 0 <= a < nr.len() && nr[a] == x;
        if a < reported.len() {
            assert(reported[a] == x);
            assert(reported.contains(x));
        } else {
            assert(w[a - reported.len()] == x);
            assert(w.contains(x));
            let n = choose|n: Seq<char>| #[trigger] fs.dirs[d].dom().contains(n) && fs.dirs[d][n] == EntryKind::Symlink && x == join_path(d, n);
            assert(child_of(fs, d, n, x, EntryKind::Symlink));
        }
    }
    assert forall|x: Seq<char>| #[trigger] reachable_link(fs, x) implies nr.contains(x) || link_pending(fs, nt, x) by {
        if reported.contains(x) {
            let a = choose|a: int| 0 <= a < reported.len() && reported[a] == x;
            assert(nr[a] == x);
        } else {
            let (c, n, k) = choose|c: Seq<Seq<char>>, n: Seq<char>, k: int|
                #![trigger dir_chain(fs, c), child_of(fs, c.last(), n, x, EntryKind::Symlink), tasks.contains((TaskKind::ListDir, c[k]))]
                dir_chain(fs, c) && child_of(fs, c.last(), n, x, EntryKind::Symlink) && 0 <= k < c.len()
                    && tasks.contains((TaskKind::ListDir, c[k]));
            let j = choose|j: int| 0 <= j < tasks.len() && tasks[j] == (TaskKind::ListDir, c[k]);
            if j < rest.len() {
                assert(nt[j] == tasks[j]);
                assert(nt.contains((TaskKind::ListDir, c[k])));
            } else {
                assert(c[k] == d);
                if k < c.len() - 1 {
                    assert(chain_step(fs, c, k));
                    let m = choose|m: Seq<char>| #[trigger] child_of(fs, c[k], m, c[k + 1], EntryKind::Dir);
                    assert(fs.dirs[d].dom().contains(m) && task_for(fs.dirs[d][m]) is Some);
                    assert(t.contains((task_for(fs.dirs[d][m])->0, join_path(d, m))));
                    let a = choose|a: int| 0 <= a < t.len() && t[a] == (TaskKind::ListDir, c[k + 1]);
                    assert(nt[rest.len() + a] == t[a]);
                    assert(nt.contains((TaskKind::ListDir, c[k + 1])));
                } else {
                    assert(c.last() == d);
                    assert(fs.dirs[d].dom().contains(n) && fs.dirs[d][n] == EntryKind::Symlink);
                    assert(w.contains(join_path(d, n)));
                    let a = choose|a: int| 0 <= a < w.len() && w[a] == x;
                    assert(nr[reported.len() + a] == w[a]);
                }
            }
        }
    }
}

/// Reading a pending file keeps the link invariant.
pub proof fn law_links_reading_keeps_invariant(
    fs: TreeModel,
    tasks: Seq<(TaskKind, Seq<char>)>,
    reported: Seq<Seq<char>>,
    f: Seq<char>,
)
    requires
        links_inv(fs, tasks, reported),
        tasks.len() > 0,
        tasks.last() == (TaskKind::ReadFile, f),
    ensures
        links_inv(fs, tasks.drop_last(), reported),
{
    let rest = tasks.drop_last();
    assert forall|x: Seq<char>| #[trigger] reachable_link(fs, x) implies reported.contains(x) || link_pending(fs, rest, x) by {
        if !reported.contains(x) {
            let (c, n, k) = choose|c: Seq<Seq<char>>, n: Seq<char>, k: int|
                #![trigger dir_chain(fs, c), child_of(fs, c.last(), n, x, EntryKind::Symlink), tasks.contains((TaskKind::ListDir, c[k]))]
                dir_chain(fs, c) && child_of(fs, c.last(), n, x, EntryKind::Symlink) && 0 <= k < c.len()
                    && tasks.contains((TaskKind::ListDir, c[k]));
            let j = choose|j: int| 0 <= j < tasks.len() && tasks[j] == (TaskKind::ListDir, c[k]);
            assert(j < rest.len());
            assert(rest[j] == tasks[j]);
            assert(rest.contains((TaskKind::ListDir, c[k])));
        }
    }
}

/// When no task is left, the reported links are exactly the symbolic links
/// found in the directories reached from the root; none of them was
/// followed, so nothing reachable only through one is in the scan.
pub proof fn law_links_done_reports_all(fs: TreeModel, reported: Seq<Seq<char>>)
    requires
        links_inv(fs, Seq::empty(), reported),
    ensures
        forall|x: Seq<char>| reported.contains(x) <==> reachable_link(fs, x),
{
    let empty = Seq::<(TaskKind, Seq<char>)>::empty();
    assert forall|x: Seq<char>| reported.contains(x) <==> reachable_link(fs, x) by {
        if reachable_link(fs, x) && !reported.contains(x) {
            if link_pending(fs, empty, x) {
                let (c, n, k) = choose|c: Seq<Seq<char>>, n: Seq<char>, k: int|
                    #![trigger dir_chain(fs, c), child_of(fs, c.last(), n, x, EntryKind::Symlink), empty.contains((TaskKind::ListDir, c[k]))]
                    dir_chain(fs, c) && child_of(fs, c.last(), n, x, EntryKind::Symlink) && 0 <= k < c.len()
                        && empty.contains((TaskKind::ListDir, c[k]));
            }
        }
    }
}


/// The pieces `ps` joined with `/` between them.
spec fn join_parts(ps: Seq<Seq<char>>) -> Seq<char>
    decreases ps.len(),
{
    if ps.len() <= 1 {
        if ps.len() == 1 { ps[0] } else { Seq::empty() }
    } else {
        join_parts(ps.drop_last()) + seq!['/'] + ps.last()
    }
}

/// A path always has at least one piece.
proof fn lemma_split_parts_nonempty(s: Seq<char>)
    ensures
        split_parts(s).len() >= 1,
    decreases s.len(),
{
    if s.len() > 0 {
        lemma_split_parts_nonempty(s.drop_last());
    }
}

/// Joining the pieces of a path with `/` gives the path back.
proof fn lemma_join_split(s: Seq<char>)
    ensures
        join_parts(split_parts(s)) == s,
    decreases s.len(),
{
    if s.len() == 0 {
        assert(split_parts(s) =~= seq![Seq::<char>::empty()]);
    } else {
        let t = s.drop_last();
        let r = split_parts(t);
        lemma_split_parts_nonempty(t);
        lemma_join_split(t);
        if s.last() == '/' {
            assert(split_parts(s).drop_last() =~= r);
            assert(s =~= t + seq!['/'] + Seq::<char>::empty());
        } else {
            let u = r.update(r.len() - 1, r.last().push(s.last()));
            assert(split_parts(s) == u);
            if r.len() == 1 {
                assert(join_parts(r) == r[0]);
                assert(s =~= t.push(s.last()));
            } else {
                assert(u.drop_last() =~= r.drop_last());
                assert(join_parts(r) == join_parts(r.drop_last()) + seq!['/'] + r.last());
                assert(s =~= (join_parts(r.drop_last()) + seq!['/'] + r.last()).push(s.last()));
                assert(join_parts(u) =~= join_parts(r.drop_last()) + seq!['/'] + r.last().push(s.last()));
            }
        }
    }
}

/// The pieces of a path holding no `/` are the path alone.
proof fn lemma_split_no_slash(n: Seq<char>)
    requires
        forall|i: int| 0 <= i < n.len() ==> n[i] != '/',
    ensures
        split_parts(n) == seq![n],
    decreases n.len(),
{
    if n.len() == 0 {
        assert(n =~= Seq::<char>::empty());
        assert(split_parts(n) =~= seq![n]);
    } else {
        let t = n.drop_last();
        lemma_split_no_slash(t);
        let r = split_parts(t);
        assert(n.last() == n[n.len() - 1]);
        assert(n.last() != '/');
        assert(split_parts(n) == r.update(r.len() - 1, r.last().push(n.last())));
        assert(r.len() == 1 && r.last() == t);
        let x = t.push(n.last());
        assert(x =~= n);
        assert(r.update(0, x) =~= seq![n]);
    }
}

/// The pieces of `d/n`, where `n` holds no `/`, are those of `d` then `n`.
proof fn lemma_split_join(d: Seq<char>, n: Seq<char>)
    requires
        forall|i: int| 0 <= i < n.len() ==> n[i] != '/',
    ensures
        split_parts(d + seq!['/'] + n) == split_parts(d).push(n),
    decreases n.len(),
{
    lemma_split_parts_nonempty(d);
    let p = d + seq!['/'] + n;
    if n.len() == 0 {
        assert(n =~= Seq::<char>::empty());
        assert(p.drop_last() =~= d);
        assert(p.last() == '/');
        assert(split_parts(p) =~= split_parts(d).push(n));
    } else {
        let t = n.drop_last();
        lemma_split_join(d, t);
        assert(p.drop_last() =~= d + seq!['/'] + t);
        assert(p.last() == n.last());
        assert(n.last() == n[n.len() - 1]);
        assert(n.last() != '/');
        let r = split_parts(d + seq!['/'] + t);
        assert(r == split_parts(d).push(t));
        assert(split_parts(p) == r.update(r.len() - 1, r.last().push(n.last())));
        assert(r.last() == t);
        let x = t.push(n.last());
        assert(x =~= n);
        assert(r.update(r.len() - 1, x) =~= split_parts(d).push(n));
    }
}

/// Position of the last `/` of `p`, or -1 when it has none.
spec fn last_slash(p: Seq<char>) -> int
    decreases p.len(),
{
    if p.len() == 0 {
        -1
    } else if p.last() == '/' {
        p.len() - 1
    } else {
        last_slash(p.drop_last())
    }
}

proof fn lemma_last_slash(p: Seq<char>)
    ensures
        -1 <= last_slash(p) < p.len(),
        last_slash(p) >= 0 ==> p[last_slash(p)] == '/',
        forall|j: int| last_slash(p) < j < p.len() ==> p[j] != '/',
    decreases p.len(),
{
    if p.len() > 0 && p.last() != '/' {
        let t = p.drop_last();
        lemma_last_slash(t);
        assert forall|j: int| last_slash(p) < j < p.len() implies p[j] != '/' by {
            if j < t.len() {
                assert(p[j] == t[j]);
            }
        }
    }
}

/// A relative path split at its last separator `i`: the part before is a
/// relative path, the part after an entry name holding no separator.
proof fn lemma_split_at_last_slash(p: Seq<char>, i: int)
    requires
        valid_relative_path(p),
        0 <= i < p.len(),
        p[i] == '/',
        forall|j: int| i < j < p.len() ==> p[j] != '/',
    ensures
        valid_relative_path(p.take(i)),
        p == p.take(i) + seq!['/'] + p.skip(i + 1),
        forall|j: int| 0 <= j < p.skip(i + 1).len() ==> #[trigger] p.skip(i + 1)[j] != '/',
        is_normal(p.skip(i + 1)),
{
    let d = p.take(i);
    let n = p.skip(i + 1);
    assert(path_ok_at(p, i));
    assert(p =~= d + seq!['/'] + n);
    assert forall|j: int| 0 <= j < n.len() implies n[j] != '/' by {
        assert(n[j] == p[i + 1 + j]);
    }
    assert forall|j: int| 0 <= j < d.len() implies #[trigger] path_ok_at(d, j) by {
        assert(path_ok_at(p, j));
        assert(d[j] == p[j]);
        if j > 0 {
            assert(d[j - 1] == p[j - 1]);
        }
        if j + 1 < d.len() {
            assert(d[j + 1] == p[j + 1]);
        }
        if j + 2 < d.len() {
            assert(d[j + 2] == p[j + 2]);
        }
    }
    assert(starts_component(p, i + 1));
    assert(path_ok_at(p, i + 1));
    assert(n[0] == p[i + 1]);
    assert(n != seq!['.']) by {
        if n == seq!['.'] {
            assert(p[i + 1] == '.' && i + 2 == p.len());
        }
    }
}

/// The components of a relative path as a scan produces it are its pieces
/// between separators: no root, no leading `.`, nothing dropped.
proof fn lemma_valid_components(p: Seq<char>)
    requires
        valid_relative_path(p),
    ensures
        components(p) == split_parts(p),
        split_parts(p)[0] != seq!['.'],
    decreases p.len(),
{
    assert(path_ok_at(p, 0));
    assert(!is_absolute(p));
    lemma_last_slash(p);
    let i = last_slash(p);
    if i < 0 {
        lemma_split_no_slash(p);
        assert(p != seq!['.']) by {
            if p == seq!['.'] {
                assert(p[0] == '.' && p.len() == 1);
            }
        }
        assert(is_normal(p));
        assert(normal_parts(seq![p]) =~= seq![p]) by {
            reveal_with_fuel(normal_parts, 2);
            assert(seq![p].drop_last() =~= Seq::<Seq<char>>::empty());
            assert(seq![p].last() == p);
        }
        assert(components(p) =~= split_parts(p));
    } else {
        let d = p.take(i);
        let n = p.skip(i + 1);
        lemma_split_at_last_slash(p, i);
        lemma_valid_components(d);
        lemma_split_join(d, n);
        lemma_split_parts_nonempty(d);
        let sd = split_parts(d);
        assert(split_parts(p) == sd.push(n));
        assert(sd.push(n).drop_last() =~= sd);
        assert(normal_parts(sd.push(n)) == normal_parts(sd).push(n));
        assert(split_parts(p)[0] == sd[0]);
        assert(components(d) =~= normal_parts(sd));
        assert(components(p) =~= split_parts(p));
    }
}

/// Two relative paths as a scan produces them (the keys of a scan) are equal
/// exactly when their components are: comparing scan keys as strings is
/// comparing them as paths.
pub proof fn law_keys_equal_iff_components_equal(p: Seq<char>, q: Seq<char>)
    requires
        valid_relative_path(p),
        valid_relative_path(q),
    ensures
        p == q <==> components(p) == components(q),
{
    lemma_valid_components(p);
    lemma_valid_components(q);
    lemma_join_split(p);
    lemma_join_split(q);
}


/// `a` comes before `b` comparing characters by code point, a proper prefix
/// first: how two names are ordered.
pub open spec fn name_lt(a: Seq<char>, b: Seq<char>) -> bool
    decreases a.len(),
{
    if a.len() == 0 {
        b.len() > 0
    } else if b.len() == 0 {
        false
    } else if a[0] == b[0] {
        name_lt(a.drop_first(), b.drop_first())
    } else {
        (a[0] as u32) < (b[0] as u32)
    }
}

/// `a` comes before `b` comparing components one by one with `name_lt`, a
/// proper prefix first: how paths are ordered by their components.
pub open spec fn parts_lt(a: Seq<Seq<char>>, b: Seq<Seq<char>>) -> bool
    decreases a.len(),
{
    if a.len() == 0 {
        b.len() > 0
    } else if b.len() == 0 {
        false
    } else if a[0] == b[0] {
        parts_lt(a.drop_first(), b.drop_first())
    } else {
        name_lt(a[0], b[0])
    }
}

/// The pieces of `n/r`, where `n` holds no `/`, are `n` then those of `r`.
proof fn lemma_split_front(n: Seq<char>, r: Seq<char>)
    requires
        forall|i: int| 0 <= i < n.len() ==> n[i] != '/',
    ensures
        split_parts(n + seq!['/'] + r) == seq![n] + split_parts(r),
    decreases r.len(),
{
    let p = n + seq!['/'] + r;
    if r.len() == 0 {
        assert(r =~= Seq::<char>::empty());
        assert(p.drop_last() =~= n);
        assert(p.last() == '/');
        lemma_split_no_slash(n);
        assert(split_parts(r) =~= seq![Seq::<char>::empty()]);
        assert(split_parts(p) =~= seq![n] + split_parts(r));
    } else {
        let t = r.drop_last();
        lemma_split_front(n, t);
        lemma_split_parts_nonempty(t);
        assert(p.drop_last() =~= n + seq!['/'] + t);
        assert(p.last() == r.last());
        let a = split_parts(t);
        let b = seq![n] + a;
        if r.last() == '/' {
            assert(split_parts(p) == b.push(Seq::<char>::empty()));
            assert(split_parts(r) == a.push(Seq::<char>::empty()));
            assert(b.push(Seq::<char>::empty()) =~= seq![n] + a.push(Seq::<char>::empty()));
        } else {
            assert(split_parts(p) == b.update(b.len() - 1, b.last().push(r.last())));
            assert(split_parts(r) == a.update(a.len() - 1, a.last().push(r.last())));
            assert(b.last() == a.last());
            assert(b.update(b.len() - 1, a.last().push(r.last())) =~= seq![n] + a.update(
                a.len() - 1,
                a.last().push(r.last()),
            ));
        }
    }
}

/// Position of the first `/` of `p`, or -1 when it has none.
spec fn first_slash(p: Seq<char>) -> int
    decreases p.len(),
{
    if p.len() == 0 {
        -1
    } else if p[0] == '/' {
        0
    } else if first_slash(p.drop_first()) < 0 {
        -1
    } else {
        first_slash(p.drop_first()) + 1
    }
}

proof fn lemma_first_slash(p: Seq<char>)
    ensures
        -1 <= first_slash(p) < p.len(),
        first_slash(p) >= 0 ==> p[first_slash(p)] == '/',
        forall|j: int| 0 <= j < p.len() && (first_slash(p) < 0 || j < first_slash(p)) ==> p[j] != '/',
    decreases p.len(),
{
    if p.len() > 0 && p[0] != '/' {
        let t = p.drop_first();
        lemma_first_slash(t);
        assert forall|j: int| 0 <= j < p.len() && (first_slash(p) < 0 || j < first_slash(p)) implies p[j] != '/' by {
            if j > 0 {
                assert(p[j] == t[j - 1]);
            }
        }
    }
}

/// A relative path as a scan produces it is a first name `a` (no `/`), then
/// either nothing or `/` and another such path; its pieces are `a` then
/// those of the rest.
proof fn lemma_front(p: Seq<char>) -> (r: (Seq<char>, Seq<char>))
    requires
        valid_relative_path(p),
    ensures
        p == r.0 + r.1,
        r.0.len() > 0,
        forall|j: int| 0 <= j < r.0.len() ==> #[trigger] r.0[j] != '/',
        r.1.len() == 0 || (r.1[0] == '/' && valid_relative_path(r.1.drop_first())),
        split_parts(p) == seq![r.0] + (if r.1.len() == 0 {
            Seq::<Seq<char>>::empty()
        } else {
            split_parts(r.1.drop_first())
        }),
{
    lemma_first_slash(p);
    let i = first_slash(p);
    assert(path_ok_at(p, 0));
    if i < 0 {
        lemma_split_no_slash(p);
        assert(p =~= p + Seq::<char>::empty());
        assert(seq![p] =~= seq![p] + Seq::<Seq<char>>::empty());
        (p, Seq::empty())
    } else {
        let a = p.take(i);
        let u = p.skip(i);
        let rest = p.skip(i + 1);
        assert(path_ok_at(p, i));
        assert(p =~= a + u);
        assert(u.drop_first() =~= rest);
        assert(p =~= a + seq!['/'] + rest);
        assert forall|j: int| 0 <= j < a.len() implies #[trigger] a[j] != '/' by {
            assert(a[j] == p[j]);
        }
        assert forall|j: int| 0 <= j < rest.len() implies #[trigger] path_ok_at(rest, j) by {
            let k = i + 1 + j;
            assert(path_ok_at(p, k));
            assert(rest[j] == p[k]);
            if j > 0 {
                assert(rest[j - 1] == p[k - 1]);
            }
            if j + 1 < rest.len() {
                assert(rest[j + 1] == p[k + 1]);
            }
            if j + 2 < rest.len() {
                assert(rest[j + 2] == p[k + 2]);
            }
        }
        lemma_split_front(a, rest);
        (a, u)
    }
}

/// Comparing `a` then `u` with `b` then `v`, where the names `a`, `b` hold no
/// `/` and each tail is empty or starts with `/`: the names decide unless
/// they are equal, and then the tails do.
proof fn lemma_path_lt_names(a: Seq<char>, b: Seq<char>, u: Seq<char>, v: Seq<char>)
    requires
        forall|j: int| 0 <= j < a.len() ==> #[trigger] a[j] != '/',
        forall|j: int| 0 <= j < b.len() ==> #[trigger] b[j] != '/',
        u.len() == 0 || u[0] == '/',
        v.len() == 0 || v[0] == '/',
    ensures
        path_lt(a + u, b + v) == (if a == b { path_lt(u, v) } else { name_lt(a, b) }),
    decreases a.len(),
{
    if a.len() > 0 && b.len() > 0 {
        assert((a + u)[0] == a[0]);
        assert((b + v)[0] == b[0]);
        assert(a[0] != '/' && b[0] != '/');
        if a[0] == b[0] {
            let a1 = a.drop_first();
            let b1 = b.drop_first();
            assert((a + u).drop_first() =~= a1 + u);
            assert((b + v).drop_first() =~= b1 + v);
            assert forall|j: int| 0 <= j < a1.len() implies #[trigger] a1[j] != '/' by {
                assert(a1[j] == a[j + 1]);
            }
            assert forall|j: int| 0 <= j < b1.len() implies #[trigger] b1[j] != '/' by {
                assert(b1[j] == b[j + 1]);
            }
            lemma_path_lt_names(a1, b1, u, v);
            assert(a =~= seq![a[0]] + a1);
            assert(b =~= seq![b[0]] + b1);
            if a == b {
                assert(a1 =~= b1);
            }
        } else {
            assert(a != b);
        }
    } else if a.len() == 0 && b.len() == 0 {
        assert(a =~= b);
        assert(a + u =~= u);
        assert(b + v =~= v);
    } else if a.len() == 0 {
        assert(a + u =~= u);
        assert((b + v)[0] == b[0]);
        assert(b[0] != '/');
        assert(a != b);
    } else {
        assert(b + v =~= v);
        assert((a + u)[0] == a[0]);
        assert(a[0] != '/');
        assert(a != b);
    }
}

/// Scan keys (relative paths as a scan produces them) are ordered by
/// `path_lt` exactly as by their components, compared one by one with
/// `name_lt`: the order in which scans keep and list their entries is the
/// order of paths by components.
pub proof fn law_key_order_is_component_order(p: Seq<char>, q: Seq<char>)
    requires
        valid_relative_path(p),
        valid_relative_path(q),
    ensures
        path_lt(p, q) == parts_lt(components(p), components(q)),
    decreases p.len(),
{
    lemma_valid_components(p);
    lemma_valid_components(q);
    let (a, u) = lemma_front(p);
    let (b, v) = lemma_front(q);
    lemma_path_lt_names(a, b, u, v);
    let pa: Seq<Seq<char>> = if u.len() == 0 { Seq::empty() } else { split_parts(u.drop_first()) };
    let pb: Seq<Seq<char>> = if v.len() == 0 { Seq::empty() } else { split_parts(v.drop_first()) };
    let cp = seq![a] + pa;
    let cq = seq![b] + pb;
    assert(components(p) == cp);
    assert(components(q) == cq);
    assert(cp[0] == a && cq[0] == b);
    assert(cp.drop_first() =~= pa);
    assert(cq.drop_first() =~= pb);
    assert(path_lt(p, q) == path_lt(a + u, b + v));
    assert(parts_lt(cp, cq) == (if a == b { parts_lt(pa, pb) } else { name_lt(a, b) }));
    if a == b {
        if u.len() > 0 && v.len() > 0 {
            let r1 = u.drop_first();
            let r2 = v.drop_first();
            assert(u =~= seq!['/'] + r1);
            assert(v =~= seq!['/'] + r2);
            assert(path_lt(u, v) == path_lt(r1, r2));
            lemma_valid_components(r1);
            lemma_valid_components(r2);
            law_key_order_is_component_order(r1, r2);
            assert(path_lt(u, v) == parts_lt(pa, pb));
        } else if u.len() > 0 {
            lemma_split_parts_nonempty(u.drop_first());
        } else if v.len() > 0 {
            lemma_split_parts_nonempty(v.drop_first());
        }
    }
}

} // verus!
