use vstd::prelude::*;

use crate::diff::{diff_scans, diffs_view, expected_kind, is_diff_of, Diff, DiffKind};
use crate::path_order::path_lt;
use crate::scan::{FileEntryView, Scan};
use crate::text::{concat, decimal, decimal_string};

verus! {

/// The kind of a planned operation.
#[derive(Clone, Copy, Debug, PartialEq, Eq, Structural)]
pub enum OpKind {
    Copy,
    Delete,
    Skip,
}

/// A planned sync operation.
#[derive(Clone, Debug, PartialEq, Eq)]
pub enum SyncOp {
    /// Copy file from source to destination.
    Copy { path: String },
    /// Delete file from destination.
    Delete { path: String },
    /// Skip file with a reason.
    Skip { path: String, reason: String },
}

/// What a `SyncOp` holds, as mathematical values.
pub enum SyncOpView {
    Copy(Seq<char>),
    Delete(Seq<char>),
    Skip(Seq<char>, Seq<char>),
}

impl View for SyncOp {
    type V = SyncOpView;

    open spec fn view(&self) -> SyncOpView {
        match self {
            SyncOp::Copy { path } => SyncOpView::Copy(path@),
            SyncOp::Delete { path } => SyncOpView::Delete(path@),
            SyncOp::Skip { path, reason } => SyncOpView::Skip(path@, reason@),
        }
    }
}

/// The kind of an operation.
pub open spec fn op_kind(op: SyncOpView) -> OpKind {
    match op {
        SyncOpView::Copy(_) => OpKind::Copy,
        SyncOpView::Delete(_) => OpKind::Delete,
        SyncOpView::Skip(_, _) => OpKind::Skip,
    }
}

/// The path an operation is about.
pub open spec fn op_path(op: SyncOpView) -> Seq<char> {
    match op {
        SyncOpView::Copy(p) => p,
        SyncOpView::Delete(p) => p,
        SyncOpView::Skip(p, _) => p,
    }
}

impl SyncOp {
    /// The kind of this operation.
    pub fn kind(&self) -> (k: OpKind)
        ensures
            k == op_kind(self@),
    {
        match self {
            SyncOp::Copy { .. } => OpKind::Copy,
            SyncOp::Delete { .. } => OpKind::Delete,
            SyncOp::Skip { .. } => OpKind::Skip,
        }
    }

    /// The path this operation is about.
    pub fn path(&self) -> (p: &String)
        ensures
            p@ == op_path(self@),
    {
        match self {
            SyncOp::Copy { path } => path,
            SyncOp::Delete { path } => path,
            SyncOp::Skip { path, .. } => path,
        }
    }
}

/// The line shown for an operation: `COPY`, `DELETE` or `SKIP` padded to nine
/// columns, the path, and for a skip the reason in parentheses.
pub open spec fn op_line(op: SyncOpView) -> Seq<char> {
    match op {
        SyncOpView::Copy(p) => "COPY     "@ + p,
        SyncOpView::Delete(p) => "DELETE   "@ + p,
        SyncOpView::Skip(p, r) => "SKIP     "@ + p + " ("@ + r + ")"@,
    }
}

impl SyncOp {
    /// The line shown for this operation, such as `COPY     a.txt`.
    pub fn display_string(&self) -> (s: String)
        ensures
            s@ == op_line(self@),
    {
        match self {
            SyncOp::Copy { path } => concat("COPY     ", path.as_str()),
            SyncOp::Delete { path } => concat("DELETE   ", path.as_str()),
            SyncOp::Skip { path, reason } => {
                let mut s = concat("SKIP     ", path.as_str());
                s.append(" (");
                s.append(reason.as_str());
                s.append(")");
                s
            },
        }
    }
}

/// Reason given when a file is skipped because source and destination agree.
pub open spec fn identical_reason() -> Seq<char> {
    "identical"@
}

/// Reason given when a destination-only file is kept because deletion was not asked for.
pub open spec fn dest_only_reason() -> Seq<char> {
    "exists in dest only (use --delete to remove)"@
}

/// The operation planned for one difference: copy what is new or changed,
/// delete (or, without `delete_extraneous`, skip) what exists only in the
/// destination, and skip what is identical.
pub open spec fn planned_op(d: (DiffKind, Seq<char>), delete_extraneous: bool) -> SyncOpView {
    match d.0 {
        DiffKind::MissingInDest => SyncOpView::Copy(d.1),
        DiffKind::ContentDiffers => SyncOpView::Copy(d.1),
        DiffKind::MissingInSource => if delete_extraneous {
            SyncOpView::Delete(d.1)
        } else {
            SyncOpView::Skip(d.1, dest_only_reason())
        },
        DiffKind::Identical => SyncOpView::Skip(d.1, identical_reason()),
    }
}

/// The views of a vector of operations.
pub open spec fn ops_view(ops: Seq<SyncOp>) -> Seq<SyncOpView> {
    ops.map_values(|o: SyncOp| o@)
}

/// Plan sync operations from diffs, one operation per diff, in the same order.
///
/// - `delete_extraneous`: if true, files only in dest are marked for deletion.
///   If false, they are skipped with a reason.
pub fn plan_sync(diffs: Vec<Diff>, delete_extraneous: bool) -> (ops: Vec<SyncOp>)
    ensures
        ops@.len() == diffs@.len(),
        forall|i: int| 0 <= i < diffs@.len() ==> (#[trigger] ops@[i])@ == planned_op(diffs@[i]@, delete_extraneous),
{
    let mut ops: Vec<SyncOp> = Vec::new();
    let n = diffs.len();
    for i in 0..n
        invariant
            n == diffs@.len(),
            ops@.len() == i,
            forall|k: int| 0 <= k < i ==> (#[trigger] ops@[k])@ == planned_op(diffs@[k]@, delete_extraneous),
    {
        let path = diffs[i].path().clone();
        let op = match diffs[i].kind() {
            DiffKind::MissingInDest => SyncOp::Copy { path },
            DiffKind::ContentDiffers => SyncOp::Copy { path },
            DiffKind::MissingInSource => {
                if delete_extraneous {
                    SyncOp::Delete { path }
                } else {
                    SyncOp::Skip {
                        path,
                        reason: String::from_str("exists in dest only (use --delete to remove)"),
                    }
                }
            },
            DiffKind::Identical => SyncOp::Skip { path, reason: String::from_str("identical") },
        };
        ops.push(op);
    }
    ops
}

/// `ops` is the plan that syncs `dst` to `src`: one operation for each path of
/// either map and no other, in strictly increasing path order, each the
/// `planned_op` of how that path compares.
pub open spec fn is_plan_of(
    src: Map<Seq<char>, FileEntryView>,
    dst: Map<Seq<char>, FileEntryView>,
    delete_extraneous: bool,
    ops: Seq<SyncOpView>,
) -> bool {
    &&& forall|a: int, b: int| 0 <= a < b < ops.len() ==> path_lt(#[trigger] op_path(ops[a]), #[trigger] op_path(ops[b]))
    &&& forall|a: int| 0 <= a < ops.len() ==> (src.dom().contains(#[trigger] op_path(ops[a])) || dst.dom().contains(op_path(ops[a])))
    &&& forall|a: int| 0 <= a < ops.len() ==> (#[trigger] ops[a]) == planned_op(
        (expected_kind(src, dst, op_path(ops[a])), op_path(ops[a])),
        delete_extraneous,
    )
    &&& forall|p: Seq<char>|
        #![trigger src.dom().contains(p)]
        #![trigger dst.dom().contains(p)]
        src.dom().contains(p) || dst.dom().contains(p) ==>
        exists|a: int| 0 <= a < ops.len() && op_path(#[trigger] ops[a]) == p
}

/// Planning over a diff gives the plan of the two maps the diff compares.
pub proof fn lemma_plan_of_diff(
    src: Map<Seq<char>, FileEntryView>,
    dst: Map<Seq<char>, FileEntryView>,
    delete_extraneous: bool,
    ds: Seq<(DiffKind, Seq<char>)>,
    ops: Seq<SyncOpView>,
)
    requires
        is_diff_of(src, dst, ds),
        ops.len() == ds.len(),
        forall|i: int| 0 <= i < ds.len() ==> #[trigger] ops[i] == planned_op(ds[i], delete_extraneous),
    ensures
        is_plan_of(src, dst, delete_extraneous, ops),
{
    assert forall|a: int| 0 <= a < ops.len() implies op_path(#[trigger] ops[a]) == ds[a].1 by {
        assert(ops[a] == planned_op(ds[a], delete_extraneous));
    }
    assert forall|a: int, b: int| 0 <= a < b < ops.len() implies path_lt(#[trigger] op_path(ops[a]), #[trigger] op_path(ops[b])) by {
        assert(op_path(ops[a]) == ds[a].1);
        assert(op_path(ops[b]) == ds[b].1);
    }
    assert forall|a: int| 0 <= a < ops.len() implies (src.dom().contains(#[trigger] op_path(ops[a])) || dst.dom().contains(op_path(ops[a]))) by {
        assert(op_path(ops[a]) == ds[a].1);
    }
    assert forall|a: int| 0 <= a < ops.len() implies (#[trigger] ops[a]) == planned_op(
        (expected_kind(src, dst, op_path(ops[a])), op_path(ops[a])),
        delete_extraneous,
    ) by {
        assert(op_path(ops[a]) == ds[a].1);
        assert(ds[a] == (expected_kind(src, dst, ds[a].1), ds[a].1));
    }
    assert forall|p: Seq<char>|
        #![trigger src.dom().contains(p)]
        #![trigger dst.dom().contains(p)]
        src.dom().contains(p) || dst.dom().contains(p) implies
        exists|a: int| 0 <= a < ops.len() && op_path(#[trigger] ops[a]) == p by {
        let a = choose|a: int| 0 <= a < ds.len() && (#[trigger] ds[a]).1 == p;
        assert(op_path(ops[a]) == ds[a].1);
    }
}

/// Scan both sides, diff them and plan: the operations that sync `dest` to `source`.
pub fn compute_plan(source: &Scan, dest: &Scan, delete_extraneous: bool) -> (ops: Vec<SyncOp>)
    ensures
        is_plan_of(source@, dest@, delete_extraneous, ops_view(ops@)),
{
    let diffs = diff_scans(source, dest);
    let ghost ds = diffs_view(diffs@);
    let ops = plan_sync(diffs, delete_extraneous);
    proof {
        let v = ops_view(ops@);
        assert forall|i: int| 0 <= i < ds.len() implies #[trigger] v[i] == planned_op(ds[i], delete_extraneous) by {
            assert(v[i] == ops@[i]@);
        }
        lemma_plan_of_diff(source@, dest@, delete_extraneous, ds, v);
    }
    ops
}

/// Number of operations of kind `k` in `ops`.
pub open spec fn count_kind(ops: Seq<SyncOpView>, k: OpKind) -> nat
    decreases ops.len(),
{
    if ops.len() == 0 {
        0
    } else {
        count_kind(ops.drop_last(), k) + if op_kind(ops.last()) == k {
            1nat
        } else {
            0nat
        }
    }
}

/// Counting operations of kind `k` adds up over any split of the list, and
/// one operation counts 1 exactly when it is of kind `k`: the count is the
/// number of operations of that kind, wherever they stand.
pub proof fn law_count_kind_adds_up(x: Seq<SyncOpView>, y: Seq<SyncOpView>, o: SyncOpView, k: OpKind)
    ensures
        count_kind(x + y, k) == count_kind(x, k) + count_kind(y, k),
        count_kind(seq![o], k) == (if op_kind(o) == k { 1nat } else { 0nat }),
    decreases y.len(),
{
    assert(seq![o].drop_last() =~= Seq::<SyncOpView>::empty());
    assert(count_kind(Seq::<SyncOpView>::empty(), k) == 0);
    assert(seq![o].last() == o);
    if y.len() == 0 {
        assert(x + y =~= x);
    } else {
        law_count_kind_adds_up(x, y.drop_last(), o, k);
        assert((x + y).drop_last() =~= x + y.drop_last());
        assert((x + y).last() == y.last());
    }
}

/// Every operation is counted under exactly one kind.
pub proof fn lemma_counts_sum(ops: Seq<SyncOpView>)
    ensures
        count_kind(ops, OpKind::Copy) + count_kind(ops, OpKind::Delete) + count_kind(ops, OpKind::Skip)
            == ops.len(),
    decreases ops.len(),
{
    if ops.len() > 0 {
        lemma_counts_sum(ops.drop_last());
    }
}

/// Summary counts for a set of sync operations.
#[derive(Clone, Copy, Debug, PartialEq, Eq, Structural)]
pub struct OpSummary {
    pub copies: usize,
    pub deletes: usize,
    pub skips: usize,
}

impl OpSummary {
    /// Count the operations of each kind.
    pub fn from_ops(ops: &[SyncOp]) -> (s: OpSummary)
        ensures
            s.copies == count_kind(ops@.map_values(|o: SyncOp| o@), OpKind::Copy),
            s.deletes == count_kind(ops@.map_values(|o: SyncOp| o@), OpKind::Delete),
            s.skips == count_kind(ops@.map_values(|o: SyncOp| o@), OpKind::Skip),
    {
        let ghost v = ops@.map_values(|o: SyncOp| o@);
        let mut copies: usize = 0;
        let mut deletes: usize = 0;
        let mut skips: usize = 0;
        let n = ops.len();
        for i in 0..n
            invariant
                n == ops@.len(),
                v == ops@.map_values(|o: SyncOp| o@),
                copies == count_kind(v.take(i as int), OpKind::Copy),
                deletes == count_kind(v.take(i as int), OpKind::Delete),
                skips == count_kind(v.take(i as int), OpKind::Skip),
        {
            proof {
                assert(v.take(i + 1).drop_last() =~= v.take(i as int));
                lemma_counts_sum(v.take(i as int));
            }
            match ops[i].kind() {
                OpKind::Copy => copies = copies + 1,
                OpKind::Delete => deletes = deletes + 1,
                OpKind::Skip => skips = skips + 1,
            }
        }
        assert(v.take(n as int) =~= v);
        OpSummary { copies, deletes, skips }
    }

    /// The line shown for a summary, such as `3 to copy, 1 to delete, 5 skipped`.
    pub open spec fn line(&self) -> Seq<char> {
        decimal(self.copies as nat) + " to copy, "@ + decimal(self.deletes as nat) + " to delete, "@
            + decimal(self.skips as nat) + " skipped"@
    }

    /// The line shown for this summary.
    pub fn display_string(&self) -> (s: String)
        ensures
            s@ == self.line(),
    {
        let mut s = decimal_string(self.copies);
        s.append(" to copy, ");
        let d = decimal_string(self.deletes);
        s.append(d.as_str());
        s.append(" to delete, ");
        let k = decimal_string(self.skips);
        s.append(k.as_str());
        s.append(" skipped");
        s
    }

    /// True if no changes are needed (nothing to copy and nothing to delete).
    pub fn in_sync(&self) -> (b: bool)
        ensures
            b <==> (self.copies == 0 && self.deletes == 0),
    {
        self.copies == 0 && self.deletes == 0
    }
}

} // verus!
