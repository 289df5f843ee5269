use vstd::prelude::*;

use crate::path_order::{
    compare_paths, lemma_path_lt_irreflexive, lemma_path_lt_transitive, path_lt, PathOrder,
};
use crate::scan::{strictly_sorted, FileEntryView, Scan};
use crate::text::concat;

verus! {

/// How a path compares between source and destination.
#[derive(Clone, Copy, Debug, PartialEq, Eq, Structural)]
pub enum DiffKind {
    /// File exists in source but not destination.
    MissingInDest,
    /// File exists in destination but not source.
    MissingInSource,
    /// File exists in both but content differs.
    ContentDiffers,
    /// File is identical in both.
    Identical,
}

/// Difference between source and destination for a single path.
#[derive(Clone, Debug, PartialEq, Eq)]
pub enum Diff {
    /// File exists in source but not destination.
    MissingInDest { path: String },
    /// File exists in destination but not source.
    MissingInSource { path: String },
    /// File exists in both but content differs.
    ContentDiffers { path: String },
    /// File is identical in both.
    Identical { path: String },
}

impl View for Diff {
    type V = (DiffKind, Seq<char>);

    open spec fn view(&self) -> (DiffKind, Seq<char>) {
        match self {
            Diff::MissingInDest { path } => (DiffKind::MissingInDest, path@),
            Diff::MissingInSource { path } => (DiffKind::MissingInSource, path@),
            Diff::ContentDiffers { path } => (DiffKind::ContentDiffers, path@),
            Diff::Identical { path } => (DiffKind::Identical, path@),
        }
    }
}

impl Diff {
    /// A diff of the given kind for `path`.
    pub fn new(kind: DiffKind, path: String) -> (d: Diff)
        ensures
            d@ == (kind, path@),
    {
        match kind {
            DiffKind::MissingInDest => Diff::MissingInDest { path },
            DiffKind::MissingInSource => Diff::MissingInSource { path },
            DiffKind::ContentDiffers => Diff::ContentDiffers { path },
            DiffKind::Identical => Diff::Identical { path },
        }
    }

    /// The kind of difference.
    pub fn kind(&self) -> (k: DiffKind)
        ensures
            k == self@.0,
    {
        match self {
            Diff::MissingInDest { .. } => DiffKind::MissingInDest,
            Diff::MissingInSource { .. } => DiffKind::MissingInSource,
            Diff::ContentDiffers { .. } => DiffKind::ContentDiffers,
            Diff::Identical { .. } => DiffKind::Identical,
        }
    }

    /// The path the difference is about.
    pub fn path(&self) -> (p: &String)
        ensures
            p@ == self@.1,
    {
        match self {
            Diff::MissingInDest { path } => path,
            Diff::MissingInSource { path } => path,
            Diff::ContentDiffers { path } => path,
            Diff::Identical { path } => path,
        }
    }
}

/// The label that starts the line shown for a difference of kind `k`.
pub open spec fn diff_label(k: DiffKind) -> Seq<char> {
    match k {
        DiffKind::MissingInDest => "NEW      "@,
        DiffKind::MissingInSource => "EXTRA    "@,
        DiffKind::ContentDiffers => "CHANGED  "@,
        DiffKind::Identical => "SAME     "@,
    }
}

/// The line shown for a difference: its label, then its path.
pub open spec fn diff_line(d: (DiffKind, Seq<char>)) -> Seq<char> {
    diff_label(d.0) + d.1
}

impl Diff {
    /// The line shown for this difference, such as `NEW      foo/bar.txt`.
    pub fn display_string(&self) -> (s: String)
        ensures
            s@ == diff_line(self@),
    {
        match self {
            Diff::MissingInDest { path } => concat("NEW      ", path.as_str()),
            Diff::MissingInSource { path } => concat("EXTRA    ", path.as_str()),
            Diff::ContentDiffers { path } => concat("CHANGED  ", path.as_str()),
            Diff::Identical { path } => concat("SAME     ", path.as_str()),
        }
    }
}

/// How `p` compares between the source map and the destination map: absent
/// from dest, absent from source, present in both with a different size or
/// content hash, or present in both with the same size and hash.
pub open spec fn expected_kind(
    src: Map<Seq<char>, FileEntryView>,
    dst: Map<Seq<char>, FileEntryView>,
    p: Seq<char>,
) -> DiffKind {
    if !dst.dom().contains(p) {
        DiffKind::MissingInDest
    } else if !src.dom().contains(p) {
        DiffKind::MissingInSource
    } else if src[p].size != dst[p].size || src[p].content_hash != dst[p].content_hash {
        DiffKind::ContentDiffers
    } else {
        DiffKind::Identical
    }
}

/// `ds` is the diff of `src` against `dst`: one entry for each path of either
/// map and no other, in strictly increasing path order, each classified by
/// `expected_kind`.
pub open spec fn is_diff_of(
    src: Map<Seq<char>, FileEntryView>,
    dst: Map<Seq<char>, FileEntryView>,
    ds: Seq<(DiffKind, Seq<char>)>,
) -> bool {
    &&& forall|a: int, b: int| 0 <= a < b < ds.len() ==> path_lt(#[trigger] ds[a].1, #[trigger] ds[b].1)
    &&& forall|a: int| 0 <= a < ds.len() ==> (src.dom().contains(#[trigger] ds[a].1) || dst.dom().contains(ds[a].1))
    &&& forall|a: int| 0 <= a < ds.len() ==> (#[trigger] ds[a]).0 == expected_kind(src, dst, ds[a].1)
    &&& forall|p: Seq<char>|
        #![trigger src.dom().contains(p)]
        #![trigger dst.dom().contains(p)]
        src.dom().contains(p) || dst.dom().contains(p) ==>
        exists|a: int| 0 <= a < ds.len() && (#[trigger] ds[a]).1 == p
}

/// The views of a vector of diffs.
pub open spec fn diffs_view(ds: Seq<Diff>) -> Seq<(DiffKind, Seq<char>)> {
    ds.map_values(|d: Diff| d@)
}

/// What the merge in `diff_scans` keeps once it has consumed the entries
/// `s[..i]` of the source and `d[..j]` of the destination and emitted `v`:
/// `v` is sorted, comes before every entry not yet consumed, holds only
/// paths of either map, each with its expected kind, and has every consumed
/// path.
spec fn merge_inv(
    src: Map<Seq<char>, FileEntryView>,
    dst: Map<Seq<char>, FileEntryView>,
    s: Seq<FileEntryView>,
    d: Seq<FileEntryView>,
    v: Seq<(DiffKind, Seq<char>)>,
    i: int,
    j: int,
) -> bool {
    &&& 0 <= i <= s.len()
    &&& 0 <= j <= d.len()
    &&& forall|a: int, b: int| 0 <= a < b < v.len() ==> path_lt(#[trigger] v[a].1, #[trigger] v[b].1)
    &&& forall|a: int, k: int| 0 <= a < v.len() && i <= k < s.len() ==> path_lt(#[trigger] v[a].1, #[trigger] s[k].path)
    &&& forall|a: int, k: int| 0 <= a < v.len() && j <= k < d.len() ==> path_lt(#[trigger] v[a].1, #[trigger] d[k].path)
    &&& forall|a: int| 0 <= a < v.len() ==> (src.dom().contains(#[trigger] v[a].1) || dst.dom().contains(v[a].1))
    &&& forall|a: int| 0 <= a < v.len() ==> (#[trigger] v[a]).0 == expected_kind(src, dst, v[a].1)
    &&& forall|k: int| #![trigger s[k]] 0 <= k < i ==> exists|a: int| #![trigger v[a]] 0 <= a < v.len() && v[a].1 == s[k].path
    &&& forall|k: int| #![trigger d[k]] 0 <= k < j ==> exists|a: int| #![trigger v[a]] 0 <= a < v.len() && v[a].1 == d[k].path
}

/// One step of the merge: emitting `x` and consuming the source entry
/// (`i2 == i + 1`), the destination entry (`j2 == j + 1`) or both, whose path
/// `x` has, keeps `merge_inv`, provided `x` comes before what stays
/// unconsumed, is a path of either map and has its expected kind.
proof fn lemma_merge_push(
    src: Map<Seq<char>, FileEntryView>,
    dst: Map<Seq<char>, FileEntryView>,
    s: Seq<FileEntryView>,
    d: Seq<FileEntryView>,
    v: Seq<(DiffKind, Seq<char>)>,
    i: int,
    j: int,
    x: (DiffKind, Seq<char>),
    i2: int,
    j2: int,
)
    requires
        strictly_sorted(s),
        strictly_sorted(d),
        merge_inv(src, dst, s, d, v, i, j),
        i <= i2 <= i + 1,
        j <= j2 <= j + 1,
        i2 <= s.len(),
        j2 <= d.len(),
        i + j < i2 + j2,
        i2 == i + 1 ==> x.1 == s[i].path,
        j2 == j + 1 ==> x.1 == d[j].path,
        i2 == i && i < s.len() ==> path_lt(x.1, s[i].path),
        j2 == j && j < d.len() ==> path_lt(x.1, d[j].path),
        src.dom().contains(x.1) || dst.dom().contains(x.1),
        x.0 == expected_kind(src, dst, x.1),
    ensures
        merge_inv(src, dst, s, d, v.push(x), i2, j2),
{
    let w = v.push(x);
    let last = v.len() as int;
    assert(w[last] == x);
    assert forall|a: int| 0 <= a < last implies path_lt(#[trigger] w[a].1, x.1) by {
        assert(w[a] == v[a]);
        if i2 == i + 1 {
            assert(path_lt(v[a].1, s[i].path));
        } else {
            assert(path_lt(v[a].1, d[j].path));
        }
    }
    assert forall|a: int, b: int| 0 <= a < b < w.len() implies path_lt(#[trigger] w[a].1, #[trigger] w[b].1) by {
        if b < last {
            assert(w[a] == v[a] && w[b] == v[b]);
        }
    }
    assert forall|a: int, k: int| 0 <= a < w.len() && i2 <= k < s.len() implies path_lt(#[trigger] w[a].1, #[trigger] s[k].path) by {
        if a < last {
            assert(w[a] == v[a]);
        } else if i2 == i + 1 {
            assert(path_lt(s[i].path, s[k].path));
        } else if k > i {
            lemma_path_lt_transitive(x.1, s[i].path, s[k].path);
        }
    }
    assert forall|a: int, k: int| 0 <= a < w.len() && j2 <= k < d.len() implies path_lt(#[trigger] w[a].1, #[trigger] d[k].path) by {
        if a < last {
            assert(w[a] == v[a]);
        } else if j2 == j + 1 {
            assert(path_lt(d[j].path, d[k].path));
        } else if k > j {
            lemma_path_lt_transitive(x.1, d[j].path, d[k].path);
        }
    }
    assert forall|a: int| 0 <= a < w.len() implies (src.dom().contains(#[trigger] w[a].1) || dst.dom().contains(w[a].1)) by {
        if a < last {
            assert(w[a] == v[a]);
        }
    }
    assert forall|a: int| 0 <= a < w.len() implies (#[trigger] w[a]).0 == expected_kind(src, dst, w[a].1) by {
        if a < last {
            assert(w[a] == v[a]);
        }
    }
    assert forall|k: int| 0 <= k < i2 implies exists|a: int| 0 <= a < w.len() && (#[trigger] w[a]).1 == (#[trigger] s[k]).path by {
        if k < i {
            let a = choose|a: int| 0 <= a < v.len() && (#[trigger] v[a]).1 == (#[trigger] s[k]).path;
            assert(w[a] == v[a]);
        } else {
            assert(w[last].1 == s[k].path);
        }
    }
    assert forall|k: int| 0 <= k < j2 implies exists|a: int| 0 <= a < w.len() && (#[trigger] w[a]).1 == (#[trigger] d[k]).path by {
        if k < j {
            let a = choose|a: int| 0 <= a < v.len() && (#[trigger] v[a]).1 == (#[trigger] d[k]).path;
            assert(w[a] == v[a]);
        } else {
            assert(w[last].1 == d[k].path);
        }
    }
}

/// A path `p` that comes after everything emitted and before the next
/// unconsumed entry of one side (the destination when `dest_side`, else the
/// source) is not in that side's map: the entries before it were all
/// emitted, and those from it on come after `p`.
proof fn lemma_merge_absent(
    src: Map<Seq<char>, FileEntryView>,
    dst: Map<Seq<char>, FileEntryView>,
    s: Seq<FileEntryView>,
    d: Seq<FileEntryView>,
    v: Seq<(DiffKind, Seq<char>)>,
    i: int,
    j: int,
    p: Seq<char>,
    dest_side: bool,
)
    requires
        strictly_sorted(s),
        strictly_sorted(d),
        merge_inv(src, dst, s, d, v, i, j),
        forall|q: Seq<char>| #[trigger] src.dom().contains(q) ==>
            exists|k: int| 0 <= k < s.len() && (#[trigger] s[k]).path == q,
        forall|q: Seq<char>| #[trigger] dst.dom().contains(q) ==>
            exists|k: int| 0 <= k < d.len() && (#[trigger] d[k]).path == q,
        forall|a: int| 0 <= a < v.len() ==> path_lt(#[trigger] v[a].1, p),
        dest_side && j < d.len() ==> path_lt(p, d[j].path),
        !dest_side && i < s.len() ==> path_lt(p, s[i].path),
    ensures
        dest_side ==> !dst.dom().contains(p),
        !dest_side ==> !src.dom().contains(p),
{
    let (e, c) = if dest_side { (d, j) } else { (s, i) };
    if (dest_side && dst.dom().contains(p)) || (!dest_side && src.dom().contains(p)) {
        let k = choose|k: int| 0 <= k < e.len() && (#[trigger] e[k]).path == p;
        if k >= c {
            if k > c {
                assert(path_lt(e[c].path, e[k].path));
                lemma_path_lt_transitive(p, e[c].path, e[k].path);
            }
            lemma_path_lt_irreflexive(p);
        } else {
            let a = choose|a: int| 0 <= a < v.len() && v[a].1 == e[k].path;
            assert(path_lt(v[a].1, p));
            lemma_path_lt_irreflexive(p);
        }
    }
}

/// Compare source and destination scans, returning the differences sorted by path.
pub fn diff_scans(source: &Scan, dest: &Scan) -> (diffs: Vec<Diff>)
    ensures
        is_diff_of(source@, dest@, diffs_view(diffs@)),
{
    let ghost s = source.seq();
    let ghost d = dest.seq();
    let n = source.len();
    let m = dest.len();
    let mut out: Vec<Diff> = Vec::new();
    let mut i: usize = 0;
    let mut j: usize = 0;
    proof {
        use_type_invariant(source);
        use_type_invariant(dest);
        source.lemma_view();
        dest.lemma_view();
        assert(diffs_view(out@) =~= Seq::<(DiffKind, Seq<char>)>::empty());
    }
    while i < n || j < m
        invariant
            source.wf(),
            dest.wf(),
            s == source.seq(),
            d == dest.seq(),
            n == s.len(),
            m == d.len(),
            i <= n,
            j <= m,
            merge_inv(source@, dest@, s, d, diffs_view(out@), i as int, j as int),
        decreases (n - i) + (m - j),
    {
        proof {
            source.lemma_view();
            dest.lemma_view();
        }
        let order = if i == n {
            PathOrder::After
        } else if j == m {
            PathOrder::Before
        } else {
            compare_paths(&source.entry(i).path, &dest.entry(j).path)
        };
        let ghost v = diffs_view(out@);
        match order {
            PathOrder::Before => {
                let e = source.entry(i);
                let ghost p = s[i as int].path;
                proof {
                    assert forall|a: int| 0 <= a < v.len() implies path_lt(#[trigger] v[a].1, p) by {
                        assert(path_lt(v[a].1, s[i as int].path));
                    }
                    lemma_merge_absent(source@, dest@, s, d, v, i as int, j as int, p, true);
                    assert(source@.dom().contains(p));
                }
                out.push(Diff::MissingInDest { path: e.path.clone() });
                proof {
                    assert(diffs_view(out@) =~= v.push((DiffKind::MissingInDest, p)));
                    lemma_merge_push(source@, dest@, s, d, v, i as int, j as int, (DiffKind::MissingInDest, p), i + 1, j as int);
                }
                i = i + 1;
            },
            PathOrder::After => {
                let e = dest.entry(j);
                let ghost p = d[j as int].path;
                proof {
                    assert forall|a: int| 0 <= a < v.len() implies path_lt(#[trigger] v[a].1, p) by {
                        assert(path_lt(v[a].1, d[j as int].path));
                    }
                    lemma_merge_absent(source@, dest@, s, d, v, i as int, j as int, p, false);
                    assert(dest@.dom().contains(p));
                }
                out.push(Diff::MissingInSource { path: e.path.clone() });
                proof {
                    assert(diffs_view(out@) =~= v.push((DiffKind::MissingInSource, p)));
                    lemma_merge_push(source@, dest@, s, d, v, i as int, j as int, (DiffKind::MissingInSource, p), i as int, j + 1);
                }
                j = j + 1;
            },
            PathOrder::Same => {
                let se = source.entry(i);
                let de = dest.entry(j);
                let ghost p = s[i as int].path;
                let kind = if se.size != de.size || se.content_hash != de.content_hash {
                    DiffKind::ContentDiffers
                } else {
                    DiffKind::Identical
                };
                proof {
                    assert(d[j as int].path == p);
                    assert(source@.dom().contains(p));
                    assert(dest@.dom().contains(p));
                    assert(source@[p] == s[i as int]);
                    assert(dest@[p] == d[j as int]);
                }
                out.push(Diff::new(kind, se.path.clone()));
                proof {
                    assert(diffs_view(out@) =~= v.push((kind, p)));
                    lemma_merge_push(source@, dest@, s, d, v, i as int, j as int, (kind, p), i + 1, j + 1);
                }
                i = i + 1;
                j = j + 1;
            },
        }
    }
    proof {
        source.lemma_view();
        dest.lemma_view();
        let v = diffs_view(out@);
        assert forall|p: Seq<char>|
            #![trigger source@.dom().contains(p)]
            #![trigger dest@.dom().contains(p)]
            source@.dom().contains(p) || dest@.dom().contains(p) implies
            exists|a: int| 0 <= a < v.len() && (#[trigger] v[a]).1 == p by {
            if source@.dom().contains(p) {
                let k = choose|k: int| 0 <= k < n && (#[trigger] s[k]).path == p;
                let a = choose|a: int| 0 <= a < v.len() && (#[trigger] v[a]).1 == (#[trigger] s[k]).path;
            } else {
                let k = choose|k: int| 0 <= k < m && (#[trigger] d[k]).path == p;
                let a = choose|a: int| 0 <= a < v.len() && (#[trigger] v[a]).1 == (#[trigger] d[k]).path;
            }
        }
    }
    out
}

/// Number of `Identical` differences in `ds`.
pub open spec fn identical_count(ds: Seq<(DiffKind, Seq<char>)>) -> nat
    decreases ds.len(),
{
    if ds.len() == 0 {
        0
    } else {
        identical_count(ds.drop_last()) + if ds.last().0 == DiffKind::Identical {
            1nat
        } else {
            0nat
        }
    }
}

/// The count of identical differences adds up over any split of the list,
/// and one difference counts 1 exactly when it is `Identical`: the count is
/// the number of `Identical` differences, wherever they stand.
pub proof fn law_identical_count_adds_up(x: Seq<(DiffKind, Seq<char>)>, y: Seq<(DiffKind, Seq<char>)>, d: (DiffKind, Seq<char>))
    ensures
        identical_count(x + y) == identical_count(x) + identical_count(y),
        identical_count(seq![d]) == (if d.0 == DiffKind::Identical { 1nat } else { 0nat }),
    decreases y.len(),
{
    assert(seq![d].drop_last() =~= Seq::<(DiffKind, Seq<char>)>::empty());
    assert(identical_count(Seq::<(DiffKind, Seq<char>)>::empty()) == 0);
    assert(seq![d].last() == d);
    if y.len() == 0 {
        assert(x + y =~= x);
    } else {
        law_identical_count_adds_up(x, y.drop_last(), d);
        assert((x + y).drop_last() =~= x + y.drop_last());
        assert((x + y).last() == y.last());
    }
}

/// The count of identical differences is at most their number, and reaches
/// it exactly when every difference is `Identical`.
pub proof fn lemma_identical_count(ds: Seq<(DiffKind, Seq<char>)>)
    ensures
        identical_count(ds) <= ds.len(),
        identical_count(ds) == ds.len() <==> forall|a: int| 0 <= a < ds.len() ==> (#[trigger] ds[a]).0 == DiffKind::Identical,
    decreases ds.len(),
{
    if ds.len() > 0 {
        let t = ds.drop_last();
        lemma_identical_count(t);
        if identical_count(ds) == ds.len() {
            assert forall|a: int| 0 <= a < ds.len() implies (#[trigger] ds[a]).0 == DiffKind::Identical by {
                if a < ds.len() - 1 {
                    assert(t[a] == ds[a]);
                }
            }
        }
        if forall|a: int| 0 <= a < ds.len() ==> (#[trigger] ds[a]).0 == DiffKind::Identical {
            assert forall|a: int| 0 <= a < t.len() implies (#[trigger] t[a]).0 == DiffKind::Identical by {
                assert(t[a] == ds[a]);
            }
            assert(ds[ds.len() - 1].0 == DiffKind::Identical);
        }
    }
}

/// Count the differences that are `Identical`.
pub fn count_identical(diffs: &[Diff]) -> (n: usize)
    ensures
        n == identical_count(diffs@.map_values(|d: Diff| d@)),
{
    let ghost v = diffs@.map_values(|d: Diff| d@);
    let mut n: usize = 0;
    let len = diffs.len();
    for i in 0..len
        invariant
            len == diffs@.len(),
            v == diffs@.map_values(|d: Diff| d@),
            n == identical_count(v.take(i as int)),
    {
        proof {
            assert(v.take(i + 1).drop_last() =~= v.take(i as int));
            lemma_identical_count(v.take(i as int));
        }
        if diffs[i].kind() == DiffKind::Identical {
            n = n + 1;
        }
    }
    assert(v.take(len as int) =~= v);
    n
}

} // verus!
