use vstd::prelude::*;

use crate::keyed::{keyed_map, keys_sorted, lemma_keyed_map_dom, lemma_keyed_map_len, lemma_keyed_map_lookup, lemma_keyed_put};
use crate::path_order::{
    compare_paths, lemma_path_lt_asymmetric, lemma_path_lt_irreflexive, path_lt, valid_relative_path,
    PathOrder,
};

verus! {

/// A file entry discovered during a directory scan.
#[derive(Clone, Debug, PartialEq, Eq)]
pub struct FileEntry {
    /// Relative path from the scan root, components separated by `/`.
    pub path: String,
    /// File size in bytes.
    pub size: u64,
    /// Content hash (FNV-1a 64-bit) for change detection.
    pub content_hash: u64,
}

/// What a `FileEntry` holds, as mathematical values.
pub struct FileEntryView {
    pub path: Seq<char>,
    pub size: u64,
    pub content_hash: u64,
}

impl View for FileEntry {
    type V = FileEntryView;

    open spec fn view(&self) -> FileEntryView {
        FileEntryView { path: self.path@, size: self.size, content_hash: self.content_hash }
    }
}

impl FileEntry {
    /// A copy of this entry.
    pub fn duplicate(&self) -> (r: FileEntry)
        ensures
            r@ == self@,
    {
        FileEntry { path: self.path.clone(), size: self.size, content_hash: self.content_hash }
    }
}

/// Entries whose paths strictly increase in path order: no path occurs
/// twice, and iteration visits paths in sorted order.
pub open spec fn strictly_sorted(s: Seq<FileEntryView>) -> bool {
    forall|i: int, j: int| 0 <= i < j < s.len() ==> path_lt(#[trigger] s[i].path, #[trigger] s[j].path)
}

/// The map from path to entry that inserting `s` in order into an empty map
/// yields (a later entry with the same path replaces an earlier one).
pub open spec fn entries_map(s: Seq<FileEntryView>) -> Map<Seq<char>, FileEntryView>
    decreases s.len(),
{
    if s.len() == 0 {
        Map::empty()
    } else {
        entries_map(s.drop_last()).insert(s.last().path, s.last())
    }
}

/// The entries of `s` as (path, entry) pairs.
pub open spec fn entry_pairs(s: Seq<FileEntryView>) -> Seq<(Seq<char>, FileEntryView)> {
    s.map_values(|e: FileEntryView| (e.path, e))
}

/// `entries_map` is the keyed map of the (path, entry) pairs, and
/// `strictly_sorted` says their keys are sorted.
pub proof fn lemma_entries_map_keyed(s: Seq<FileEntryView>)
    ensures
        entries_map(s) == keyed_map(entry_pairs(s)),
        strictly_sorted(s) <==> keys_sorted(entry_pairs(s)),
    decreases s.len(),
{
    let ps = entry_pairs(s);
    if s.len() > 0 {
        lemma_entries_map_keyed(s.drop_last());
        assert(ps.drop_last() =~= entry_pairs(s.drop_last()));
    }
    if keys_sorted(ps) {
        assert forall|i: int, j: int| 0 <= i < j < s.len() implies path_lt(#[trigger] s[i].path, #[trigger] s[j].path) by {
            assert(ps[i].0 == s[i].path && ps[j].0 == s[j].path);
        }
    }
    if strictly_sorted(s) {
        assert forall|i: int, j: int| 0 <= i < j < ps.len() implies path_lt(#[trigger] ps[i].0, #[trigger] ps[j].0) by {
            assert(ps[i].0 == s[i].path && ps[j].0 == s[j].path);
        }
    }
}

/// A path is a key of `entries_map(s)` exactly when some entry of `s` has it.
pub proof fn lemma_entries_map_dom(s: Seq<FileEntryView>, p: Seq<char>)
    ensures
        entries_map(s).dom().contains(p) <==> exists|i: int| 0 <= i < s.len() && (#[trigger] s[i]).path == p,
{
    lemma_entries_map_keyed(s);
    lemma_keyed_map_dom(entry_pairs(s), p);
    if exists|i: int| 0 <= i < s.len() && (#[trigger] s[i]).path == p {
        let i = choose|i: int| 0 <= i < s.len() && (#[trigger] s[i]).path == p;
        assert(entry_pairs(s)[i].0 == p);
    }
    if exists|i: int| 0 <= i < entry_pairs(s).len() && (#[trigger] entry_pairs(s)[i]).0 == p {
        let i = choose|i: int| 0 <= i < entry_pairs(s).len() && (#[trigger] entry_pairs(s)[i]).0 == p;
        assert(s[i].path == p);
    }
}

/// In a strictly sorted sequence each entry is what the map holds at its path.
pub proof fn lemma_entries_map_lookup(s: Seq<FileEntryView>, i: int)
    requires
        strictly_sorted(s),
        0 <= i < s.len(),
    ensures
        entries_map(s).dom().contains(s[i].path),
        entries_map(s)[s[i].path] == s[i],
{
    lemma_entries_map_keyed(s);
    lemma_keyed_map_lookup(entry_pairs(s), i);
}

/// The map of a strictly sorted sequence has as many keys as the sequence has entries.
pub proof fn lemma_entries_map_len(s: Seq<FileEntryView>)
    requires
        strictly_sorted(s),
    ensures
        entries_map(s).dom().finite(),
        entries_map(s).dom().len() == s.len(),
{
    lemma_entries_map_keyed(s);
    lemma_keyed_map_len(entry_pairs(s));
}

/// Every key of `entries_map(s)` maps to an entry carrying that path.
pub proof fn lemma_entries_map_paths(s: Seq<FileEntryView>, p: Seq<char>)
    requires
        entries_map(s).dom().contains(p),
    ensures
        entries_map(s)[p].path == p,
    decreases s.len(),
{
    if s.len() > 0 && p != s.last().path {
        lemma_entries_map_paths(s.drop_last(), p);
    }
}

/// Putting an entry with a valid path at position `k` (in place of the entry
/// there when `replace`) keeps every path valid.
proof fn lemma_put_keeps_paths_valid(s: Seq<FileEntryView>, k: int, e: FileEntryView, replace: bool)
    requires
        0 <= k <= s.len(),
        replace ==> k < s.len(),
        valid_relative_path(e.path),
        forall|i: int| 0 <= i < s.len() ==> valid_relative_path(#[trigger] s[i].path),
    ensures
        ({
            let t = if replace { s.update(k, e) } else { s.insert(k, e) };
            forall|i: int| 0 <= i < t.len() ==> valid_relative_path(#[trigger] t[i].path)
        }),
{
    let t = if replace { s.update(k, e) } else { s.insert(k, e) };
    assert forall|i: int| 0 <= i < t.len() implies valid_relative_path(#[trigger] t[i].path) by {
        if i == k {
            assert(t[i] == e);
        } else if i < k || replace {
            assert(t[i] == s[i]);
        } else {
            assert(t[i] == s[i - 1]);
        }
    }
}

/// The views of a sequence of entries.
pub open spec fn entries_view(v: Seq<FileEntry>) -> Seq<FileEntryView> {
    v.map_values(|e: FileEntry| e@)
}

/// Position of the first entry of `entries` whose path does not come before
/// `path`.
fn position(entries: &Vec<FileEntry>, path: &String) -> (k: usize)
    ensures
        k <= entries@.len(),
        forall|i: int| 0 <= i < k ==> path_lt(#[trigger] entries_view(entries@)[i].path, path@),
        k < entries@.len() ==> !path_lt(entries_view(entries@)[k as int].path, path@),
{
    let ghost v = entries_view(entries@);
    let n = entries.len();
    let mut k: usize = 0;
    while k < n
        invariant
            n == v.len(),
            v == entries_view(entries@),
            k <= n,
            forall|i: int| 0 <= i < k ==> path_lt(#[trigger] v[i].path, path@),
        decreases n - k,
    {
        assert(v[k as int] == entries@[k as int]@);
        if compare_paths(&entries[k].path, path) != PathOrder::Before {
            return k;
        }
        k = k + 1;
    }
    k
}

/// The result of scanning a directory: file entries keyed by relative path,
/// kept in path order.
///
/// The entries live in a `Vec` kept strictly sorted by path (`wf`): that is
/// what a map ordered by key offers here (no key twice, iteration in key
/// order), with a specification Verus can reason about; std's `BTreeMap`
/// keyed by strings or paths has none it can use.
///
/// Keys are relative paths as a scan produces them (`valid_relative_path`:
/// entry names joined by single `/`, no `.` or `..` component), and only
/// such paths are accepted. For them, comparing keys character by character
/// is comparing them component by component: a key names one path, spelled
/// one way, and `a/./b` or `a//b` cannot stand beside `a/b`.
pub struct Scan {
    entries: Vec<FileEntry>,
}

impl Scan {
    /// The entries in path order.
    pub closed spec fn seq(&self) -> Seq<FileEntryView> {
        entries_view(self.entries@)
    }

    /// Well-formedness, kept by every operation (a type invariant): paths
    /// strictly increase, and each is a relative path as a scan produces it.
    #[verifier::type_invariant]
    pub closed spec fn wf(&self) -> bool {
        &&& strictly_sorted(self.seq())
        &&& forall|i: int| 0 <= i < self.seq().len() ==> valid_relative_path(#[trigger] self.seq()[i].path)
    }

    /// The scan as a map from relative path to entry.
    pub open spec fn map(&self) -> Map<Seq<char>, FileEntryView> {
        entries_map(self.seq())
    }

    /// What a well-formed scan's sequence and map say of each other: the
    /// entries are strictly sorted, each one is the map's value at its path,
    /// and the map has no other keys. (`use_type_invariant` on a scan gives
    /// `wf`.)
    pub proof fn lemma_view(&self)
        requires
            self.wf(),
        ensures
            strictly_sorted(self.seq()),
            self@.dom().finite(),
            self@.dom().len() == self.seq().len(),
            forall|i: int| 0 <= i < self.seq().len() ==> #[trigger] self@.dom().contains(self.seq()[i].path)
                && self@[self.seq()[i].path] == self.seq()[i],
            forall|p: Seq<char>| #[trigger] self@.dom().contains(p) ==>
                exists|i: int| 0 <= i < self.seq().len() && (#[trigger] self.seq()[i]).path == p,
            forall|p: Seq<char>| #[trigger] self@.dom().contains(p) ==> self@[p].path == p,
            forall|p: Seq<char>| #[trigger] self@.dom().contains(p) ==> valid_relative_path(p),
    {
        lemma_entries_map_len(self.seq());
        assert forall|i: int| 0 <= i < self.seq().len() implies #[trigger] self@.dom().contains(self.seq()[i].path)
            && self@[self.seq()[i].path] == self.seq()[i] by {
            lemma_entries_map_lookup(self.seq(), i);
        }
        assert forall|p: Seq<char>| #[trigger] self@.dom().contains(p) implies
            exists|i: int| 0 <= i < self.seq().len() && (#[trigger] self.seq()[i]).path == p by {
            lemma_entries_map_dom(self.seq(), p);
        }
        assert forall|p: Seq<char>| #[trigger] self@.dom().contains(p) implies self@[p].path == p by {
            lemma_entries_map_paths(self.seq(), p);
        }
        assert forall|p: Seq<char>| #[trigger] self@.dom().contains(p) implies valid_relative_path(p) by {
            lemma_entries_map_dom(self.seq(), p);
            let i = choose|i: int| 0 <= i < self.seq().len() && (#[trigger] self.seq()[i]).path == p;
        }
    }

    /// An empty scan.
    pub fn new() -> (r: Scan)
        ensures
            r@ == Map::<Seq<char>, FileEntryView>::empty(),
            r.seq().len() == 0,
    {
        let r = Scan { entries: Vec::new() };
        assert(r.seq() =~= Seq::<FileEntryView>::empty());
        r
    }

    /// Number of entries.
    pub fn len(&self) -> (n: usize)
        ensures
            n == self@.dom().len(),
            n == self.seq().len(),
    {
        proof {
            use_type_invariant(self);
            self.lemma_view();
        }
        self.entries.len()
    }

    /// True if the scan holds no entry.
    pub fn is_empty(&self) -> (b: bool)
        ensures
            b <==> self@.dom().len() == 0,
    {
        proof {
            use_type_invariant(self);
            self.lemma_view();
        }
        self.entries.len() == 0
    }

    /// The entry at position `i` in path order.
    pub fn entry(&self, i: usize) -> (e: &FileEntry)
        requires
            i < self.seq().len(),
        ensures
            e@ == self.seq()[i as int],
    {
        &self.entries[i]
    }

    /// The entry stored at `path`, if any.
    pub fn get(&self, path: &String) -> (r: Option<&FileEntry>)
        ensures
            match r {
                Some(e) => self@.dom().contains(path@) && e@ == self@[path@],
                None => !self@.dom().contains(path@),
            },
    {
        proof {
            use_type_invariant(self);
            self.lemma_view();
        }
        let k = position(&self.entries, path);
        if k < self.entries.len() && compare_paths(&self.entries[k].path, path) == PathOrder::Same {
            assert(self.seq()[k as int].path == path@);
            Some(&self.entries[k])
        } else {
            proof {
                if self@.dom().contains(path@) {
                    let i = choose|i: int| 0 <= i < self.seq().len() && (#[trigger] self.seq()[i]).path == path@;
                    if i < k {
                        lemma_path_lt_irreflexive(path@);
                    } else if i > k {
                        lemma_path_lt_asymmetric(self.seq()[k as int].path, path@);
                    }
                }
            }
            None
        }
    }

    /// True if some entry is stored at `path`.
    pub fn contains_key(&self, path: &String) -> (b: bool)
        ensures
            b <==> self@.dom().contains(path@),
    {
        self.get(path).is_some()
    }

    /// The paths of all entries, in path order.
    pub fn keys(&self) -> (ks: Vec<String>)
        ensures
            ks@.len() == self.seq().len(),
            forall|i: int| 0 <= i < ks@.len() ==> (#[trigger] ks@[i])@ == self.seq()[i].path,
    {
        let mut ks: Vec<String> = Vec::new();
        let n = self.entries.len();
        for i in 0..n
            invariant
                n == self.seq().len(),
                ks@.len() == i,
                forall|j: int| 0 <= j < i ==> (#[trigger] ks@[j])@ == self.seq()[j].path,
        {
            ks.push(self.entries[i].path.clone());
        }
        ks
    }

    /// Store `entry` at its path, replacing any entry already there. The path
    /// must be a relative path as a scan produces it (`is_relative_path`).
    pub fn insert(&mut self, entry: FileEntry)
        requires
            valid_relative_path(entry.path@),
        ensures
            final(self)@ == old(self)@.insert(entry.path@, entry@),
    {
        proof {
            use_type_invariant(&*self);
        }
        let ghost old_seq = self.seq();
        let ghost e = entry@;
        let mut entries: Vec<FileEntry> = Vec::new();
        std::mem::swap(&mut entries, &mut self.entries);
        assert(entries_view(entries@) == old_seq);
        let k = position(&entries, &entry.path);
        let replace = k < entries.len() && compare_paths(&entries[k].path, &entry.path) == PathOrder::Same;
        if replace {
            entries.set(k, entry);
        } else {
            entries.insert(k, entry);
        }
        let ghost new_seq = entries_view(entries@);
        proof {
            let pe = (e.path, e);
            if replace {
                assert(new_seq =~= old_seq.update(k as int, e));
                assert(entry_pairs(new_seq) =~= entry_pairs(old_seq).update(k as int, pe));
            } else {
                assert(new_seq =~= old_seq.insert(k as int, e));
                assert(entry_pairs(new_seq) =~= entry_pairs(old_seq).insert(k as int, pe));
            }
            lemma_entries_map_keyed(old_seq);
            lemma_entries_map_keyed(new_seq);
            assert forall|i: int| 0 <= i < k implies path_lt(#[trigger] entry_pairs(old_seq)[i].0, pe.0) by {
                assert(entry_pairs(old_seq)[i].0 == old_seq[i].path);
            }
            if k < old_seq.len() {
                assert(entry_pairs(old_seq)[k as int].0 == old_seq[k as int].path);
            }
            lemma_keyed_put(entry_pairs(old_seq), k as int, pe);
            lemma_put_keeps_paths_valid(old_seq, k as int, e, replace);
        }
        self.entries = entries;
    }

    /// A scan holding `entries`, each inserted in turn at its path (a later
    /// entry with the same path replaces an earlier one). Each path must be a
    /// relative path as a scan produces it.
    pub fn from_entries(entries: Vec<FileEntry>) -> (r: Scan)
        requires
            forall|i: int| 0 <= i < entries@.len() ==> valid_relative_path(#[trigger] entries@[i].path@),
        ensures
            r@ == entries_map(entries_view(entries@)),
    {
        let ghost input = entries_view(entries@);
        let mut r = Scan::new();
        let n = entries.len();
        for i in 0..n
            invariant
                n == entries@.len(),
                input == entries_view(entries@),
                forall|j: int| 0 <= j < entries@.len() ==> valid_relative_path(#[trigger] entries@[j].path@),
                r@ == entries_map(input.take(i as int)),
        {
            assert(input.take(i + 1).drop_last() =~= input.take(i as int));
            assert(valid_relative_path(entries@[i as int].path@));
            r.insert(entries[i].duplicate());
        }
        assert(input.take(n as int) =~= input);
        r
    }
}

impl View for Scan {
    type V = Map<Seq<char>, FileEntryView>;

    open spec fn view(&self) -> Map<Seq<char>, FileEntryView> {
        self.map()
    }
}

} // verus!
