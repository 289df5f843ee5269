use vstd::prelude::*;

use crate::path_order::{
    lemma_path_lt_irreflexive, lemma_path_lt_total, lemma_path_lt_transitive, path_lt,
};

verus! {

/// The keys of `s` strictly increase in path order: no key twice, and the
/// pairs come in key order.
pub open spec fn keys_sorted<V>(s: Seq<(Seq<char>, V)>) -> bool {
    forall|i: int, j: int| 0 <= i < j < s.len() ==> path_lt(#[trigger] s[i].0, #[trigger] s[j].0)
}

/// The map that inserting the pairs of `s` in order into an empty map gives
/// (a later pair with the same key replaces an earlier one).
pub open spec fn keyed_map<V>(s: Seq<(Seq<char>, V)>) -> Map<Seq<char>, V>
    decreases s.len(),
{
    if s.len() == 0 {
        Map::empty()
    } else {
        keyed_map(s.drop_last()).insert(s.last().0, s.last().1)
    }
}

/// A key is in `keyed_map(s)` exactly when some pair of `s` has it.
pub proof fn lemma_keyed_map_dom<V>(s: Seq<(Seq<char>, V)>, p: Seq<char>)
    ensures
        keyed_map(s).dom().contains(p) <==> exists|i: int| 0 <= i < s.len() && (#[trigger] s[i]).0 == p,
    decreases s.len(),
{
    if s.len() > 0 {
        lemma_keyed_map_dom(s.drop_last(), p);
        if keyed_map(s.drop_last()).dom().contains(p) {
            let i = choose|i: int| 0 <= i < s.drop_last().len() && (#[trigger] s.drop_last()[i]).0 == p;
            assert(s[i].0 == p);
        }
        if exists|i: int| 0 <= i < s.len() && (#[trigger] s[i]).0 == p {
            let i = choose|i: int| 0 <= i < s.len() && (#[trigger] s[i]).0 == p;
            if i < s.len() - 1 {
                assert(s.drop_last()[i].0 == p);
            }
        }
    }
}

proof fn lemma_keys_sorted_drop_last<V>(s: Seq<(Seq<char>, V)>)
    requires
        keys_sorted(s),
        s.len() > 0,
    ensures
        keys_sorted(s.drop_last()),
{
    let t = s.drop_last();
    assert forall|a: int, b: int| 0 <= a < b < t.len() implies path_lt(#[trigger] t[a].0, #[trigger] t[b].0) by {
        assert(s[a] == t[a] && s[b] == t[b]);
    }
}

/// With sorted keys each pair is what the map holds at its key.
pub proof fn lemma_keyed_map_lookup<V>(s: Seq<(Seq<char>, V)>, i: int)
    requires
        keys_sorted(s),
        0 <= i < s.len(),
    ensures
        keyed_map(s).dom().contains(s[i].0),
        keyed_map(s)[s[i].0] == s[i].1,
    decreases s.len(),
{
    if i < s.len() - 1 {
        let t = s.drop_last();
        lemma_keys_sorted_drop_last(s);
        assert(t[i] == s[i]);
        lemma_keyed_map_lookup(t, i);
        assert(path_lt(s[i].0, s[s.len() - 1].0));
        lemma_path_lt_irreflexive(s[i].0);
    }
}

/// With sorted keys the map has as many keys as `s` has pairs.
pub proof fn lemma_keyed_map_len<V>(s: Seq<(Seq<char>, V)>)
    requires
        keys_sorted(s),
    ensures
        keyed_map(s).dom().finite(),
        keyed_map(s).dom().len() == s.len(),
    decreases s.len(),
{
    if s.len() > 0 {
        let t = s.drop_last();
        lemma_keys_sorted_drop_last(s);
        lemma_keyed_map_len(t);
        lemma_keyed_map_dom(t, s.last().0);
        if keyed_map(t).dom().contains(s.last().0) {
            let i = choose|i: int| 0 <= i < t.len() && (#[trigger] t[i]).0 == s.last().0;
            assert(path_lt(s[i].0, s[s.len() - 1].0));
            lemma_path_lt_irreflexive(s.last().0);
        }
    }
}

/// Putting pair `e` at position `k` of sorted `old`, where `k` is the first
/// position whose key does not come before `e`'s (replacing the pair there
/// when it has `e`'s key, inserting otherwise), keeps the keys sorted and
/// stores `e` in the map.
pub proof fn lemma_keyed_put<V>(old: Seq<(Seq<char>, V)>, k: int, e: (Seq<char>, V))
    requires
        keys_sorted(old),
        0 <= k <= old.len(),
        forall|i: int| 0 <= i < k ==> path_lt(#[trigger] old[i].0, e.0),
        k < old.len() ==> !path_lt(old[k].0, e.0),
    ensures
        ({
            let new = if k < old.len() && old[k].0 == e.0 {
                old.update(k, e)
            } else {
                old.insert(k, e)
            };
            keys_sorted(new) && keyed_map(new) == keyed_map(old).insert(e.0, e.1)
        }),
{
    let replace = k < old.len() && old[k].0 == e.0;
    let new = if replace {
        old.update(k, e)
    } else {
        old.insert(k, e)
    };
    if !replace && k < old.len() {
        lemma_path_lt_total(old[k].0, e.0);
    }
    assert forall|a: int, b: int| 0 <= a < b < new.len() implies path_lt(#[trigger] new[a].0, #[trigger] new[b].0) by {
        if replace {
            if a == k && b > k {
                assert(path_lt(old[a].0, old[b].0));
            }
        } else {
            if a == k {
                if b > k + 1 {
                    lemma_path_lt_transitive(e.0, old[k].0, old[b - 1].0);
                }
            } else if a < k && b > k {
                assert(path_lt(old[a].0, old[b - 1].0));
            } else if a > k {
                assert(path_lt(old[a - 1].0, old[b - 1].0));
            }
        }
    }
    let m_new = keyed_map(new);
    let m_exp = keyed_map(old).insert(e.0, e.1);
    assert forall|p: Seq<char>| m_new.dom().contains(p) <==> m_exp.dom().contains(p) by {
        lemma_keyed_map_dom(new, p);
        lemma_keyed_map_dom(old, p);
        if m_new.dom().contains(p) {
            let i = choose|i: int| 0 <= i < new.len() && (#[trigger] new[i]).0 == p;
            if p != e.0 {
                if replace || i < k {
                    assert(old[i].0 == p);
                } else {
                    assert(old[i - 1].0 == p);
                }
            }
        }
        if m_exp.dom().contains(p) {
            if p == e.0 {
                assert(new[k].0 == p);
            } else {
                let i = choose|i: int| 0 <= i < old.len() && (#[trigger] old[i]).0 == p;
                if replace || i < k {
                    assert(new[i].0 == p);
                } else {
                    assert(new[i + 1].0 == p);
                }
            }
        }
    }
    assert forall|p: Seq<char>| #[trigger] m_new.dom().contains(p) implies m_new[p] == m_exp[p] by {
        lemma_keyed_map_dom(new, p);
        let i = choose|i: int| 0 <= i < new.len() && (#[trigger] new[i]).0 == p;
        lemma_keyed_map_lookup(new, i);
        if p != e.0 {
            if replace || i < k {
                assert(old[i] == new[i]);
                lemma_keyed_map_lookup(old, i);
            } else {
                assert(old[i - 1] == new[i]);
                lemma_keyed_map_lookup(old, i - 1);
            }
        } else {
            assert(new[k] == e);
            if i != k {
                lemma_path_lt_irreflexive(p);
            }
        }
    }
    assert(m_new =~= m_exp);
}

} // verus!
