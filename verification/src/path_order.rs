use vstd::prelude::*;
use vstd::std_specs::iter::IteratorSpec;

verus! {

/// Rank of a character when paths are compared: the separator `/` ranks
/// below every other character, and the others keep their code-point order.
/// With this rank, comparing two relative paths as a scan produces them
/// character by character gives the same answer as comparing their
/// components one by one, which is how paths are ordered
/// (`law_key_order_is_component_order`).
pub open spec fn char_rank(c: char) -> int {
    if c == '/' {
        0
    } else {
        (c as u32) as int + 1
    }
}

/// `a` comes strictly before `b` in path order: lexicographic by `char_rank`,
/// a proper prefix coming first.
pub open spec fn path_lt(a: Seq<char>, b: Seq<char>) -> bool
    decreases a.len(),
{
    if a.len() == 0 {
        b.len() > 0
    } else if b.len() == 0 {
        false
    } else if a[0] == b[0] {
        path_lt(a.drop_first(), b.drop_first())
    } else {
        char_rank(a[0]) < char_rank(b[0])
    }
}

/// Position `i` of `p` starts a component: it is the first character or
/// follows a separator.
pub open spec fn starts_component(p: Seq<char>, i: int) -> bool {
    i == 0 || p[i - 1] == '/'
}

/// What must hold at position `i` of a relative path: a separator is
/// neither first, nor last, nor doubled; and no component is `.` or `..`.
pub open spec fn path_ok_at(p: Seq<char>, i: int) -> bool {
    &&& p[i] == '/' ==> 0 < i < p.len() - 1 && p[i + 1] != '/'
    &&& starts_component(p, i) && p[i] == '.' ==> {
        &&& i + 1 < p.len()
        &&& p[i + 1] != '/'
        &&& !(p[i + 1] == '.' && (i + 2 == p.len() || p[i + 2] == '/'))
    }
}

/// `p` is a relative path as a scan produces it: entry names joined by
/// single separators. For such paths, two are equal exactly when their
/// components are, and `path_lt` orders them as their components are ordered
/// (`law_keys_equal_iff_components_equal`, `law_key_order_is_component_order`).
pub open spec fn valid_relative_path(p: Seq<char>) -> bool {
    &&& p.len() > 0
    &&& forall|i: int| 0 <= i < p.len() ==> #[trigger] path_ok_at(p, i)
}

/// `n` can name an entry of a directory: it is not empty, holds no
/// separator, and is neither `.` nor `..`.
pub open spec fn valid_entry_name(n: Seq<char>) -> bool {
    &&& n.len() > 0
    &&& forall|i: int| 0 <= i < n.len() ==> n[i] != '/'
    &&& n != seq!['.']
    &&& n != seq!['.', '.']
}

/// An entry name is a relative path of one component.
pub proof fn lemma_name_is_relative_path(n: Seq<char>)
    requires
        valid_entry_name(n),
    ensures
        valid_relative_path(n),
{
    assert forall|i: int| 0 <= i < n.len() implies #[trigger] path_ok_at(n, i) by {
        if starts_component(n, i) && n[i] == '.' {
            assert(i == 0);
            if n.len() == 1 {
                assert(n =~= seq!['.']);
            }
            if n.len() == 2 && n[1] == '.' {
                assert(n =~= seq!['.', '.']);
            }
        }
    }
}

/// Which names can name a directory entry: exactly the non-empty ones that
/// hold no separator and are neither `.` nor `..`, whatever other characters
/// they hold; equivalently, the relative paths of one component.
pub proof fn law_entry_names(n: Seq<char>)
    ensures
        valid_entry_name(n) <==> (n.len() > 0 && !n.contains('/') && n != seq!['.'] && n != seq!['.', '.']),
        valid_entry_name(n) <==> (valid_relative_path(n) && !n.contains('/')),
{
    if n.len() > 0 && !n.contains('/') {
        assert forall|i: int| 0 <= i < n.len() implies n[i] != '/' by {
            if n[i] == '/' {
                assert(n.contains('/'));
            }
        }
    }
    if valid_entry_name(n) {
        lemma_name_is_relative_path(n);
        if n.contains('/') {
            let i = choose|i: int| 0 <= i < n.len() && n[i] == '/';
            assert(n[i] != '/');
        }
    }
    if valid_relative_path(n) && !n.contains('/') {
        assert(path_ok_at(n, 0));
        assert(n != seq!['.']) by {
            if n == seq!['.'] {
                assert(n[0] == '.' && n.len() == 1);
            }
        }
        assert(n != seq!['.', '.']) by {
            if n == seq!['.', '.'] {
                assert(n[0] == '.' && n[1] == '.' && n.len() == 2);
            }
        }
        assert forall|i: int| 0 <= i < n.len() implies n[i] != '/' by {
            if n[i] == '/' {
                assert(n.contains('/'));
            }
        }
    }
}

/// Joining an entry name below a relative path gives a relative path.
pub proof fn lemma_join_is_relative_path(d: Seq<char>, n: Seq<char>)
    requires
        valid_relative_path(d),
        valid_entry_name(n),
    ensures
        valid_relative_path(d + seq!['/'] + n),
{
    lemma_name_is_relative_path(n);
    let p = d + seq!['/'] + n;
    let k = d.len() as int;
    assert forall|i: int| 0 <= i < p.len() implies #[trigger] path_ok_at(p, i) by {
        if i < k {
            assert(path_ok_at(d, i));
            assert(p[i] == d[i]);
            if i > 0 {
                assert(p[i - 1] == d[i - 1]);
            }
            if i + 1 < k {
                assert(p[i + 1] == d[i + 1]);
            }
            if i + 2 < k {
                assert(p[i + 2] == d[i + 2]);
            }
            if i == k - 1 {
                assert(d[k - 1] != '/') by {
                    assert(path_ok_at(d, k - 1));
                }
            }
        } else if i == k {
            assert(p[i] == '/');
            assert(p[i + 1] == n[0]);
            assert(n[0] != '/');
        } else {
            let j = i - k - 1;
            assert(path_ok_at(n, j));
            assert(p[i] == n[j]);
            if j > 0 {
                assert(p[i - 1] == n[j - 1]);
            }
            if j + 1 < n.len() {
                assert(p[i + 1] == n[j + 1]);
            }
            if j + 2 < n.len() {
                assert(p[i + 2] == n[j + 2]);
            }
        }
    }
}

/// The characters of `s`, in order.
fn chars_of(s: &String) -> (v: Vec<char>)
    ensures
        v@ == s@,
{
    let mut it = s.as_str().chars();
    let mut v: Vec<char> = Vec::new();
    loop
        invariant
            v@.len() <= s@.len(),
            it.obeys_prophetic_iter_laws(),
            v@ == s@.take(v@.len() as int),
            it.remaining() == s@.skip(v@.len() as int),
        decreases s@.len() - v@.len(),
    {
        match it.next() {
            None => {
                assert(s@.skip(v@.len() as int).len() == 0);
                assert(v@ =~= s@);
                return v;
            },
            Some(c) => {
                let ghost k = v@.len() as int;
                assert(s@.skip(k)[0] == s@[k]);
                assert(s@.skip(k).drop_first() =~= s@.skip(k + 1));
                v.push(c);
                assert(v@ =~= s@.take(k + 1));
            },
        }
    }
}

/// Whether `p` is a relative path as a scan produces it.
pub fn is_relative_path(p: &String) -> (b: bool)
    ensures
        b == valid_relative_path(p@),
{
    let v = chars_of(p);
    let n = v.len();
    if n == 0 {
        return false;
    }
    for i in 0..n
        invariant
            n == p@.len(),
            v@ == p@,
            n > 0,
            forall|j: int| 0 <= j < i ==> #[trigger] path_ok_at(p@, j),
    {
        if v[i] == '/' {
            if i == 0 || i + 1 == n || v[i + 1] == '/' {
                assert(!path_ok_at(p@, i as int));
                return false;
            }
        }
        if (i == 0 || v[i - 1] == '/') && v[i] == '.' {
            if i + 1 == n || v[i + 1] == '/' {
                assert(!path_ok_at(p@, i as int));
                return false;
            }
            if v[i + 1] == '.' && (i + 2 == n || v[i + 2] == '/') {
                assert(!path_ok_at(p@, i as int));
                return false;
            }
        }
        assert(path_ok_at(p@, i as int));
    }
    true
}

/// Whether `n` can name an entry of a directory.
pub fn is_entry_name(n: &String) -> (b: bool)
    ensures
        b == valid_entry_name(n@),
{
    let v = chars_of(n);
    let len = v.len();
    if len == 0 {
        return false;
    }
    for i in 0..len
        invariant
            len == n@.len(),
            v@ == n@,
            forall|j: int| 0 <= j < i ==> n@[j] != '/',
    {
        if v[i] == '/' {
            return false;
        }
    }
    if len == 1 && v[0] == '.' {
        assert(n@ =~= seq!['.']);
        return false;
    }
    if len == 2 && v[0] == '.' && v[1] == '.' {
        assert(n@ =~= seq!['.', '.']);
        return false;
    }
    proof {
        if len == 1 {
            assert(n@ != seq!['.']) by {
                if n@ == seq!['.'] {
                    assert(n@[0] == '.');
                }
            }
        }
        if len == 2 {
            assert(n@ != seq!['.', '.']) by {
                if n@ == seq!['.', '.'] {
                    assert(n@[0] == '.' && n@[1] == '.');
                }
            }
        }
    }
    true
}

/// Outcome of comparing two paths.
#[derive(Clone, Copy, Debug, PartialEq, Eq, Structural)]
pub enum PathOrder {
    Before,
    Same,
    After,
}

/// No path comes before itself.
pub proof fn lemma_path_lt_irreflexive(a: Seq<char>)
    ensures
        !path_lt(a, a),
    decreases a.len(),
{
    if a.len() > 0 {
        lemma_path_lt_irreflexive(a.drop_first());
    }
}

/// Path order is transitive.
pub proof fn lemma_path_lt_transitive(a: Seq<char>, b: Seq<char>, c: Seq<char>)
    requires
        path_lt(a, b),
        path_lt(b, c),
    ensures
        path_lt(a, c),
    decreases a.len(),
{
    if a.len() > 0 && b.len() > 0 && c.len() > 0 {
        if a[0] == b[0] && b[0] == c[0] {
            lemma_path_lt_transitive(a.drop_first(), b.drop_first(), c.drop_first());
        }
    }
}

/// Any two distinct paths are ordered one way or the other.
pub proof fn lemma_path_lt_total(a: Seq<char>, b: Seq<char>)
    ensures
        a == b || path_lt(a, b) || path_lt(b, a),
    decreases a.len(),
{
    if a.len() > 0 && b.len() > 0 {
        if a[0] == b[0] {
            lemma_path_lt_total(a.drop_first(), b.drop_first());
            if a.drop_first() == b.drop_first() {
                assert(a =~= seq![a[0]] + a.drop_first());
                assert(b =~= seq![b[0]] + b.drop_first());
            }
        } else {
            vstd::utf8::char_u32_cast(a[0], a[0] as u32);
            vstd::utf8::char_u32_cast(b[0], b[0] as u32);
            assert(char_rank(a[0]) != char_rank(b[0]));
        }
    } else if a.len() == 0 && b.len() == 0 {
        assert(a =~= b);
    }
}

/// Path order is asymmetric.
pub proof fn lemma_path_lt_asymmetric(a: Seq<char>, b: Seq<char>)
    requires
        path_lt(a, b),
    ensures
        !path_lt(b, a),
{
    if path_lt(b, a) {
        lemma_path_lt_transitive(a, b, a);
        lemma_path_lt_irreflexive(a);
    }
}

/// Compare two paths in path order.
pub fn compare_paths(a: &String, b: &String) -> (r: PathOrder)
    ensures
        (r == PathOrder::Before) <==> path_lt(a@, b@),
        (r == PathOrder::Same) <==> a@ == b@,
        (r == PathOrder::After) <==> path_lt(b@, a@),
{
    let mut ia = a.as_str().chars();
    let mut ib = b.as_str().chars();
    let ghost mut k: int = 0;
    proof {
        lemma_path_lt_irreflexive(a@);
    }
    loop
        invariant
            0 <= k <= a@.len(),
            k <= b@.len(),
            a@.take(k) == b@.take(k),
            ia.obeys_prophetic_iter_laws(),
            ib.obeys_prophetic_iter_laws(),
            ia.remaining() == a@.skip(k),
            ib.remaining() == b@.skip(k),
            path_lt(a@, b@) == path_lt(a@.skip(k), b@.skip(k)),
            path_lt(b@, a@) == path_lt(b@.skip(k), a@.skip(k)),
        decreases a@.len() - k,
    {
        let ca = ia.next();
        let cb = ib.next();
        match (ca, cb) {
            (None, None) => {
                assert(a@ =~= a@.take(k));
                assert(b@ =~= b@.take(k));
                return PathOrder::Same;
            },
            (None, Some(_)) => {
                proof {
                    lemma_path_lt_asymmetric(a@, b@);
                }
                assert(a@.skip(k).len() == 0);
                return PathOrder::Before;
            },
            (Some(_), None) => {
                proof {
                    lemma_path_lt_asymmetric(b@, a@);
                }
                return PathOrder::After;
            },
            (Some(x), Some(y)) => {
                assert(a@.skip(k).drop_first() =~= a@.skip(k + 1));
                assert(b@.skip(k).drop_first() =~= b@.skip(k + 1));
                if x == y {
                    assert(a@.take(k + 1) =~= a@.take(k).push(x));
                    assert(b@.take(k + 1) =~= b@.take(k).push(y));
                    proof {
                        k = k + 1;
                    }
                } else {
                    proof {
                        if a@ == b@ {
                            assert(a@[k] == b@[k]);
                        }
                    }
                    if x == '/' {
                        return PathOrder::Before;
                    } else if y == '/' {
                        return PathOrder::After;
                    } else if (x as u32) < (y as u32) {
                        return PathOrder::Before;
                    } else {
                        proof {
                            vstd::utf8::char_u32_cast(x, x as u32);
                            vstd::utf8::char_u32_cast(y, y as u32);
                        }
                        return PathOrder::After;
                    }
                }
            },
        }
    }
}

} // verus!
