//! Paths as text: their order, joining, parents, and paths relative to a directory.
use vstd::prelude::*;
use vstd::string::*;

verus! {

broadcast use vstd::seq_lib::group_to_multiset_ensures;

/// The rank of a character in path order: the separator comes before all others,
/// so that paths order component by component.
pub open spec fn rank(c: char) -> int {
    if c == '/' {
        0
    } else {
        (c as u32) as int + 1
    }
}

proof fn lemma_same_code(x: char, y: char)
    requires
        x as u32 == y as u32,
    ensures
        x == y,
{
}

/// Path order: characters compared by rank, a prefix before what extends it.
pub open spec fn path_le(a: Seq<char>, b: Seq<char>) -> bool
    decreases a.len(),
{
    if a.len() == 0 {
        true
    } else if b.len() == 0 {
        false
    } else if rank(a[0]) != rank(b[0]) {
        rank(a[0]) < rank(b[0])
    } else {
        path_le(a.drop_first(), b.drop_first())
    }
}

pub proof fn lemma_path_le_total(a: Seq<char>, b: Seq<char>)
    ensures
        path_le(a, b) || path_le(b, a),
    decreases a.len(),
{
    if a.len() > 0 && b.len() > 0 && rank(a[0]) == rank(b[0]) {
        lemma_path_le_total(a.drop_first(), b.drop_first());
    }
}

pub proof fn lemma_path_le_antisym(a: Seq<char>, b: Seq<char>)
    requires
        path_le(a, b),
        path_le(b, a),
    ensures
        a == b,
    decreases a.len(),
{
    if a.len() > 0 {
        assert(b.len() > 0);
        assert(rank(a[0]) == rank(b[0]));
        if a[0] != '/' && b[0] != '/' {
            lemma_same_code(a[0], b[0]);
        }
        assert(a[0] == b[0]);
        lemma_path_le_antisym(a.drop_first(), b.drop_first());
        assert(a =~= seq![a[0]] + a.drop_first());
        assert(b =~= seq![b[0]] + b.drop_first());
    } else {
        assert(b.len() == 0);
        assert(a =~= b);
    }
}

pub proof fn lemma_path_le_trans(a: Seq<char>, b: Seq<char>, c: Seq<char>)
    requires
        path_le(a, b),
        path_le(b, c),
    ensures
        path_le(a, c),
    decreases a.len(),
{
    if a.len() > 0 && b.len() > 0 && c.len() > 0 && rank(a[0]) == rank(b[0]) && rank(b[0]) == rank(c[0]) {
        lemma_path_le_trans(a.drop_first(), b.drop_first(), c.drop_first());
    }
}

/// Whether `a` comes no later than `b` in path order.
pub fn path_le_exec(a: &str, b: &str) -> (r: bool)
    ensures
        r == path_le(a@, b@),
{
    let n = a.unicode_len();
    let m = b.unicode_len();
    let mut i: usize = 0;
    proof {
        assert(a@.subrange(0, n as int) =~= a@);
        assert(b@.subrange(0, m as int) =~= b@);
    }
    while i < n && i < m && a.get_char(i) == b.get_char(i)
        invariant
            n == a@.len(),
            m == b@.len(),
            i <= n,
            i <= m,
            path_le(a@, b@) == path_le(a@.subrange(i as int, n as int), b@.subrange(i as int, m as int)),
        decreases n - i,
    {
        proof {
            assert(a@.subrange(i as int, n as int).drop_first() =~= a@.subrange(i + 1, n as int));
            assert(b@.subrange(i as int, m as int).drop_first() =~= b@.subrange(i + 1, m as int));
        }
        i = i + 1;
    }
    if i == n {
        true
    } else if i == m {
        false
    } else {
        let x = a.get_char(i);
        let y = b.get_char(i);
        assert(a@.subrange(i as int, n as int)[0] == x);
        assert(b@.subrange(i as int, m as int)[0] == y);
        if x == '/' {
            true
        } else if y == '/' {
            false
        } else {
            (x as u32) < (y as u32)
        }
    }
}

/// Each path comes no later than those after it.
pub open spec fn sorted_paths(s: Seq<Seq<char>>) -> bool {
    forall|i: int, j: int| 0 <= i < j < s.len() ==> path_le(s[i], s[j])
}

/// The paths in path order: the one sorted sequence that holds them.
pub open spec fn in_path_order(ps: Seq<Seq<char>>) -> Seq<Seq<char>> {
    choose|s: Seq<Seq<char>>| sorted_paths(s) && s.to_multiset() == ps.to_multiset()
}

/// Two sorted sequences that hold the same paths are one sequence.
pub proof fn lemma_sorted_unique(a: Seq<Seq<char>>, b: Seq<Seq<char>>)
    requires
        sorted_paths(a),
        sorted_paths(b),
        a.to_multiset() == b.to_multiset(),
    ensures
        a == b,
    decreases a.len(),
{
    if a.len() == 0 {
        assert(b.to_multiset().len() == 0);
        assert(b =~= a);
    } else {
        assert(b.to_multiset().len() == a.len());
        assert(a.to_multiset().count(a[0]) > 0);
        assert(b.contains(a[0]));
        assert(b.to_multiset().count(b[0]) > 0);
        assert(a.contains(b[0]));
        let k = choose|k: int| 0 <= k < b.len() && b[k] == a[0];
        let m = choose|m: int| 0 <= m < a.len() && a[m] == b[0];
        if k > 0 {
            assert(path_le(b[0], b[k]));
        } else {
            lemma_path_le_total(b[0], a[0]);
        }
        if m > 0 {
            assert(path_le(a[0], a[m]));
        } else {
            lemma_path_le_total(a[0], b[0]);
        }
        lemma_path_le_antisym(a[0], b[0]);
        let ra = a.remove(0);
        let rb = b.remove(0);
        assert(ra.to_multiset() == a.to_multiset().remove(a[0]));
        assert(rb.to_multiset() == b.to_multiset().remove(b[0]));
        assert(sorted_paths(ra)) by {
            assert forall|i: int, j: int| 0 <= i < j < ra.len() implies path_le(ra[i], ra[j]) by {
                assert(ra[i] == a[i + 1] && ra[j] == a[j + 1]);
            }
        }
        assert(sorted_paths(rb)) by {
            assert forall|i: int, j: int| 0 <= i < j < rb.len() implies path_le(rb[i], rb[j]) by {
                assert(rb[i] == b[i + 1] && rb[j] == b[j + 1]);
            }
        }
        lemma_sorted_unique(ra, rb);
        assert(a =~= seq![a[0]] + ra);
        assert(b =~= seq![b[0]] + rb);
    }
}

/// `x` placed into sorted `s` after the paths that come no later than it.
pub open spec fn insert_sorted(s: Seq<Seq<char>>, x: Seq<char>) -> Seq<Seq<char>>
    decreases s.len(),
{
    if s.len() == 0 {
        seq![x]
    } else if path_le(s[0], x) {
        seq![s[0]] + insert_sorted(s.drop_first(), x)
    } else {
        seq![x] + s
    }
}

proof fn lemma_insert_sorted(s: Seq<Seq<char>>, x: Seq<char>)
    requires
        sorted_paths(s),
    ensures
        sorted_paths(insert_sorted(s, x)),
        insert_sorted(s, x).to_multiset() == s.to_multiset().insert(x),
        insert_sorted(s, x).len() == s.len() + 1,
        forall|i: int| 0 <= i < insert_sorted(s, x).len() ==> (#[trigger] insert_sorted(s, x)[i] == x
            || s.contains(insert_sorted(s, x)[i])),
    decreases s.len(),
{
    let r = insert_sorted(s, x);
    if s.len() == 0 {
        assert(r.to_multiset() =~= s.to_multiset().insert(x)) by {
            assert(r =~= s.push(x));
        }
    } else if path_le(s[0], x) {
        let t = s.drop_first();
        assert(sorted_paths(t)) by {
            assert forall|i: int, j: int| 0 <= i < j < t.len() implies path_le(t[i], t[j]) by {
                assert(t[i] == s[i + 1] && t[j] == s[j + 1]);
            }
        }
        lemma_insert_sorted(t, x);
        let it = insert_sorted(t, x);
        assert(r =~= seq![s[0]] + it);
        assert forall|i: int| 0 <= i < it.len() implies path_le(s[0], #[trigger] it[i]) by {
            if it[i] != x {
                let k = choose|k: int| 0 <= k < t.len() && t[k] == it[i];
                assert(t[k] == s[k + 1]);
            }
        }
        assert forall|i: int, j: int| 0 <= i < j < r.len() implies path_le(r[i], r[j]) by {
            if i > 0 {
                assert(r[i] == it[i - 1] && r[j] == it[j - 1]);
            } else {
                assert(r[j] == it[j - 1]);
            }
        }
        assert forall|i: int| 0 <= i < r.len() implies (#[trigger] r[i] == x || s.contains(r[i])) by {
            if i == 0 {
                assert(s[0] == r[0]);
            } else {
                assert(r[i] == it[i - 1]);
                if it[i - 1] != x {
                    let k = choose|k: int| 0 <= k < t.len() && t[k] == it[i - 1];
                    assert(s[k + 1] == t[k]);
                }
            }
        }
        assert(s =~= seq![s[0]] + t);
        assert(r.to_multiset() =~= s.to_multiset().insert(x)) by {
            vstd::seq_lib::lemma_multiset_commutative(seq![s[0]], it);
            vstd::seq_lib::lemma_multiset_commutative(seq![s[0]], t);
            assert(seq![s[0]] + it =~= it.insert(0, s[0]));
            assert(seq![s[0]] + t =~= t.insert(0, s[0]));
        }
    } else {
        lemma_path_le_total(s[0], x);
        assert(r =~= s.insert(0, x));
        assert forall|i: int, j: int| 0 <= i < j < r.len() implies path_le(r[i], r[j]) by {
            if i == 0 {
                if j > 1 {
                    lemma_path_le_trans(x, s[0], s[j - 1]);
                }
            } else {
                assert(r[i] == s[i - 1] && r[j] == s[j - 1]);
            }
        }
        assert forall|i: int| 0 <= i < r.len() implies (#[trigger] r[i] == x || s.contains(r[i])) by {
            if i > 0 {
                assert(r[i] == s[i - 1]);
            }
        }
    }
}

/// Every list of paths has a sorted arrangement.
pub proof fn lemma_sorted_exists(ps: Seq<Seq<char>>)
    ensures
        sorted_paths(in_path_order(ps)),
        in_path_order(ps).to_multiset() == ps.to_multiset(),
    decreases ps.len(),
{
    if ps.len() == 0 {
        let e = Seq::<Seq<char>>::empty();
        assert(sorted_paths(e) && e.to_multiset() == ps.to_multiset()) by {
            assert(ps =~= e);
        }
    } else {
        let init = ps.drop_last();
        lemma_sorted_exists(init);
        let s = in_path_order(init);
        lemma_insert_sorted(s, ps.last());
        let w = insert_sorted(s, ps.last());
        assert(ps =~= init.push(ps.last()));
        assert(sorted_paths(w) && w.to_multiset() == ps.to_multiset());
    }
}

/// The characters of each string.
pub open spec fn views(v: Seq<String>) -> Seq<Seq<char>> {
    v.map_values(|s: String| s@)
}

/// The paths in path order.
pub fn sort_paths(paths: &Vec<String>) -> (r: Vec<String>)
    ensures
        views(r@) == in_path_order(views(paths@)),
{
    let mut out: Vec<String> = Vec::new();
    let mut i: usize = 0;
    while i < paths.len()
        invariant
            i <= paths@.len(),
            sorted_paths(views(out@)),
            views(out@).to_multiset() == views(paths@).subrange(0, i as int).to_multiset(),
        decreases paths@.len() - i,
    {
        let x = paths[i].clone();
        let mut p: usize = 0;
        while p < out.len() && path_le_exec(out[p].as_str(), x.as_str())
            invariant
                p <= out@.len(),
                forall|k: int| 0 <= k < p ==> path_le(#[trigger] views(out@)[k], x@),
            decreases out@.len() - p,
        {
            p = p + 1;
        }
        let ghost before = views(out@);
        proof {
            if p < before.len() {
                lemma_path_le_total(before[p as int], x@);
            }
        }
        out.insert(p, x.clone());
        proof {
            let after = views(out@);
            assert(after =~= before.subrange(0, p as int) + seq![x@] + before.subrange(p as int, before.len() as int));
            assert(views(out@).to_multiset() == before.insert(p as int, x@).to_multiset()) by {
                assert(after =~= before.insert(p as int, x@));
            }
            assert forall|a: int, b: int| 0 <= a < b < after.len() implies path_le(after[a], after[b]) by {
                if a < p && b == p {
                } else if a < p && b > p {
                    assert(after[b] == before[b - 1]);
                    assert(after[a] == before[a]);
                } else if a == p {
                    assert(after[b] == before[b - 1]);
                    if b - 1 > p {
                        lemma_path_le_trans(x@, before[p as int], before[b - 1]);
                    }
                } else if b < p {
                } else {
                    assert(after[b] == before[b - 1]);
                    assert(after[a] == before[a - 1]);
                }
            }
            assert(views(paths@).subrange(0, i + 1) =~= views(paths@).subrange(0, i as int).push(x@));
        }
        i = i + 1;
    }
    proof {
        assert(views(paths@).subrange(0, paths@.len() as int) =~= views(paths@));
        let s = views(out@);
        assert(sorted_paths(s) && s.to_multiset() == views(paths@).to_multiset());
        let c = in_path_order(views(paths@));
        lemma_sorted_unique(s, c);
    }
    out
}

/// `part` below `base`: joined with one separator, none added after a trailing one.
pub open spec fn join(base: Seq<char>, part: Seq<char>) -> Seq<char> {
    if base.len() == 0 {
        part
    } else if base.last() == '/' {
        base + part
    } else {
        base + seq!['/'] + part
    }
}

/// `part` below `base`, for a relative `part`.
pub fn join_path(base: &str, part: &str) -> (r: String)
    ensures
        r@ == join(base@, part@),
{
    proof {
        reveal_strlit("/");
    }
    let n = base.unicode_len();
    let mut out = String::from_str(base);
    if n > 0 && base.get_char(n - 1) != '/' {
        out.append("/");
    }
    out.append(part);
    out
}

/// The position of the last separator, or -1.
pub open spec fn last_slash(p: Seq<char>) -> int
    decreases p.len(),
{
    if p.len() == 0 {
        -1
    } else if p.last() == '/' {
        p.len() - 1
    } else {
        last_slash(p.drop_last())
    }
}

proof fn lemma_last_slash(p: Seq<char>)
    ensures
        -1 <= last_slash(p) < p.len(),
        last_slash(p) >= 0 ==> p[last_slash(p)] == '/',
        forall|k: int| last_slash(p) < k < p.len() ==> p[k] != '/',
    decreases p.len(),
{
    if p.len() > 0 && p.last() != '/' {
        lemma_last_slash(p.drop_last());
        assert forall|k: int| last_slash(p) < k < p.len() implies p[k] != '/' by {
            if k < p.len() - 1 {
                assert(p.drop_last()[k] == p[k]);
            }
        }
    }
}

/// The directory that holds a file path: what stands before its last separator,
/// the root for a file in the root, and nothing for a bare name.
pub open spec fn parent_of(p: Seq<char>) -> Seq<char> {
    if last_slash(p) < 0 {
        Seq::empty()
    } else if last_slash(p) == 0 {
        seq!['/']
    } else {
        p.subrange(0, last_slash(p))
    }
}

/// The directory that holds a file path.
pub fn parent_path(p: &str) -> (r: String)
    ensures
        r@ == parent_of(p@),
{
    let n = p.unicode_len();
    let mut i: usize = n;
    proof {
        lemma_last_slash(p@);
    }
    while i > 0 && p.get_char(i - 1) != '/'
        invariant
            i <= n,
            n == p@.len(),
            forall|k: int| i <= k < n ==> p@[k] != '/',
        decreases i,
    {
        i = i - 1;
    }
    proof {
        lemma_last_slash(p@);
        if i > 0 {
            assert(last_slash(p@) == i - 1) by {
                if last_slash(p@) > i - 1 {
                    assert(p@[last_slash(p@)] == '/');
                }
            }
        } else {
            assert(last_slash(p@) < 0) by {
                if last_slash(p@) >= 0 {
                    assert(p@[last_slash(p@)] == '/');
                }
            }
        }
    }
    if i == 0 {
        String::new()
    } else if i == 1 {
        proof {
            reveal_strlit("/");
            assert("/"@ =~= seq!['/']);
        }
        String::from_str("/")
    } else {
        String::from_str(p.substring_char(0, i - 1))
    }
}

/// A relative path of plain components: none empty, `.` or `..`.
pub open spec fn plain_relative(s: Seq<char>) -> bool {
    &&& s.len() > 0
    &&& s[0] != '/'
    &&& s.last() != '/'
    &&& forall|i: int| 0 <= i < s.len() - 1 && #[trigger] s[i] == '/' ==> s[i + 1] != '/'
    &&& forall|i: int|
        0 <= i < s.len() && (i == 0 || s[i - 1] == '/') && #[trigger] s[i] == '.' ==> {
            &&& i + 1 < s.len()
            &&& s[i + 1] != '/'
            &&& (s[i + 1] == '.' ==> i + 2 < s.len() && s[i + 2] != '/')
        }
}

/// An absolute directory path of plain components.
pub open spec fn plain_absolute(s: Seq<char>) -> bool {
    s == seq!['/'] || (s.len() > 1 && s[0] == '/' && plain_relative(s.drop_first()))
}

/// What `pathdiff::diff_paths` returns for a path and a base directory.
pub uninterp spec fn diff_of(path: Seq<char>, base: Seq<char>) -> Option<Seq<char>>;

/// Relies on `pathdiff::diff_paths`: an absolute path against a relative base is
/// returned whole, a relative one against an absolute base has no answer, and a
/// path below a plain base is what follows the base.
#[verifier::external_body]
pub(crate) fn relative_to(path: &str, base: &str) -> (r: Option<String>)
    ensures
        r is None <==> diff_of(path@, base@) is None,
        r matches Some(s) ==> diff_of(path@, base@) == Some(s@),
        has_prefix_slash(base@) && is_relative(path@) ==> r is None,
        has_prefix_slash(path@) && is_relative(base@) ==> r is Some && r->0@ == path@,
        forall|rest: Seq<char>|
            plain_absolute(base@) && plain_relative(rest) && path@ == join(base@, rest)
                ==> r is Some && r->0@ == rest,
{
    pathdiff::diff_paths(path, base).map(|p| p.to_string_lossy().into_owned())
}

/// The path is relative.
pub open spec fn is_relative(s: Seq<char>) -> bool {
    !has_prefix_slash(s)
}

/// The path is absolute.
pub open spec fn has_prefix_slash(s: Seq<char>) -> bool {
    s.len() > 0 && s[0] == '/'
}

} // verus!
