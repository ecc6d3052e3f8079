use vstd::prelude::*;
use crate::text::{owned, str_eq, strs_view};

verus! {

/// Lexicographic order on byte strings (the order of `Ord` on `[u8]`).
pub open spec fn lex_lt(a: Seq<u8>, b: Seq<u8>) -> bool
    decreases a.len(),
{
    if a.len() == 0 {
        b.len() > 0
    } else if b.len() == 0 {
        false
    } else if a[0] < b[0] {
        true
    } else if a[0] > b[0] {
        false
    } else {
        lex_lt(a.drop_first(), b.drop_first())
    }
}

/// The order of `Ord` on `String`: byte order of the UTF-8 encodings.
pub open spec fn name_lt(a: Seq<char>, b: Seq<char>) -> bool {
    lex_lt(vstd::utf8::encode_utf8(a), vstd::utf8::encode_utf8(b))
}

pub proof fn lemma_lex_irreflexive(a: Seq<u8>)
    ensures
        !lex_lt(a, a),
    decreases a.len(),
{
    if a.len() > 0 {
        lemma_lex_irreflexive(a.drop_first());
    }
}

pub proof fn lemma_lex_transitive(a: Seq<u8>, b: Seq<u8>, c: Seq<u8>)
    requires
        lex_lt(a, b),
        lex_lt(b, c),
    ensures
        lex_lt(a, c),
    decreases a.len(),
{
    if a.len() > 0 && b.len() > 0 && c.len() > 0 {
        if a[0] == b[0] && b[0] == c[0] {
            lemma_lex_transitive(a.drop_first(), b.drop_first(), c.drop_first());
        }
    }
}

pub proof fn lemma_lex_total(a: Seq<u8>, b: Seq<u8>)
    ensures
        a == b || lex_lt(a, b) || lex_lt(b, a),
    decreases a.len(),
{
    if a.len() > 0 && b.len() > 0 && a[0] == b[0] {
        lemma_lex_total(a.drop_first(), b.drop_first());
        if a.drop_first() == b.drop_first() {
            assert(a =~= seq![a[0]] + a.drop_first());
            assert(b =~= seq![b[0]] + b.drop_first());
        }
    } else if a.len() == 0 && b.len() == 0 {
        assert(a =~= b);
    }
}

pub proof fn lemma_lex_asymmetric(a: Seq<u8>, b: Seq<u8>)
    requires
        lex_lt(a, b),
    ensures
        !lex_lt(b, a),
{
    if lex_lt(b, a) {
        lemma_lex_transitive(a, b, a);
        lemma_lex_irreflexive(a);
    }
}

pub proof fn lemma_name_irreflexive(a: Seq<char>)
    ensures
        !name_lt(a, a),
{
    lemma_lex_irreflexive(vstd::utf8::encode_utf8(a));
}

pub proof fn lemma_name_transitive(a: Seq<char>, b: Seq<char>, c: Seq<char>)
    requires
        name_lt(a, b),
        name_lt(b, c),
    ensures
        name_lt(a, c),
{
    lemma_lex_transitive(
        vstd::utf8::encode_utf8(a),
        vstd::utf8::encode_utf8(b),
        vstd::utf8::encode_utf8(c),
    );
}

pub proof fn lemma_name_total(a: Seq<char>, b: Seq<char>)
    ensures
        a == b || name_lt(a, b) || name_lt(b, a),
{
    lemma_lex_total(vstd::utf8::encode_utf8(a), vstd::utf8::encode_utf8(b));
    vstd::utf8::encode_utf8_decode_utf8(a);
    vstd::utf8::encode_utf8_decode_utf8(b);
}

pub proof fn lemma_name_asymmetric(a: Seq<char>, b: Seq<char>)
    requires
        name_lt(a, b),
    ensures
        !name_lt(b, a),
{
    lemma_lex_asymmetric(vstd::utf8::encode_utf8(a), vstd::utf8::encode_utf8(b));
}

/// Compares two byte strings lexicographically.
pub fn bytes_lt(a: &[u8], b: &[u8]) -> (r: bool)
    ensures
        r == lex_lt(a@, b@),
{
    let mut i: usize = 0;
    assert(a@.subrange(0, a@.len() as int) =~= a@);
    assert(b@.subrange(0, b@.len() as int) =~= b@);
    while i < a.len() && i < b.len()
        invariant
            i <= a.len(),
            i <= b.len(),
            a@.subrange(0, i as int) == b@.subrange(0, i as int),
            lex_lt(a@, b@) == lex_lt(a@.subrange(i as int, a@.len() as int), b@.subrange(i as int, b@.len() as int)),
        decreases a.len() - i,
    {
        let ghost sa = a@.subrange(i as int, a@.len() as int);
        let ghost sb = b@.subrange(i as int, b@.len() as int);
        if a[i] < b[i] {
            return true;
        }
        if a[i] > b[i] {
            return false;
        }
        proof {
            assert(sa.drop_first() =~= a@.subrange(i + 1, a@.len() as int));
            assert(sb.drop_first() =~= b@.subrange(i + 1, b@.len() as int));
            assert(a@.subrange(0, i + 1) =~= a@.subrange(0, i as int).push(a@[i as int]));
            assert(b@.subrange(0, i + 1) =~= b@.subrange(0, i as int).push(b@[i as int]));
        }
        i += 1;
    }
    i < b.len()
}

/// Compares two strings in the order of `Ord` on `String`.
pub fn str_lt(a: &str, b: &str) -> (r: bool)
    ensures
        r == name_lt(a@, b@),
{
    bytes_lt(a.as_bytes(), b.as_bytes())
}

/// The set of names in a list of strings.
pub open spec fn names_set(v: Seq<String>) -> Set<Seq<char>> {
    strs_view(v).to_set()
}

/// Strictly increasing in the order of `String`.
pub open spec fn sorted_names(s: Seq<Seq<char>>) -> bool {
    forall|i: int, j: int| 0 <= i < j < s.len() ==> name_lt(#[trigger] s[i], #[trigger] s[j])
}

/// Position of `name` in a sorted list, or where it would go.
pub fn search_sorted(v: &Vec<String>, name: &str) -> (r: (bool, usize))
    requires
        sorted_names(strs_view(v@)),
    ensures
        r.1 <= v@.len(),
        r.0 ==> r.1 < v@.len() && v@[r.1 as int]@ == name@,
        !r.0 ==> (forall|j: int| 0 <= j < r.1 ==> name_lt(#[trigger] v@[j]@, name@)),
        !r.0 ==> (forall|j: int| r.1 <= j < v@.len() ==> name_lt(name@, #[trigger] v@[j]@)),
{
    let ghost ns = strs_view(v@);
    let mut lo: usize = 0;
    let mut hi: usize = v.len();
    while lo < hi
        invariant
            lo <= hi <= v@.len(),
            ns == strs_view(v@),
            sorted_names(ns),
            forall|j: int| 0 <= j < lo ==> name_lt(#[trigger] v@[j]@, name@),
            forall|j: int| hi <= j < v@.len() ==> name_lt(name@, #[trigger] v@[j]@),
        decreases hi - lo,
    {
        let mid = lo + (hi - lo) / 2;
        if str_eq(v[mid].as_str(), name) {
            return (true, mid);
        }
        if str_lt(v[mid].as_str(), name) {
            proof {
                assert forall|j: int| 0 <= j < mid + 1 implies name_lt(#[trigger] v@[j]@, name@) by {
                    if j < mid {
                        assert(ns[j] == v@[j]@ && ns[mid as int] == v@[mid as int]@);
                        lemma_name_transitive(v@[j]@, v@[mid as int]@, name@);
                    }
                }
            }
            lo = mid + 1;
        } else {
            proof {
                lemma_name_total(v@[mid as int]@, name@);
                assert forall|j: int| mid <= j < v@.len() implies name_lt(name@, #[trigger] v@[j]@) by {
                    if j > mid {
                        assert(ns[j] == v@[j]@ && ns[mid as int] == v@[mid as int]@);
                        lemma_name_transitive(name@, v@[mid as int]@, v@[j]@);
                    }
                }
            }
            hi = mid;
        }
    }
    (false, lo)
}

/// Adds `name` to a sorted list of distinct names, keeping it sorted.
pub fn insert_sorted(v: &mut Vec<String>, name: &str)
    requires
        sorted_names(strs_view(old(v)@)),
    ensures
        sorted_names(strs_view(final(v)@)),
        names_set(final(v)@) == names_set(old(v)@).insert(name@),
{
    let ghost ns = strs_view(v@);
    let (found, pos) = search_sorted(v, name);
    if found {
        proof {
            assert(ns[pos as int] == name@);
            assert(names_set(v@) =~= names_set(v@).insert(name@));
        }
        return;
    }
    v.insert(pos, owned(name));
    proof {
        let ns2 = strs_view(v@);
        assert(ns2 =~= ns.insert(pos as int, name@));
        assert forall|i: int, j: int| 0 <= i < j < ns2.len() implies name_lt(#[trigger] ns2[i], #[trigger] ns2[j]) by {
            if j < pos {
                assert(ns2[i] == ns[i] && ns2[j] == ns[j]);
            } else if j == pos {
                assert(ns2[i] == old(v)@[i]@);
            } else if i < pos {
                assert(ns2[i] == ns[i] && ns2[j] == ns[j - 1]);
            } else if i == pos {
                assert(ns2[j] == old(v)@[j - 1]@);
            } else {
                assert(ns2[i] == ns[i - 1] && ns2[j] == ns[j - 1]);
            }
        }
        assert forall|x: Seq<char>| #[trigger] ns2.to_set().contains(x) == ns.to_set().insert(name@).contains(x) by {
            if ns2.to_set().contains(x) {
                let k = choose|k: int| 0 <= k < ns2.len() && ns2[k] == x;
                if k < pos {
                    assert(ns[k] == x);
                } else if k > pos {
                    assert(ns[k - 1] == x);
                }
            }
            if ns.to_set().contains(x) {
                let k = choose|k: int| 0 <= k < ns.len() && ns[k] == x;
                if k < pos {
                    assert(ns2[k] == x);
                } else {
                    assert(ns2[k + 1] == x);
                }
            }
            if x == name@ {
                assert(ns2[pos as int] == x);
            }
        }
        assert(names_set(v@) =~= names_set(old(v)@).insert(name@));
    }
}

/// Removes `name` from a sorted list of distinct names.
pub fn remove_sorted(v: &mut Vec<String>, name: &str)
    requires
        sorted_names(strs_view(old(v)@)),
    ensures
        sorted_names(strs_view(final(v)@)),
        names_set(final(v)@) == names_set(old(v)@).remove(name@),
{
    let ghost ns = strs_view(v@);
    let (found, pos) = search_sorted(v, name);
    if !found {
        proof {
            assert forall|k: int| 0 <= k < ns.len() implies ns[k] != name@ by {
                assert(ns[k] == v@[k]@);
                if k < pos {
                    lemma_name_irreflexive(name@);
                } else {
                    lemma_name_irreflexive(name@);
                }
            }
            assert(names_set(v@) =~= names_set(v@).remove(name@));
        }
        return;
    }
    v.remove(pos);
    proof {
        let ns2 = strs_view(v@);
        assert(ns2 =~= ns.remove(pos as int));
        assert forall|i: int, j: int| 0 <= i < j < ns2.len() implies name_lt(#[trigger] ns2[i], #[trigger] ns2[j]) by {
            if j < pos {
                assert(ns2[i] == ns[i] && ns2[j] == ns[j]);
            } else if i < pos {
                assert(ns2[i] == ns[i] && ns2[j] == ns[j + 1]);
            } else {
                assert(ns2[i] == ns[i + 1] && ns2[j] == ns[j + 1]);
            }
        }
        assert forall|x: Seq<char>| #[trigger] ns2.to_set().contains(x) == ns.to_set().remove(name@).contains(x) by {
            if ns2.to_set().contains(x) {
                let k = choose|k: int| 0 <= k < ns2.len() && ns2[k] == x;
                if k < pos {
                    assert(ns[k] == x);
                    assert(name_lt(ns[k], ns[pos as int]));
                    lemma_name_irreflexive(x);
                } else {
                    assert(ns[k + 1] == x);
                    assert(name_lt(ns[pos as int], ns[k + 1]));
                    lemma_name_irreflexive(x);
                }
            }
            if ns.to_set().remove(name@).contains(x) {
                let k = choose|k: int| 0 <= k < ns.len() && ns[k] == x;
                assert(k != pos);
                if k < pos {
                    assert(ns2[k] == x);
                } else {
                    assert(ns2[k - 1] == x);
                }
            }
        }
        assert(names_set(v@) =~= names_set(old(v)@).remove(name@));
    }
}

/// The names of a set in increasing order.
pub open spec fn sorted_of(s: Set<Seq<char>>) -> Seq<Seq<char>> {
    choose|q: Seq<Seq<char>>| sorted_names(q) && q.to_set() == s
}

proof fn lemma_sorted_drop_first(a: Seq<Seq<char>>)
    requires
        sorted_names(a),
        a.len() > 0,
    ensures
        sorted_names(a.drop_first()),
        a.drop_first().to_set() == a.to_set().remove(a[0]),
{
    let d = a.drop_first();
    assert forall|i: int, j: int| 0 <= i < j < d.len() implies name_lt(#[trigger] d[i], #[trigger] d[j]) by {
        assert(d[i] == a[i + 1] && d[j] == a[j + 1]);
    }
    assert forall|x: Seq<char>| #[trigger] d.to_set().contains(x) == a.to_set().remove(a[0]).contains(x) by {
        if d.to_set().contains(x) {
            let k = choose|k: int| 0 <= k < d.len() && d[k] == x;
            assert(a[k + 1] == x);
            assert(name_lt(a[0], a[k + 1]));
            lemma_name_irreflexive(x);
        }
        if a.to_set().remove(a[0]).contains(x) {
            let k = choose|k: int| 0 <= k < a.len() && a[k] == x;
            assert(k != 0);
            assert(d[k - 1] == x);
        }
    }
    assert(d.to_set() =~= a.to_set().remove(a[0]));
}

/// Two increasing lists with the same names are equal.
pub proof fn lemma_sorted_unique(a: Seq<Seq<char>>, b: Seq<Seq<char>>)
    requires
        sorted_names(a),
        sorted_names(b),
        a.to_set() == b.to_set(),
    ensures
        a == b,
    decreases a.len(),
{
    if a.len() == 0 {
        if b.len() > 0 {
            assert(b.to_set().contains(b[0]));
        }
        assert(a =~= b);
    } else {
        assert(a.to_set().contains(a[0]));
        assert(b.len() > 0);
        let j = choose|j: int| 0 <= j < b.len() && b[j] == a[0];
        assert(b.to_set().contains(b[0]));
        let i = choose|i: int| 0 <= i < a.len() && a[i] == b[0];
        if j > 0 {
            assert(name_lt(b[0], b[j]));
            if i > 0 {
                assert(name_lt(a[0], a[i]));
                lemma_name_asymmetric(b[0], a[0]);
            } else {
                lemma_name_irreflexive(b[0]);
            }
        }
        assert(a[0] == b[0]);
        lemma_sorted_drop_first(a);
        lemma_sorted_drop_first(b);
        lemma_sorted_unique(a.drop_first(), b.drop_first());
        assert(a =~= seq![a[0]] + a.drop_first());
        assert(b =~= seq![b[0]] + b.drop_first());
    }
}

/// An increasing list is the increasing list of its names.
pub proof fn lemma_sorted_of(q: Seq<Seq<char>>)
    requires
        sorted_names(q),
    ensures
        sorted_of(q.to_set()) == q,
{
    let c = sorted_of(q.to_set());
    assert(sorted_names(q) && q.to_set() == q.to_set());
    lemma_sorted_unique(c, q);
}

/// The position in `q`, from `i`, before which `x` goes: past every name that does not exceed it.
pub open spec fn insert_pos(q: Seq<Seq<char>>, x: Seq<char>, i: int) -> int
    decreases q.len() - i,
{
    if i < 0 || i >= q.len() {
        q.len() as int
    } else if name_lt(x, q[i]) {
        i
    } else {
        insert_pos(q, x, i + 1)
    }
}

/// `x` inserted into `q` after the names that do not exceed it.
pub open spec fn insert_name(q: Seq<Seq<char>>, x: Seq<char>) -> Seq<Seq<char>> {
    q.insert(insert_pos(q, x, 0), x)
}

/// The names of `s` in increasing order (equal names kept): insertion in order of arrival.
pub open spec fn sort_names(s: Seq<Seq<char>>) -> Seq<Seq<char>>
    decreases s.len(),
{
    if s.len() == 0 {
        Seq::empty()
    } else {
        insert_name(sort_names(s.drop_last()), s.last())
    }
}

/// The strings of `v` sorted in the order of `String`, equal ones kept.
pub fn sort_strings(v: &Vec<String>) -> (r: Vec<String>)
    ensures
        strs_view(r@) == sort_names(strs_view(v@)),
{
    let ghost sv = strs_view(v@);
    let mut r: Vec<String> = Vec::new();
    let mut i: usize = 0;
    assert(sv.take(0) =~= Seq::<Seq<char>>::empty());
    assert(strs_view(r@) =~= Seq::<Seq<char>>::empty());
    while i < v.len()
        invariant
            i <= v@.len(),
            sv == strs_view(v@),
            strs_view(r@) == sort_names(sv.take(i as int)),
        decreases v.len() - i,
    {
        let x = owned(v[i].as_str());
        let ghost q = strs_view(r@);
        let mut p: usize = 0;
        while p < r.len() && !str_lt(x.as_str(), r[p].as_str())
            invariant
                p <= r@.len(),
                q == strs_view(r@),
                insert_pos(q, x@, 0) == insert_pos(q, x@, p as int),
            decreases r.len() - p,
        {
            assert(q[p as int] == r@[p as int]@);
            p += 1;
        }
        proof {
            if p < r@.len() {
                assert(q[p as int] == r@[p as int]@);
            }
            assert(insert_pos(q, x@, p as int) == p);
            assert(sv.take(i + 1).drop_last() =~= sv.take(i as int));
            assert(sv.take(i + 1).last() == x@);
        }
        r.insert(p, x);
        assert(strs_view(r@) =~= q.insert(p as int, x@));
        i += 1;
    }
    assert(sv.take(v@.len() as int) =~= sv);
    r
}

/// No name in `q` is smaller than the one before it.
pub open spec fn nondecreasing(q: Seq<Seq<char>>) -> bool {
    forall|i: int, j: int| 0 <= i < j < q.len() ==> !name_lt(#[trigger] q[j], #[trigger] q[i])
}

proof fn lemma_insert_pos(q: Seq<Seq<char>>, x: Seq<char>, i: int)
    requires
        0 <= i <= q.len(),
        forall|k: int| 0 <= k < i ==> !name_lt(x, #[trigger] q[k]),
    ensures
        i <= insert_pos(q, x, i) <= q.len(),
        forall|k: int| 0 <= k < insert_pos(q, x, i) ==> !name_lt(x, #[trigger] q[k]),
        insert_pos(q, x, i) < q.len() ==> name_lt(x, q[insert_pos(q, x, i)]),
    decreases q.len() - i,
{
    if i < q.len() && !name_lt(x, q[i]) {
        lemma_insert_pos(q, x, i + 1);
    }
}

proof fn lemma_insert_name(q: Seq<Seq<char>>, x: Seq<char>)
    requires
        nondecreasing(q),
    ensures
        nondecreasing(insert_name(q, x)),
        insert_name(q, x).to_multiset() == q.to_multiset().insert(x),
{
    lemma_insert_pos(q, x, 0);
    let p = insert_pos(q, x, 0);
    let r = insert_name(q, x);
    vstd::seq_lib::to_multiset_insert(q, p, x);
    assert forall|i: int, j: int| 0 <= i < j < r.len() implies !name_lt(#[trigger] r[j], #[trigger] r[i]) by {
        if j < p {
            assert(r[i] == q[i] && r[j] == q[j]);
        } else if j == p {
            assert(r[j] == x && r[i] == q[i]);
            lemma_name_total(x, q[i]);
        } else if i > p {
            assert(r[i] == q[i - 1] && r[j] == q[j - 1]);
        } else if i == p {
            assert(r[i] == x && r[j] == q[j - 1]);
            if j - 1 > p {
                assert(!name_lt(q[j - 1], q[p]));
                lemma_name_total(q[j - 1], q[p]);
                if name_lt(q[j - 1], x) {
                    if q[j - 1] == q[p] {
                        lemma_name_asymmetric(x, q[p]);
                    } else {
                        lemma_name_transitive(q[p], q[j - 1], x);
                        lemma_name_asymmetric(x, q[p]);
                    }
                }
            } else {
                lemma_name_asymmetric(x, q[p]);
            }
        } else {
            assert(r[i] == q[i] && r[j] == q[j - 1]);
        }
    }
}

/// Sorting puts the names in increasing order and keeps each of them, as often as it occurs.
pub proof fn law_sort_names(s: Seq<Seq<char>>)
    ensures
        nondecreasing(sort_names(s)),
        sort_names(s).to_multiset() == s.to_multiset(),
    decreases s.len(),
{
    if s.len() == 0 {
        assert(sort_names(s) =~= s);
    } else {
        law_sort_names(s.drop_last());
        lemma_insert_name(sort_names(s.drop_last()), s.last());
        assert(s =~= s.drop_last().push(s.last()));
        vstd::seq_lib::to_multiset_build(s.drop_last(), s.last());
    }
}

/// Every finite set of names has an increasing list of them.
pub proof fn lemma_sorted_of_set(s: Set<Seq<char>>)
    requires
        s.finite(),
    ensures
        sorted_names(sorted_of(s)),
        sorted_of(s).to_set() == s,
    decreases s.len(),
{
    if s.len() == 0 {
        let q = Seq::<Seq<char>>::empty();
        assert(q.to_set() =~= s);
        assert(sorted_names(q));
    } else {
        let a = s.choose();
        assert(s.contains(a));
        lemma_sorted_of_set(s.remove(a));
        let q0 = sorted_of(s.remove(a));
        assert forall|i: int, j: int| 0 <= i < j < q0.len() implies !name_lt(#[trigger] q0[j], #[trigger] q0[i]) by {
            assert(name_lt(q0[i], q0[j]));
            lemma_name_asymmetric(q0[i], q0[j]);
        }
        lemma_insert_name(q0, a);
        lemma_insert_pos(q0, a, 0);
        let p = insert_pos(q0, a, 0);
        let q = insert_name(q0, a);
        assert(!q0.to_set().contains(a));
        assert forall|i: int, j: int| 0 <= i < j < q.len() implies name_lt(#[trigger] q[i], #[trigger] q[j]) by {
            assert(!name_lt(q[j], q[i]));
            lemma_name_total(q[i], q[j]);
            if q[i] == q[j] {
                if i < p && j < p {
                    assert(q[i] == q0[i] && q[j] == q0[j]);
                    lemma_name_irreflexive(q[i]);
                } else if i > p && j > p {
                    assert(q[i] == q0[i - 1] && q[j] == q0[j - 1]);
                    lemma_name_irreflexive(q[i]);
                } else if i < p && j > p {
                    assert(q[i] == q0[i] && q[j] == q0[j - 1]);
                    lemma_name_irreflexive(q[i]);
                } else if i == p {
                    assert(q[i] == a);
                    assert(q[j] == q0[j - 1]);
                    assert(q0.to_set().contains(q0[j - 1]));
                } else {
                    assert(q[j] == a);
                    assert(q[i] == q0[i]);
                    assert(q0.to_set().contains(q0[i]));
                }
            }
        }
        vstd::seq_lib::to_multiset_insert(q0, p, a);
        assert forall|x: Seq<char>| #[trigger] q.to_set().contains(x) == s.contains(x) by {
            if x == a {
                assert(q[p] == a);
            } else {
                if q.to_set().contains(x) {
                    let i = choose|i: int| 0 <= i < q.len() && q[i] == x;
                    if i < p {
                        assert(q[i] == q0[i]);
                    } else {
                        assert(q[i] == q0[i - 1]);
                    }
                    assert(q0.to_set().contains(x));
                }
                if s.contains(x) {
                    assert(q0.to_set().contains(x));
                    let i = choose|i: int| 0 <= i < q0.len() && q0[i] == x;
                    if i < p {
                        assert(q[i] == x);
                    } else {
                        assert(q[i + 1] == x);
                    }
                }
            }
        }
        assert(q.to_set() =~= s);
        assert(sorted_names(q) && q.to_set() == s);
    }
}

} // verus!
