//! File systems shaped as a tree, and the round trip through the nested form.
use vstd::prelude::*;
use crate::fs::{FsMap, NodeView, empty_dir, join_path, spec_stat};
use crate::fs_laws::{files_within, within};
use crate::nested::{NestedView, flatten, flatten_kids, from_nested_spec, nested_children, stored, to_nested};
use crate::order::{insert_name, lemma_name_asymmetric, lemma_name_irreflexive, lemma_name_total, name_lt, nondecreasing, sorted_names, sorted_of};
use crate::path::{child_key, comps, good_key, join_comps, lemma_child_key, lemma_root_comps, norm, render, slash, valid_name};

verus! {

/// `k` is the key `x` or lies inside the directory at `x`.
pub open spec fn under(k: Seq<char>, x: Seq<char>) -> bool {
    ||| x == slash()
    ||| k == x
    ||| (x.len() < k.len() && k.subrange(0, x.len() as int) == x && k[x.len() as int] == '/')
}

/// A file system shaped as a tree: every key a normal path of valid names under the
/// root directory, every entry of a directory a node, and every node but the root an
/// entry of a directory.
pub open spec fn is_tree(fs: FsMap) -> bool {
    &&& fs.dom().finite()
    &&& fs.contains_key(slash()) && fs[slash()] is Dir
    &&& forall|k: Seq<char>| #[trigger] fs.contains_key(k) ==> good_key(k)
    &&& forall|d: Seq<char>| #[trigger] fs.contains_key(d) && fs[d] is Dir ==> fs[d]->Dir_children.finite()
    &&& forall|d: Seq<char>, c: Seq<char>|
        fs.contains_key(d) && fs[d] is Dir && #[trigger] fs[d]->Dir_children.contains(c) ==> valid_name(c)
            && fs.contains_key(child_key(d, c))
    &&& forall|k: Seq<char>|
        #[trigger] fs.contains_key(k) && k != slash() ==> exists|d: Seq<char>, c: Seq<char>|
            fs.contains_key(d) && fs[d] is Dir && fs[d]->Dir_children.contains(c) && k == #[trigger] child_key(d, c)
}

/// The keys at or inside `x`.
pub open spec fn inside(fs: FsMap, x: Seq<char>) -> Set<Seq<char>> {
    fs.dom().filter(|k: Seq<char>| under(k, x))
}

proof fn lemma_good_len(k: Seq<char>)
    requires
        good_key(k),
        k != slash(),
    ensures
        k.len() > 1,
        k[0] == '/',
{
    let cs = comps(k);
    if cs.len() == 0 {
        assert(render(true, cs) =~= slash());
    }
    assert(valid_name(cs[0]));
    crate::path::lemma_join_comps_last(cs);
}

/// A child lies inside its directory.
proof fn lemma_under_child(d: Seq<char>, c: Seq<char>)
    requires
        good_key(d),
        valid_name(c),
    ensures
        under(child_key(d, c), d),
        child_key(d, c) != slash(),
        child_key(d, c) != d,
{
    lemma_child_key(d, c);
    if d != slash() {
        let k = child_key(d, c);
        assert(k.subrange(0, d.len() as int) =~= d);
        assert(k[d.len() as int] == '/');
    }
    lemma_good_len(child_key(d, c));
    lemma_root_comps();
    if child_key(d, c) == slash() {
        assert(comps(child_key(d, c)).len() == 1);
    }
}

/// Inside is transitive.
proof fn lemma_under_trans(k: Seq<char>, y: Seq<char>, x: Seq<char>)
    requires
        under(k, y),
        under(y, x),
        x.len() > 0,
        y == slash() ==> x == slash(),
    ensures
        under(k, x),
{
    if x != slash() && k != y && y != x {
        if y == slash() {
        } else {
            assert(k.subrange(0, x.len() as int) =~= k.subrange(0, y.len() as int).subrange(0, x.len() as int));
            assert(k[x.len() as int] == k.subrange(0, y.len() as int)[x.len() as int]);
        }
    }
}

/// The position in a child's key where its name starts.
spec fn name_start(d: Seq<char>) -> int {
    if d == slash() {
        1
    } else {
        d.len() + 1int
    }
}

proof fn lemma_child_parts(d: Seq<char>, c: Seq<char>)
    requires
        good_key(d),
        valid_name(c),
    ensures
        child_key(d, c).len() == name_start(d) + c.len(),
        child_key(d, c).subrange(name_start(d), name_start(d) + c.len()) == c,
        child_key(d, c).subrange(0, name_start(d)) == if d == slash() { slash() } else { d + slash() },
        forall|i: int| 0 <= i < c.len() ==> #[trigger] child_key(d, c)[name_start(d) + i] == c[i],
{
    let k = child_key(d, c);
    assert(k.subrange(name_start(d), name_start(d) + c.len()) =~= c);
    if d == slash() {
        assert(k.subrange(0, 1) =~= slash());
    } else {
        assert(k.subrange(0, name_start(d)) =~= d + slash());
    }
}

/// Two different entries of a directory have nothing inside both.
proof fn lemma_siblings_apart(k: Seq<char>, d: Seq<char>, c1: Seq<char>, c2: Seq<char>)
    requires
        good_key(d),
        valid_name(c1),
        valid_name(c2),
        c1 != c2,
    ensures
        !(under(k, child_key(d, c1)) && under(k, child_key(d, c2))),
{
    let x1 = child_key(d, c1);
    let x2 = child_key(d, c2);
    let b = name_start(d);
    lemma_under_child(d, c1);
    lemma_under_child(d, c2);
    lemma_child_parts(d, c1);
    lemma_child_parts(d, c2);
    if under(k, x1) && under(k, x2) {
        // k begins with x1 and with x2, each followed by the end or by `/`
        assert forall|i: int| 0 <= i < x1.len() implies k[i] == x1[i] by {
            if k != x1 {
                assert(k.subrange(0, x1.len() as int)[i] == k[i]);
            }
        }
        assert forall|i: int| 0 <= i < x2.len() implies k[i] == x2[i] by {
            if k != x2 {
                assert(k.subrange(0, x2.len() as int)[i] == k[i]);
            }
        }
        if c1.len() == c2.len() {
            assert forall|i: int| 0 <= i < c1.len() implies c1[i] == c2[i] by {
                assert(x1[b + i] == c1[i]);
                assert(x2[b + i] == c2[i]);
            }
            assert(c1 =~= c2);
        } else if c1.len() < c2.len() {
            let j = b + c1.len();
            assert(x2[j] == c2[c1.len() as int]);
            assert(c2[c1.len() as int] != '/');
            if k == x1 {
                assert(k.len() < x2.len());
            } else {
                assert(k[j] == '/');
            }
        } else {
            let j = b + c2.len();
            assert(x1[j] == c1[c2.len() as int]);
            assert(c1[c2.len() as int] != '/');
            if k == x2 {
                assert(k.len() < x1.len());
            } else {
                assert(k[j] == '/');
            }
        }
    }
}

/// What lies inside `x` and is a child of `d` lies in `d`, which lies inside `x`.
proof fn lemma_under_parent(d: Seq<char>, c: Seq<char>, x: Seq<char>)
    requires
        good_key(d),
        valid_name(c),
        good_key(x),
        under(child_key(d, c), x),
        child_key(d, c) != x,
    ensures
        under(d, x),
{
    let k = child_key(d, c);
    let b = name_start(d);
    lemma_child_parts(d, c);
    if x != slash() {
        lemma_good_len(x);
        assert(k[x.len() as int] == '/');
        if x.len() >= b {
            let i = x.len() - b;
            assert(k[b + i] == c[i]);
        }
        if d == slash() {
            assert(x.len() >= 1);
            assert(false);
        } else {
            if x.len() == d.len() {
                assert(d =~= k.subrange(0, d.len() as int));
                assert(x =~= d);
            } else {
                assert(x.len() < d.len());
                assert(d.subrange(0, x.len() as int) =~= k.subrange(0, x.len() as int));
                assert(d[x.len() as int] == k[x.len() as int]);
            }
        }
    }
}

/// A key strictly inside `x` lies inside one of the entries of the directory `x`.
proof fn lemma_below(fs: FsMap, x: Seq<char>, k: Seq<char>) -> (c: Seq<char>)
    requires
        is_tree(fs),
        fs.contains_key(x),
        fs.contains_key(k),
        under(k, x),
        k != x,
    ensures
        fs[x] is Dir,
        fs[x]->Dir_children.contains(c),
        under(k, child_key(x, c)),
    decreases k.len(),
{
    assert(good_key(x) && good_key(k));
    if x != slash() {
        lemma_good_len(x);
    }
    assert(k != slash());
    let (d, c) = choose|d: Seq<char>, c: Seq<char>|
        fs.contains_key(d) && fs[d] is Dir && fs[d]->Dir_children.contains(c) && k == #[trigger] child_key(d, c);
    assert(good_key(d));
    assert(valid_name(c));
    lemma_under_child(d, c);
    lemma_child_key(d, c);
    if d == x {
        c
    } else {
        lemma_under_parent(d, c, x);
        let c2 = lemma_below(fs, x, d);
        assert(valid_name(c2));
        lemma_under_child(x, c2);
        if d == slash() {
            lemma_child_key(x, c2);
            assert(false);
        }
        lemma_under_trans(k, d, child_key(x, c2));
        c2
    }
}

/// The keys inside the entries of `x` listed in `cs` from the `k`-th.
pub open spec fn inside_from(fs: FsMap, x: Seq<char>, cs: Seq<Seq<char>>, k: int) -> Set<Seq<char>>
    decreases cs.len() - k,
{
    if k < 0 || k >= cs.len() {
        Set::empty()
    } else {
        inside(fs, child_key(x, cs[k])) + inside_from(fs, x, cs, k + 1)
    }
}

proof fn lemma_inside_finite(fs: FsMap, x: Seq<char>)
    requires
        fs.dom().finite(),
    ensures
        inside(fs, x).finite(),
        inside(fs, x).subset_of(fs.dom()),
{
    vstd::set_lib::lemma_len_subset(inside(fs, x), fs.dom());
}

/// What lies in `inside_from(.., k)`: the keys inside one of the entries from the `k`-th.
proof fn lemma_inside_from(fs: FsMap, x: Seq<char>, cs: Seq<Seq<char>>, k: int, key: Seq<char>)
    requires
        fs.dom().finite(),
        0 <= k,
    ensures
        inside_from(fs, x, cs, k).finite(),
        inside_from(fs, x, cs, k).contains(key) <==> exists|j: int|
            k <= j < cs.len() && #[trigger] inside(fs, child_key(x, cs[j])).contains(key),
    decreases cs.len() - k,
{
    if k < cs.len() {
        lemma_inside_from(fs, x, cs, k + 1, key);
        lemma_inside_finite(fs, child_key(x, cs[k]));
        if inside_from(fs, x, cs, k).contains(key) && !inside(fs, child_key(x, cs[k])).contains(key) {
            let j = choose|j: int| k + 1 <= j < cs.len() && #[trigger] inside(fs, child_key(x, cs[j])).contains(key);
            assert(k <= j < cs.len() && inside(fs, child_key(x, cs[j])).contains(key));
        }
        if exists|j: int| k <= j < cs.len() && #[trigger] inside(fs, child_key(x, cs[j])).contains(key) {
            let j = choose|j: int| k <= j < cs.len() && #[trigger] inside(fs, child_key(x, cs[j])).contains(key);
            if j > k {
                assert(k + 1 <= j < cs.len() && inside(fs, child_key(x, cs[j])).contains(key));
            }
        }
    }
}

/// The keys inside a directory: itself and, apart, the keys inside each of its entries.
proof fn lemma_inside_split(fs: FsMap, x: Seq<char>, cs: Seq<Seq<char>>)
    requires
        is_tree(fs),
        fs.contains_key(x),
        fs[x] is Dir,
        sorted_names(cs),
        cs.to_set() == fs[x]->Dir_children,
    ensures
        inside(fs, x) == inside_from(fs, x, cs, 0).insert(x),
        !inside_from(fs, x, cs, 0).contains(x),
        inside_from(fs, x, cs, 0).finite(),
{
    assert(good_key(x));
    assert forall|key: Seq<char>| #[trigger] inside(fs, x).contains(key) == inside_from(fs, x, cs, 0).insert(x).contains(key) by {
        lemma_inside_from(fs, x, cs, 0, key);
        if inside(fs, x).contains(key) && key != x {
            let c = lemma_below(fs, x, key);
            assert(cs.to_set().contains(c));
            let j = choose|j: int| 0 <= j < cs.len() && cs[j] == c;
            assert(inside(fs, child_key(x, cs[j])).contains(key));
        }
        if inside_from(fs, x, cs, 0).contains(key) {
            let j = choose|j: int| 0 <= j < cs.len() && #[trigger] inside(fs, child_key(x, cs[j])).contains(key);
            assert(cs.to_set().contains(cs[j]));
            assert(valid_name(cs[j]));
            lemma_under_child(x, cs[j]);
            lemma_child_key(x, cs[j]);
            lemma_under_trans(key, child_key(x, cs[j]), x);
        }
    }
    assert(inside(fs, x) =~= inside_from(fs, x, cs, 0).insert(x));
    lemma_inside_from(fs, x, cs, 0, x);
    if inside_from(fs, x, cs, 0).contains(x) {
        let j = choose|j: int| 0 <= j < cs.len() && #[trigger] inside(fs, child_key(x, cs[j])).contains(x);
        assert(cs.to_set().contains(cs[j]));
        lemma_child_key(x, cs[j]);
        lemma_under_child(x, cs[j]);
        assert(under(x, child_key(x, cs[j])));
    }
}

/// The keys inside the `k`-th entry and those inside the later ones are apart.
proof fn lemma_inside_from_apart(fs: FsMap, x: Seq<char>, cs: Seq<Seq<char>>, k: int)
    requires
        is_tree(fs),
        fs.contains_key(x),
        fs[x] is Dir,
        sorted_names(cs),
        cs.to_set() == fs[x]->Dir_children,
        0 <= k < cs.len(),
    ensures
        inside(fs, child_key(x, cs[k])).disjoint(inside_from(fs, x, cs, k + 1)),
        inside_from(fs, x, cs, k).len() == inside(fs, child_key(x, cs[k])).len() + inside_from(fs, x, cs, k + 1).len(),
        inside(fs, child_key(x, cs[k])).len() <= inside_from(fs, x, cs, k).len(),
{
    assert(good_key(x));
    assert forall|key: Seq<char>| inside(fs, child_key(x, cs[k])).contains(key) implies !inside_from(
        fs,
        x,
        cs,
        k + 1,
    ).contains(key) by {
        lemma_inside_from(fs, x, cs, k + 1, key);
        if inside_from(fs, x, cs, k + 1).contains(key) {
            let j = choose|j: int| k + 1 <= j < cs.len() && #[trigger] inside(fs, child_key(x, cs[j])).contains(key);
            assert(name_lt(cs[k], cs[j]));
            lemma_name_irreflexive(cs[k]);
            assert(cs.to_set().contains(cs[k]) && cs.to_set().contains(cs[j]));
            lemma_siblings_apart(key, x, cs[k], cs[j]);
        }
    }
    lemma_inside_finite(fs, child_key(x, cs[k]));
    lemma_inside_from(fs, x, cs, k + 1, x);
    lemma_inside_from(fs, x, cs, k, x);
    vstd::set_lib::lemma_set_disjoint_lens(inside(fs, child_key(x, cs[k])), inside_from(fs, x, cs, k + 1));
}

/// Adding the entries of a list from `j + 1` is adding those of its tail from `j`.
proof fn lemma_kids_shift(
    path: Seq<char>,
    a: NestedView,
    s: Seq<NestedView>,
    j: int,
    seen: Set<Seq<char>>,
    fs: FsMap,
    count: nat,
    max_nodes: usize,
    max_file_size: usize,
)
    requires
        0 <= j,
    ensures
        flatten_kids(path, seq![a] + s, j + 1, seen, fs, count, max_nodes, max_file_size) == flatten_kids(
            path,
            s,
            j,
            seen,
            fs,
            count,
            max_nodes,
            max_file_size,
        ),
    decreases s.len() - j,
{
    let t = seq![a] + s;
    if j < s.len() {
        assert(t[j + 1] == s[j]);
        let nm = s[j].name;
        if valid_name(nm) && !seen.contains(nm) {
            match flatten(join_path(path, nm), s[j], fs, count, max_nodes, max_file_size) {
                Err(_) => {},
                Ok((fs1, c1)) => {
                    lemma_kids_shift(path, a, s, j + 1, seen.insert(nm), fs1, c1, max_nodes, max_file_size);
                },
            }
        }
    }
}

/// The nested form of the entry at `x` exists, and reading it back into `acc` adds
/// exactly the nodes inside `x`.
proof fn lemma_round_node(
    fs: FsMap,
    x: Seq<char>,
    name: Seq<char>,
    fuel: nat,
    acc: FsMap,
    count: nat,
    max_nodes: usize,
    max_file_size: usize,
)
    requires
        is_tree(fs),
        files_within(fs, max_file_size),
        fs.contains_key(x),
        fuel >= inside(fs, x).len(),
        count + inside(fs, x).len() <= max_nodes,
    ensures
        to_nested(fs, x, name, fuel) is Ok,
        to_nested(fs, x, name, fuel)->Ok_0.name == name,
        flatten(x, to_nested(fs, x, name, fuel)->Ok_0, acc, count, max_nodes, max_file_size) == Ok::<
            (FsMap, nat),
            Seq<char>,
        >((acc.union_prefer_right(fs.restrict(inside(fs, x))), count + inside(fs, x).len())),
    decreases fuel, 0int,
{
    assert(good_key(x));
    lemma_inside_finite(fs, x);
    assert(inside(fs, x).contains(x));
    assert(inside(fs, x).len() >= 1) by {
        if inside(fs, x).len() == 0 {
            assert(inside(fs, x) =~= Set::<Seq<char>>::empty());
        }
    }
    assert(norm(x) == x) by {
        lemma_root_comps();
        if x != slash() {
            lemma_good_len(x);
        }
    }
    let node = fs[x];
    assert(spec_stat(fs, x) == Ok::<NodeView, crate::error::ErrView>(node));
    match node {
        NodeView::File { .. } => {
            assert forall|k: Seq<char>| #[trigger] inside(fs, x).contains(k) implies k == x by {
                if k != x {
                    lemma_below(fs, x, k);
                }
            }
            assert(inside(fs, x) =~= set![x]);
            assert(acc.insert(x, node) =~= acc.union_prefer_right(fs.restrict(inside(fs, x))));
            if x == slash() {
                assert(fs[slash()] is Dir);
            }
        },
        NodeView::Dir { children, created, modified } => {
            assert(children.finite());
            crate::order::lemma_sorted_of_set(children);
            let cs = sorted_of(children);
            lemma_inside_split(fs, x, cs);
            let rest = inside_from(fs, x, cs, 0);
            assert(inside(fs, x).len() == rest.len() + 1);
            assert(cs.take(0).to_set() =~= Set::<Seq<char>>::empty()) by {
                assert forall|n: Seq<char>| !#[trigger] cs.take(0).to_set().contains(n) by {
                    if cs.take(0).to_set().contains(n) {
                        let i = choose|i: int| 0 <= i < cs.take(0).len() && #[trigger] cs.take(0)[i] == n;
                    }
                }
            }
            lemma_round_kids(fs, x, cs, 0, (fuel - 1) as nat, acc, count + 1, Set::empty(), max_nodes, max_file_size);
            let v = nested_children(fs, x, cs, 0, (fuel - 1) as nat)->Ok_0;
            assert(cs.skip(0) =~= cs);
            assert(Set::<Seq<char>>::empty() + cs.to_set() =~= children);
            assert(stored(node, children) == node);
            assert(acc.union_prefer_right(fs.restrict(rest)).insert(x, node) =~= acc.union_prefer_right(
                fs.restrict(inside(fs, x)),
            ));
        },
    }
}

/// The nested forms of the entries of `x` from the `k`-th exist, and reading them back
/// adds the nodes inside them, and their names.
proof fn lemma_round_kids(
    fs: FsMap,
    x: Seq<char>,
    cs: Seq<Seq<char>>,
    k: int,
    fuel: nat,
    acc: FsMap,
    count: nat,
    seen: Set<Seq<char>>,
    max_nodes: usize,
    max_file_size: usize,
)
    requires
        is_tree(fs),
        files_within(fs, max_file_size),
        fs.contains_key(x),
        fs[x] is Dir,
        sorted_names(cs),
        cs.to_set() == fs[x]->Dir_children,
        0 <= k <= cs.len(),
        seen == cs.take(k).to_set(),
        fuel >= inside_from(fs, x, cs, k).len(),
        count + inside_from(fs, x, cs, k).len() <= max_nodes,
    ensures
        nested_children(fs, x, cs, k, fuel) is Ok,
        flatten_kids(x, nested_children(fs, x, cs, k, fuel)->Ok_0, 0, seen, acc, count, max_nodes, max_file_size)
            == Ok::<(FsMap, nat, Set<Seq<char>>), Seq<char>>(
            (
                acc.union_prefer_right(fs.restrict(inside_from(fs, x, cs, k))),
                count + inside_from(fs, x, cs, k).len(),
                seen + cs.skip(k).to_set(),
            ),
        ),
    decreases fuel, 1int, cs.len() - k,
{
    assert(good_key(x));
    if k == cs.len() {
        assert(acc.union_prefer_right(fs.restrict(Set::empty())) =~= acc);
        assert(seen + cs.skip(k).to_set() =~= seen);
    } else {
        assert(cs.to_set().contains(cs[k]));
        let c = cs[k];
        assert(valid_name(c));
        let ck = child_key(x, c);
        lemma_child_key(x, c);
        assert(fs.contains_key(ck));
        lemma_inside_from_apart(fs, x, cs, k);
        lemma_round_node(fs, ck, c, fuel, acc, count, max_nodes, max_file_size);
        let t = to_nested(fs, ck, c, fuel)->Ok_0;
        let acc1 = acc.union_prefer_right(fs.restrict(inside(fs, ck)));
        let count1 = count + inside(fs, ck).len();
        let seen1 = seen.insert(c);
        assert(seen1 =~= cs.take(k + 1).to_set()) by {
            let t0 = cs.take(k);
            let t1 = cs.take(k + 1);
            assert forall|n: Seq<char>| #[trigger] seen1.contains(n) == t1.to_set().contains(n) by {
                if t0.to_set().contains(n) {
                    let i = choose|i: int| 0 <= i < t0.len() && #[trigger] t0[i] == n;
                    assert(t1[i] == n);
                }
                if n == c {
                    assert(t1[k] == c);
                }
                if t1.to_set().contains(n) {
                    let i = choose|i: int| 0 <= i < t1.len() && #[trigger] t1[i] == n;
                    if i < k {
                        assert(t0[i] == n);
                    }
                }
            }
        }
        lemma_round_kids(fs, x, cs, k + 1, fuel, acc1, count1, seen1, max_nodes, max_file_size);
        let v1 = nested_children(fs, x, cs, k + 1, fuel)->Ok_0;
        assert(nested_children(fs, x, cs, k, fuel) == Ok::<Seq<NestedView>, crate::error::ErrView>(seq![t] + v1));
        assert(!seen.contains(c)) by {
            if seen.contains(c) {
                let tk = cs.take(k);
                let i = choose|i: int| 0 <= i < tk.len() && #[trigger] tk[i] == c;
                assert(name_lt(cs[i], cs[k]));
                lemma_name_irreflexive(c);
            }
        }
        lemma_kids_shift(x, t, v1, 0, seen1, acc1, count1, max_nodes, max_file_size);
        assert((seq![t] + v1)[0] == t);
        assert(acc1.union_prefer_right(fs.restrict(inside_from(fs, x, cs, k + 1))) =~= acc.union_prefer_right(
            fs.restrict(inside_from(fs, x, cs, k)),
        ));
        assert(seen1 + cs.skip(k + 1).to_set() =~= seen + cs.skip(k).to_set()) by {
            assert(cs.skip(k) =~= seq![c] + cs.skip(k + 1));
            assert forall|n: Seq<char>| #[trigger] cs.skip(k).to_set().contains(n) == (n == c || cs.skip(
                k + 1,
            ).to_set().contains(n)) by {
                let s0 = cs.skip(k);
                let s1 = cs.skip(k + 1);
                if s0.to_set().contains(n) && n != c {
                    let i = choose|i: int| 0 <= i < s0.len() && #[trigger] s0[i] == n;
                    assert(s1[i - 1] == n);
                }
                if s1.to_set().contains(n) {
                    let i = choose|i: int| 0 <= i < s1.len() && #[trigger] s1[i] == n;
                    assert(s0[i + 1] == n);
                }
                if n == c {
                    assert(cs.skip(k)[0] == c);
                }
            }
        }
    }
}

/// A file system shaped as a tree and within its limits, saved in the nested form and
/// read back with the same limits, is the same file system.
pub proof fn law_nested_round_trip(fs: FsMap, max_nodes: usize, max_file_size: usize)
    requires
        is_tree(fs),
        within(fs, max_nodes, max_file_size),
    ensures
        to_nested(fs, slash(), slash(), fs.len()) is Ok,
        from_nested_spec(to_nested(fs, slash(), slash(), fs.len())->Ok_0, max_nodes, max_file_size) == Ok::<
            FsMap,
            Seq<char>,
        >(fs),
{
    assert(inside(fs, slash()) =~= fs.dom());
    let base = Map::<Seq<char>, NodeView>::empty().insert(slash(), empty_dir(0));
    lemma_round_node(fs, slash(), slash(), fs.len(), base, 0, max_nodes, max_file_size);
    assert(base.union_prefer_right(fs.restrict(fs.dom())) =~= fs);
}

} // verus!
