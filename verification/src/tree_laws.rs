//! Every change that the shell makes keeps the file system shaped as a tree.
use vstd::prelude::*;
use crate::fs::{FsMap, NodeView, add_child, drop_child, empty_dir, mkdir_loop, mkdir_step, spec_canonicalize, spec_create_file, spec_mkdir_p, spec_remove, spec_write};
use crate::path::{
    child_key, comps, dot, dotdot, file_name_of, good_key, is_abs, join_comps, lemma_child_key, lemma_root_comps, norm,
    normal_names, parent_of, render, slash, valid_name,
};
use crate::tree::is_tree;

verus! {

/// A path made of valid names is a key, with those names as its components.
pub proof fn lemma_render_good(cs: Seq<Seq<char>>)
    requires
        forall|i: int| 0 <= i < cs.len() ==> #[trigger] valid_name(cs[i]),
    ensures
        good_key(render(true, cs)),
        comps(render(true, cs)) == cs,
    decreases cs.len(),
{
    lemma_root_comps();
    if cs.len() == 0 {
        assert(render(true, cs) =~= slash());
        assert(cs =~= Seq::<Seq<char>>::empty());
    } else {
        let p = cs.drop_last();
        let c = cs.last();
        assert forall|i: int| 0 <= i < p.len() implies #[trigger] valid_name(p[i]) by {
            assert(p[i] == cs[i]);
        }
        lemma_render_good(p);
        assert(valid_name(cs[cs.len() - 1]));
        lemma_child_key(render(true, p), c);
        if p.len() == 0 {
            assert(render(true, p) =~= slash());
            assert(join_comps(cs) == cs[0]);
            assert(render(true, cs) =~= child_key(render(true, p), c));
        } else {
            assert(cs =~= p.push(c));
            assert(cs.drop_last() =~= p);
            assert(render(true, cs) =~= child_key(render(true, p), c));
        }
        assert(comps(render(true, cs)) =~= cs);
    }
}

/// A key other than the root is a child of its parent, named by its last component.
pub proof fn lemma_good_split(k: Seq<char>)
    requires
        good_key(k),
        k != slash(),
    ensures
        good_key(render(true, comps(k).drop_last())),
        valid_name(comps(k).last()),
        k == child_key(render(true, comps(k).drop_last()), comps(k).last()),
        parent_of(k) == Some(render(true, comps(k).drop_last())),
        file_name_of(k) == Some(comps(k).last()),
        norm(k) == k,
        norm(render(true, comps(k).drop_last())) == render(true, comps(k).drop_last()),
{
    let cs = comps(k);
    lemma_root_comps();
    if cs.len() == 0 {
        assert(render(true, cs) =~= slash());
    }
    let p = cs.drop_last();
    assert forall|i: int| 0 <= i < p.len() implies #[trigger] valid_name(p[i]) by {
        assert(p[i] == cs[i]);
    }
    assert(valid_name(cs[cs.len() - 1]));
    lemma_render_good(p);
    lemma_render_good(cs);
    lemma_child_key(render(true, p), cs.last());
    if p.len() == 0 {
        assert(render(true, p) =~= slash());
        assert(render(true, cs) =~= child_key(render(true, p), cs.last()));
    } else {
        assert(cs =~= p.push(cs.last()));
        assert(render(true, cs) =~= child_key(render(true, p), cs.last()));
    }
    assert(is_abs(k));
    if render(true, p) != slash() {
        assert(is_abs(render(true, p)));
    }
}

/// The parent and the name of a child are determined by its key.
pub proof fn lemma_child_key_inj(d1: Seq<char>, c1: Seq<char>, d2: Seq<char>, c2: Seq<char>)
    requires
        good_key(d1),
        good_key(d2),
        valid_name(c1),
        valid_name(c2),
        child_key(d1, c1) == child_key(d2, c2),
    ensures
        d1 == d2,
        c1 == c2,
{
    lemma_child_key(d1, c1);
    lemma_child_key(d2, c2);
    assert(comps(d1).push(c1).last() == c1);
    assert(comps(d1).push(c1).drop_last() =~= comps(d1));
    assert(comps(d2).push(c2).drop_last() =~= comps(d2));
}

/// The names of a path made of valid names are its components.
pub proof fn lemma_normal_names_valid(cs: Seq<Seq<char>>)
    requires
        forall|i: int| 0 <= i < cs.len() ==> #[trigger] valid_name(cs[i]),
    ensures
        normal_names(cs) == cs,
    decreases cs.len(),
{
    if cs.len() > 0 {
        let p = cs.drop_last();
        assert forall|i: int| 0 <= i < p.len() implies #[trigger] valid_name(p[i]) by {
            assert(p[i] == cs[i]);
        }
        lemma_normal_names_valid(p);
        assert(valid_name(cs[cs.len() - 1]));
        assert(cs.last() != dot() && cs.last() != dotdot());
        assert(p.push(cs.last()) =~= cs);
    }
}

/// Adding a new entry (an empty directory or a file) to a directory keeps a tree.
pub proof fn lemma_add_entry(fs: FsMap, d: Seq<char>, c: Seq<char>, node: NodeView, now: i64)
    requires
        is_tree(fs),
        fs.contains_key(d),
        fs[d] is Dir,
        valid_name(c),
        !fs.contains_key(child_key(d, c)),
        node is Dir ==> node->Dir_children == Set::<Seq<char>>::empty(),
    ensures
        is_tree(add_child(fs, d, c, now).insert(child_key(d, c), node)),
        add_child(fs, d, c, now).insert(child_key(d, c), node).dom() == fs.dom().insert(child_key(d, c)),
{
    let k = child_key(d, c);
    let a = add_child(fs, d, c, now);
    let f = a.insert(k, node);
    assert(good_key(d));
    lemma_child_key(d, c);
    lemma_root_comps();
    assert(f.dom() =~= fs.dom().insert(k));
    assert(k != d);
    if k == slash() {
        assert(comps(k).len() == comps(d).len() + 1);
    }
    assert forall|x: Seq<char>| #[trigger] f.contains_key(x) implies good_key(x) by {}
    assert forall|x: Seq<char>| #[trigger] f.contains_key(x) && f[x] is Dir implies f[x]->Dir_children.finite() by {
        if x == d {
            assert(fs[d]->Dir_children.finite());
        } else if x == k {
        } else {
            assert(f[x] == fs[x]);
        }
    }
    assert forall|x: Seq<char>, n: Seq<char>|
        f.contains_key(x) && f[x] is Dir && #[trigger] f[x]->Dir_children.contains(n) implies valid_name(n)
            && f.contains_key(child_key(x, n)) by {
        if x == d {
            if n != c {
                assert(fs[d]->Dir_children.contains(n));
            }
        } else if x == k {
        } else {
            assert(f[x] == fs[x]);
            assert(fs[x]->Dir_children.contains(n));
        }
    }
    assert forall|x: Seq<char>| #[trigger] f.contains_key(x) && x != slash() implies exists|p: Seq<char>, n: Seq<char>|
        f.contains_key(p) && f[p] is Dir && f[p]->Dir_children.contains(n) && x == #[trigger] child_key(p, n) by {
        if x == k {
            assert(f.contains_key(d) && f[d] is Dir && f[d]->Dir_children.contains(c) && x == child_key(d, c));
        } else {
            let (p, n) = choose|p: Seq<char>, n: Seq<char>|
                fs.contains_key(p) && fs[p] is Dir && fs[p]->Dir_children.contains(n) && x == #[trigger] child_key(p, n);
            if p == k {
                assert(false);
            }
            if p == d {
                assert(f[p]->Dir_children.contains(n));
            } else {
                assert(f[p] == fs[p]);
            }
            assert(f.contains_key(p) && f[p] is Dir && f[p]->Dir_children.contains(n) && x == child_key(p, n));
        }
    }
}

/// `mkdir -p` through names that are all valid keeps a tree, and ends on a directory.
proof fn lemma_mkdir_loop_tree(fs: FsMap, cur: Seq<char>, names: Seq<Seq<char>>, i: int, now: i64, max_nodes: usize)
    requires
        is_tree(fs),
        fs.contains_key(cur),
        fs[cur] is Dir,
        forall|j: int| 0 <= j < names.len() ==> #[trigger] valid_name(names[j]),
        0 <= i,
    ensures
        is_tree(mkdir_loop(fs, cur, names, i, now, max_nodes).0),
    decreases names.len() - i,
{
    if i < names.len() {
        let c = names[i];
        assert(valid_name(c));
        let next = child_key(cur, c);
        let (fs1, r) = mkdir_step(fs, cur, c, now, max_nodes);
        if !fs.contains_key(next) && fs.len() < max_nodes {
            lemma_add_entry(fs, cur, c, empty_dir(now), now);
        }
        if r is Ok {
            lemma_mkdir_loop_tree(fs1, next, names, i + 1, now, max_nodes);
        }
    }
}

/// `mkdir -p` of a key keeps a tree.
pub proof fn lemma_mkdir_p_tree(fs: FsMap, path: Seq<char>, now: i64, max_nodes: usize)
    requires
        is_tree(fs),
        good_key(path),
    ensures
        is_tree(spec_mkdir_p(fs, path, now, max_nodes).0),
{
    lemma_normal_names_valid(comps(path));
    lemma_mkdir_loop_tree(fs, slash(), normal_names(comps(path)), 0, now, max_nodes);
}

/// Every canonical path is a key.
pub proof fn lemma_canonical_good(path: Seq<char>, cwd: Seq<char>)
    ensures
        good_key(spec_canonicalize(path, cwd)),
{
    reveal(spec_canonicalize);
    lemma_root_comps();
}

proof fn lemma_render_push(p: Seq<Seq<char>>, c: Seq<char>)
    requires
        forall|i: int| 0 <= i < p.len() ==> #[trigger] valid_name(p[i]),
        valid_name(c),
    ensures
        render(true, p.push(c)) == child_key(render(true, p), c),
{
    lemma_render_good(p);
    lemma_root_comps();
    if p.len() == 0 {
        assert(render(true, p) =~= slash());
        assert(join_comps(p.push(c)) == p.push(c)[0]);
        assert(render(true, p.push(c)) =~= child_key(render(true, p), c));
    } else {
        assert(p.push(c).drop_last() =~= p);
        assert(render(true, p.push(c)) =~= child_key(render(true, p), c));
    }
}

proof fn lemma_walk_key(cs: Seq<Seq<char>>, i: int)
    requires
        forall|j: int| 0 <= j < cs.len() ==> #[trigger] valid_name(cs[j]),
        0 <= i <= cs.len(),
    ensures
        crate::fs_laws::walk_key(render(true, cs.take(i)), cs, i) == render(true, cs),
    decreases cs.len() - i,
{
    if i < cs.len() {
        let t = cs.take(i);
        assert forall|j: int| 0 <= j < t.len() implies #[trigger] valid_name(t[j]) by {
            assert(t[j] == cs[j]);
        }
        assert(valid_name(cs[i]));
        lemma_render_push(t, cs[i]);
        assert(t.push(cs[i]) =~= cs.take(i + 1));
        lemma_walk_key(cs, i + 1);
    } else {
        assert(cs.take(i) =~= cs);
    }
}

/// After a successful `mkdir -p` of a key, the key is a directory.
proof fn lemma_mkdir_p_reaches(fs: FsMap, path: Seq<char>, now: i64, max_nodes: usize)
    requires
        is_tree(fs),
        good_key(path),
        spec_mkdir_p(fs, path, now, max_nodes).1 is Ok,
    ensures
        spec_mkdir_p(fs, path, now, max_nodes).0.contains_key(path),
        spec_mkdir_p(fs, path, now, max_nodes).0[path] is Dir,
{
    lemma_normal_names_valid(comps(path));
    lemma_root_comps();
    assert(comps(path).take(0) =~= Seq::<Seq<char>>::empty());
    assert(render(true, Seq::<Seq<char>>::empty()) =~= slash());
    lemma_walk_key(comps(path), 0);
    crate::fs_laws::law_mkdir_p_makes_directory(fs, path, now, max_nodes);
}

/// Replacing a file keeps a tree.
proof fn lemma_replace_file(fs: FsMap, key: Seq<char>, node: NodeView)
    requires
        is_tree(fs),
        fs.contains_key(key),
        fs[key] is File,
        node is File,
    ensures
        is_tree(fs.insert(key, node)),
        fs.insert(key, node).dom() == fs.dom(),
{
    let f = fs.insert(key, node);
    assert(f.dom() =~= fs.dom());
    assert forall|x: Seq<char>, n: Seq<char>|
        f.contains_key(x) && f[x] is Dir && #[trigger] f[x]->Dir_children.contains(n) implies valid_name(n)
            && f.contains_key(child_key(x, n)) by {
        assert(f[x] == fs[x]);
    }
    assert forall|x: Seq<char>| #[trigger] f.contains_key(x) && x != slash() implies exists|p: Seq<char>, n: Seq<char>|
        f.contains_key(p) && f[p] is Dir && f[p]->Dir_children.contains(n) && x == #[trigger] child_key(p, n) by {
        let (p, n) = choose|p: Seq<char>, n: Seq<char>|
            fs.contains_key(p) && fs[p] is Dir && fs[p]->Dir_children.contains(n) && x == #[trigger] child_key(p, n);
        assert(p != key);
        assert(f[p] == fs[p]);
    }
    assert forall|x: Seq<char>| #[trigger] f.contains_key(x) && f[x] is Dir implies f[x]->Dir_children.finite() by {
        assert(f[x] == fs[x]);
    }
}

/// Adding to a directory a name that it already lists keeps a tree.
proof fn lemma_touch_dir(fs: FsMap, d: Seq<char>, c: Seq<char>, now: i64)
    requires
        is_tree(fs),
        fs.contains_key(d),
        fs[d] is Dir,
        fs[d]->Dir_children.contains(c),
    ensures
        is_tree(add_child(fs, d, c, now)),
        add_child(fs, d, c, now).dom() == fs.dom(),
{
    let f = add_child(fs, d, c, now);
    assert(fs[d]->Dir_children.insert(c) =~= fs[d]->Dir_children);
    assert(f.dom() =~= fs.dom());
    assert forall|x: Seq<char>, n: Seq<char>|
        f.contains_key(x) && f[x] is Dir && #[trigger] f[x]->Dir_children.contains(n) implies valid_name(n)
            && f.contains_key(child_key(x, n)) by {
        assert(fs[x] is Dir && fs[x]->Dir_children.contains(n));
    }
    assert forall|x: Seq<char>| #[trigger] f.contains_key(x) && x != slash() implies exists|p: Seq<char>, n: Seq<char>|
        f.contains_key(p) && f[p] is Dir && f[p]->Dir_children.contains(n) && x == #[trigger] child_key(p, n) by {
        let (p, n) = choose|p: Seq<char>, n: Seq<char>|
            fs.contains_key(p) && fs[p] is Dir && fs[p]->Dir_children.contains(n) && x == #[trigger] child_key(p, n);
        assert(f[p] is Dir && f[p]->Dir_children.contains(n));
    }
    assert forall|x: Seq<char>| #[trigger] f.contains_key(x) && f[x] is Dir implies f[x]->Dir_children.finite() by {
        assert(fs[x]->Dir_children.finite());
    }
}

/// The parent of a key other than the root is a directory that lists it.
proof fn lemma_parent_lists(fs: FsMap, k: Seq<char>)
    requires
        is_tree(fs),
        fs.contains_key(k),
        k != slash(),
    ensures
        fs.contains_key(render(true, comps(k).drop_last())),
        fs[render(true, comps(k).drop_last())] is Dir,
        fs[render(true, comps(k).drop_last())]->Dir_children.contains(comps(k).last()),
{
    assert(good_key(k));
    lemma_good_split(k);
    let (p, n) = choose|p: Seq<char>, n: Seq<char>|
        fs.contains_key(p) && fs[p] is Dir && fs[p]->Dir_children.contains(n) && k == #[trigger] child_key(p, n);
    assert(good_key(p));
    assert(valid_name(n));
    lemma_child_key_inj(p, n, render(true, comps(k).drop_last()), comps(k).last());
}

/// Creating a file at a key keeps a tree.
pub proof fn lemma_create_file_tree(
    fs: FsMap,
    path: Seq<char>,
    content: Seq<u8>,
    now: i64,
    max_nodes: usize,
    max_file_size: usize,
)
    requires
        is_tree(fs),
        good_key(path),
    ensures
        is_tree(spec_create_file(fs, path, content, now, max_nodes, max_file_size).0),
{
    lemma_root_comps();
    if content.len() <= max_file_size && path != slash() {
        lemma_good_split(path);
        let par = render(true, comps(path).drop_last());
        let name = comps(path).last();
        lemma_mkdir_p_tree(fs, par, now, max_nodes);
        let (fs1, r) = spec_mkdir_p(fs, par, now, max_nodes);
        if r is Ok {
            lemma_mkdir_p_reaches(fs, par, now, max_nodes);
            let file = NodeView::File { content, created: now, modified: now };
            if fs1.contains_key(path) {
                if fs1[path] is File {
                    lemma_replace_file(fs1, path, file);
                    lemma_parent_lists(fs1, path);
                    lemma_touch_dir(fs1.insert(path, file), par, name, now);
                }
            } else if fs1.len() < max_nodes {
                lemma_child_key(par, name);
                assert(path != par);
                lemma_add_entry(fs1, par, name, file, now);
                assert(add_child(fs1.insert(path, file), par, name, now) =~= add_child(fs1, par, name, now).insert(
                    path,
                    file,
                ));
            }
        }
    }
    if path == slash() {
        assert(comps(path).len() == 0);
    }
}

/// Writing a file at a key keeps a tree.
pub proof fn lemma_write_tree(
    fs: FsMap,
    path: Seq<char>,
    content: Seq<u8>,
    now: i64,
    max_nodes: usize,
    max_file_size: usize,
)
    requires
        is_tree(fs),
        good_key(path),
    ensures
        is_tree(spec_write(fs, path, content, now, max_nodes, max_file_size).0),
{
    lemma_root_comps();
    if path != slash() {
        lemma_good_split(path);
    }
    assert(norm(path) == path);
    lemma_create_file_tree(fs, path, content, now, max_nodes, max_file_size);
    if fs.contains_key(path) && fs[path] is File && content.len() <= max_file_size {
        lemma_replace_file(fs, path, NodeView::File { content, created: fs[path]->File_created, modified: now });
    }
}

/// Removing a file or an empty directory at a key keeps a tree.
pub proof fn lemma_remove_tree(fs: FsMap, path: Seq<char>, now: i64)
    requires
        is_tree(fs),
        good_key(path),
    ensures
        is_tree(spec_remove(fs, path, now).0),
{
    lemma_root_comps();
    if path != slash() && fs.contains_key(path) && !(fs[path] is Dir && fs[path]->Dir_children != Set::<
        Seq<char>,
    >::empty()) {
        lemma_good_split(path);
        let par = render(true, comps(path).drop_last());
        let name = comps(path).last();
        lemma_parent_lists(fs, path);
        let fs1 = fs.remove(path);
        let f = drop_child(fs1, par, name, now);
        assert(path != par) by {
            lemma_child_key(par, name);
        }
        assert(f.dom() =~= fs.dom().remove(path));
        assert forall|x: Seq<char>| #[trigger] f.contains_key(x) && f[x] is Dir implies f[x]->Dir_children.finite() by {
            assert(fs[x]->Dir_children.finite());
        }
        assert forall|x: Seq<char>, n: Seq<char>|
            f.contains_key(x) && f[x] is Dir && #[trigger] f[x]->Dir_children.contains(n) implies valid_name(n)
                && f.contains_key(child_key(x, n)) by {
            assert(fs[x] is Dir && fs[x]->Dir_children.contains(n));
            assert(good_key(x));
            if child_key(x, n) == path {
                lemma_child_key_inj(x, n, par, name);
            }
        }
        assert forall|x: Seq<char>| #[trigger] f.contains_key(x) && x != slash() implies exists|
            p: Seq<char>,
            n: Seq<char>,
        | f.contains_key(p) && f[p] is Dir && f[p]->Dir_children.contains(n) && x == #[trigger] child_key(p, n) by {
            let (p, n) = choose|p: Seq<char>, n: Seq<char>|
                fs.contains_key(p) && fs[p] is Dir && fs[p]->Dir_children.contains(n) && x == #[trigger] child_key(p, n);
            if p == path {
                assert(fs[path]->Dir_children.contains(n));
                assert(false);
            }
            if p == par {
                assert(good_key(p) && valid_name(n));
                if n == name {
                    assert(x == path);
                }
            }
            assert(f.contains_key(p) && f[p] is Dir && f[p]->Dir_children.contains(n) && x == child_key(p, n));
        }
    }
}

/// Setting a modification time keeps a file system shaped as a tree.
pub proof fn lemma_touch_keeps_tree(fs: FsMap, path: Seq<char>, now: i64)
    requires
        is_tree(fs),
    ensures
        is_tree(crate::fs::spec_touch(fs, path, now)),
{
    let t = crate::fs::spec_touch(fs, path, now);
    assert(t.dom() =~= fs.dom());
    assert forall|k: Seq<char>| #[trigger] t.contains_key(k) implies (t[k] is Dir <==> fs[k] is Dir) && (t[k] is Dir
        ==> t[k]->Dir_children == fs[k]->Dir_children) by {}
    assert forall|k: Seq<char>| #[trigger] t.contains_key(k) && k != slash() implies exists|d: Seq<char>, c: Seq<char>|
        t.contains_key(d) && t[d] is Dir && t[d]->Dir_children.contains(c) && k == #[trigger] child_key(d, c) by {
        let (d, c) = choose|d: Seq<char>, c: Seq<char>|
            fs.contains_key(d) && fs[d] is Dir && fs[d]->Dir_children.contains(c) && k == #[trigger] child_key(d, c);
        assert(t.contains_key(d) && t[d] is Dir && t[d]->Dir_children.contains(c));
    }
}

/// Removing at any path, canonical or not, keeps a file system shaped as a tree.
pub proof fn law_remove_keeps_tree(fs: FsMap, path: Seq<char>, now: i64)
    requires
        is_tree(fs),
    ensures
        is_tree(spec_remove(fs, path, now).0),
{
    let key = norm(path);
    if key != slash() && fs.contains_key(key) && !(fs[key] is Dir && fs[key]->Dir_children != Set::<
        Seq<char>,
    >::empty()) {
        assert(good_key(key));
        let cs = comps(path);
        crate::path::lemma_good_abs(key);
        if !is_abs(path) {
            assert(key == join_comps(cs));
            if cs.len() == 0 {
                assert(key =~= Seq::<char>::empty());
            } else {
                crate::path::lemma_rel_first_comp(path);
                crate::path::lemma_join_first(cs);
            }
        }
        crate::path::lemma_abs_comps_like(path);
        crate::path::lemma_render_comps(cs);
        assert(comps(key) == cs);
        lemma_good_split(key);
        assert(parent_of(path) == parent_of(key));
        assert(file_name_of(path) == file_name_of(key));
        assert(spec_remove(fs, path, now) == spec_remove(fs, key, now));
        lemma_remove_tree(fs, key, now);
    }
}

} // verus!
