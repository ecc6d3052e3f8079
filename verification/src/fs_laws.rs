//! Properties of the file-system operations that hold across calls.
use vstd::prelude::*;
use crate::error::ErrView;
use crate::fs::{
    FsMap, NodeView, add_child, drop_child, mkdir_loop, mkdir_step, spec_create_file, spec_mkdir_p, spec_read, spec_remove,
    spec_stat, spec_write,
};
use crate::path::{child_key, comps, norm, normal_names, slash};

verus! {

/// A read of a path after a successful write to it gives back what was written.
pub proof fn law_read_after_write(
    fs: FsMap,
    path: Seq<char>,
    content: Seq<u8>,
    now: i64,
    max_nodes: usize,
    max_file_size: usize,
)
    requires
        spec_write(fs, path, content, now, max_nodes, max_file_size).1 is Ok,
    ensures
        spec_read(spec_write(fs, path, content, now, max_nodes, max_file_size).0, path) == Ok::<
            Seq<u8>,
            ErrView,
        >(content),
{
    let key = norm(path);
    if !fs.contains_key(key) {
        law_read_after_create(fs, path, content, now, max_nodes, max_file_size);
    }
}

/// A read of a path after a successful file creation there gives back the content.
pub proof fn law_read_after_create(
    fs: FsMap,
    path: Seq<char>,
    content: Seq<u8>,
    now: i64,
    max_nodes: usize,
    max_file_size: usize,
)
    requires
        spec_create_file(fs, path, content, now, max_nodes, max_file_size).1 is Ok,
    ensures
        spec_read(spec_create_file(fs, path, content, now, max_nodes, max_file_size).0, path)
            == Ok::<Seq<u8>, ErrView>(content),
{
}

/// After a successful removal, the path no longer exists.
pub proof fn law_remove_then_missing(fs: FsMap, path: Seq<char>, now: i64)
    requires
        spec_remove(fs, path, now).1 is Ok,
    ensures
        spec_stat(spec_remove(fs, path, now).0, path) == Err::<NodeView, ErrView>(ErrView::NotFound(path)),
{
}

/// Every node is kept by `mkdir -p`, and every directory stays a directory.
proof fn lemma_mkdir_loop_keeps(
    fs: FsMap,
    cur: Seq<char>,
    names: Seq<Seq<char>>,
    i: int,
    now: i64,
    max_nodes: usize,
    k: Seq<char>,
)
    requires
        fs.contains_key(k),
    ensures
        mkdir_loop(fs, cur, names, i, now, max_nodes).0.contains_key(k),
        fs[k] is Dir ==> mkdir_loop(fs, cur, names, i, now, max_nodes).0[k] is Dir,
    decreases names.len() - i,
{
    if !(i < 0 || i >= names.len()) {
        let (fs1, r) = mkdir_step(fs, cur, names[i], now, max_nodes);
        if r is Ok {
            lemma_mkdir_loop_keeps(fs1, child_key(cur, names[i]), names, i + 1, now, max_nodes, k);
        }
    }
}

/// The directory that `mkdir -p` reaches from `cur` through the names from position `i`.
pub open spec fn walk_key(cur: Seq<char>, names: Seq<Seq<char>>, i: int) -> Seq<char>
    decreases names.len() - i,
{
    if i < 0 || i >= names.len() {
        cur
    } else {
        walk_key(child_key(cur, names[i]), names, i + 1)
    }
}

proof fn lemma_mkdir_loop_reaches(
    fs: FsMap,
    cur: Seq<char>,
    names: Seq<Seq<char>>,
    i: int,
    now: i64,
    max_nodes: usize,
)
    requires
        0 <= i,
        fs.contains_key(cur) && fs[cur] is Dir,
        mkdir_loop(fs, cur, names, i, now, max_nodes).1 is Ok,
    ensures
        mkdir_loop(fs, cur, names, i, now, max_nodes).0.contains_key(walk_key(cur, names, i)),
        mkdir_loop(fs, cur, names, i, now, max_nodes).0[walk_key(cur, names, i)] is Dir,
    decreases names.len() - i,
{
    if i < names.len() {
        let (fs1, r) = mkdir_step(fs, cur, names[i], now, max_nodes);
        lemma_mkdir_loop_reaches(fs1, child_key(cur, names[i]), names, i + 1, now, max_nodes);
    }
}

/// After a successful `mkdir -p path` from a file system whose root is a directory,
/// the directory that the names of `path` lead to exists and is a directory.
pub proof fn law_mkdir_p_makes_directory(fs: FsMap, path: Seq<char>, now: i64, max_nodes: usize)
    requires
        fs.contains_key(slash()) && fs[slash()] is Dir,
        spec_mkdir_p(fs, path, now, max_nodes).1 is Ok,
    ensures
        spec_mkdir_p(fs, path, now, max_nodes).0.contains_key(walk_key(slash(), normal_names(comps(path)), 0)),
        spec_mkdir_p(fs, path, now, max_nodes).0[walk_key(slash(), normal_names(comps(path)), 0)] is Dir,
{
    lemma_mkdir_loop_reaches(fs, slash(), normal_names(comps(path)), 0, now, max_nodes);
}

/// `mkdir -p` keeps every existing node, and directories stay directories.
pub proof fn law_mkdir_p_keeps(fs: FsMap, path: Seq<char>, now: i64, max_nodes: usize, k: Seq<char>)
    requires
        fs.contains_key(k),
    ensures
        spec_mkdir_p(fs, path, now, max_nodes).0.contains_key(k),
        fs[k] is Dir ==> spec_mkdir_p(fs, path, now, max_nodes).0[k] is Dir,
{
    lemma_mkdir_loop_keeps(fs, slash(), normal_names(comps(path)), 0, now, max_nodes, k);
}

proof fn lemma_mkdir_loop_bounded(
    fs: FsMap,
    cur: Seq<char>,
    names: Seq<Seq<char>>,
    i: int,
    now: i64,
    max_nodes: usize,
)
    requires
        fs.dom().finite(),
        fs.len() <= max_nodes,
    ensures
        mkdir_loop(fs, cur, names, i, now, max_nodes).0.dom().finite(),
        mkdir_loop(fs, cur, names, i, now, max_nodes).0.len() <= max_nodes,
    decreases names.len() - i,
{
    if !(i < 0 || i >= names.len()) {
        let (fs1, r) = mkdir_step(fs, cur, names[i], now, max_nodes);
        let next = child_key(cur, names[i]);
        let a = add_child(fs, cur, names[i], now);
        assert(a.dom() =~= fs.dom());
        if r is Ok {
            lemma_mkdir_loop_bounded(fs1, next, names, i + 1, now, max_nodes);
        }
    }
}

/// `mkdir -p` never takes the number of nodes past the limit.
pub proof fn law_mkdir_p_bounded(fs: FsMap, path: Seq<char>, now: i64, max_nodes: usize)
    requires
        fs.dom().finite(),
        fs.len() <= max_nodes,
    ensures
        spec_mkdir_p(fs, path, now, max_nodes).0.len() <= max_nodes,
        spec_mkdir_p(fs, path, now, max_nodes).0.dom().finite(),
{
    lemma_mkdir_loop_bounded(fs, slash(), normal_names(comps(path)), 0, now, max_nodes);
}

/// Creating a file never takes the number of nodes past the limit.
pub proof fn law_create_file_bounded(
    fs: FsMap,
    path: Seq<char>,
    content: Seq<u8>,
    now: i64,
    max_nodes: usize,
    max_file_size: usize,
)
    requires
        fs.dom().finite(),
        fs.len() <= max_nodes,
    ensures
        spec_create_file(fs, path, content, now, max_nodes, max_file_size).0.len() <= max_nodes,
        spec_create_file(fs, path, content, now, max_nodes, max_file_size).0.dom().finite(),
{
    if content.len() <= max_file_size {
        if let Some(par) = crate::path::parent_of(path) {
            law_mkdir_p_bounded(fs, par, now, max_nodes);
            let (fs1, r) = spec_mkdir_p(fs, par, now, max_nodes);
            if let Some(name) = crate::path::file_name_of(path) {
                let key = norm(path);
                let f2 = fs1.insert(key, NodeView::File { content, created: now, modified: now });
                let f3 = add_child(f2, norm(par), name, now);
                assert(f3.dom() =~= f2.dom());
                if fs1.contains_key(key) {
                    assert(f2.dom() =~= fs1.dom());
                }
            }
        }
    }
}

/// Writing a file never takes the number of nodes past the limit.
pub proof fn law_write_bounded(
    fs: FsMap,
    path: Seq<char>,
    content: Seq<u8>,
    now: i64,
    max_nodes: usize,
    max_file_size: usize,
)
    requires
        fs.dom().finite(),
        fs.len() <= max_nodes,
    ensures
        spec_write(fs, path, content, now, max_nodes, max_file_size).0.len() <= max_nodes,
{
    let key = norm(path);
    if fs.contains_key(key) && content.len() <= max_file_size {
        let f = spec_write(fs, path, content, now, max_nodes, max_file_size).0;
        assert(f.dom() =~= fs.dom());
    } else {
        law_create_file_bounded(fs, path, content, now, max_nodes, max_file_size);
    }
}

/// Every stored file is at most `max_file_size` long.
pub open spec fn files_within(fs: FsMap, max_file_size: usize) -> bool {
    forall|k: Seq<char>|
        #[trigger] fs.contains_key(k) && fs[k] is File ==> fs[k]->File_content.len() <= max_file_size
}

proof fn lemma_mkdir_loop_files(
    fs: FsMap,
    cur: Seq<char>,
    names: Seq<Seq<char>>,
    i: int,
    now: i64,
    max_nodes: usize,
    max_file_size: usize,
)
    requires
        files_within(fs, max_file_size),
    ensures
        files_within(mkdir_loop(fs, cur, names, i, now, max_nodes).0, max_file_size),
    decreases names.len() - i,
{
    if !(i < 0 || i >= names.len()) {
        let (fs1, r) = mkdir_step(fs, cur, names[i], now, max_nodes);
        if r is Ok {
            lemma_mkdir_loop_files(fs1, child_key(cur, names[i]), names, i + 1, now, max_nodes, max_file_size);
        }
    }
}

/// Writing keeps every stored file within the size limit.
pub proof fn law_write_files_within(
    fs: FsMap,
    path: Seq<char>,
    content: Seq<u8>,
    now: i64,
    max_nodes: usize,
    max_file_size: usize,
)
    requires
        files_within(fs, max_file_size),
    ensures
        files_within(spec_write(fs, path, content, now, max_nodes, max_file_size).0, max_file_size),
        files_within(spec_create_file(fs, path, content, now, max_nodes, max_file_size).0, max_file_size),
{
    if content.len() <= max_file_size {
        if let Some(par) = crate::path::parent_of(path) {
            lemma_mkdir_loop_files(fs, slash(), normal_names(comps(par)), 0, now, max_nodes, max_file_size);
        }
    }
}

/// A file system within its limits: finitely many nodes, at most `max_nodes` of them,
/// and no file longer than `max_file_size`.
pub open spec fn within(fs: FsMap, max_nodes: usize, max_file_size: usize) -> bool {
    &&& fs.dom().finite()
    &&& fs.len() <= max_nodes
    &&& files_within(fs, max_file_size)
}

/// `mkdir -p` keeps a file system within its limits.
pub proof fn law_mkdir_p_within(fs: FsMap, path: Seq<char>, now: i64, max_nodes: usize, max_file_size: usize)
    requires
        within(fs, max_nodes, max_file_size),
    ensures
        within(spec_mkdir_p(fs, path, now, max_nodes).0, max_nodes, max_file_size),
{
    law_mkdir_p_bounded(fs, path, now, max_nodes);
    lemma_mkdir_loop_files(fs, slash(), normal_names(comps(path)), 0, now, max_nodes, max_file_size);
}

/// Creating or writing a file keeps a file system within its limits.
pub proof fn law_write_within(
    fs: FsMap,
    path: Seq<char>,
    content: Seq<u8>,
    now: i64,
    max_nodes: usize,
    max_file_size: usize,
)
    requires
        within(fs, max_nodes, max_file_size),
    ensures
        within(spec_write(fs, path, content, now, max_nodes, max_file_size).0, max_nodes, max_file_size),
        within(spec_create_file(fs, path, content, now, max_nodes, max_file_size).0, max_nodes, max_file_size),
{
    law_write_bounded(fs, path, content, now, max_nodes, max_file_size);
    law_create_file_bounded(fs, path, content, now, max_nodes, max_file_size);
    law_write_files_within(fs, path, content, now, max_nodes, max_file_size);
    let key = norm(path);
    if fs.contains_key(key) && content.len() <= max_file_size {
        let f = spec_write(fs, path, content, now, max_nodes, max_file_size).0;
        assert(f.dom() =~= fs.dom());
    }
}

/// Removing keeps a file system within its limits.
pub proof fn law_remove_within(fs: FsMap, path: Seq<char>, now: i64, max_nodes: usize, max_file_size: usize)
    requires
        within(fs, max_nodes, max_file_size),
    ensures
        within(spec_remove(fs, path, now).0, max_nodes, max_file_size),
{
    let key = norm(path);
    let r = spec_remove(fs, path, now);
    if r.1 is Ok {
        let fs1 = fs.remove(key);
        assert(fs1.dom() =~= fs.dom().remove(key));
        match (crate::path::parent_of(path), crate::path::file_name_of(path)) {
            (Some(par), Some(name)) => {
                let f2 = drop_child(fs1, norm(par), name, now);
                assert(f2.dom() =~= fs1.dom());
            },
            _ => {},
        }
    }
}

/// Setting a modification time keeps a file system within its limits.
pub proof fn lemma_touch_within(fs: FsMap, path: Seq<char>, now: i64, max_nodes: usize, max_file_size: usize)
    requires
        within(fs, max_nodes, max_file_size),
    ensures
        within(crate::fs::spec_touch(fs, path, now), max_nodes, max_file_size),
        crate::fs::spec_touch(fs, path, now).dom() == fs.dom(),
{
    let t = crate::fs::spec_touch(fs, path, now);
    assert(t.dom() =~= fs.dom());
}

/// The directories that `mkdir -p` passes through from `cur`, for the names from `i`.
pub open spec fn mkdir_keys(cur: Seq<char>, names: Seq<Seq<char>>, i: int) -> Seq<Seq<char>>
    decreases names.len() - i,
{
    if i < 0 || i >= names.len() {
        Seq::empty()
    } else {
        seq![child_key(cur, names[i])] + mkdir_keys(child_key(cur, names[i]), names, i + 1)
    }
}

proof fn lemma_mkdir_loop_facts(
    fs: FsMap,
    cur: Seq<char>,
    names: Seq<Seq<char>>,
    i: int,
    now: i64,
    max_nodes: usize,
)
    requires
        0 <= i,
    ensures
        ({
            let (f, r) = mkdir_loop(fs, cur, names, i, now, max_nodes);
            let ks = mkdir_keys(cur, names, i);
            &&& r is Ok ==> forall|j: int| 0 <= j < ks.len() ==> f.contains_key(#[trigger] ks[j]) && f[ks[j]] is Dir
            &&& r is Err ==> (r->Err_0 is DiskFull || r->Err_0 is NotADirectory)
            &&& r is Err && r->Err_0 is NotADirectory ==> ks.contains(r->Err_0->NotADirectory_0) && fs.contains_key(
                r->Err_0->NotADirectory_0,
            ) && fs[r->Err_0->NotADirectory_0] is File
            &&& forall|k: Seq<char>| #[trigger] fs.contains_key(k) ==> f.contains_key(k)
            &&& forall|k: Seq<char>| #[trigger] fs.contains_key(k) && fs[k] is File ==> f[k] == fs[k]
            &&& forall|k: Seq<char>|
                #[trigger] fs.contains_key(k) && k != cur && !ks.contains(k) ==> f[k] == fs[k]
            &&& forall|k: Seq<char>| #[trigger] f.contains_key(k) && !fs.contains_key(k) ==> ks.contains(k) && f[k] is Dir
        }),
    decreases names.len() - i,
{
    if i < names.len() {
        let (fs1, r1) = mkdir_step(fs, cur, names[i], now, max_nodes);
        let next = child_key(cur, names[i]);
        let ks = mkdir_keys(cur, names, i);
        let ks1 = mkdir_keys(next, names, i + 1);
        assert(ks == seq![next] + ks1);
        assert(ks[0] == next);
        assert forall|k: Seq<char>| ks1.contains(k) implies ks.contains(k) by {
            let j = choose|j: int| 0 <= j < ks1.len() && ks1[j] == k;
            assert(ks[j + 1] == k);
        }
        if r1 is Ok {
            lemma_mkdir_loop_facts(fs1, next, names, i + 1, now, max_nodes);
            lemma_mkdir_loop_keeps(fs1, next, names, i + 1, now, max_nodes, next);
            let (f, r) = mkdir_loop(fs1, next, names, i + 1, now, max_nodes);
            assert(fs1.contains_key(next) && fs1[next] is Dir);
            assert(f.contains_key(next) && f[next] is Dir);
            if r is Ok {
                assert forall|j: int| 0 <= j < ks.len() implies f.contains_key(#[trigger] ks[j]) && f[ks[j]] is Dir by {
                    if j > 0 {
                        assert(ks[j] == ks1[j - 1]);
                    }
                }
            }
            assert forall|k: Seq<char>| #[trigger] fs.contains_key(k) implies f.contains_key(k) by {
                assert(fs1.contains_key(k));
            }
            assert forall|k: Seq<char>| #[trigger] fs.contains_key(k) && fs[k] is File implies f[k] == fs[k] by {
                assert(fs1.contains_key(k) && fs1[k] == fs[k]);
            }
            assert forall|k: Seq<char>| #[trigger] fs.contains_key(k) && k != cur && !ks.contains(k) implies f[k] == fs[k] by {
                assert(k != next);
                assert(!ks1.contains(k));
                assert(fs1.contains_key(k) && fs1[k] == fs[k]);
            }
            assert forall|k: Seq<char>| #[trigger] f.contains_key(k) && !fs.contains_key(k) implies ks.contains(k) && f[k] is Dir by {
                if k == next {
                } else {
                    assert(!fs1.contains_key(k));
                    assert(ks1.contains(k));
                }
            }
        } else {
            if r1->Err_0 is NotADirectory {
                assert(ks.contains(next));
            }
        }
    }
}

/// What `mkdir -p` passes through and what it leaves: on success every directory on the
/// way to `path` is a directory; it fails with `NotADirectory(k)` only where `k` is a
/// file on the way, and fails whenever a file stands on the way; it fails otherwise only
/// with `DiskFull`. Whatever the outcome, it keeps every node, changes no file, changes
/// only the root and the directories on the way, and every node it adds is a directory on the way.
pub proof fn law_mkdir_p_outcome(fs: FsMap, path: Seq<char>, now: i64, max_nodes: usize)
    ensures
        ({
            let (f, r) = spec_mkdir_p(fs, path, now, max_nodes);
            let ks = mkdir_keys(slash(), normal_names(comps(path)), 0);
            &&& r is Ok ==> forall|j: int| 0 <= j < ks.len() ==> f.contains_key(#[trigger] ks[j]) && f[ks[j]] is Dir
            &&& (exists|j: int| 0 <= j < ks.len() && fs.contains_key(#[trigger] ks[j]) && fs[ks[j]] is File) ==> r is Err
            &&& r is Err ==> (r->Err_0 is DiskFull || r->Err_0 is NotADirectory)
            &&& r is Err && r->Err_0 is NotADirectory ==> ks.contains(r->Err_0->NotADirectory_0) && fs.contains_key(
                r->Err_0->NotADirectory_0,
            ) && fs[r->Err_0->NotADirectory_0] is File
            &&& forall|k: Seq<char>| #[trigger] fs.contains_key(k) ==> f.contains_key(k)
            &&& forall|k: Seq<char>| #[trigger] fs.contains_key(k) && fs[k] is File ==> f[k] == fs[k]
            &&& forall|k: Seq<char>|
                #[trigger] fs.contains_key(k) && k != slash() && !ks.contains(k) ==> f[k] == fs[k]
            &&& forall|k: Seq<char>| #[trigger] f.contains_key(k) && !fs.contains_key(k) ==> ks.contains(k) && f[k] is Dir
        }),
{
    lemma_mkdir_loop_facts(fs, slash(), normal_names(comps(path)), 0, now, max_nodes);
}

/// The directories that creating a file at `path` passes through on the way to its parent.
pub open spec fn create_keys(path: Seq<char>) -> Seq<Seq<char>> {
    match crate::path::parent_of(path) {
        Some(par) => mkdir_keys(slash(), normal_names(comps(par)), 0),
        None => Seq::empty(),
    }
}

/// What creating a file does: it fails with `FileTooLarge` exactly when the content is
/// longer than `max_file_size`, and then changes nothing. Whatever the outcome, it keeps
/// every node; every node it adds, other than the file itself, is a directory on the way
/// to the file (so the directories made before a `DiskFull` stay); and it changes no node
/// but the file, its parent, the root and the directories on the way.
pub proof fn law_create_file_outcome(
    fs: FsMap,
    path: Seq<char>,
    content: Seq<u8>,
    now: i64,
    max_nodes: usize,
    max_file_size: usize,
)
    ensures
        ({
            let (f, r) = spec_create_file(fs, path, content, now, max_nodes, max_file_size);
            let ks = create_keys(path);
            &&& (r == Err::<(), ErrView>(ErrView::FileTooLarge)) == (content.len() > max_file_size)
            &&& content.len() > max_file_size ==> f == fs
            &&& forall|k: Seq<char>| #[trigger] fs.contains_key(k) ==> f.contains_key(k)
            &&& forall|k: Seq<char>|
                #[trigger] f.contains_key(k) && !fs.contains_key(k) && k != norm(path) ==> ks.contains(k) && f[k] is Dir
            &&& forall|k: Seq<char>|
                #[trigger] fs.contains_key(k) && k != norm(path) && k != slash() && !ks.contains(k) && (
                crate::path::parent_of(path) is Some ==> k != norm(crate::path::parent_of(path)->Some_0)) ==> f[k]
                == fs[k]
        }),
{
    if content.len() <= max_file_size {
        if let Some(par) = crate::path::parent_of(path) {
            law_mkdir_p_outcome(fs, par, now, max_nodes);
            let (fs1, r1) = spec_mkdir_p(fs, par, now, max_nodes);
            if r1 is Ok {
                if let Some(name) = crate::path::file_name_of(path) {
                    let key = norm(path);
                    let (f, r) = spec_create_file(fs, path, content, now, max_nodes, max_file_size);
                    let f2 = fs1.insert(key, NodeView::File { content, created: now, modified: now });
                    if r is Ok {
                        assert(f == add_child(f2, norm(par), name, now));
                        assert forall|k: Seq<char>| #[trigger] fs.contains_key(k) implies f.contains_key(k) by {
                            assert(fs1.contains_key(k));
                        }
                        assert forall|k: Seq<char>|
                            #[trigger] f.contains_key(k) && !fs.contains_key(k) && k != key implies create_keys(path).contains(k)
                            && f[k] is Dir by {
                            assert(fs1.contains_key(k));
                        }
                        assert forall|k: Seq<char>|
                            #[trigger] fs.contains_key(k) && k != key && k != slash() && !create_keys(path).contains(k) && k
                                != norm(par) implies f[k] == fs[k] by {
                            assert(fs1[k] == fs[k]);
                        }
                    }
                }
            }
        }
    }
}

proof fn lemma_mkdir_loop_again(
    fs: FsMap,
    cur: Seq<char>,
    names: Seq<Seq<char>>,
    i: int,
    now: i64,
    later: i64,
    max_nodes: usize,
)
    requires
        0 <= i,
        mkdir_loop(fs, cur, names, i, now, max_nodes).1 is Ok,
    ensures
        mkdir_loop(mkdir_loop(fs, cur, names, i, now, max_nodes).0, cur, names, i, later, max_nodes) == (
            mkdir_loop(fs, cur, names, i, now, max_nodes).0,
            Ok::<(), ErrView>(()),
        ),
    decreases names.len() - i,
{
    if i < names.len() {
        let (fs1, r1) = mkdir_step(fs, cur, names[i], now, max_nodes);
        let next = child_key(cur, names[i]);
        lemma_mkdir_loop_again(fs1, next, names, i + 1, now, later, max_nodes);
        lemma_mkdir_loop_keeps(fs1, next, names, i + 1, now, max_nodes, next);
    }
}

/// `mkdir -p` twice is `mkdir -p` once: after a success, running it again on the result,
/// at any time, succeeds and changes nothing.
pub proof fn law_mkdir_p_idempotent(fs: FsMap, path: Seq<char>, now: i64, later: i64, max_nodes: usize)
    requires
        spec_mkdir_p(fs, path, now, max_nodes).1 is Ok,
    ensures
        spec_mkdir_p(spec_mkdir_p(fs, path, now, max_nodes).0, path, later, max_nodes) == (
            spec_mkdir_p(fs, path, now, max_nodes).0,
            Ok::<(), ErrView>(()),
        ),
{
    lemma_mkdir_loop_again(fs, slash(), normal_names(comps(path)), 0, now, later, max_nodes);
}

} // verus!
