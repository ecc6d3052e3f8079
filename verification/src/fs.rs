//! The in-memory file system: a map from normalized paths to files and directories.
use vstd::prelude::*;
use vstd::hash_map::StringHashMap;
use crate::error::{ZillError, ErrView};
use crate::order::{names_set, sorted_names, insert_sorted, remove_sorted};
use crate::path::{
    norm, normalize, slash, comps, parent_of, file_name_of, normal_names, child_key, render, is_abs, components, p_is_abs,
    good_key,
};
use crate::text::{owned, str_eq, strs_view};
pub use crate::nested::NestedNode;

verus! {

broadcast use vstd::hash_map::group_hash_map_axioms;

/// Metadata and content of a file.
#[derive(Debug)]
pub struct FileMeta {
    pub size: usize,
    /// Creation time, in microseconds since the Unix epoch.
    pub created_at: i64,
    /// Last modification time, in microseconds since the Unix epoch.
    pub modified_at: i64,
    pub content: Vec<u8>,
}

/// Metadata of a directory. The names of its entries are kept sorted and distinct.
#[derive(Debug)]
pub struct DirMeta {
    pub created_at: i64,
    pub modified_at: i64,
    pub children: Vec<String>,
}

/// A file or a directory.
#[derive(Debug)]
pub enum Node {
    File(FileMeta),
    Directory(DirMeta),
}

/// The mathematical value of a [`Node`].
pub enum NodeView {
    File { content: Seq<u8>, created: i64, modified: i64 },
    Dir { children: Set<Seq<char>>, created: i64, modified: i64 },
}

impl View for Node {
    type V = NodeView;

    open spec fn view(&self) -> NodeView {
        match self {
            Node::File(m) => NodeView::File {
                content: m.content@,
                created: m.created_at,
                modified: m.modified_at,
            },
            Node::Directory(m) => NodeView::Dir {
                children: names_set(m.children@),
                created: m.created_at,
                modified: m.modified_at,
            },
        }
    }
}

impl Node {
    /// Whether the node is internally consistent: a file's size is its length,
    /// a directory's entries are sorted and distinct.
    pub open spec fn wf(&self) -> bool {
        match self {
            Node::File(m) => m.size == m.content@.len(),
            Node::Directory(m) => sorted_names(strs_view(m.children@)) && forall|c: Seq<char>|
                #[trigger] names_set(m.children@).contains(c) ==> c.len() > 0,
        }
    }

    /// Returns true if the node is a directory.
    pub fn is_dir(&self) -> (r: bool)
        ensures
            r == (self@ is Dir),
    {
        match self {
            Node::Directory(_) => true,
            Node::File(_) => false,
        }
    }

    /// Returns true if the node is a file.
    pub fn is_file(&self) -> (r: bool)
        ensures
            r == (self@ is File),
    {
        match self {
            Node::File(_) => true,
            Node::Directory(_) => false,
        }
    }
}

/// The state of the file system: normalized path to node.
pub type FsMap = Map<Seq<char>, NodeView>;

/// The outcome of an operation that changes the file system.
pub type FsOutcome = (FsMap, Result<(), ErrView>);

/// `fs` after `name` is added to the entries of the directory at `dir`,
/// whose modification time becomes `now`; unchanged when `dir` is not a directory.
pub open spec fn add_child(fs: FsMap, dir: Seq<char>, name: Seq<char>, now: i64) -> FsMap {
    if fs.contains_key(dir) && fs[dir] is Dir {
        fs.insert(
            dir,
            NodeView::Dir { children: fs[dir]->Dir_children.insert(name), created: fs[dir]->Dir_created, modified: now },
        )
    } else {
        fs
    }
}

/// `fs` after `name` is removed from the entries of the directory at `dir`.
pub open spec fn drop_child(fs: FsMap, dir: Seq<char>, name: Seq<char>, now: i64) -> FsMap {
    if fs.contains_key(dir) && fs[dir] is Dir {
        fs.insert(
            dir,
            NodeView::Dir { children: fs[dir]->Dir_children.remove(name), created: fs[dir]->Dir_created, modified: now },
        )
    } else {
        fs
    }
}

pub open spec fn empty_dir(now: i64) -> NodeView {
    NodeView::Dir { children: Set::empty(), created: now, modified: now }
}

/// The node at `path`.
pub open spec fn spec_stat(fs: FsMap, path: Seq<char>) -> Result<NodeView, ErrView> {
    if fs.contains_key(norm(path)) {
        Ok(fs[norm(path)])
    } else {
        Err(ErrView::NotFound(path))
    }
}

/// The content of the file at `path`.
pub open spec fn spec_read(fs: FsMap, path: Seq<char>) -> Result<Seq<u8>, ErrView> {
    match spec_stat(fs, path) {
        Ok(NodeView::File { content, .. }) => Ok(content),
        Ok(NodeView::Dir { .. }) => Err(ErrView::IsADirectory(path)),
        Err(e) => Err(e),
    }
}

/// The entries of the directory at `path`, when there is one.
pub open spec fn spec_list_dir_set(fs: FsMap, path: Seq<char>) -> Result<Set<Seq<char>>, ErrView> {
    match spec_stat(fs, path) {
        Ok(NodeView::Dir { children, .. }) => Ok(children),
        Ok(NodeView::File { .. }) => Err(ErrView::NotADirectory(path)),
        Err(e) => Err(e),
    }
}

/// One step of `mkdir -p`: make sure `name` is a directory inside `cur`.
pub open spec fn mkdir_step(fs: FsMap, cur: Seq<char>, name: Seq<char>, now: i64, max_nodes: usize) -> FsOutcome {
    let next = child_key(cur, name);
    if !fs.contains_key(next) {
        if fs.len() >= max_nodes {
            (fs, Err(ErrView::DiskFull))
        } else {
            (add_child(fs, cur, name, now).insert(next, empty_dir(now)), Ok(()))
        }
    } else if fs[next] is Dir {
        (fs, Ok(()))
    } else {
        (fs, Err(ErrView::NotADirectory(next)))
    }
}

/// `mkdir -p` from the directory `cur` through the names from position `i`.
pub open spec fn mkdir_loop(
    fs: FsMap,
    cur: Seq<char>,
    names: Seq<Seq<char>>,
    i: int,
    now: i64,
    max_nodes: usize,
) -> FsOutcome
    decreases names.len() - i,
{
    if i < 0 || i >= names.len() {
        (fs, Ok(()))
    } else {
        let (fs1, r) = mkdir_step(fs, cur, names[i], now, max_nodes);
        match r {
            Err(e) => (fs1, Err(e)),
            Ok(_) => mkdir_loop(fs1, child_key(cur, names[i]), names, i + 1, now, max_nodes),
        }
    }
}

/// Creates every directory named on the way to `path`, from the root.
pub open spec fn spec_mkdir_p(fs: FsMap, path: Seq<char>, now: i64, max_nodes: usize) -> FsOutcome {
    mkdir_loop(fs, slash(), normal_names(comps(path)), 0, now, max_nodes)
}

/// Creates (or replaces) the file at `path`, making its parent directories first.
pub open spec fn spec_create_file(
    fs: FsMap,
    path: Seq<char>,
    content: Seq<u8>,
    now: i64,
    max_nodes: usize,
    max_file_size: usize,
) -> FsOutcome {
    if content.len() > max_file_size {
        (fs, Err(ErrView::FileTooLarge))
    } else {
        match parent_of(path) {
            None => (fs, Err(ErrView::InvalidPath("No parent"@))),
            Some(par) => {
                let (fs1, r) = spec_mkdir_p(fs, par, now, max_nodes);
                if r is Err {
                    (fs1, r)
                } else {
                    match file_name_of(path) {
                        None => (fs1, Err(ErrView::InvalidPath("No filename"@))),
                        Some(name) => {
                            let key = norm(path);
                            if fs1.contains_key(key) && fs1[key] is Dir {
                                (fs1, Err(ErrView::IsADirectory(path)))
                            } else if !fs1.contains_key(key) && fs1.len() >= max_nodes {
                                (fs1, Err(ErrView::DiskFull))
                            } else {
                                (
                                    add_child(
                                        fs1.insert(key, NodeView::File { content, created: now, modified: now }),
                                        norm(par),
                                        name,
                                        now,
                                    ),
                                    Ok(()),
                                )
                            }
                        },
                    }
                }
            },
        }
    }
}

/// Replaces the content of the file at `path`, creating it when it does not exist.
pub open spec fn spec_write(
    fs: FsMap,
    path: Seq<char>,
    content: Seq<u8>,
    now: i64,
    max_nodes: usize,
    max_file_size: usize,
) -> FsOutcome {
    let key = norm(path);
    if content.len() > max_file_size {
        (fs, Err(ErrView::FileTooLarge))
    } else if fs.contains_key(key) {
        match fs[key] {
            NodeView::File { created, .. } => (
                fs.insert(key, NodeView::File { content, created, modified: now }),
                Ok(()),
            ),
            NodeView::Dir { .. } => (fs, Err(ErrView::IsADirectory(path))),
        }
    } else {
        spec_create_file(fs, path, content, now, max_nodes, max_file_size)
    }
}

/// Removes the file or empty directory at `path`.
pub open spec fn spec_remove(fs: FsMap, path: Seq<char>, now: i64) -> FsOutcome {
    let key = norm(path);
    if key == slash() {
        (fs, Err(ErrView::PermissionDenied("Cannot remove root"@)))
    } else if !fs.contains_key(key) {
        (fs, Err(ErrView::NotFound(path)))
    } else if fs[key] is Dir && fs[key]->Dir_children != Set::<Seq<char>>::empty() {
        (fs, Err(ErrView::DirectoryNotEmpty(path)))
    } else {
        let fs1 = fs.remove(key);
        match (parent_of(path), file_name_of(path)) {
            (Some(par), Some(name)) => (drop_child(fs1, norm(par), name, now), Ok(())),
            _ => (fs1, Ok(())),
        }
    }
}

/// `fs` with the modification time of the node at `path` set to `now`, all else kept;
/// unchanged when there is no node there.
pub open spec fn spec_touch(fs: FsMap, path: Seq<char>, now: i64) -> FsMap {
    let key = norm(path);
    if fs.contains_key(key) {
        match fs[key] {
            NodeView::File { content, created, .. } => fs.insert(key, NodeView::File { content, created, modified: now }),
            NodeView::Dir { children, created, .. } => fs.insert(key, NodeView::Dir { children, created, modified: now }),
        }
    } else {
        fs
    }
}

/// `p` joined onto `base`, as `Path::join` does it.
pub open spec fn join_path(base: Seq<char>, p: Seq<char>) -> Seq<char> {
    if is_abs(p) || base.len() == 0 {
        p
    } else if base.last() == '/' {
        base + p
    } else {
        base + slash() + p
    }
}

/// The names left when `.` is dropped, and each `..` drops the name before it (or
/// nothing, at the root), as `path_clean` documents for a rooted path.
pub open spec fn clean_names(cs: Seq<Seq<char>>) -> Seq<Seq<char>>
    decreases cs.len(),
{
    if cs.len() == 0 {
        Seq::empty()
    } else {
        let r = clean_names(cs.drop_last());
        let c = cs.last();
        if c == crate::path::dotdot() {
            if r.len() > 0 {
                r.drop_last()
            } else {
                r
            }
        } else if c == crate::path::dot() {
            r
        } else {
            r.push(c)
        }
    }
}

/// What `path_clean::clean` makes of a path, rendered as a string.
pub uninterp spec fn cleaned(p: Seq<char>) -> Seq<char>;

/// Cleans a path lexically (calls `path_clean::clean`): the result is `cleaned(p)`.
/// As its documentation and source show, a rooted path stays rooted, a rooted result
/// is `/` followed by names joined with single `/` (no `.`, no `..`, no empty name),
/// and such a path is already clean: its components are kept as they are. For a rooted
/// path, its documentation and source give the result outright: `/` and the names of
/// `clean_names` over the path's components.
#[verifier::external_body]
fn clean_path(p: &str) -> (r: String)
    ensures
        r@ == cleaned(p@),
        is_abs(p@) ==> r@ == render(true, clean_names(comps(p@))),
        is_abs(p@) ==> is_abs(r@),
        is_abs(r@) ==> good_key(r@),
        good_key(p@) ==> r@ == p@,
{
    path_clean::clean(p).to_string_lossy().into_owned()
}

/// The canonical absolute form of `path` taken relative to `cwd`: the path, or `cwd`
/// joined with it, cleaned as `path_clean` does. For a rooted path that is `/` and the
/// names of [`clean_names`]; only a `cwd` that is not rooted leaves it to the name
/// `cleaned`. (A result that is not `/` followed by names stands as `/`.)
#[verifier::opaque]
pub open spec fn spec_canonicalize(path: Seq<char>, cwd: Seq<char>) -> Seq<char> {
    let absolute = if is_abs(path) {
        path
    } else {
        join_path(cwd, path)
    };
    let c = if is_abs(absolute) {
        render(true, clean_names(comps(absolute)))
    } else {
        cleaned(absolute)
    };
    let r = if is_abs(c) {
        c
    } else {
        render(true, clean_names(comps(join_path(slash(), c))))
    };
    if good_key(r) {
        r
    } else {
        slash()
    }
}

/// Reads the system clock (calls `chrono::Utc::now`), in microseconds since the Unix epoch.
/// Nothing is promised of the value.
#[verifier::external_body]
pub(crate) fn clock_now() -> i64 {
    chrono::Utc::now().timestamp_micros()
}

/// `p` joined onto `base`.
pub fn join_path_exec(base: &str, p: &str) -> (r: String)
    ensures
        r@ == join_path(base@, p@),
{
    proof {
        reveal_strlit("/");
    }
    if p_is_abs(p) {
        return owned(p);
    }
    let bc = crate::text::chars_of(base);
    if bc.len() == 0 {
        owned(p)
    } else if bc[bc.len() - 1] == '/' {
        crate::text::concat2(base, p)
    } else {
        crate::text::concat3(base, "/", p)
    }
}

/// The key of the child `name` of the directory `dir`.
fn child_path(dir: &str, name: &str) -> (r: String)
    ensures
        r@ == child_key(dir@, name@),
{
    proof {
        reveal_strlit("/");
        assert("/"@ =~= slash());
    }
    if str_eq(dir, "/") {
        crate::text::concat2(dir, name)
    } else {
        crate::text::concat3(dir, "/", name)
    }
}

/// Joins the first `n` strings of `cs` with `/`.
fn join_prefix(cs: &Vec<String>, n: usize) -> (r: String)
    requires
        n <= cs@.len(),
    ensures
        r@ == crate::path::join_comps(strs_view(cs@).take(n as int)),
{
    let ghost v = strs_view(cs@);
    let mut r = String::new();
    let mut i: usize = 0;
    assert(v.take(0) =~= Seq::<Seq<char>>::empty());
    while i < n
        invariant
            i <= n <= cs@.len(),
            v == strs_view(cs@),
            r@ == crate::path::join_comps(v.take(i as int)),
        decreases n - i,
    {
        assert(v.take(i + 1).drop_last() =~= v.take(i as int));
        if i == 0 {
            assert(v.take(1) =~= seq![v[0]]);
        } else {
            r.append("/");
            proof {
                reveal_strlit("/");
            }
        }
        r.append(cs[i].as_str());
        i += 1;
    }
    r
}

/// The parent of `path` in normal form, when it has one.
pub fn parent_path(path: &str) -> (r: Option<String>)
    ensures
        match parent_of(path@) {
            Some(p) => r matches Some(s) && s@ == p,
            None => r is None,
        },
{
    let cs = components(path);
    proof {
        assert(strs_view(cs@) == comps(path@));
    }
    if cs.len() == 0 {
        return None;
    }
    let j = join_prefix(&cs, cs.len() - 1);
    assert(strs_view(cs@).take(cs@.len() - 1) =~= comps(path@).drop_last());
    if p_is_abs(path) {
        proof {
            reveal_strlit("/");
        }
        Some(crate::text::concat2("/", j.as_str()))
    } else {
        Some(j)
    }
}

/// The last component of `path` when it is a name.
pub fn file_name(path: &str) -> (r: Option<String>)
    ensures
        match file_name_of(path@) {
            Some(n) => r matches Some(s) && s@ == n,
            None => r is None,
        },
{
    let mut cs = components(path);
    proof {
        assert(strs_view(cs@) == comps(path@));
        reveal_strlit(".");
        reveal_strlit("..");
        assert(".."@ =~= crate::path::dotdot());
        assert("."@ =~= crate::path::dot());
    }
    if cs.len() == 0 {
        return None;
    }
    let last = cs.pop().unwrap();
    assert(last@ == comps(path@).last());
    if str_eq(last.as_str(), ".") || str_eq(last.as_str(), "..") {
        None
    } else {
        Some(last)
    }
}

/// The names among a list of components.
fn names_of(cs: &Vec<String>) -> (r: Vec<String>)
    ensures
        strs_view(r@) == normal_names(strs_view(cs@)),
{
    let ghost v = strs_view(cs@);
    let mut r: Vec<String> = Vec::new();
    let mut i: usize = 0;
    assert(v.take(0) =~= Seq::<Seq<char>>::empty());
    assert(strs_view(r@) =~= Seq::<Seq<char>>::empty());
    proof {
        reveal_strlit(".");
        reveal_strlit("..");
        assert(".."@ =~= crate::path::dotdot());
        assert("."@ =~= crate::path::dot());
    }
    while i < cs.len()
        invariant
            i <= cs@.len(),
            v == strs_view(cs@),
            strs_view(r@) == normal_names(v.take(i as int)),
            ".."@ == crate::path::dotdot(),
            "."@ == crate::path::dot(),
        decreases cs.len() - i,
    {
        assert(v.take(i + 1).drop_last() =~= v.take(i as int));
        assert(v.take(i + 1).last() == cs@[i as int]@);
        if !(str_eq(cs[i].as_str(), ".") || str_eq(cs[i].as_str(), "..")) {
            let ghost before = strs_view(r@);
            r.push(owned(cs[i].as_str()));
            assert(strs_view(r@) =~= before.push(cs@[i as int]@));
        }
        i += 1;
    }
    assert(v.take(cs@.len() as int) =~= v);
    r
}

/// An in-memory virtual file system.
///
/// Nodes are kept in slots; an index maps the normal form of each path to its slot.
pub struct VirtualFs {
    index: StringHashMap<usize>,
    slots: Vec<Option<Node>>,
    max_nodes: usize,
    max_file_size: usize,
}

pub open spec fn slot_view(s: Option<Node>) -> NodeView {
    match s {
        Some(n) => n@,
        None => NodeView::File { content: Seq::empty(), created: 0, modified: 0 },
    }
}

impl View for VirtualFs {
    type V = FsMap;

    closed spec fn view(&self) -> FsMap {
        Map::new(
            |k: Seq<char>| self.index@.contains_key(k),
            |k: Seq<char>| slot_view(self.slots@[self.index@[k] as int]),
        )
    }
}

pub open spec fn res_view(r: Result<(), ZillError>) -> Result<(), ErrView> {
    match r {
        Ok(_) => Ok(()),
        Err(e) => Err(e@),
    }
}

impl VirtualFs {
    /// Internal consistency: the index and the slots agree, nodes are consistent, and
    /// there is a node at the root (a directory, except in a file system read from a
    /// nested form whose root is a file).
    pub closed spec fn wf(&self) -> bool {
        &&& self.index@.dom().finite()
        &&& forall|k: Seq<char>|
            #[trigger] self.index@.contains_key(k) ==> {
                &&& self.index@[k] < self.slots@.len()
                &&& self.slots@[self.index@[k] as int] is Some
                &&& self.slots@[self.index@[k] as int]->Some_0.wf()
            }
        &&& forall|k1: Seq<char>, k2: Seq<char>|
            self.index@.contains_key(k1) && self.index@.contains_key(k2) && #[trigger] self.index@[k1]
                == #[trigger] self.index@[k2] ==> k1 == k2
        &&& self.index@.contains_key(slash())
    }

    /// The most nodes that operations create.
    pub closed spec fn node_limit(&self) -> usize {
        self.max_nodes
    }

    /// The largest file content that operations store.
    pub closed spec fn size_limit(&self) -> usize {
        self.max_file_size
    }

    /// The most nodes that operations create.
    pub fn max_nodes(&self) -> (r: usize)
        ensures
            r == self.node_limit(),
    {
        self.max_nodes
    }

    /// The largest file content that operations store.
    pub fn max_file_size(&self) -> (r: usize)
        ensures
            r == self.size_limit(),
    {
        self.max_file_size
    }

    proof fn lemma_view(&self)
        requires
            self.wf(),
        ensures
            self@.dom() == self.index@.dom(),
            self@.dom().finite(),
            self@.len() == self.index@.len(),
            self@.contains_key(slash()),
            forall|k: Seq<char>| #[trigger] self@.contains_key(k) ==> self@[k] == self.slots@[self.index@[k] as int]->Some_0@,
    {
        assert(self@.dom() =~= self.index@.dom());
    }

    /// Looks up the slot of a normalized key.
    fn find(&self, key: &str) -> (r: Option<usize>)
        requires
            self.wf(),
        ensures
            match r {
                Some(i) => self.index@.contains_key(key@) && self.index@[key@] == i && i < self.slots@.len(),
                None => !self.index@.contains_key(key@),
            },
    {
        match self.index.get(key) {
            Some(i) => Some(*i),
            None => None,
        }
    }

    /// The number of nodes.
    pub fn node_count(&self) -> (r: usize)
        requires
            self.wf(),
        ensures
            r == self@.len(),
    {
        proof {
            self.lemma_view();
        }
        self.index.len()
    }

    /// Creates a file system holding only the root directory, with the given limits.
    pub fn new(max_nodes: usize, max_file_size: usize) -> (r: Self)
        ensures
            r.wf(),
            r.node_limit() == max_nodes,
            r.size_limit() == max_file_size,
            exists|t: i64| r@ == Map::<Seq<char>, NodeView>::empty().insert(slash(), empty_dir(t)),
    {
        Self::new_at(max_nodes, max_file_size, clock_now())
    }

    /// Creates a file system holding only the root directory, created at time `now`.
    pub fn new_at(max_nodes: usize, max_file_size: usize, now: i64) -> (r: Self)
        ensures
            r.wf(),
            r.node_limit() == max_nodes,
            r.size_limit() == max_file_size,
            r@ == Map::<Seq<char>, NodeView>::empty().insert(slash(), empty_dir(now)),
    {
        let mut index = StringHashMap::<usize>::new();
        let mut slots: Vec<Option<Node>> = Vec::new();
        let root = Node::Directory(DirMeta { created_at: now, modified_at: now, children: Vec::new() });
        assert(names_set(Seq::<String>::empty()) =~= Set::<Seq<char>>::empty());
        assert(sorted_names(strs_view(Seq::<String>::empty())));
        slots.push(Some(root));
        index.insert(owned("/"), 0);
        proof {
            reveal_strlit("/");
            assert("/"@ =~= slash());
        }
        let r = VirtualFs { index, slots, max_nodes, max_file_size };
        assert(r.index@ =~= Map::<Seq<char>, usize>::empty().insert(slash(), 0));
        assert(r.index@.dom() =~= set![slash()]);
        assert(r@ =~= Map::<Seq<char>, NodeView>::empty().insert(slash(), empty_dir(now)));
        r
    }

    /// The canonical absolute form of `path`, taken relative to `cwd`: `/` followed by
    /// plain names; a path already in that form is its own canonical form (so
    /// canonicalizing twice is canonicalizing once), and an absolute path's does not
    /// depend on `cwd`.
    pub fn canonicalize(&self, path: &str, cwd: &str) -> (r: String)
        ensures
            r@ == spec_canonicalize(path@, cwd@),
            good_key(r@),
            is_abs(r@),
            good_key(path@) ==> r@ == path@,
            is_abs(path@) ==> forall|c: Seq<char>| #[trigger] spec_canonicalize(path@, c) == r@,
    {
        proof {
            reveal(spec_canonicalize);
            crate::path::lemma_root_comps();
            if good_key(path@) {
                crate::path::lemma_good_abs(path@);
            }
        }
        let absolute = if p_is_abs(path) {
            owned(path)
        } else {
            join_path_exec(cwd, path)
        };
        let cleaned = clean_path(absolute.as_str());
        if p_is_abs(cleaned.as_str()) {
            cleaned
        } else {
            let rooted = join_path_exec("/", cleaned.as_str());
            proof {
                reveal_strlit("/");
                assert("/"@ =~= slash());
                assert(rooted@[0] == '/');
            }
            clean_path(rooted.as_str())
        }
    }

    /// The node at `path`.
    pub fn stat(&self, path: &str) -> (r: Result<&Node, ZillError>)
        requires
            self.wf(),
        ensures
            match spec_stat(self@, path@) {
                Ok(nv) => r matches Ok(n) && n@ == nv && n.wf(),
                Err(e) => r matches Err(x) && x@ == e,
            },
    {
        proof {
            self.lemma_view();
        }
        let key = normalize(path);
        match self.find(key.as_str()) {
            Some(i) => match &self.slots[i] {
                Some(n) => Ok(n),
                None => Err(ZillError::NotFound(owned(path))),
            },
            None => Err(ZillError::NotFound(owned(path))),
        }
    }

    /// The content of the file at `path`.
    pub fn read(&self, path: &str) -> (r: Result<&[u8], ZillError>)
        requires
            self.wf(),
        ensures
            match spec_read(self@, path@) {
                Ok(c) => r matches Ok(b) && b@ == c,
                Err(e) => r matches Err(x) && x@ == e,
            },
    {
        match self.stat(path) {
            Ok(Node::File(m)) => Ok(m.content.as_slice()),
            Ok(Node::Directory(_)) => Err(ZillError::IsADirectory(owned(path))),
            Err(e) => Err(e),
        }
    }

    /// The sorted names of the entries of the directory at `path`.
    pub fn list_dir(&self, path: &str) -> (r: Result<Vec<String>, ZillError>)
        requires
            self.wf(),
        ensures
            match spec_list_dir_set(self@, path@) {
                Ok(s) => r matches Ok(v) && names_set(v@) == s && sorted_names(strs_view(v@)),
                Err(e) => r matches Err(x) && x@ == e,
            },
    {
        match self.stat(path) {
            Ok(Node::Directory(m)) => {
                let v = clone_strings(&m.children);
                Ok(v)
            },
            Ok(Node::File(_)) => Err(ZillError::NotADirectory(owned(path))),
            Err(e) => Err(e),
        }
    }

    /// Stores `node` under the normalized key `key`, replacing what was there.
    pub(crate) fn put_node(&mut self, key: String, node: Node)
        requires
            old(self).wf(),
            node.wf(),
        ensures
            final(self).wf(),
            final(self)@ == old(self)@.insert(key@, node@),
            final(self).node_limit() == old(self).node_limit(),
            final(self).size_limit() == old(self).size_limit(),
    {
        let ghost nv = node@;
        match self.find(key.as_str()) {
            Some(i) => {
                self.slots[i] = Some(node);
            },
            None => {
                let i = self.slots.len();
                self.slots.push(Some(node));
                self.index.insert(key, i);
            },
        }
        proof {
            assert(self.index@.dom() =~= old(self).index@.dom().insert(key@));
            assert(self@ =~= old(self)@.insert(key@, nv));
        }
    }

    /// Removes the node under the normalized key `key`.
    fn remove_key(&mut self, key: &str)
        requires
            old(self).wf(),
            key@ != slash(),
        ensures
            final(self).wf(),
            final(self)@ == old(self)@.remove(key@),
            final(self).max_nodes == old(self).max_nodes,
            final(self).max_file_size == old(self).max_file_size,
    {
        match self.find(key) {
            Some(i) => {
                self.index.remove(key);
                self.slots[i] = None;
            },
            None => {},
        }
        proof {
            assert(self.index@.dom() =~= old(self).index@.dom().remove(key@));
            assert(self@ =~= old(self)@.remove(key@));
        }
    }

    /// Adds `name` to the entries of the directory at the normalized key `dir`.
    fn add_child_at(&mut self, dir: &str, name: &str, now: i64)
        requires
            old(self).wf(),
            name@.len() > 0,
        ensures
            final(self).wf(),
            final(self)@ == add_child(old(self)@, dir@, name@, now),
            final(self).max_nodes == old(self).max_nodes,
            final(self).max_file_size == old(self).max_file_size,
    {
        proof {
            old(self).lemma_view();
        }
        match self.find(dir) {
            Some(i) => {
                match &mut self.slots[i] {
                    Some(Node::Directory(m)) => {
                        insert_sorted(&mut m.children, name);
                        m.modified_at = now;
                    },
                    _ => {},
                }
            },
            None => {},
        }
        proof {
            assert(self@ =~= add_child(old(self)@, dir@, name@, now));
        }
    }

    /// Removes `name` from the entries of the directory at the normalized key `dir`.
    fn drop_child_at(&mut self, dir: &str, name: &str, now: i64)
        requires
            old(self).wf(),
        ensures
            final(self).wf(),
            final(self)@ == drop_child(old(self)@, dir@, name@, now),
            final(self).max_nodes == old(self).max_nodes,
            final(self).max_file_size == old(self).max_file_size,
    {
        proof {
            old(self).lemma_view();
        }
        match self.find(dir) {
            Some(i) => {
                match &mut self.slots[i] {
                    Some(Node::Directory(m)) => {
                        remove_sorted(&mut m.children, name);
                        m.modified_at = now;
                    },
                    _ => {},
                }
            },
            None => {},
        }
        proof {
            assert(self@ =~= drop_child(old(self)@, dir@, name@, now));
        }
    }

    /// Sets the modification time of the node at `path` to `now`; does nothing when there is none.
    pub fn touch_at(&mut self, path: &str, now: i64)
        requires
            old(self).wf(),
        ensures
            final(self).wf(),
            final(self)@ == spec_touch(old(self)@, path@, now),
            final(self).node_limit() == old(self).node_limit(),
            final(self).size_limit() == old(self).size_limit(),
    {
        proof {
            old(self).lemma_view();
        }
        let key = normalize(path);
        match self.find(key.as_str()) {
            Some(i) => {
                match &mut self.slots[i] {
                    Some(Node::File(m)) => {
                        m.modified_at = now;
                    },
                    Some(Node::Directory(m)) => {
                        m.modified_at = now;
                    },
                    None => {},
                }
            },
            None => {},
        }
        proof {
            assert(self@ =~= spec_touch(old(self)@, path@, now));
        }
    }

    /// Creates every directory named on the way to `path`, stamping changes with `now`.
    pub fn mkdir_p_at(&mut self, path: &str, now: i64) -> (r: Result<(), ZillError>)
        requires
            old(self).wf(),
        ensures
            final(self).wf(),
            final(self).node_limit() == old(self).node_limit(),
            final(self).size_limit() == old(self).size_limit(),
            (final(self)@, res_view(r)) == spec_mkdir_p(old(self)@, path@, now, old(self).node_limit()),
    {
        let cs = components(path);
        let names = names_of(&cs);
        let ghost nv = strs_view(names@);
        proof {
            crate::path::lemma_comps_nonempty(path@);
            crate::path::lemma_names_nonempty(comps(path@));
        }
        let ghost target = spec_mkdir_p(old(self)@, path@, now, self.max_nodes);
        let mut current = owned("/");
        proof {
            reveal_strlit("/");
            assert("/"@ =~= slash());
        }
        let mut i: usize = 0;
        while i < names.len()
            invariant
                self.wf(),
                i <= names@.len(),
                nv == strs_view(names@),
                forall|k: int| 0 <= k < nv.len() ==> #[trigger] nv[k].len() > 0,
                self.max_nodes == old(self).max_nodes,
                self.max_file_size == old(self).max_file_size,
                target == spec_mkdir_p(old(self)@, path@, now, old(self).max_nodes),
                mkdir_loop(self@, current@, nv, i as int, now, self.max_nodes) == target,
            decreases names@.len() - i,
        {
            proof {
                self.lemma_view();
            }
            let name = names[i].as_str();
            assert(name@ == nv[i as int]);
            let next = child_path(current.as_str(), name);
            match self.find(next.as_str()) {
                None => {
                    if self.index.len() >= self.max_nodes {
                        return Err(ZillError::DiskFull);
                    }
                    self.add_child_at(current.as_str(), name, now);
                    let ghost mid = self@;
                    let dir = Node::Directory(DirMeta { created_at: now, modified_at: now, children: Vec::new() });
                    assert(names_set(Seq::<String>::empty()) =~= Set::<Seq<char>>::empty());
                    assert(sorted_names(strs_view(Seq::<String>::empty())));
                    let key = owned(next.as_str());
                    self.put_node(key, dir);
                },
                Some(j) => {
                    let is_dir = match &self.slots[j] {
                        Some(n) => n.is_dir(),
                        None => false,
                    };
                    if !is_dir {
                        return Err(ZillError::NotADirectory(next));
                    }
                },
            }
            current = next;
            i += 1;
        }
        Ok(())
    }

    /// Creates every directory named on the way to `path`.
    pub fn mkdir_p(&mut self, path: &str) -> (r: Result<(), ZillError>)
        requires
            old(self).wf(),
        ensures
            final(self).wf(),
            final(self).node_limit() == old(self).node_limit(),
            final(self).size_limit() == old(self).size_limit(),
            exists|t: i64| (final(self)@, res_view(r)) == spec_mkdir_p(old(self)@, path@, t, old(self).node_limit()),
            r is Ok ==> forall|j: int|
                0 <= j < crate::fs_laws::mkdir_keys(slash(), normal_names(comps(path@)), 0).len() ==> final(self)@.contains_key(
                    #[trigger] crate::fs_laws::mkdir_keys(slash(), normal_names(comps(path@)), 0)[j],
                ) && final(self)@[crate::fs_laws::mkdir_keys(slash(), normal_names(comps(path@)), 0)[j]] is Dir,
            r is Ok ==> forall|t2: i64|
                #[trigger] spec_mkdir_p(final(self)@, path@, t2, old(self).node_limit()) == (
                    final(self)@,
                    Ok::<(), ErrView>(()),
                ),
            match r {
                Err(ZillError::NotADirectory(k)) => old(self)@.contains_key(k@) && old(self)@[k@] is File
                    && crate::fs_laws::mkdir_keys(slash(), normal_names(comps(path@)), 0).contains(k@),
                Err(e) => e is DiskFull,
                Ok(_) => true,
            },
            forall|k: Seq<char>| #[trigger] old(self)@.contains_key(k) ==> final(self)@.contains_key(k),
    {
        let now = clock_now();
        let r = self.mkdir_p_at(path, now);
        proof {
            crate::fs_laws::law_mkdir_p_outcome(old(self)@, path@, now, old(self).node_limit());
            if r is Ok {
                assert forall|t2: i64| #[trigger] spec_mkdir_p(self@, path@, t2, old(self).node_limit()) == (
                    self@,
                    Ok::<(), ErrView>(()),
                ) by {
                    crate::fs_laws::law_mkdir_p_idempotent(old(self)@, path@, now, t2, old(self).node_limit());
                }
            }
        }
        r
    }

    /// Creates (or replaces) the file at `path` with `content`, making its parent
    /// directories first; changes are stamped with `now`.
    pub fn create_file_at(&mut self, path: &str, content: Vec<u8>, now: i64) -> (r: Result<(), ZillError>)
        requires
            old(self).wf(),
        ensures
            final(self).wf(),
            final(self).node_limit() == old(self).node_limit(),
            final(self).size_limit() == old(self).size_limit(),
            (final(self)@, res_view(r)) == spec_create_file(
                old(self)@,
                path@,
                content@,
                now,
                old(self).node_limit(),
                old(self).size_limit(),
            ),
    {
        if content.len() > self.max_file_size {
            return Err(ZillError::FileTooLarge);
        }
        let par = match parent_path(path) {
            None => {
                return Err(ZillError::InvalidPath(owned("No parent")));
            },
            Some(p) => p,
        };
        match self.mkdir_p_at(par.as_str(), now) {
            Ok(()) => {},
            Err(e) => {
                return Err(e);
            },
        }
        let name = match file_name(path) {
            None => {
                return Err(ZillError::InvalidPath(owned("No filename")));
            },
            Some(n) => n,
        };
        proof {
            crate::path::lemma_comps_nonempty(path@);
        }
        proof {
            self.lemma_view();
        }
        let key = normalize(path);
        match self.find(key.as_str()) {
            Some(i) => {
                let is_dir = match &self.slots[i] {
                    Some(n) => n.is_dir(),
                    None => false,
                };
                if is_dir {
                    return Err(ZillError::IsADirectory(owned(path)));
                }
            },
            None => {
                if self.index.len() >= self.max_nodes {
                    return Err(ZillError::DiskFull);
                }
            },
        }
        proof {
            if key@ == slash() {
                assert(self.index@.contains_key(slash()));
            }
        }
        let ghost cv = content@;
        let size = content.len();
        self.put_node(key, Node::File(FileMeta { size, created_at: now, modified_at: now, content }));
        let pk = normalize(par.as_str());
        self.add_child_at(pk.as_str(), name.as_str(), now);
        Ok(())
    }

    /// Creates (or replaces) the file at `path` with `content`, making its parent directories first.
    pub fn create_file(&mut self, path: &str, content: Vec<u8>) -> (r: Result<(), ZillError>)
        requires
            old(self).wf(),
        ensures
            final(self).wf(),
            final(self).node_limit() == old(self).node_limit(),
            final(self).size_limit() == old(self).size_limit(),
            exists|t: i64|
                (final(self)@, res_view(r)) == spec_create_file(
                    old(self)@,
                    path@,
                    content@,
                    t,
                    old(self).node_limit(),
                    old(self).size_limit(),
                ),
            (res_view(r) == Err::<(), ErrView>(ErrView::FileTooLarge)) == (content@.len() > old(self).size_limit()),
            content@.len() > old(self).size_limit() ==> final(self)@ == old(self)@,
            forall|k: Seq<char>| #[trigger] old(self)@.contains_key(k) ==> final(self)@.contains_key(k),
            forall|k: Seq<char>|
                #[trigger] final(self)@.contains_key(k) && !old(self)@.contains_key(k) && k != norm(path@)
                    ==> crate::fs_laws::create_keys(path@).contains(k) && final(self)@[k] is Dir,
            forall|k: Seq<char>|
                #[trigger] old(self)@.contains_key(k) && k != norm(path@) && k != slash() && !crate::fs_laws::create_keys(
                    path@,
                ).contains(k) && (parent_of(path@) is Some ==> k != norm(parent_of(path@)->Some_0)) ==> final(self)@[k]
                    == old(self)@[k],
    {
        let now = clock_now();
        let ghost c = content@;
        let r = self.create_file_at(path, content, now);
        proof {
            crate::fs_laws::law_create_file_outcome(
                old(self)@,
                path@,
                c,
                now,
                old(self).node_limit(),
                old(self).size_limit(),
            );
        }
        r
    }

    /// Replaces the content of the file at `path`, creating it when it does not exist;
    /// changes are stamped with `now`.
    pub fn write_at(&mut self, path: &str, content: Vec<u8>, now: i64) -> (r: Result<(), ZillError>)
        requires
            old(self).wf(),
        ensures
            final(self).wf(),
            final(self).node_limit() == old(self).node_limit(),
            final(self).size_limit() == old(self).size_limit(),
            (final(self)@, res_view(r)) == spec_write(
                old(self)@,
                path@,
                content@,
                now,
                old(self).node_limit(),
                old(self).size_limit(),
            ),
    {
        if content.len() > self.max_file_size {
            return Err(ZillError::FileTooLarge);
        }
        proof {
            self.lemma_view();
        }
        let key = normalize(path);
        match self.find(key.as_str()) {
            Some(i) => {
                let ghost cv = content@;
                let r = match &mut self.slots[i] {
                    Some(Node::File(m)) => {
                        m.size = content.len();
                        m.content = content;
                        m.modified_at = now;
                        Ok(())
                    },
                    _ => Err(ZillError::IsADirectory(owned(path))),
                };
                proof {
                    assert(self.index@ == old(self).index@);
                    if r is Ok {
                        assert(self@ =~= old(self)@.insert(key@, self@[key@]));
                    } else {
                        assert(self@ =~= old(self)@);
                    }
                }
                r
            },
            None => self.create_file_at(path, content, now),
        }
    }

    /// Replaces the content of the file at `path`, creating it when it does not exist.
    pub fn write(&mut self, path: &str, content: Vec<u8>) -> (r: Result<(), ZillError>)
        requires
            old(self).wf(),
        ensures
            final(self).wf(),
            final(self).node_limit() == old(self).node_limit(),
            final(self).size_limit() == old(self).size_limit(),
            exists|t: i64|
                (final(self)@, res_view(r)) == spec_write(
                    old(self)@,
                    path@,
                    content@,
                    t,
                    old(self).node_limit(),
                    old(self).size_limit(),
                ),
    {
        let now = clock_now();
        self.write_at(path, content, now)
    }

    /// Removes the file or empty directory at `path`; the parent's change is stamped with `now`.
    pub fn remove_at(&mut self, path: &str, now: i64) -> (r: Result<(), ZillError>)
        requires
            old(self).wf(),
        ensures
            final(self).wf(),
            final(self).node_limit() == old(self).node_limit(),
            final(self).size_limit() == old(self).size_limit(),
            (final(self)@, res_view(r)) == spec_remove(old(self)@, path@, now),
    {
        proof {
            self.lemma_view();
            reveal_strlit("/");
            assert("/"@ =~= slash());
        }
        let key = normalize(path);
        if str_eq(key.as_str(), "/") {
            return Err(ZillError::PermissionDenied(owned("Cannot remove root")));
        }
        match self.find(key.as_str()) {
            None => {
                return Err(ZillError::NotFound(owned(path)));
            },
            Some(i) => {
                let nonempty = match &self.slots[i] {
                    Some(Node::Directory(m)) => m.children.len() > 0,
                    _ => false,
                };
                proof {
                    if let Some(Node::Directory(m)) = self.slots@[i as int] {
                        if m.children@.len() > 0 {
                            assert(strs_view(m.children@)[0] == m.children@[0]@);
                            assert(strs_view(m.children@).contains(m.children@[0]@));
                            assert(names_set(m.children@).contains(m.children@[0]@));
                        } else {
                            assert(names_set(m.children@) =~= Set::<Seq<char>>::empty());
                        }
                    }
                }
                if nonempty {
                    return Err(ZillError::DirectoryNotEmpty(owned(path)));
                }
            },
        }
        self.remove_key(key.as_str());
        match (parent_path(path), file_name(path)) {
            (Some(par), Some(name)) => {
                let pk = normalize(par.as_str());
                self.drop_child_at(pk.as_str(), name.as_str(), now);
            },
            _ => {},
        }
        Ok(())
    }

    /// Removes the file or empty directory at `path`.
    pub fn remove(&mut self, path: &str) -> (r: Result<(), ZillError>)
        requires
            old(self).wf(),
        ensures
            final(self).wf(),
            final(self).node_limit() == old(self).node_limit(),
            final(self).size_limit() == old(self).size_limit(),
            exists|t: i64| (final(self)@, res_view(r)) == spec_remove(old(self)@, path@, t),
    {
        let now = clock_now();
        self.remove_at(path, now)
    }
}

/// A copy of a slice of strings.
pub fn clone_strings_slice(v: &[String]) -> (r: Vec<String>)
    ensures
        strs_view(r@) == strs_view(v@),
{
    let mut r: Vec<String> = Vec::new();
    let mut i: usize = 0;
    while i < v.len()
        invariant
            i <= v@.len(),
            strs_view(r@) == strs_view(v@).take(i as int),
        decreases v.len() - i,
    {
        let ghost before = r@;
        let s = owned(v[i].as_str());
        r.push(s);
        assert(r@ =~= before.push(s));
        assert(strs_view(r@) =~= strs_view(before).push(s@));
        assert(strs_view(v@).take(i + 1) =~= strs_view(v@).take(i as int).push(v@[i as int]@));
        i += 1;
    }
    assert(strs_view(v@).take(v@.len() as int) =~= strs_view(v@));
    r
}

/// A copy of a list of strings.
pub fn clone_strings(v: &Vec<String>) -> (r: Vec<String>)
    ensures
        strs_view(r@) == strs_view(v@),
{
    let mut r: Vec<String> = Vec::new();
    let mut i: usize = 0;
    while i < v.len()
        invariant
            i <= v@.len(),
            strs_view(r@) == strs_view(v@).take(i as int),
        decreases v.len() - i,
    {
        let ghost before = r@;
        let s = owned(v[i].as_str());
        r.push(s);
        assert(r@ =~= before.push(s));
        assert(strs_view(r@) =~= strs_view(before).push(s@));
        assert(strs_view(v@).take(i + 1) =~= strs_view(v@).take(i as int).push(v@[i as int]@));
        i += 1;
    }
    assert(strs_view(v@).take(v@.len() as int) =~= strs_view(v@));
    r
}

} // verus!
