//! The nested form of a file system: each directory holding its entries, sorted by name.
//! It is the form in which a session is saved and read back.
use vstd::prelude::*;
use crate::error::{ErrView, ZillError};
use crate::fs::{
    DirMeta, FileMeta, FsMap, Node, NodeView, VirtualFs, clone_strings, empty_dir, join_path, join_path_exec, spec_stat,
};
use crate::order::{insert_sorted, lemma_sorted_of, names_set, sorted_names, sorted_of};
use crate::path::{norm, normalize, slash, valid_name};
use crate::text::{chars_of, concat2, concat3, owned, str_eq, strs_view};

verus! {

/// A node with its name and, for a directory, its entries.
#[derive(Debug)]
pub struct NestedNode {
    pub name: String,
    pub node: Node,
    pub children: Option<Vec<NestedNode>>,
}

/// The mathematical value of a [`NestedNode`].
pub struct NestedView {
    pub name: Seq<char>,
    pub node: NodeView,
    pub children: Option<Seq<NestedView>>,
}

pub open spec fn nested_views(v: Seq<NestedNode>) -> Seq<NestedView>
    decreases v,
{
    if v.len() == 0 {
        Seq::empty()
    } else {
        nested_views(v.drop_last()).push(nested_view(v.last()))
    }
}

pub open spec fn nested_view(n: NestedNode) -> NestedView
    decreases n,
{
    NestedView {
        name: n.name@,
        node: n.node@,
        children: match n.children {
            Some(v) => Some(nested_views(v@)),
            None => None,
        },
    }
}

impl View for NestedNode {
    type V = NestedView;

    open spec fn view(&self) -> NestedView {
        nested_view(*self)
    }
}

pub proof fn lemma_nested_views(v: Seq<NestedNode>)
    ensures
        nested_views(v).len() == v.len(),
        forall|i: int| 0 <= i < v.len() ==> #[trigger] nested_views(v)[i] == nested_view(v[i]),
    decreases v.len(),
{
    if v.len() > 0 {
        lemma_nested_views(v.drop_last());
    }
}

// ---------------------------------------------------------------------------
// From the file system to the nested form
// ---------------------------------------------------------------------------

/// The nested form of the entry at `path`, named `name`, at most `fuel` levels deep.
pub open spec fn to_nested(fs: FsMap, path: Seq<char>, name: Seq<char>, fuel: nat) -> Result<NestedView, ErrView>
    decreases fuel, 0int, 0int,
{
    if fuel == 0 {
        Err(ErrView::Generic("nesting deeper than the number of nodes"@))
    } else {
        match spec_stat(fs, path) {
            Err(e) => Err(e),
            Ok(node) => match node {
                NodeView::File { .. } => Ok(NestedView { name, node, children: None }),
                NodeView::Dir { children, .. } => match nested_children(
                    fs,
                    path,
                    sorted_of(children),
                    0,
                    (fuel - 1) as nat,
                ) {
                    Ok(kids) => Ok(NestedView { name, node, children: Some(kids) }),
                    Err(e) => Err(e),
                },
            },
        }
    }
}

/// The nested forms of the entries `cs` of the directory `dir`, from the `k`-th.
pub open spec fn nested_children(fs: FsMap, dir: Seq<char>, cs: Seq<Seq<char>>, k: int, fuel: nat) -> Result<
    Seq<NestedView>,
    ErrView,
>
    decreases fuel, 1int, cs.len() - k,
{
    if k < 0 || k >= cs.len() {
        Ok(Seq::empty())
    } else {
        match to_nested(fs, join_path(dir, cs[k]), cs[k], fuel) {
            Err(e) => Err(e),
            Ok(a) => match nested_children(fs, dir, cs, k + 1, fuel) {
                Ok(b) => Ok(seq![a] + b),
                Err(e) => Err(e),
            },
        }
    }
}

/// A copy of a node.
pub fn copy_node(n: &Node) -> (r: Node)
    ensures
        r@ == n@,
        n.wf() ==> r.wf(),
{
    match n {
        Node::File(m) => {
            let mut content: Vec<u8> = Vec::new();
            crate::session::write_bytes(&mut content, m.content.as_slice());
            assert(content@ =~= m.content@);
            Node::File(FileMeta { size: m.size, created_at: m.created_at, modified_at: m.modified_at, content })
        },
        Node::Directory(m) => {
            let children = clone_strings(&m.children);
            proof {
                assert(strs_view(children@) == strs_view(m.children@));
                assert(names_set(children@) =~= names_set(m.children@));
            }
            Node::Directory(DirMeta { created_at: m.created_at, modified_at: m.modified_at, children })
        },
    }
}

impl VirtualFs {
    /// The nested form of the entry at `path`, named `name`.
    fn nested_at(&self, path: &str, name: &str, fuel: usize) -> (r: Result<NestedNode, ZillError>)
        requires
            self.wf(),
        ensures
            match to_nested(self@, path@, name@, fuel as nat) {
                Ok(v) => r matches Ok(n) && n@ == v,
                Err(e) => r matches Err(x) && x@ == e,
            },
        decreases fuel,
    {
        if fuel == 0 {
            return Err(ZillError::Generic(owned("nesting deeper than the number of nodes")));
        }
        let node = match self.stat(path) {
            Ok(n) => n,
            Err(e) => {
                return Err(e);
            },
        };
        match node {
            Node::File(_) => Ok(NestedNode { name: owned(name), node: copy_node(node), children: None }),
            Node::Directory(m) => {
                let ghost cs = strs_view(m.children@);
                proof {
                    lemma_sorted_of(cs);
                }
                let ghost sub = (fuel - 1) as nat;
                let ghost target = nested_children(self@, path@, cs, 0, sub);
                let mut kids: Vec<NestedNode> = Vec::new();
                let mut k: usize = 0;
                let mut failed: Option<ZillError> = None;
                assert(nested_views(kids@) =~= Seq::<NestedView>::empty());
                while k < m.children.len() && failed.is_none()
                    invariant
                        failed matches Some(e) ==> target == Err::<Seq<NestedView>, ErrView>(e@),
                        self.wf(),
                        k <= m.children@.len(),
                        fuel > 0,
                        sub == fuel - 1,
                        cs == strs_view(m.children@),
                        target == nested_children(self@, path@, cs, 0, sub),
                        failed is None ==> match target {
                            Ok(all) => nested_children(self@, path@, cs, k as int, sub) matches Ok(rest) && all
                                == nested_views(kids@) + rest,
                            Err(e) => nested_children(self@, path@, cs, k as int, sub) == Err::<
                                Seq<NestedView>,
                                ErrView,
                            >(e),
                        },
                    decreases m.children@.len() - k + (if failed is None { 1int } else { 0int }),
                {
                    assert(cs[k as int] == m.children@[k as int]@);
                    let child = join_path_exec(path, m.children[k].as_str());
                    match self.nested_at(child.as_str(), m.children[k].as_str(), fuel - 1) {
                        Err(e) => {
                            failed = Some(e);
                        },
                        Ok(sub_node) => {
                    proof {
                        let ghost_kids = kids@;
                        assert(ghost_kids.push(sub_node).drop_last() =~= ghost_kids);
                        if target is Ok {
                            let rest = nested_children(self@, path@, cs, k as int, sub)->Ok_0;
                            let rest2 = nested_children(self@, path@, cs, k + 1, sub)->Ok_0;
                            assert(rest =~= seq![sub_node@] + rest2);
                            assert(nested_views(ghost_kids.push(sub_node)) == nested_views(ghost_kids).push(sub_node@));
                            assert(target->Ok_0 =~= nested_views(ghost_kids.push(sub_node)) + rest2);
                        }
                    }
                    kids.push(sub_node);
                    k += 1;
                        },
                    }
                }
                match failed {
                    Some(e) => {
                        return Err(e);
                    },
                    None => {},
                }
                proof {
                    if target is Ok {
                        assert(target->Ok_0 =~= nested_views(kids@));
                    }
                }
                Ok(NestedNode { name: owned(name), node: copy_node(node), children: Some(kids) })
            },
        }
    }

    /// The nested form of the whole file system, the root named `/`.
    pub fn to_nested(&self) -> (r: Result<NestedNode, ZillError>)
        requires
            self.wf(),
        ensures
            match to_nested(self@, slash(), slash(), self@.len()) {
                Ok(v) => r matches Ok(n) && n@ == v,
                Err(e) => r matches Err(x) && x@ == e,
            },
    {
        proof {
            reveal_strlit("/");
            assert("/"@ =~= slash());
        }
        let fuel = self.node_count();
        self.nested_at("/", "/", fuel)
    }
}

// ---------------------------------------------------------------------------
// From the nested form to the file system
// ---------------------------------------------------------------------------

/// The node stored for a nested node: a directory with the given entries, or the file.
pub open spec fn stored(node: NodeView, names: Set<Seq<char>>) -> NodeView {
    match node {
        NodeView::Dir { created, modified, .. } => NodeView::Dir { children: names, created, modified },
        f => f,
    }
}

/// Adds the nested node `n` at `path` (its entries first, then itself) to `fs`, which
/// already holds `count` nodes read; the new map and count, or the message that rejects it.
pub open spec fn flatten(
    path: Seq<char>,
    n: NestedView,
    fs: FsMap,
    count: nat,
    max_nodes: usize,
    max_file_size: usize,
) -> Result<(FsMap, nat), Seq<char>>
    decreases n, 0int,
{
    let c = count + 1;
    if c > max_nodes {
        Err("max nodes exceeded during deserialization"@)
    } else if n.node is File && n.node->File_content.len() > max_file_size {
        Err("file "@ + path + " exceeds max file size during deserialization"@)
    } else {
        let kids: Result<(FsMap, nat, Set<Seq<char>>), Seq<char>> = match n.children {
            Some(cs) => if n.node is Dir {
                flatten_kids(path, cs, 0, Set::empty(), fs, c, max_nodes, max_file_size)
            } else {
                Err("node at "@ + path + " has children but is not a directory"@)
            },
            None => Ok((fs, c, Set::empty())),
        };
        match kids {
            Err(e) => Err(e),
            Ok((fs1, c1, names)) => Ok((fs1.insert(norm(path), stored(n.node, names)), c1)),
        }
    }
}

/// Adds the entries `cs` of the directory at `path`, from the `k`-th; `seen` holds the
/// names of the ones before.
pub open spec fn flatten_kids(
    path: Seq<char>,
    cs: Seq<NestedView>,
    k: int,
    seen: Set<Seq<char>>,
    fs: FsMap,
    count: nat,
    max_nodes: usize,
    max_file_size: usize,
) -> Result<(FsMap, nat, Set<Seq<char>>), Seq<char>>
    decreases cs, cs.len() - k,
{
    if k < 0 || k >= cs.len() {
        Ok((fs, count, seen))
    } else {
        let nm = cs[k].name;
        if !valid_name(nm) {
            Err("invalid child name '"@ + nm + "' at "@ + path)
        } else if seen.contains(nm) {
            Err("duplicate child name '"@ + nm + "' at "@ + path)
        } else {
            match flatten(join_path(path, nm), cs[k], fs, count, max_nodes, max_file_size) {
                Err(e) => Err(e),
                Ok((fs1, c1)) => flatten_kids(path, cs, k + 1, seen.insert(nm), fs1, c1, max_nodes, max_file_size),
            }
        }
    }
}

/// The file system that the nested form of a root describes, or the message that rejects it.
/// (The root read replaces the empty one that the file system starts with.)
pub open spec fn from_nested_spec(root: NestedView, max_nodes: usize, max_file_size: usize) -> Result<FsMap, Seq<char>> {
    match flatten(slash(), root, Map::empty().insert(slash(), empty_dir(0)), 0, max_nodes, max_file_size) {
        Ok((fs, _)) => Ok(fs),
        Err(e) => Err(e),
    }
}

/// Whether `n` is a valid name.
fn is_valid_name(n: &str) -> (r: bool)
    ensures
        r == valid_name(n@),
{
    let cs = chars_of(n);
    if cs.len() == 0 {
        return false;
    }
    if cs.len() == 1 && cs[0] == '.' {
        assert(cs@ =~= seq!['.']);
        return false;
    }
    if cs.len() == 2 && cs[0] == '.' && cs[1] == '.' {
        assert(cs@ =~= seq!['.', '.']);
        return false;
    }
    proof {
        if cs@ == seq!['.'] {
            assert(cs@.len() == 1 && cs@[0] == '.');
        }
        if cs@ == seq!['.', '.'] {
            assert(cs@.len() == 2 && cs@[0] == '.' && cs@[1] == '.');
        }
    }
    let mut i: usize = 0;
    while i < cs.len()
        invariant
            i <= cs@.len(),
            cs@ == n@,
            forall|k: int| 0 <= k < i ==> #[trigger] cs@[k] != '/',
        decreases cs.len() - i,
    {
        if cs[i] == '/' {
            return false;
        }
        i += 1;
    }
    true
}

impl VirtualFs {
    /// Adds the nested node `n` at `path`; `count` is the number of nodes read so far.
    fn flatten_into(
        &mut self,
        path: &str,
        n: &NestedNode,
        count: &mut usize,
        max_nodes: usize,
        max_file_size: usize,
    ) -> (r: Result<(), String>)
        requires
            old(self).wf(),
        ensures
            final(self).wf(),
            final(self).node_limit() == old(self).node_limit(),
            final(self).size_limit() == old(self).size_limit(),
            match flatten(path@, n@, old(self)@, *old(count) as nat, max_nodes, max_file_size) {
                Ok((fs1, c1)) => r is Ok && final(self)@ == fs1 && *final(count) == c1,
                Err(e) => r matches Err(m) && m@ == e,
            },
        decreases n@, 0int,
    {
        let ghost fs0 = self@;
        let ghost c0 = *count as nat;
        if *count >= max_nodes {
            return Err(owned("max nodes exceeded during deserialization"));
        }
        *count = *count + 1;
        let is_file = match &n.node {
            Node::File(m) => {
                if m.content.len() > max_file_size {
                    return Err(concat3("file ", path, " exceeds max file size during deserialization"));
                }
                true
            },
            Node::Directory(_) => false,
        };
        let mut names: Vec<String> = Vec::new();
        assert(names_set(names@) =~= Set::<Seq<char>>::empty());
        match &n.children {
            Some(cs) => {
                if is_file {
                    return Err(concat3("node at ", path, " has children but is not a directory"));
                }
                let ghost cv = nested_views(cs@);
                proof {
                    lemma_nested_views(cs@);
                }
                let ghost target = flatten_kids(path@, cv, 0, Set::empty(), fs0, c0 + 1, max_nodes, max_file_size);
                let mut k: usize = 0;
                let mut failed: Option<String> = None;
                while k < cs.len() && failed.is_none()
                    invariant
                        failed matches Some(m) ==> target == Err::<(FsMap, nat, Set<Seq<char>>), Seq<char>>(m@),
                        n@.children == Some(cv),
                        self.wf(),
                        self.node_limit() == old(self).node_limit(),
                        self.size_limit() == old(self).size_limit(),
                        k <= cs@.len(),
                        cv == nested_views(cs@),
                        cv.len() == cs@.len(),
                        forall|i: int| 0 <= i < cs@.len() ==> #[trigger] cv[i] == cs@[i]@,
                        sorted_names(strs_view(names@)),
                        forall|c: Seq<char>| #[trigger] names_set(names@).contains(c) ==> c.len() > 0,
                        failed is None ==> target == flatten_kids(
                            path@,
                            cv,
                            k as int,
                            names_set(names@),
                            self@,
                            *count as nat,
                            max_nodes,
                            max_file_size,
                        ),
                    decreases cs@.len() - k + (if failed is None { 1int } else { 0int }),
                {
                    let child = &cs[k];
                    let (found, p) = crate::order::search_sorted(&names, child.name.as_str());
                    proof {
                        if !found && names_set(names@).contains(child.name@) {
                            let j = choose|j: int| 0 <= j < strs_view(names@).len() && strs_view(names@)[j] == child.name@;
                            assert(strs_view(names@)[j] == names@[j]@);
                            crate::order::lemma_name_irreflexive(child.name@);
                        }
                        if found {
                            assert(strs_view(names@)[p as int] == names@[p as int]@);
                        }
                    }
                    if !is_valid_name(child.name.as_str()) {
                        let a = concat3("invalid child name '", child.name.as_str(), "' at ");
                        failed = Some(concat2(a.as_str(), path));
                    } else if found {
                        let a = concat3("duplicate child name '", child.name.as_str(), "' at ");
                        failed = Some(concat2(a.as_str(), path));
                    } else {
                        let child_path = join_path_exec(path, child.name.as_str());
                        proof {
                            assert(decreases_to!(n@ => n@.children));
                            assert(decreases_to!(n@.children => n@.children->Some_0));
                            assert(decreases_to!(cv => cv[k as int]));
                            assert(decreases_to!(n@ => cv[k as int]));
                        }
                        match self.flatten_into(child_path.as_str(), child, count, max_nodes, max_file_size) {
                            Ok(()) => {
                                insert_sorted(&mut names, child.name.as_str());
                                k += 1;
                            },
                            Err(e) => {
                                failed = Some(e);
                            },
                        }
                    }
                }
                match failed {
                    Some(m) => {
                        return Err(m);
                    },
                    None => {},
                }
            },
            None => {},
        }
        let key = normalize(path);
        let stored_node = match &n.node {
            Node::File(m) => {
                let mut content: Vec<u8> = Vec::new();
                crate::session::write_bytes(&mut content, m.content.as_slice());
                assert(content@ =~= m.content@);
                Node::File(FileMeta { size: content.len(), created_at: m.created_at, modified_at: m.modified_at, content })
            },
            Node::Directory(m) => Node::Directory(DirMeta { created_at: m.created_at, modified_at: m.modified_at, children: names }),
        };
        proof {
            reveal_strlit("/");
            assert("/"@ =~= slash());
        }
        self.put_node(key, stored_node);
        Ok(())
    }

    /// The file system that the nested form of a root describes, with the given limits,
    /// or the message that rejects it.
    /// A root that is a file is stored as a file at `/`.
    pub fn from_nested(root: &NestedNode, max_nodes: usize, max_file_size: usize) -> (r: Result<VirtualFs, String>)
        ensures
            match from_nested_spec(root@, max_nodes, max_file_size) {
                Ok(fs) => r matches Ok(v) && v.wf() && v@ == fs && v.node_limit() == max_nodes && v.size_limit()
                    == max_file_size,
                Err(e) => r matches Err(m) && m@ == e,
            },
    {
        let mut vfs = VirtualFs::new_at(max_nodes, max_file_size, 0);
        let mut count: usize = 0;
        proof {
            reveal_strlit("/");
            assert("/"@ =~= slash());
        }
        match vfs.flatten_into("/", root, &mut count, max_nodes, max_file_size) {
            Ok(()) => {},
            Err(e) => {
                return Err(e);
            },
        }
        Ok(vfs)
    }
}

} // verus!
