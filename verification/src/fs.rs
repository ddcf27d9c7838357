//! An in-memory hierarchical file system: directories and files kept in a
//! tree of inodes, with a current working directory given as a path of names.
use vstd::prelude::*;
use vstd::string::*;

verus! {

/// The kind of an inode.
#[derive(Clone, Copy)]
pub enum FileType {
    File,
    Directory,
}

/// A node of the tree: a file with content, or a directory with children.
pub struct Inode {
    pub name: String,
    pub file_type: FileType,
    pub content: Vec<u8>,
    pub children: Vec<Inode>,
}

/// The file system: a root directory and the path of the current directory.
pub struct FileSystem {
    pub root: Inode,
    pub current_path: Vec<String>,
}

/// The mathematical value of an inode and everything below it.
pub struct NodeView {
    pub name: Seq<char>,
    pub is_dir: bool,
    pub content: Seq<u8>,
    pub children: Seq<NodeView>,
}

/// The mathematical value of a file system.
pub struct FsView {
    pub root: NodeView,
    pub cwd: Seq<Seq<char>>,
}

impl Inode {
    pub open spec fn view(self) -> NodeView
        decreases self,
    {
        NodeView {
            name: self.name@,
            is_dir: self.file_type is Directory,
            content: self.content@,
            children: Seq::new(
                self.children@.len(),
                |i: int|
                    if 0 <= i < self.children@.len() {
                        self.children@[i].view()
                    } else {
                        arbitrary()
                    },
            ),
        }
    }
}

/// The fields of an inode's view are the views of its fields.
pub broadcast proof fn lemma_inode_view(n: Inode)
    ensures
        #[trigger] n@.name == n.name@,
        n@.is_dir == (n.file_type is Directory),
        n@.content == n.content@,
        n@.children.len() == n.children@.len(),
        forall|i: int| 0 <= i < n.children@.len() ==> #[trigger] n@.children[i] == n.children@[i]@,
{
}

/// The names of a path, as character sequences.
pub open spec fn path_view(p: Seq<String>) -> Seq<Seq<char>> {
    p.map_values(|s: String| s@)
}

impl FileSystem {
    pub open spec fn view(&self) -> FsView {
        FsView { root: self.root@, cwd: path_view(self.current_path@) }
    }
}

/// A child that is a directory with the given name.
pub open spec fn is_dir_named(c: NodeView, name: Seq<char>) -> bool {
    c.is_dir && c.name == name
}

/// A child, file or directory, with the given name.
pub open spec fn is_named(c: NodeView, name: Seq<char>) -> bool {
    c.name == name
}

/// The first index at or after `start` of a directory child named `name`.
pub open spec fn first_dir_from(s: Seq<NodeView>, name: Seq<char>, start: int) -> Option<int>
    decreases s.len() - start,
{
    if start < 0 || start >= s.len() {
        None
    } else if is_dir_named(s[start], name) {
        Some(start)
    } else {
        first_dir_from(s, name, start + 1)
    }
}

/// The first index at or after `start` of a child named `name`.
pub open spec fn first_named_from(s: Seq<NodeView>, name: Seq<char>, start: int) -> Option<int>
    decreases s.len() - start,
{
    if start < 0 || start >= s.len() {
        None
    } else if is_named(s[start], name) {
        Some(start)
    } else {
        first_named_from(s, name, start + 1)
    }
}

/// The index of the first directory child named `name`.
pub open spec fn dir_index(n: NodeView, name: Seq<char>) -> Option<int> {
    first_dir_from(n.children, name, 0)
}

/// The index of the first child named `name`.
pub open spec fn named_index(n: NodeView, name: Seq<char>) -> Option<int> {
    first_named_from(n.children, name, 0)
}

/// The directory reached from `n` by following `path` through directory
/// children, taking at each step the first directory of that name.
pub open spec fn lookup(n: NodeView, path: Seq<Seq<char>>) -> Option<NodeView>
    decreases path.len(),
{
    if path.len() == 0 {
        Some(n)
    } else {
        match dir_index(n, path[0]) {
            Some(i) => lookup(n.children[i], path.drop_first()),
            None => None,
        }
    }
}

/// `n` with the node that `path` reaches replaced by `new`.
pub open spec fn replace_at(n: NodeView, path: Seq<Seq<char>>, new: NodeView) -> NodeView
    decreases path.len(),
{
    if path.len() == 0 {
        new
    } else {
        match dir_index(n, path[0]) {
            Some(i) => NodeView {
                children: n.children.update(i, replace_at(n.children[i], path.drop_first(), new)),
                ..n
            },
            None => n,
        }
    }
}

pub proof fn lemma_first_dir_from(s: Seq<NodeView>, name: Seq<char>, start: int)
    requires
        0 <= start,
    ensures
        match first_dir_from(s, name, start) {
            Some(i) => start <= i < s.len() && is_dir_named(s[i], name) && forall|j: int|
                start <= j < i ==> !is_dir_named(#[trigger] s[j], name),
            None => forall|j: int| start <= j < s.len() ==> !is_dir_named(#[trigger] s[j], name),
        },
    decreases s.len() - start,
{
    if start < s.len() && !is_dir_named(s[start], name) {
        lemma_first_dir_from(s, name, start + 1);
    }
}

pub proof fn lemma_first_named_from(s: Seq<NodeView>, name: Seq<char>, start: int)
    requires
        0 <= start,
    ensures
        match first_named_from(s, name, start) {
            Some(i) => start <= i < s.len() && is_named(s[i], name) && forall|j: int|
                start <= j < i ==> !is_named(#[trigger] s[j], name),
            None => forall|j: int| start <= j < s.len() ==> !is_named(#[trigger] s[j], name),
        },
    decreases s.len() - start,
{
    if start < s.len() && !is_named(s[start], name) {
        lemma_first_named_from(s, name, start + 1);
    }
}

/// An inode that differs from `a` only in child `idx` has a view that differs
/// from the view of `a` only there.
proof fn lemma_view_child_update(a: Inode, idx: int)
    requires
        0 <= idx < a.children@.len(),
    ensures
        forall|b: Inode|
            b.name == a.name && b.file_type == a.file_type && b.content == a.content
                && b.children@ == a.children@.update(idx, b.children@[idx])
                ==> #[trigger] b@ == (NodeView { children: a@.children.update(idx, b.children@[idx]@), ..a@ }),
        a@.children.update(idx, a@.children[idx]) == a@.children,
        (NodeView { children: a@.children, ..a@ }) == a@,
{
    assert(a@.children.update(idx, a@.children[idx]) =~= a@.children);
    assert forall|b: Inode|
        b.name == a.name && b.file_type == a.file_type && b.content == a.content
            && b.children@ == a.children@.update(idx, b.children@[idx])
        implies #[trigger] b@ == (NodeView { children: a@.children.update(idx, b.children@[idx]@), ..a@ }) by {
        assert(b@.children =~= a@.children.update(idx, b.children@[idx]@));
    }
}

/// The index of the first directory child of `node` named `name`.
fn find_dir_child(node: &Inode, name: &String) -> (r: Option<usize>)
    ensures
        r matches Some(i) ==> i < node.children.len() && Some(i as int) == dir_index(node@, name@),
        r is None ==> dir_index(node@, name@) is None,
{
    broadcast use lemma_inode_view;

    let mut i: usize = 0;
    while i < node.children.len()
        invariant
            i <= node.children.len(),
            forall|j: int| 0 <= j < i ==> !is_dir_named(#[trigger] node@.children[j], name@),
        decreases node.children.len() - i,
    {
        let child = &node.children[i];
        assert(node@.children[i as int] == child@);
        assert(child@.name == child.name@);
        if child.name == *name {
            match child.file_type {
                FileType::Directory => {
                    proof {
                        lemma_first_dir_from(node@.children, name@, 0);
                        assert(is_dir_named(node@.children[i as int], name@));
                    }
                    return Some(i);
                },
                FileType::File => {},
            }
        }
        assert(!is_dir_named(node@.children[i as int], name@));
        i = i + 1;
    }
    proof {
        lemma_first_dir_from(node@.children, name@, 0);
    }
    None
}

/// The index of the first child of `node` named `name`.
fn find_named_child(node: &Inode, name: &String) -> (r: Option<usize>)
    ensures
        r matches Some(i) ==> i < node.children.len() && Some(i as int) == named_index(node@, name@),
        r is None ==> named_index(node@, name@) is None,
{
    broadcast use lemma_inode_view;

    let mut i: usize = 0;
    while i < node.children.len()
        invariant
            i <= node.children.len(),
            forall|j: int| 0 <= j < i ==> !is_named(#[trigger] node@.children[j], name@),
        decreases node.children.len() - i,
    {
        let eq = node.children[i].name == *name;
        assert(eq == (node.children@[i as int].name@ == name@));
        assert(node@.children[i as int] == node.children@[i as int]@);
        assert(node.children@[i as int]@.name == node.children@[i as int].name@);
        if eq {
            proof {
                lemma_first_named_from(node@.children, name@, 0);
                assert(is_named(node@.children[i as int], name@));
            }
            return Some(i);
        }
        assert(!is_named(node@.children[i as int], name@));
        i = i + 1;
    }
    proof {
        lemma_first_named_from(node@.children, name@, 0);
    }
    None
}

/// The node that `path[depth..]` reaches from `node`, borrowed mutably.
fn node_at_mut<'a>(node: &'a mut Inode, path: &[String], depth: usize) -> (r: Option<&'a mut Inode>)
    requires
        depth <= path@.len(),
    ensures
        lookup(old(node)@, path_view(path@).skip(depth as int)) is None ==> r is None
            && final(node)@ == old(node)@,
        lookup(old(node)@, path_view(path@).skip(depth as int)) matches Some(v) ==> r is Some
            && (*r->0)@ == v,
        r is Some ==> final(node)@ == replace_at(
            old(node)@,
            path_view(path@).skip(depth as int),
            (*final(r->0))@,
        ),
    decreases path@.len() - depth,
{
    broadcast use lemma_inode_view;

    let ghost rest = path_view(path@).skip(depth as int);
    if depth == path.len() {
        assert(rest.len() == 0);
        return Some(node);
    }
    assert(rest[0] == path@[depth as int]@);
    assert(rest.drop_first() =~= path_view(path@).skip(depth + 1));
    match find_dir_child(node, &path[depth]) {
        None => None,
        Some(idx) => {
            proof {
                lemma_view_child_update(*node, idx as int);
            }
            assert(node@.children[idx as int] == node.children@[idx as int]@);
            let child = &mut node.children[idx];
            node_at_mut(child, path, depth + 1)
        },
    }
}

/// Replacing the node that a path reaches by that same node changes nothing.
pub proof fn lemma_replace_same(n: NodeView, path: Seq<Seq<char>>)
    requires
        lookup(n, path) is Some,
    ensures
        replace_at(n, path, lookup(n, path)->0) == n,
    decreases path.len(),
{
    if path.len() > 0 {
        let i = dir_index(n, path[0])->0;
        lemma_first_dir_from(n.children, path[0], 0);
        lemma_replace_same(n.children[i], path.drop_first());
        assert(n.children.update(i, n.children[i]) =~= n.children);
    }
}

/// What `mkdir(name)` does: the file system after it, and its result.
pub open spec fn mkdir_outcome(fs: FsView, name: Seq<char>) -> (FsView, Result<(), &'static str>) {
    match lookup(fs.root, fs.cwd) {
        None => (fs, Err("Diretorio atual invalido")),
        Some(dir) => match named_index(dir, name) {
            Some(_) => (fs, Err("Item ja existe")),
            None => (
                FsView { root: replace_at(fs.root, fs.cwd, with_child(dir, empty_dir(name))), ..fs },
                Ok(()),
            ),
        },
    }
}

/// What `touch(name, content)` does.
pub open spec fn touch_outcome(fs: FsView, name: Seq<char>, content: Seq<u8>) -> (FsView, Result<(), &'static str>) {
    match lookup(fs.root, fs.cwd) {
        None => (fs, Err("Diretorio atual invalido")),
        Some(dir) => match named_index(dir, name) {
            Some(i) => if dir.children[i].is_dir {
                (fs, Err("Diretorio com mesmo nome ja existe"))
            } else {
                (
                    FsView {
                        root: replace_at(
                            fs.root,
                            fs.cwd,
                            NodeView {
                                children: dir.children.update(i, NodeView { content, ..dir.children[i] }),
                                ..dir
                            },
                        ),
                        ..fs
                    },
                    Ok(()),
                )
            },
            None => (
                FsView { root: replace_at(fs.root, fs.cwd, with_child(dir, new_file(name, content))), ..fs },
                Ok(()),
            ),
        },
    }
}

/// What `cat(name)` gives.
pub open spec fn cat_outcome(fs: FsView, name: Seq<char>) -> Result<Seq<u8>, &'static str> {
    match lookup(fs.root, fs.cwd) {
        None => Err("Diretorio atual invalido"),
        Some(dir) => match named_index(dir, name) {
            Some(i) => if dir.children[i].is_dir {
                Err("Nao e um arquivo")
            } else {
                Ok(dir.children[i].content)
            },
            None => Err("Arquivo nao encontrado"),
        },
    }
}

/// What `mv(src, dest)` does.
pub open spec fn mv_outcome(fs: FsView, src: Seq<char>, dest: Seq<char>) -> (FsView, Result<(), &'static str>) {
    match lookup(fs.root, fs.cwd) {
        None => (fs, Err("Diretorio atual invalido")),
        Some(dir) => match named_index(dir, src) {
            None => (fs, Err("Origem nao encontrada")),
            Some(i) => if dest.contains('/') {
                (fs, Err("Mover para outros caminhos nao implementado"))
            } else {
                (
                    FsView {
                        root: replace_at(
                            fs.root,
                            fs.cwd,
                            NodeView {
                                children: dir.children.remove(i).push(NodeView { name: dest, ..dir.children[i] }),
                                ..dir
                            },
                        ),
                        ..fs
                    },
                    Ok(()),
                )
            },
        },
    }
}

/// What `ls()` gives: each item of the current directory, its name and
/// whether it is a directory; nothing when the current directory is gone.
pub open spec fn ls_outcome(fs: FsView) -> Seq<(Seq<char>, bool)> {
    match lookup(fs.root, fs.cwd) {
        None => Seq::empty(),
        Some(dir) => dir.children.map_values(|c: NodeView| (c.name, c.is_dir)),
    }
}

/// A fresh, empty directory named `name`.
pub open spec fn empty_dir(name: Seq<char>) -> NodeView {
    NodeView { name, is_dir: true, content: Seq::empty(), children: Seq::empty() }
}

/// A fresh file named `name` holding `content`.
pub open spec fn new_file(name: Seq<char>, content: Seq<u8>) -> NodeView {
    NodeView { name, is_dir: false, content, children: Seq::empty() }
}

/// `dir` with `child` added after its other children.
pub open spec fn with_child(dir: NodeView, child: NodeView) -> NodeView {
    NodeView { children: dir.children.push(child), ..dir }
}

/// The node that `path[depth..]` reaches from `node`.
fn node_at<'a>(node: &'a Inode, path: &[String], depth: usize) -> (r: Option<&'a Inode>)
    requires
        depth <= path@.len(),
    ensures
        lookup(node@, path_view(path@).skip(depth as int)) is None ==> r is None,
        lookup(node@, path_view(path@).skip(depth as int)) matches Some(v) ==> r is Some
            && (*r->0)@ == v,
    decreases path@.len() - depth,
{
    broadcast use lemma_inode_view;

    let ghost rest = path_view(path@).skip(depth as int);
    if depth == path.len() {
        assert(rest.len() == 0);
        return Some(node);
    }
    assert(rest[0] == path@[depth as int]@);
    assert(rest.drop_first() =~= path_view(path@).skip(depth + 1));
    match find_dir_child(node, &path[depth]) {
        None => None,
        Some(idx) => {
            assert(node@.children[idx as int] == node.children@[idx as int]@);
            node_at(&node.children[idx], path, depth + 1)
        },
    }
}

/// Whether `s` holds the character `/`.
fn contains_slash(s: &str) -> (r: bool)
    ensures
        r == s@.contains('/'),
{
    let n = s.unicode_len();
    let mut i: usize = 0;
    while i < n
        invariant
            n == s@.len(),
            i <= n,
            forall|j: int| 0 <= j < i ==> s@[j] != '/',
        decreases n - i,
    {
        if s.get_char(i) == '/' {
            return true;
        }
        i = i + 1;
    }
    false
}

impl FileSystem {
    /// The current directory, borrowed mutably.
    fn get_node_mut<'a>(root: &'a mut Inode, path: &[String]) -> (r: Option<&'a mut Inode>)
        ensures
            lookup(old(root)@, path_view(path@)) is None ==> r is None && final(root)@ == old(root)@,
            lookup(old(root)@, path_view(path@)) matches Some(v) ==> r is Some && (*r->0)@ == v,
            r is Some ==> final(root)@ == replace_at(old(root)@, path_view(path@), (*final(r->0))@),
    {
        assert(path_view(path@).skip(0) =~= path_view(path@));
        node_at_mut(root, path, 0)
    }

    /// Creates an empty directory `name` in the current directory.
    pub fn mkdir(&mut self, name: &str) -> (r: Result<(), &'static str>)
        ensures
            (final(self)@, r) == mkdir_outcome(old(self)@, name@),
    {
        broadcast use lemma_inode_view;

        let name_s = String::from_str(name);
        match Self::get_node_mut(&mut self.root, self.current_path.as_slice()) {
            None => Err("Diretorio atual invalido"),
            Some(node) => {
                let ghost before = node@;
                proof {
                    lemma_replace_same(old(self)@.root, old(self)@.cwd);
                }
                if find_named_child(node, &name_s).is_some() {
                    return Err("Item ja existe");
                }
                let dir = Inode {
                    name: name_s,
                    file_type: FileType::Directory,
                    content: Vec::new(),
                    children: Vec::new(),
                };
                assert(dir@.name == dir.name@);
                assert(dir@.children =~= Seq::<NodeView>::empty());
                assert(dir@ == empty_dir(name@));
                node.children.push(dir);
                assert(node@.children =~= before.children.push(empty_dir(name@)));
                Ok(())
            },
        }
    }
}

impl FileSystem {
    /// Creates the file `name` holding `content` in the current directory, or
    /// replaces the content of the file of that name there.
    pub fn touch(&mut self, name: &str, content: &[u8]) -> (r: Result<(), &'static str>)
        ensures
            (final(self)@, r) == touch_outcome(old(self)@, name@, content@),
    {
        broadcast use lemma_inode_view;

        let name_s = String::from_str(name);
        match Self::get_node_mut(&mut self.root, self.current_path.as_slice()) {
            None => Err("Diretorio atual invalido"),
            Some(node) => {
                let ghost before = node@;
                proof {
                    lemma_replace_same(old(self)@.root, old(self)@.cwd);
                }
                match find_named_child(node, &name_s) {
                    Some(i) => {
                        proof {
                            lemma_view_child_update(*node, i as int);
                        }
                        assert(node@.children[i as int] == node.children@[i as int]@);
                        let child = &mut node.children[i];
                        assert(child@.is_dir == (child.file_type is Directory));
                        match child.file_type {
                            FileType::File => {
                                let ghost cb = child@;
                                child.content = vstd::slice::slice_to_vec(content);
                                assert(child@.children =~= cb.children);
                                assert(child@ == NodeView { content: content@, ..cb });
                                Ok(())
                            },
                            FileType::Directory => Err("Diretorio com mesmo nome ja existe"),
                        }
                    },
                    None => {
                        let file = Inode {
                            name: name_s,
                            file_type: FileType::File,
                            content: vstd::slice::slice_to_vec(content),
                            children: Vec::new(),
                        };
                        assert(file@.name == file.name@);
                        assert(file@.children =~= Seq::<NodeView>::empty());
                        assert(file@ == new_file(name@, content@));
                        node.children.push(file);
                        assert(node@.children =~= before.children.push(new_file(name@, content@)));
                        Ok(())
                    },
                }
            },
        }
    }

    /// The content of the file `name` in the current directory.
    pub fn cat(&mut self, name: &str) -> (r: Result<Vec<u8>, &'static str>)
        ensures
            final(self)@ == old(self)@,
            match r {
                Ok(v) => cat_outcome(old(self)@, name@) == Ok::<Seq<u8>, &str>(v@),
                Err(e) => cat_outcome(old(self)@, name@) == Err::<Seq<u8>, &str>(e),
            },
    {
        broadcast use lemma_inode_view;

        let name_s = String::from_str(name);
        assert(path_view(self.current_path@).skip(0) =~= path_view(self.current_path@));
        match node_at(&self.root, self.current_path.as_slice(), 0) {
            None => Err("Diretorio atual invalido"),
            Some(node) => match find_named_child(node, &name_s) {
                Some(i) => {
                    let child = &node.children[i];
                    assert(node@.children[i as int] == child@);
                    assert(child@.content == child.content@);
                    match child.file_type {
                        FileType::File => Ok(vstd::slice::slice_to_vec(child.content.as_slice())),
                        FileType::Directory => Err("Nao e um arquivo"),
                    }
                },
                None => Err("Arquivo nao encontrado"),
            },
        }
    }

    /// Renames the first item `src` of the current directory to `dest` and
    /// moves it after the other items.
    pub fn mv(&mut self, src: &str, dest: &str) -> (r: Result<(), &'static str>)
        ensures
            (final(self)@, r) == mv_outcome(old(self)@, src@, dest@),
    {
        broadcast use lemma_inode_view;

        let src_s = String::from_str(src);
        match Self::get_node_mut(&mut self.root, self.current_path.as_slice()) {
            None => Err("Diretorio atual invalido"),
            Some(node) => {
                let ghost before = node@;
                proof {
                    lemma_replace_same(old(self)@.root, old(self)@.cwd);
                }
                match find_named_child(node, &src_s) {
                    None => Err("Origem nao encontrada"),
                    Some(idx) => {
                        assert(node@.children[idx as int] == node.children@[idx as int]@);
                        let mut item = node.children.remove(idx);
                        let ghost item_view = item@;
                        if contains_slash(dest) {
                            node.children.insert(idx, item);
                            assert(node@.children =~= before.children);
                            return Err("Mover para outros caminhos nao implementado");
                        }
                        item.name = String::from_str(dest);
                        assert(item@.children =~= item_view.children);
                        assert(item@ == NodeView { name: dest@, ..item_view });
                        node.children.push(item);
                        assert(node@.children =~= before.children.remove(idx as int).push(
                            NodeView { name: dest@, ..item_view },
                        ));
                        Ok(())
                    },
                }
            },
        }
    }

    /// The items of the current directory: each name, and whether it is a
    /// directory.
    pub fn ls(&mut self) -> (r: Vec<(String, bool)>)
        ensures
            final(self)@ == old(self)@,
            r@.map_values(|e: (String, bool)| (e.0@, e.1)) == ls_outcome(old(self)@),
    {
        broadcast use lemma_inode_view;

        assert(path_view(self.current_path@).skip(0) =~= path_view(self.current_path@));
        let mut out: Vec<(String, bool)> = Vec::new();
        match node_at(&self.root, self.current_path.as_slice(), 0) {
            None => {},
            Some(node) => {
                let mut i: usize = 0;
                while i < node.children.len()
                    invariant
                        i <= node.children.len(),
                        out@.len() == i,
                        forall|j: int|
                            0 <= j < i ==> (#[trigger] out@[j]).0@ == node@.children[j].name
                                && out@[j].1 == node@.children[j].is_dir,
                    decreases node.children.len() - i,
                {
                    let c = &node.children[i];
                    assert(node@.children[i as int] == c@);
                    assert(c@.name == c.name@);
                    let is_dir = match c.file_type {
                        FileType::Directory => true,
                        FileType::File => false,
                    };
                    out.push((c.name.clone(), is_dir));
                    i = i + 1;
                }
            },
        }
        out
    }
}

/// The absolute path `p` written with a `/` before each name.
pub open spec fn joined(p: Seq<Seq<char>>) -> Seq<char>
    decreases p.len(),
{
    if p.len() == 0 {
        Seq::empty()
    } else {
        joined(p.drop_last()) + seq!['/'] + p.last()
    }
}

/// The text that names the current directory: `/` for the root.
pub open spec fn pwd_text(cwd: Seq<Seq<char>>) -> Seq<char> {
    if cwd.len() == 0 {
        seq!['/']
    } else {
        joined(cwd)
    }
}

/// The pieces of `s` between the `/` characters, as `str::split('/')` gives
/// them: empty pieces included, and one piece for a text without `/`.
pub open spec fn split_slash(s: Seq<char>) -> Seq<Seq<char>>
    decreases s.len(),
{
    if s.len() == 0 {
        seq![Seq::empty()]
    } else {
        let prev = split_slash(s.drop_last());
        if s.last() == '/' {
            prev.push(Seq::empty())
        } else {
            prev.update(prev.len() - 1, prev.last().push(s.last()))
        }
    }
}

/// One path segment applied to a path: empty and `.` keep it, `..` goes up
/// (but not above the root), any other name goes down.
pub open spec fn step(p: Seq<Seq<char>>, seg: Seq<char>) -> Seq<Seq<char>> {
    if seg.len() == 0 || seg == seq!['.'] {
        p
    } else if seg == seq!['.', '.'] {
        if p.len() > 0 {
            p.drop_last()
        } else {
            p
        }
    } else {
        p.push(seg)
    }
}

/// The segments applied to `p` in order.
pub open spec fn walk(p: Seq<Seq<char>>, segs: Seq<Seq<char>>) -> Seq<Seq<char>>
    decreases segs.len(),
{
    if segs.len() == 0 {
        p
    } else {
        step(walk(p, segs.drop_last()), segs.last())
    }
}

/// The path that `target` names from the directory `cwd`: from the root if it
/// starts with `/`, else from `cwd`.
pub open spec fn cd_target(cwd: Seq<Seq<char>>, target: Seq<char>) -> Seq<Seq<char>> {
    let start = if target.len() > 0 && target[0] == '/' {
        Seq::empty()
    } else {
        cwd
    };
    walk(start, split_slash(target))
}

/// What `cd(target)` does: `.` stays, `..` goes up (not above the root),
/// any other target goes to the directory it names if there is one.
pub open spec fn cd_outcome(fs: FsView, target: Seq<char>) -> (FsView, Result<(), &'static str>) {
    if target == seq!['.'] {
        (fs, Ok(()))
    } else if target == seq!['.', '.'] {
        (FsView { cwd: if fs.cwd.len() > 0 { fs.cwd.drop_last() } else { fs.cwd }, ..fs }, Ok(()))
    } else if lookup(fs.root, cd_target(fs.cwd, target)) is Some {
        (FsView { cwd: cd_target(fs.cwd, target), ..fs }, Ok(()))
    } else {
        (fs, Err("Diretorio nao encontrado"))
    }
}

pub proof fn lemma_split_slash_len(s: Seq<char>)
    ensures
        split_slash(s).len() >= 1,
    decreases s.len(),
{
    if s.len() > 0 {
        lemma_split_slash_len(s.drop_last());
    }
}

/// Applies one path segment to `path`.
fn apply_segment(path: &mut Vec<String>, seg: &str)
    ensures
        path_view(final(path)@) == step(path_view(old(path)@), seg@),
{
    let len = seg.unicode_len();
    if len == 0 {
        return;
    }
    if len == 1 && seg.get_char(0) == '.' {
        assert(seg@ =~= seq!['.']);
        return;
    }
    if len == 2 && seg.get_char(0) == '.' && seg.get_char(1) == '.' {
        assert(seg@ =~= seq!['.', '.']);
        if path.len() > 0 {
            path.pop();
            assert(path_view(path@) =~= path_view(old(path)@).drop_last());
        }
        return;
    }
    assert(seg@ != seq!['.']);
    assert(seg@ != seq!['.', '.']);
    path.push(String::from_str(seg));
    assert(path_view(path@) =~= path_view(old(path)@).push(seg@));
}

impl FileSystem {
    /// An empty file system: a root directory with no name and nothing in it,
    /// which is also the current directory.
    pub fn new() -> (r: FileSystem)
        ensures
            r@.root == empty_dir(Seq::empty()),
            r@.cwd.len() == 0,
    {
        broadcast use lemma_inode_view;

        let fs = FileSystem {
            root: Inode {
                name: String::new(),
                file_type: FileType::Directory,
                content: Vec::new(),
                children: Vec::new(),
            },
            current_path: Vec::new(),
        };
        assert(fs.root@.name == fs.root.name@);
        assert(fs.root@.children =~= Seq::<NodeView>::empty());
        assert(fs@.cwd =~= Seq::<Seq<char>>::empty());
        fs
    }

    /// The path of the current directory as text.
    pub fn pwd(&self) -> (r: String)
        ensures
            r@ == pwd_text(self@.cwd),
    {
        if self.current_path.len() == 0 {
            let r = String::from_str("/");
            proof {
                reveal_strlit("/");
            }
            assert(r@ =~= seq!['/']);
            return r;
        }
        let mut result = String::new();
        let mut i: usize = 0;
        proof {
            reveal_strlit("/");
        }
        while i < self.current_path.len()
            invariant
                i <= self.current_path.len(),
                result@ == joined(path_view(self.current_path@).take(i as int)),
                "/"@ == seq!['/'],
            decreases self.current_path.len() - i,
        {
            let ghost p = path_view(self.current_path@);
            assert(p.take(i + 1).drop_last() =~= p.take(i as int));
            result.append("/");
            result.append(self.current_path[i].as_str());
            i = i + 1;
            assert(result@ =~= joined(p.take(i as int)));
        }
        assert(path_view(self.current_path@).take(i as int) =~= path_view(self.current_path@));
        result
    }

    /// Changes the current directory to the one that `target` names.
    pub fn cd(&mut self, target: &str) -> (r: Result<(), &'static str>)
        ensures
            (final(self)@, r) == cd_outcome(old(self)@, target@),
    {
        let n = target.unicode_len();
        if n == 1 && target.get_char(0) == '.' {
            assert(target@ =~= seq!['.']);
            return Ok(());
        }
        if n == 2 && target.get_char(0) == '.' && target.get_char(1) == '.' {
            assert(target@ =~= seq!['.', '.']);
            if self.current_path.len() > 0 {
                self.current_path.pop();
                assert(path_view(self.current_path@) =~= path_view(old(self).current_path@).drop_last());
            }
            return Ok(());
        }
        assert(target@ != seq!['.']);
        assert(target@ != seq!['.', '.']);
        let ghost t = target@;
        let absolute = n > 0 && target.get_char(0) == '/';
        let mut test_path: Vec<String> = if absolute {
            Vec::new()
        } else {
            self.current_path.clone()
        };
        let ghost start = if t.len() > 0 && t[0] == '/' {
            Seq::<Seq<char>>::empty()
        } else {
            path_view(self.current_path@)
        };
        assert(path_view(test_path@) =~= start);
        let mut seg_start: usize = 0;
        let mut i: usize = 0;
        assert(t.take(0) =~= Seq::<char>::empty());
        assert(t.subrange(0, 0) =~= Seq::<char>::empty());
        while i < n
            invariant
                n == t.len(),
                t == target@,
                seg_start <= i <= n,
                split_slash(t.take(i as int)).len() >= 1,
                path_view(test_path@) == walk(start, split_slash(t.take(i as int)).drop_last()),
                split_slash(t.take(i as int)).last() == t.subrange(seg_start as int, i as int),
            decreases n - i,
        {
            let ghost sp = split_slash(t.take(i as int));
            assert(t.take(i + 1).drop_last() =~= t.take(i as int));
            assert(t.take(i + 1).last() == t[i as int]);
            let c = target.get_char(i);
            if c == '/' {
                let seg = target.substring_char(seg_start, i);
                apply_segment(&mut test_path, seg);
                assert(split_slash(t.take(i + 1)) == sp.push(Seq::empty()));
                assert(sp.push(Seq::<char>::empty()).drop_last() =~= sp);
                assert(sp =~= sp.drop_last().push(sp.last()));
                seg_start = i + 1;
                assert(t.subrange(seg_start as int, i + 1) =~= Seq::<char>::empty());
            } else {
                let ghost sp2 = sp.update(sp.len() - 1, sp.last().push(c));
                assert(split_slash(t.take(i + 1)) == sp2);
                assert(sp2.drop_last() =~= sp.drop_last());
                assert(sp2.last() =~= t.subrange(seg_start as int, i + 1));
            }
            i = i + 1;
            proof {
                lemma_split_slash_len(t.take(i as int));
            }
        }
        let seg = target.substring_char(seg_start, n);
        apply_segment(&mut test_path, seg);
        assert(t.take(n as int) =~= t);
        proof {
            let sp = split_slash(t);
            assert(sp =~= sp.drop_last().push(sp.last()));
        }
        assert(path_view(test_path@) == cd_target(path_view(self.current_path@), t));
        assert(path_view(test_path@).skip(0) =~= path_view(test_path@));
        if node_at(&self.root, test_path.as_slice(), 0).is_some() {
            self.current_path = test_path;
            Ok(())
        } else {
            Err("Diretorio nao encontrado")
        }
    }
}

/// The first directory named `name` is at `i` when `i` holds one and no
/// earlier child does.
pub proof fn lemma_first_dir_at(s: Seq<NodeView>, name: Seq<char>, i: int)
    requires
        0 <= i < s.len(),
        is_dir_named(s[i], name),
        forall|j: int| 0 <= j < i ==> !is_dir_named(#[trigger] s[j], name),
    ensures
        first_dir_from(s, name, 0) == Some(i),
{
    lemma_first_dir_from(s, name, 0);
    match first_dir_from(s, name, 0) {
        Some(k) => {
            if k < i {
                assert(!is_dir_named(s[k], name));
            } else if k > i {
                assert(!is_dir_named(s[i], name));
            }
        },
        None => {
            assert(!is_dir_named(s[i], name));
        },
    }
}

/// Without a child named `name` there is no directory named `name`.
pub proof fn lemma_no_named_no_dir(n: NodeView, name: Seq<char>)
    requires
        named_index(n, name) is None,
    ensures
        dir_index(n, name) is None,
{
    lemma_first_named_from(n.children, name, 0);
    lemma_first_dir_from(n.children, name, 0);
    if let Some(i) = dir_index(n, name) {
        assert(is_named(n.children[i], name));
    }
}

/// Replacing below the top keeps the name and kind of the top node.
pub proof fn lemma_replace_keeps_top(n: NodeView, path: Seq<Seq<char>>, x: NodeView)
    requires
        path.len() > 0,
    ensures
        replace_at(n, path, x).name == n.name,
        replace_at(n, path, x).is_dir == n.is_dir,
{
}

/// The node that a replacement may put at `path` keeps the name and kind of
/// the node it replaces, so that `path` still reaches it.
pub open spec fn fits_at(n: NodeView, path: Seq<Seq<char>>, x: NodeView) -> bool {
    &&& lookup(n, path) is Some
    &&& path.len() > 0 ==> x.name == lookup(n, path)->0.name && x.is_dir == lookup(n, path)->0.is_dir
}

/// Following a path one name further.
pub proof fn lemma_lookup_push(n: NodeView, p: Seq<Seq<char>>, k: Seq<char>)
    ensures
        lookup(n, p.push(k)) == match lookup(n, p) {
            Some(d) => match dir_index(d, k) {
                Some(i) => Some(d.children[i]),
                None => None,
            },
            None => None,
        },
    decreases p.len(),
{
    if p.len() == 0 {
        let pk = p.push(k);
        assert(pk.drop_first() =~= Seq::<Seq<char>>::empty());
        assert(pk[0] == k);
        if let Some(i) = dir_index(n, k) {
            assert(lookup(n.children[i], pk.drop_first()) == Some(n.children[i]));
        }
    } else {
        assert(p.push(k).drop_first() =~= p.drop_first().push(k));
        assert(p.push(k)[0] == p[0]);
        if let Some(i) = dir_index(n, p[0]) {
            lemma_lookup_push(n.children[i], p.drop_first(), k);
        }
    }
}

/// Law (a read gives back a write): after the node at `path` is replaced by
/// `x`, `path` reaches `x`.
pub proof fn lemma_lookup_replace(n: NodeView, path: Seq<Seq<char>>, x: NodeView)
    requires
        fits_at(n, path, x),
    ensures
        lookup(replace_at(n, path, x), path) == Some(x),
    decreases path.len(),
{
    if path.len() > 0 {
        let i = dir_index(n, path[0])->0;
        let rest = path.drop_first();
        lemma_first_dir_from(n.children, path[0], 0);
        let c2 = replace_at(n.children[i], rest, x);
        if rest.len() > 0 {
            lemma_replace_keeps_top(n.children[i], rest, x);
        }
        let s2 = n.children.update(i, c2);
        assert forall|j: int| 0 <= j < i implies !is_dir_named(#[trigger] s2[j], path[0]) by {
            assert(s2[j] == n.children[j]);
        }
        lemma_first_dir_at(s2, path[0], i);
        lemma_lookup_replace(n.children[i], rest, x);
    }
}

/// Law (writes compose): replacing at `p` and then below it equals one
/// replacement at `p` by the node with the lower replacement made in it.
pub proof fn lemma_replace_replace(
    n: NodeView,
    p: Seq<Seq<char>>,
    x: NodeView,
    q: Seq<Seq<char>>,
    y: NodeView,
)
    requires
        fits_at(n, p, x),
    ensures
        replace_at(replace_at(n, p, x), p + q, y) == replace_at(n, p, replace_at(x, q, y)),
    decreases p.len(),
{
    if p.len() == 0 {
        assert(p + q =~= q);
    } else {
        let i = dir_index(n, p[0])->0;
        let rest = p.drop_first();
        lemma_first_dir_from(n.children, p[0], 0);
        let c2 = replace_at(n.children[i], rest, x);
        if rest.len() > 0 {
            lemma_replace_keeps_top(n.children[i], rest, x);
        }
        let s2 = n.children.update(i, c2);
        assert forall|j: int| 0 <= j < i implies !is_dir_named(#[trigger] s2[j], p[0]) by {
            assert(s2[j] == n.children[j]);
        }
        lemma_first_dir_at(s2, p[0], i);
        assert((p + q)[0] == p[0]);
        assert((p + q).drop_first() =~= rest + q);
        lemma_replace_replace(n.children[i], rest, x, q, y);
        assert(s2.update(i, replace_at(c2, rest + q, y)) =~= n.children.update(
            i,
            replace_at(n.children[i], rest, replace_at(x, q, y)),
        ));
    }
}

/// A directory made with `mkdir` is the last item of the current directory
/// afterwards, and the current path followed by its name reaches it.
proof fn lemma_mkdir_reaches(fs: FsView, name: Seq<char>)
    requires
        lookup(fs.root, fs.cwd) is Some,
        named_index(lookup(fs.root, fs.cwd)->0, name) is None,
    ensures
        ({
            let dir = lookup(fs.root, fs.cwd)->0;
            let new_dir = with_child(dir, empty_dir(name));
            let root = replace_at(fs.root, fs.cwd, new_dir);
            &&& lookup(root, fs.cwd) == Some(new_dir)
            &&& named_index(new_dir, name) == Some(dir.children.len() as int)
            &&& lookup(root, fs.cwd.push(name)) == Some(empty_dir(name))
        }),
{
    let dir = lookup(fs.root, fs.cwd)->0;
    let new_dir = with_child(dir, empty_dir(name));
    lemma_lookup_replace(fs.root, fs.cwd, new_dir);
    lemma_first_named_from(dir.children, name, 0);
    lemma_first_dir_from(dir.children, name, 0);
    lemma_lookup_push(replace_at(fs.root, fs.cwd, new_dir), fs.cwd, name);
    let k = dir.children.len() as int;
    assert forall|j: int| 0 <= j < k implies !is_named(#[trigger] new_dir.children[j], name) by {
        assert(new_dir.children[j] == dir.children[j]);
    }
    lemma_first_dir_at(new_dir.children, name, k);
    lemma_first_named_from(new_dir.children, name, 0);
    match named_index(new_dir, name) {
        Some(m) => {
            if m < k {
                assert(!is_named(new_dir.children[m], name));
            }
        },
        None => {},
    }
}

/// After `touch(name, content)` the current directory holds a file `name`
/// with `content` as the first item of that name.
proof fn lemma_touch_stores(fs: FsView, name: Seq<char>, content: Seq<u8>)
    requires
        lookup(fs.root, fs.cwd) is Some,
        named_index(lookup(fs.root, fs.cwd)->0, name) matches Some(i)
            ==> !lookup(fs.root, fs.cwd)->0.children[i].is_dir,
    ensures
        ({
            let dir = lookup(fs.root, fs.cwd)->0;
            let new_dir = match named_index(dir, name) {
                Some(i) => NodeView {
                    children: dir.children.update(i, NodeView { content, ..dir.children[i] }),
                    ..dir
                },
                None => with_child(dir, new_file(name, content)),
            };
            let root = replace_at(fs.root, fs.cwd, new_dir);
            &&& lookup(root, fs.cwd) == Some(new_dir)
            &&& named_index(new_dir, name) matches Some(j) && !new_dir.children[j].is_dir
                && new_dir.children[j].content == content
        }),
{
    let dir = lookup(fs.root, fs.cwd)->0;
    lemma_first_named_from(dir.children, name, 0);
    let new_dir = match named_index(dir, name) {
        Some(i) => NodeView {
            children: dir.children.update(i, NodeView { content, ..dir.children[i] }),
            ..dir
        },
        None => with_child(dir, new_file(name, content)),
    };
    lemma_lookup_replace(fs.root, fs.cwd, new_dir);
    let j = match named_index(dir, name) {
        Some(i) => i,
        None => dir.children.len() as int,
    };
    assert forall|m: int| 0 <= m < j implies !is_named(#[trigger] new_dir.children[m], name) by {
        assert(new_dir.children[m] == dir.children[m]);
    }
    lemma_first_named_from(new_dir.children, name, 0);
    match named_index(new_dir, name) {
        Some(m) => {
            if m < j {
                assert(!is_named(new_dir.children[m], name));
            } else if m > j {
                assert(!is_named(new_dir.children[j], name));
            }
        },
        None => {
            assert(!is_named(new_dir.children[j], name));
        },
    }
}

/// A name that `cd` takes as one step down: not empty, without `/`, and
/// neither `.` nor `..`.
pub open spec fn is_plain_name(name: Seq<char>) -> bool {
    &&& name.len() > 0
    &&& !name.contains('/')
    &&& name != seq!['.']
    &&& name != seq!['.', '.']
}

/// A text without `/` is one piece.
proof fn lemma_split_plain(s: Seq<char>)
    requires
        !s.contains('/'),
    ensures
        split_slash(s) == seq![s],
    decreases s.len(),
{
    if s.len() > 0 {
        let d = s.drop_last();
        assert(!d.contains('/')) by {
            if d.contains('/') {
                let k = choose|k: int| 0 <= k < d.len() && d[k] == '/';
                assert(s[k] == '/');
            }
        }
        lemma_split_slash_len(d);
        lemma_split_plain(d);
        assert(s[s.len() - 1] != '/');
        assert(d.push(s.last()) =~= s);
        assert(seq![d].update(0, d.push(s.last())) =~= seq![s]);
    } else {
        assert(s =~= Seq::<char>::empty());
    }
}

/// `cd` with a plain name steps down into it from the current directory.
proof fn lemma_cd_target_plain(cwd: Seq<Seq<char>>, name: Seq<char>)
    requires
        is_plain_name(name),
    ensures
        cd_target(cwd, name) == cwd.push(name),
{
    lemma_split_plain(name);
    assert(name[0] != '/') by {
        if name[0] == '/' {
            assert(name.contains('/'));
        }
    }
    let segs = seq![name];
    assert(segs.drop_last() =~= Seq::<Seq<char>>::empty());
    assert(walk(cwd, segs) == step(walk(cwd, segs.drop_last()), name));
}

/// Law: after `mkdir(name)` succeeds, `cd(name)` succeeds and enters the new,
/// empty directory.
pub proof fn law_mkdir_then_cd(fs: FsView, name: Seq<char>)
    requires
        is_plain_name(name),
        mkdir_outcome(fs, name).1 is Ok,
    ensures
        ({
            let made = mkdir_outcome(fs, name).0;
            &&& cd_outcome(made, name) == (FsView { cwd: fs.cwd.push(name), ..made }, Ok::<(), &'static str>(()))
            &&& lookup(made.root, fs.cwd.push(name)) == Some(empty_dir(name))
        }),
{
    lemma_mkdir_reaches(fs, name);
    lemma_cd_target_plain(fs.cwd, name);
}

/// Law: after `touch(name, content)` succeeds, `cat(name)` gives `content`.
pub proof fn law_touch_then_cat(fs: FsView, name: Seq<char>, content: Seq<u8>)
    requires
        touch_outcome(fs, name, content).1 is Ok,
    ensures
        cat_outcome(touch_outcome(fs, name, content).0, name) == Ok::<Seq<u8>, &'static str>(content),
{
    lemma_touch_stores(fs, name, content);
}

/// Law: `cd ..` undoes a successful `cd` into a plain name.
pub proof fn law_cd_up_undoes_down(fs: FsView, name: Seq<char>)
    requires
        is_plain_name(name),
        cd_outcome(fs, name).1 is Ok,
    ensures
        cd_outcome(cd_outcome(fs, name).0, seq!['.', '.']) == (fs, Ok::<(), &'static str>(())),
{
    lemma_cd_target_plain(fs.cwd, name);
    assert(fs.cwd.push(name).drop_last() =~= fs.cwd);
}

/// The tree that `init` builds in the directory `dir`.
pub open spec fn initial_tree(dir: NodeView) -> NodeView {
    with_child(
        with_child(
            dir,
            with_child(
                empty_dir("usr"@),
                new_file("readme.txt"@, "Bem vindo ao sistema de arquivos do Rust OS!".spec_bytes()),
            ),
        ),
        empty_dir("home"@),
    )
}

/// Sets up the initial tree in the current directory: a directory `usr`
/// holding `readme.txt`, and an empty directory `home`.
pub fn init(fs: &mut FileSystem)
    requires
        lookup(old(fs)@.root, old(fs)@.cwd) is Some,
        named_index(lookup(old(fs)@.root, old(fs)@.cwd)->0, "usr"@) is None,
        named_index(lookup(old(fs)@.root, old(fs)@.cwd)->0, "home"@) is None,
    ensures
        final(fs)@.cwd == old(fs)@.cwd,
        final(fs)@.root == replace_at(
            old(fs)@.root,
            old(fs)@.cwd,
            initial_tree(lookup(old(fs)@.root, old(fs)@.cwd)->0),
        ),
{
    let ghost root0 = fs@.root;
    let ghost cwd = fs@.cwd;
    let ghost dir = lookup(root0, cwd)->0;
    let ghost usr = "usr"@;
    let ghost home = "home"@;
    proof {
        reveal_strlit("usr");
        reveal_strlit("home");
        reveal_strlit("..");
        assert(usr != home) by {
            assert(usr.len() != home.len());
        }
    }
    let ghost d1 = with_child(dir, empty_dir(usr));
    fs.mkdir("usr").unwrap();
    proof {
        lemma_lookup_replace(root0, cwd, d1);
        lemma_first_named_from(dir.children, home, 0);
        lemma_first_named_from(d1.children, home, 0);
        if let Some(k) = named_index(d1, home) {
            if k < dir.children.len() {
                assert(d1.children[k] == dir.children[k]);
            }
        }
    }
    let ghost d2 = with_child(d1, empty_dir(home));
    fs.mkdir("home").unwrap();
    proof {
        lemma_replace_replace(root0, cwd, d1, Seq::empty(), d2);
        assert(cwd + Seq::<Seq<char>>::empty() =~= cwd);
        lemma_lookup_replace(root0, cwd, d2);
        // `usr` is the first directory of that name in `d2`.
        lemma_no_named_no_dir(dir, usr);
        lemma_first_dir_from(dir.children, usr, 0);
        let k = dir.children.len() as int;
        assert forall|j: int| 0 <= j < k implies !is_dir_named(#[trigger] d2.children[j], usr) by {
            assert(d2.children[j] == dir.children[j]);
        }
        lemma_first_dir_at(d2.children, usr, k);
        lemma_lookup_push(fs@.root, cwd, usr);
        // `cd usr` goes one level down.
        let s0 = Seq::<char>::empty();
        let s1 = seq!['u'];
        let s2 = seq!['u', 's'];
        assert(s1.drop_last() =~= s0);
        assert(s2.drop_last() =~= s1);
        assert(usr.drop_last() =~= s2);
        assert(split_slash(s0) == seq![s0]);
        assert(split_slash(s1) =~= seq![s1]);
        assert(s1.push('s') =~= s2);
        assert(s2.push('r') =~= usr);
        assert(s0.push('u') =~= s1);
        assert(split_slash(s2) =~= seq![s2]);
        assert(split_slash(usr) =~= seq![usr]);
        assert(seq![usr].drop_last() =~= Seq::<Seq<char>>::empty());
        assert(usr != seq!['.']);
        assert(usr != seq!['.', '.']);
        assert(usr[0] != '/');
        assert(walk(cwd, seq![usr]) == step(walk(cwd, Seq::empty()), usr));
        assert(cd_target(cwd, usr) == cwd.push(usr));
        assert(fs@.root == replace_at(root0, cwd, d2));
        assert(lookup(fs@.root, cwd) == Some(d2));
        assert(dir_index(d2, usr) == Some(k));
        assert(lookup(fs@.root, cwd.push(usr)) is Some);
    }
    fs.cd("usr").unwrap();
    assert(fs@.cwd == cwd.push(usr));
    let ghost u = with_child(empty_dir(usr), new_file("readme.txt"@, "Bem vindo ao sistema de arquivos do Rust OS!".spec_bytes()));
    fs.touch("readme.txt", "Bem vindo ao sistema de arquivos do Rust OS!".as_bytes()).unwrap();
    proof {
        lemma_replace_replace(root0, cwd, d2, seq![usr], u);
        assert(cwd + seq![usr] =~= cwd.push(usr));
        let k = dir.children.len() as int;
        assert(d2.children.update(k, u) =~= initial_tree(dir).children);
        assert(seq![usr].drop_first() =~= Seq::<Seq<char>>::empty());
        assert(lookup(root0, cwd) == Some(dir));
        assert(dir_index(d2, usr) == Some(k));
        assert(replace_at(d2.children[k], Seq::empty(), u) == u);
        assert(replace_at(d2, seq![usr], u) == initial_tree(dir));
        assert(fs@.root == replace_at(replace_at(root0, cwd, d2), cwd.push(usr), u));
        assert(".."@ =~= seq!['.', '.']);
        assert(".."@ != seq!['.']) by {
            assert(seq!['.'].len() == 1);
        }
        assert(cwd.push(usr).drop_last() =~= cwd);
    }
    fs.cd("..").unwrap();
    assert(fs@.cwd =~= cwd);
}

/// Law: `mv(src, dest)` succeeds exactly when the current directory exists,
/// holds an item named `src` and `dest` has no `/`; a failed `mv` changes
/// nothing. A successful one keeps the current path, and in the current
/// directory moves the first item named `src` after the others under the
/// name `dest`, keeping its kind, its content and everything it holds; the
/// other items stay, in their order.
pub proof fn law_mv_renames_and_keeps_item(fs: FsView, src: Seq<char>, dest: Seq<char>)
    ensures
        (mv_outcome(fs, src, dest).1 is Ok) <==> (lookup(fs.root, fs.cwd) is Some && named_index(
            lookup(fs.root, fs.cwd)->0,
            src,
        ) is Some && !dest.contains('/')),
        mv_outcome(fs, src, dest).1 is Err ==> mv_outcome(fs, src, dest).0 == fs,
        mv_outcome(fs, src, dest).1 is Ok ==> ({
            let dir = lookup(fs.root, fs.cwd)->0;
            let i = named_index(dir, src)->0;
            let after = mv_outcome(fs, src, dest).0;
            let moved = lookup(after.root, fs.cwd)->0.children.last();
            &&& 0 <= i < dir.children.len()
            &&& dir.children[i].name == src
            &&& forall|j: int| 0 <= j < i ==> dir.children[j].name != src
            &&& after.cwd == fs.cwd
            &&& lookup(after.root, fs.cwd) is Some
            &&& lookup(after.root, fs.cwd)->0.name == dir.name
            &&& lookup(after.root, fs.cwd)->0.children.len() == dir.children.len()
            &&& lookup(after.root, fs.cwd)->0.children.drop_last() == dir.children.remove(i)
            &&& moved.name == dest
            &&& moved.is_dir == dir.children[i].is_dir
            &&& moved.content == dir.children[i].content
            &&& moved.children == dir.children[i].children
        }),
{
    if let Some(dir) = lookup(fs.root, fs.cwd) {
        lemma_first_named_from(dir.children, src, 0);
        if let Some(i) = named_index(dir, src) {
            if !dest.contains('/') {
                let new_dir = NodeView {
                    children: dir.children.remove(i).push(NodeView { name: dest, ..dir.children[i] }),
                    ..dir
                };
                lemma_lookup_replace(fs.root, fs.cwd, new_dir);
                assert(new_dir.children.drop_last() =~= dir.children.remove(i));
                assert forall|j: int| 0 <= j < i implies dir.children[j].name != src by {
                    assert(!is_named(dir.children[j], src));
                }
            }
        }
    }
}

/// A text without `/` added to the end of `u` extends the last piece of `u`.
proof fn lemma_split_append_plain(u: Seq<char>, t: Seq<char>)
    requires
        !t.contains('/'),
    ensures
        split_slash(u + t) == split_slash(u).update(
            split_slash(u).len() - 1,
            split_slash(u).last() + t,
        ),
        split_slash(u + t).len() == split_slash(u).len(),
    decreases t.len(),
{
    lemma_split_slash_len(u);
    let sp = split_slash(u);
    if t.len() == 0 {
        assert(u + t =~= u);
        assert(sp.last() + t =~= sp.last());
        assert(sp.update(sp.len() - 1, sp.last()) =~= sp);
    } else {
        let d = t.drop_last();
        assert(!d.contains('/')) by {
            if d.contains('/') {
                let k = choose|k: int| 0 <= k < d.len() && d[k] == '/';
                assert(t[k] == '/');
            }
        }
        lemma_split_append_plain(u, d);
        assert((u + t).drop_last() =~= u + d);
        assert((u + t).last() == t.last());
        assert(t.last() != '/') by {
            assert(t[t.len() - 1] == t.last());
        }
        let prev = split_slash(u + d);
        assert(prev.last() == sp.last() + d);
        assert((sp.last() + d).push(t.last()) =~= sp.last() + t);
        assert(prev.update(prev.len() - 1, prev.last().push(t.last())) =~= sp.update(
            sp.len() - 1,
            sp.last() + t,
        ));
    }
}

/// The pieces of `a/b` for names `a` and `b` without `/`.
proof fn lemma_split_two(a: Seq<char>, b: Seq<char>)
    requires
        !a.contains('/'),
        !b.contains('/'),
    ensures
        split_slash(a + seq!['/'] + b) == seq![a, b],
{
    lemma_split_plain(a);
    let u = a + seq!['/'];
    assert(u.drop_last() =~= a);
    assert(u.last() == '/');
    assert(split_slash(u) == seq![a].push(Seq::<char>::empty()));
    assert(split_slash(u) =~= seq![a, Seq::<char>::empty()]);
    lemma_split_append_plain(u, b);
    assert(Seq::<char>::empty() + b =~= b);
    assert(seq![a, Seq::<char>::empty()].update(1, Seq::<char>::empty() + b) =~= seq![a, b]);
}

/// Law: a relative path `a/b` of two plain names is taken from the current
/// directory: `cd` goes to the current path followed by `a` and `b` if that
/// directory exists, and otherwise fails and changes nothing.
pub proof fn law_cd_relative_path(fs: FsView, a: Seq<char>, b: Seq<char>)
    requires
        is_plain_name(a),
        is_plain_name(b),
    ensures
        cd_outcome(fs, a + seq!['/'] + b) == if lookup(fs.root, fs.cwd.push(a).push(b)) is Some {
            (FsView { cwd: fs.cwd.push(a).push(b), ..fs }, Ok::<(), &'static str>(()))
        } else {
            (fs, Err::<(), &'static str>("Diretorio nao encontrado"))
        },
{
    let t = a + seq!['/'] + b;
    lemma_split_two(a, b);
    assert(t[0] == a[0]);
    assert(a[0] != '/') by {
        if a[0] == '/' {
            assert(a.contains('/'));
        }
    }
    assert(t.len() >= 3);
    assert(t != seq!['.']) by {
        assert(seq!['.'].len() == 1);
    }
    assert(t != seq!['.', '.']) by {
        assert(seq!['.', '.'].len() == 2);
    }
    let segs = seq![a, b];
    assert(segs.drop_last() =~= seq![a]);
    assert(seq![a].drop_last() =~= Seq::<Seq<char>>::empty());
    assert(walk(fs.cwd, seq![a]) == step(walk(fs.cwd, Seq::empty()), a));
    assert(walk(fs.cwd, segs) == step(walk(fs.cwd, seq![a]), b));
    assert(cd_target(fs.cwd, t) == fs.cwd.push(a).push(b));
}

/// Law: an absolute path `/a` of a plain name goes to the directory `a` of
/// the root, whatever the current directory, if it exists, and otherwise
/// fails and changes nothing.
pub proof fn law_cd_absolute_name(fs: FsView, a: Seq<char>)
    requires
        is_plain_name(a),
    ensures
        cd_outcome(fs, seq!['/'] + a) == if lookup(fs.root, seq![a]) is Some {
            (FsView { cwd: seq![a], ..fs }, Ok::<(), &'static str>(()))
        } else {
            (fs, Err::<(), &'static str>("Diretorio nao encontrado"))
        },
{
    let t = seq!['/'] + a;
    let u = seq!['/'];
    assert(u.drop_last() =~= Seq::<char>::empty());
    assert(split_slash(Seq::<char>::empty()) == seq![Seq::<char>::empty()]);
    assert(split_slash(u) == seq![Seq::<char>::empty()].push(Seq::<char>::empty()));
    lemma_split_append_plain(u, a);
    assert(Seq::<char>::empty() + a =~= a);
    assert(split_slash(t) =~= seq![Seq::<char>::empty(), a]);
    assert(t[0] == '/');
    assert(t != seq!['.']) by {
        assert(seq!['.'][0] == '.');
    }
    assert(t != seq!['.', '.']) by {
        assert(seq!['.', '.'][0] == '.');
    }
    let segs = seq![Seq::<char>::empty(), a];
    let e = Seq::<Seq<char>>::empty();
    assert(segs.drop_last() =~= seq![Seq::<char>::empty()]);
    assert(seq![Seq::<char>::empty()].drop_last() =~= e);
    assert(walk(e, seq![Seq::<char>::empty()]) == step(walk(e, e), Seq::<char>::empty()));
    assert(walk(e, segs) == step(walk(e, seq![Seq::<char>::empty()]), a));
    assert(e.push(a) =~= seq![a]);
    assert(cd_target(fs.cwd, t) == seq![a]);
}

/// Law: `mkdir(name)` succeeds exactly when the current directory exists
/// and holds no item named `name`; a failed `mkdir` changes nothing. After a
/// successful one the current path is the same and `ls` lists what it listed
/// before followed by the directory `name`.
pub proof fn law_mkdir_then_ls(fs: FsView, name: Seq<char>)
    ensures
        (mkdir_outcome(fs, name).1 is Ok) <==> (lookup(fs.root, fs.cwd) is Some && named_index(
            lookup(fs.root, fs.cwd)->0,
            name,
        ) is None),
        mkdir_outcome(fs, name).1 is Err ==> mkdir_outcome(fs, name).0 == fs,
        mkdir_outcome(fs, name).1 is Ok ==> mkdir_outcome(fs, name).0.cwd == fs.cwd && ls_outcome(
            mkdir_outcome(fs, name).0,
        ) == ls_outcome(fs).push((name, true)),
{
    if mkdir_outcome(fs, name).1 is Ok {
        lemma_mkdir_reaches(fs, name);
        let dir = lookup(fs.root, fs.cwd)->0;
        let f = |c: NodeView| (c.name, c.is_dir);
        assert(dir.children.push(empty_dir(name)).map_values(f) =~= dir.children.map_values(f).push(
            (name, true),
        ));
    }
}

/// Law: `touch(name, content)` succeeds exactly when the current directory
/// exists and its first item named `name`, if any, is a file; a failed
/// `touch` changes nothing. After a successful one the current path is the
/// same, and `ls` lists what it listed before, followed by the file `name`
/// when there was no item of that name.
pub proof fn law_touch_then_ls(fs: FsView, name: Seq<char>, content: Seq<u8>)
    ensures
        (touch_outcome(fs, name, content).1 is Ok) <==> (lookup(fs.root, fs.cwd) is Some && match named_index(
            lookup(fs.root, fs.cwd)->0,
            name,
        ) {
            Some(i) => !lookup(fs.root, fs.cwd)->0.children[i].is_dir,
            None => true,
        }),
        touch_outcome(fs, name, content).1 is Err ==> touch_outcome(fs, name, content).0 == fs,
        touch_outcome(fs, name, content).1 is Ok ==> touch_outcome(fs, name, content).0.cwd == fs.cwd
            && ls_outcome(touch_outcome(fs, name, content).0) == if named_index(
            lookup(fs.root, fs.cwd)->0,
            name,
        ) is None {
            ls_outcome(fs).push((name, false))
        } else {
            ls_outcome(fs)
        },
{
    if touch_outcome(fs, name, content).1 is Ok {
        let dir = lookup(fs.root, fs.cwd)->0;
        lemma_first_named_from(dir.children, name, 0);
        let new_dir = match named_index(dir, name) {
            Some(i) => NodeView {
                children: dir.children.update(i, NodeView { content, ..dir.children[i] }),
                ..dir
            },
            None => with_child(dir, new_file(name, content)),
        };
        lemma_lookup_replace(fs.root, fs.cwd, new_dir);
        let f = |c: NodeView| (c.name, c.is_dir);
        match named_index(dir, name) {
            Some(i) => {
                assert(new_dir.children.map_values(f) =~= dir.children.map_values(f));
            },
            None => {
                assert(new_dir.children.map_values(f) =~= dir.children.map_values(f).push((name, false)));
            },
        }
    }
}

/// Law: after a successful `mv(src, dest)`, `ls` lists what it listed
/// before, without the first item named `src`, followed by that item under
/// the name `dest`.
pub proof fn law_mv_then_ls(fs: FsView, src: Seq<char>, dest: Seq<char>)
    requires
        mv_outcome(fs, src, dest).1 is Ok,
    ensures
        ({
            let i = named_index(lookup(fs.root, fs.cwd)->0, src)->0;
            let items = ls_outcome(fs);
            ls_outcome(mv_outcome(fs, src, dest).0) == items.remove(i).push((dest, items[i].1))
        }),
{
    law_mv_renames_and_keeps_item(fs, src, dest);
    let dir = lookup(fs.root, fs.cwd)->0;
    let i = named_index(dir, src)->0;
    let new_dir = NodeView {
        children: dir.children.remove(i).push(NodeView { name: dest, ..dir.children[i] }),
        ..dir
    };
    lemma_lookup_replace(fs.root, fs.cwd, new_dir);
    let f = |c: NodeView| (c.name, c.is_dir);
    assert(new_dir.children.map_values(f) =~= dir.children.map_values(f).remove(i).push(
        (dest, dir.children[i].is_dir),
    ));
}

/// Law: `pwd` shows the root as `/`, and one name further down as what it
/// showed before (nothing for the root) followed by `/` and the name.
pub proof fn law_pwd_one_level_down(cwd: Seq<Seq<char>>, name: Seq<char>)
    ensures
        pwd_text(Seq::empty()) == seq!['/'],
        pwd_text(cwd.push(name)) == (if cwd.len() == 0 {
            Seq::<char>::empty()
        } else {
            pwd_text(cwd)
        }) + seq!['/'] + name,
{
    assert(cwd.push(name).drop_last() =~= cwd);
    if cwd.len() == 0 {
        assert(joined(cwd) == Seq::<char>::empty());
    }
}

} // verus!
