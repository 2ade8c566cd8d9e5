//! Arena-based file tree: every node lives in one `Vec`, names and
//! extensions live in one byte arena, and nodes refer to each other by index.

use vstd::prelude::*;
use vstd::utf8::{decode_utf8, encode_utf8, valid_utf8};
use vstd::string::StringSliceAdditionalSpecFns;
use std::time::SystemTime;
use crate::clock::now;
use crate::text::{utf8_lossy, utf8_str, lossy_utf8};
use crate::sorting::{order_by_keys, is_key_order, key_before};

verus! {

/// Index of a node in a [`FileTree`].
pub type NodeId = usize;

/// Compact reference into a [`StringArena`]: an offset and a length.
#[derive(Copy, Clone, Debug)]
pub struct StrRef {
    offset: u32,
    len: u32,
}

impl StrRef {
    /// First byte of the referenced range.
    pub closed spec fn start(self) -> nat {
        self.offset as nat
    }

    /// Number of referenced bytes.
    pub closed spec fn count(self) -> nat {
        self.len as nat
    }

    /// The empty string at the start of the arena.
    pub fn empty() -> (r: StrRef)
        ensures
            r.start() == 0,
            r.count() == 0,
    {
        StrRef { offset: 0, len: 0 }
    }
}

/// Bump arena holding the raw bytes of all names and extensions.
#[derive(Debug, Default)]
pub struct StringArena {
    buf: Vec<u8>,
}

impl StringArena {
    /// The bytes held so far.
    pub closed spec fn bytes(&self) -> Seq<u8> {
        self.buf@
    }

    /// The reference lies within the arena.
    pub open spec fn holds(&self, r: StrRef) -> bool {
        r.start() + r.count() <= self.bytes().len()
    }

    /// The bytes a reference stands for.
    pub open spec fn slice(&self, r: StrRef) -> Seq<u8> {
        self.bytes().subrange(r.start() as int, (r.start() + r.count()) as int)
    }

    pub fn new() -> (a: Self)
        ensures
            a.bytes() == Seq::<u8>::empty(),
    {
        StringArena { buf: Vec::new() }
    }

    /// Appends `b` and returns a reference to it. The offset and the length
    /// are stored as `u32`, cut to their low 32 bits.
    pub fn intern_bytes(&mut self, b: &[u8]) -> (r: StrRef)
        ensures
            final(self).bytes() == old(self).bytes() + b@,
            r.start() == (old(self).bytes().len() as u32) as nat,
            r.count() == (b@.len() as u32) as nat,
    {
        let offset = self.buf.len() as u32;
        let ghost before = self.buf@;
        self.buf.extend_from_slice(b);
        assert(self.buf@ =~= before + b@);
        StrRef { offset, len: b.len() as u32 }
    }

    /// Appends the UTF-8 bytes of `s`.
    pub fn intern_str(&mut self, s: &str) -> (r: StrRef)
        ensures
            final(self).bytes() == old(self).bytes() + s.spec_bytes(),
            r.start() == (old(self).bytes().len() as u32) as nat,
            r.count() == (s.spec_bytes().len() as u32) as nat,
    {
        self.intern_bytes(s.as_bytes())
    }

    /// The bytes a reference stands for.
    pub fn get(&self, r: StrRef) -> (s: &[u8])
        requires
            self.holds(r),
        ensures
            s@ == self.slice(r),
    {
        let start = r.offset as usize;
        let n = self.buf.len();
        assert(start + r.len <= n);
        let end = start + r.len as usize;
        &self.buf[start..end]
    }
}

/// Reading back a reference that interning returned gives the bytes that
/// were interned, while the arena stays within the 32-bit offsets.
pub proof fn lemma_arena_round_trip(before: StringArena, after: StringArena, b: Seq<u8>, r: StrRef)
    requires
        after.bytes() == before.bytes() + b,
        r.start() == (before.bytes().len() as u32) as nat,
        r.count() == (b.len() as u32) as nat,
        before.bytes().len() + b.len() <= u32::MAX,
    ensures
        after.holds(r),
        after.slice(r) == b,
{
    assert(after.slice(r) =~= b);
}

/// Interning more bytes keeps every earlier reference, and what it reads.
pub proof fn lemma_arena_append_keeps(before: StringArena, after: StringArena, more: Seq<u8>, r: StrRef)
    requires
        after.bytes() == before.bytes() + more,
        before.holds(r),
    ensures
        after.holds(r),
        after.slice(r) == before.slice(r),
{
    assert(after.slice(r) =~= before.slice(r));
}

/// One file or directory.
#[derive(Debug)]
pub struct Node {
    pub name: StrRef,
    /// File: size on disk. Directory: total of the live children, as last computed.
    pub size: u64,
    pub kind: NodeKind,
    pub modified: SystemTime,
    pub parent: Option<NodeId>,
    pub depth: u16,
    /// Directory: live files below it, at any depth, as last computed.
    pub file_count: u64,
    /// Directory: live directories below it, at any depth, as last computed.
    pub subdir_count: u64,
    /// Cleared when the node is removed; maintained by the tree.
    pub alive: bool,
}

#[derive(Debug)]
pub enum NodeKind {
    File { extension: Option<StrRef> },
    Directory { children: Vec<NodeId>, expanded: bool },
}

impl Node {
    /// The node has not been removed.
    pub open spec fn live(&self) -> bool {
        self.alive
    }

    pub open spec fn spec_is_dir(&self) -> bool {
        self.kind is Directory
    }

    /// The children list of a directory; empty for a file.
    pub open spec fn kids(&self) -> Seq<NodeId> {
        match self.kind {
            NodeKind::Directory { children, .. } => children@,
            NodeKind::File { .. } => Seq::empty(),
        }
    }

    /// The extension reference of a file, if any.
    pub open spec fn ext_ref(&self) -> Option<StrRef> {
        match self.kind {
            NodeKind::File { extension } => extension,
            NodeKind::Directory { .. } => None,
        }
    }

    pub fn is_dir(&self) -> (b: bool)
        ensures
            b == self.spec_is_dir(),
    {
        match &self.kind {
            NodeKind::Directory { .. } => true,
            NodeKind::File { .. } => false,
        }
    }

    pub fn is_file(&self) -> (b: bool)
        ensures
            b == !self.spec_is_dir(),
    {
        match &self.kind {
            NodeKind::File { .. } => true,
            NodeKind::Directory { .. } => false,
        }
    }

    pub fn children(&self) -> (c: &[NodeId])
        ensures
            c@ == self.kids(),
    {
        match &self.kind {
            NodeKind::Directory { children, .. } => children.as_slice(),
            NodeKind::File { .. } => &[],
        }
    }

    /// Items below a directory: files plus subdirectories.
    pub fn items(&self) -> (n: u64)
        requires
            self.file_count + self.subdir_count <= u64::MAX,
        ensures
            n == self.file_count + self.subdir_count,
    {
        self.file_count + self.subdir_count
    }
}

/// The file tree: nodes in an arena, the root at index 0.
#[derive(Debug)]
pub struct FileTree {
    nodes: Vec<Node>,
    root: NodeId,
    strings: StringArena,
}

/// Two nodes agree on everything but the children list of a directory.
pub open spec fn same_but_kids(a: Node, b: Node) -> bool {
    &&& a.name == b.name
    &&& a.size == b.size
    &&& a.modified == b.modified
    &&& a.parent == b.parent
    &&& a.depth == b.depth
    &&& a.file_count == b.file_count
    &&& a.subdir_count == b.subdir_count
    &&& a.live() == b.live()
    &&& match (a.kind, b.kind) {
        (NodeKind::File { extension: x }, NodeKind::File { extension: y }) => x == y,
        (NodeKind::Directory { expanded: x, .. }, NodeKind::Directory { expanded: y, .. }) => x == y,
        _ => false,
    }
}

impl FileTree {
    pub closed spec fn nodes_view(&self) -> Seq<Node> {
        self.nodes@
    }

    pub closed spec fn root_view(&self) -> nat {
        self.root as nat
    }

    pub closed spec fn arena(&self) -> StringArena {
        self.strings
    }

    pub open spec fn len(&self) -> nat {
        self.nodes_view().len()
    }

    pub open spec fn at(&self, i: int) -> Node {
        self.nodes_view()[i]
    }

    pub open spec fn alive_at(&self, i: int) -> bool {
        self.at(i).live()
    }

    pub open spec fn kids_of(&self, i: int) -> Seq<NodeId> {
        self.at(i).kids()
    }

    /// Name bytes of node `i`.
    pub open spec fn name_of(&self, i: int) -> Seq<u8> {
        self.arena().slice(self.at(i).name)
    }

    /// Well-formedness: the root is node 0 and has no parent; every other
    /// node has a parent with a smaller index; every child listed by a
    /// directory has a larger index and names that directory as its parent;
    /// children lists are strictly increasing; all references lie within
    /// the arena.
    pub open spec fn wf(&self) -> bool {
        &&& 0 < self.len() <= usize::MAX
        &&& self.root_view() == 0
        &&& self.at(0).parent is None
        &&& forall|i: int|
            0 < i < self.len() ==> ((#[trigger] self.at(i)).parent matches Some(p) && p < i)
        &&& forall|i: int, j: int|
            0 <= i < self.len() && 0 <= j < self.kids_of(i).len() ==> {
                let c = #[trigger] self.kids_of(i)[j];
                &&& i < c < self.len()
                &&& self.at(c as int).parent == Some(i as NodeId)
            }
        &&& forall|i: int, j: int, k: int|
            0 <= i < self.len() && 0 <= j < k < self.kids_of(i).len() ==> #[trigger] self.kids_of(
                i,
            )[j] < #[trigger] self.kids_of(i)[k]
        &&& forall|i: int|
            0 <= i < self.len() ==> {
                &&& self.arena().holds((#[trigger] self.at(i)).name)
                &&& (self.at(i).ext_ref() matches Some(e) ==> self.arena().holds(e))
            }
    }

    pub fn new() -> (t: FileTree)
        ensures
            t.wf(),
            t.len() == 1,
            t.root_view() == 0,
            t.arena().bytes() == seq![47u8],
            t.at(0).name.start() == 0,
            t.at(0).name.count() == 1,
            t.name_of(0) == seq![47u8],
            t.at(0).size == 0,
            t.kids_of(0).len() == 0,
            t.at(0).kind matches NodeKind::Directory { expanded, .. } && expanded,
            t.at(0).parent is None,
            t.at(0).depth == 0,
            t.at(0).file_count == 0,
            t.at(0).subdir_count == 0,
            t.alive_at(0),
    {
        let mut strings = StringArena::new();
        let slash: [u8; 1] = [47u8];
        let root_name = strings.intern_bytes(&slash);
        let root = Node {
            name: root_name,
            size: 0,
            kind: NodeKind::Directory { children: Vec::new(), expanded: true },
            modified: now(),
            parent: None,
            depth: 0,
            file_count: 0,
            subdir_count: 0,
            alive: true,
        };
        let mut nodes = Vec::new();
        nodes.push(root);
        let t = FileTree { nodes, root: 0, strings };
        assert(t.arena().bytes() =~= seq![47u8]);
        assert(t.name_of(0) =~= seq![47u8]);
        t
    }

    /// Number of node slots, removed nodes included; ids run below it.
    pub fn slot_count(&self) -> (n: usize)
        ensures
            n == self.len(),
    {
        self.nodes.len()
    }

    pub fn root(&self) -> (r: NodeId)
        ensures
            r == self.root_view(),
    {
        self.root
    }

    pub fn node(&self, id: NodeId) -> (n: &Node)
        requires
            id < self.len(),
        ensures
            *n == self.at(id as int),
    {
        &self.nodes[id]
    }

    pub fn node_mut(&mut self, id: NodeId) -> (n: &mut Node)
        requires
            id < old(self).len(),
        ensures
            *n == old(self).at(id as int),
            final(self).nodes_view() == old(self).nodes_view().update(id as int, *final(n)),
            final(self).root_view() == old(self).root_view(),
            final(self).arena() == old(self).arena(),
    {
        &mut self.nodes[id]
    }

    pub fn is_alive(&self, id: NodeId) -> (b: bool)
        requires
            id < self.len(),
        ensures
            b == self.alive_at(id as int),
    {
        self.nodes[id].alive
    }
}


impl FileTree {
    pub fn name_bytes(&self, id: NodeId) -> (b: &[u8])
        requires
            self.wf(),
            id < self.len(),
        ensures
            b@ == self.name_of(id as int),
    {
        assert(self.arena().holds(self.at(id as int).name));
        self.strings.get(self.nodes[id].name)
    }

    /// The name as text; invalid UTF-8 is replaced as `String::from_utf8_lossy` does.
    pub fn name(&self, id: NodeId) -> (s: String)
        requires
            self.wf(),
            id < self.len(),
        ensures
            s@ == lossy_utf8(self.name_of(id as int)),
            valid_utf8(self.name_of(id as int)) ==> s@ == decode_utf8(self.name_of(id as int)),
    {
        utf8_lossy(self.name_bytes(id))
    }

    /// The extension of a file, when it is valid UTF-8.
    pub fn extension(&self, id: NodeId) -> (r: Option<&str>)
        requires
            self.wf(),
            id < self.len(),
        ensures
            r is Some <==> (self.at(id as int).ext_ref() matches Some(e) && valid_utf8(
                self.arena().slice(e),
            )),
            r matches Some(s) ==> s@ == decode_utf8(self.arena().slice(self.at(id as int).ext_ref()->0)),
    {
        match &self.nodes[id].kind {
            NodeKind::File { extension: Some(r) } => utf8_str(self.strings.get(*r)),
            _ => None,
        }
    }

    /// The directory that stands for a node in the directory tree: the node
    /// itself when it is a directory, else its parent.
    pub fn dir_of(&self, id: NodeId) -> (r: Option<NodeId>)
        requires
            id < self.len(),
        ensures
            r == if self.at(id as int).spec_is_dir() {
                Some(id)
            } else {
                self.at(id as int).parent
            },
    {
        if self.nodes[id].is_dir() {
            Some(id)
        } else {
            self.nodes[id].parent
        }
    }

    /// Gives the root a new name.
    pub fn rename_root(&mut self, name: &[u8])
        requires
            old(self).wf(),
        ensures
            final(self).wf(),
            final(self).len() == old(self).len(),
            final(self).arena().bytes() == old(self).arena().bytes() + name@,
            final(self).at(0).name.start() == (old(self).arena().bytes().len() as u32) as nat,
            final(self).at(0).name.count() == (name@.len() as u32) as nat,
            forall|i: int| 0 < i < old(self).len() ==> final(self).at(i) == old(self).at(i),
            final(self).at(0) == (Node { name: final(self).at(0).name, ..old(self).at(0) }),
    {
        let r = self.strings.intern_bytes(name);
        let root = self.root;
        self.nodes[root].name = r;
        proof {
            lemma_truncate_le(old(self).strings.buf@.len() as usize);
            lemma_truncate_le(name@.len() as usize);
            assert forall|i: int| 0 <= i < self.len() implies {
                &&& self.arena().holds((#[trigger] self.at(i)).name)
                &&& (self.at(i).ext_ref() matches Some(e) ==> self.arena().holds(e))
            } by {
                assert(old(self).arena().holds(old(self).at(i).name));
            }
            assert(forall|i: int| 0 < i < self.len() ==> #[trigger] self.at(i) == old(self).at(i));
            assert(forall|i: int| 0 <= i < self.len() ==> self.kids_of(i) == old(self).kids_of(i));
        }
    }

    fn push_node(&mut self, parent: NodeId, node: Node) -> (id: NodeId)
        requires
            parent <= old(self).len(),
        ensures
            id == old(self).len(),
            final(self).len() == old(self).len() + 1,
            final(self).len() <= usize::MAX,
            final(self).root_view() == old(self).root_view(),
            final(self).arena() == old(self).arena(),
            forall|j: int|
                0 <= j < old(self).len() && j != parent ==> final(self).at(j) == old(self).at(j),
            parent < old(self).len() ==> if old(self).at(parent as int).spec_is_dir() {
                &&& same_but_kids(final(self).at(parent as int), old(self).at(parent as int))
                &&& final(self).kids_of(parent as int) == old(self).kids_of(parent as int).push(id)
            } else {
                final(self).at(parent as int) == old(self).at(parent as int)
            },
            parent != id ==> final(self).at(id as int) == node,
            parent == id ==> if node.spec_is_dir() {
                &&& same_but_kids(final(self).at(id as int), node)
                &&& final(self).kids_of(id as int) == node.kids().push(id)
            } else {
                final(self).at(id as int) == node
            },
    {
        let id = self.nodes.len();
        self.nodes.push(node);
        assert(self.nodes.len() <= usize::MAX);
        match &mut self.nodes[parent].kind {
            NodeKind::Directory { children, .. } => {
                children.push(id);
            },
            NodeKind::File { .. } => {},
        }
        id
    }
}

/// `after` is `before` with node `id` appended under `parent`: every other
/// node is unchanged, except that a directory `parent` lists `id` last.
pub open spec fn appended(before: FileTree, after: FileTree, parent: NodeId, id: NodeId) -> bool {
    &&& id == before.len()
    &&& after.len() == before.len() + 1
    &&& after.root_view() == before.root_view()
    &&& forall|j: int| 0 <= j < before.len() && j != parent ==> after.at(j) == before.at(j)
    &&& parent < before.len() ==> if before.at(parent as int).spec_is_dir() {
        &&& same_but_kids(after.at(parent as int), before.at(parent as int))
        &&& after.kids_of(parent as int) == before.kids_of(parent as int).push(id)
    } else {
        after.at(parent as int) == before.at(parent as int)
    }
    &&& after.at(id as int).parent == Some(parent)
    &&& after.at(id as int).file_count == 0
    &&& after.at(id as int).subdir_count == 0
    &&& after.at(id as int).live()
}

impl FileTree {
    proof fn lemma_appended_wf(before: FileTree, after: FileTree, parent: NodeId, id: NodeId)
        requires
            before.wf(),
            after.len() <= usize::MAX,
            appended(before, after, parent, id),
            parent < before.len(),
            after.kids_of(id as int).len() == 0,
            before.arena().bytes().is_prefix_of(after.arena().bytes()),
            after.arena().holds(after.at(id as int).name),
            after.at(id as int).ext_ref() matches Some(e) ==> after.arena().holds(e),
        ensures
            after.wf(),
    {
        assert forall|i: int| 0 < i < after.len() implies ((#[trigger] after.at(i)).parent matches Some(p) && p < i) by {
            if i < before.len() {
                assert(before.at(i).parent == after.at(i).parent);
            }
        }
        assert forall|i: int, j: int|
            0 <= i < after.len() && 0 <= j < after.kids_of(i).len() implies {
                let c = #[trigger] after.kids_of(i)[j];
                &&& i < c < after.len()
                &&& after.at(c as int).parent == Some(i as NodeId)
            } by {
            if i < before.len() {
                assert(after.kids_of(i) =~= before.kids_of(i) || i == parent);
                if i == parent && before.at(i).spec_is_dir() {
                    if j < before.kids_of(i).len() {
                        assert(after.kids_of(i)[j] == before.kids_of(i)[j]);
                        let c = before.kids_of(i)[j];
                        assert(c != parent);
                        assert(after.at(c as int) == before.at(c as int));
                    }
                } else {
                    assert(after.kids_of(i) == before.kids_of(i));
                    let c = before.kids_of(i)[j];
                    assert(after.at(c as int).parent == before.at(c as int).parent);
                }
            }
        }
        assert forall|i: int, j: int, k: int|
            0 <= i < after.len() && 0 <= j < k < after.kids_of(i).len() implies #[trigger] after.kids_of(
                i,
            )[j] < #[trigger] after.kids_of(i)[k] by {
            if i < before.len() {
                if i == parent && before.at(i).spec_is_dir() {
                    if k < before.kids_of(i).len() {
                        assert(before.kids_of(i)[j] < before.kids_of(i)[k]);
                    } else {
                        assert(before.kids_of(i)[j] < before.len());
                    }
                } else {
                    assert(after.kids_of(i) == before.kids_of(i));
                }
            }
        }
        assert forall|i: int| 0 <= i < after.len() implies {
            &&& after.arena().holds((#[trigger] after.at(i)).name)
            &&& (after.at(i).ext_ref() matches Some(e) ==> after.arena().holds(e))
        } by {
            if i < before.len() {
                assert(before.arena().holds(before.at(i).name));
                assert(after.at(i).name == before.at(i).name);
                assert(after.at(i).ext_ref() == before.at(i).ext_ref());
            }
        }
    }

    /// Adds a directory under `parent` and returns its index.
    pub fn add_dir(
        &mut self,
        parent: NodeId,
        name: &[u8],
        expanded: bool,
        modified: SystemTime,
        depth: u16,
    ) -> (id: NodeId)
        requires
            old(self).wf(),
            parent <= old(self).len(),
        ensures
            appended(*old(self), *final(self), parent, id),
            final(self).arena().bytes() == old(self).arena().bytes() + name@,
            final(self).at(id as int).name.start() == (old(self).arena().bytes().len() as u32) as nat,
            final(self).at(id as int).name.count() == (name@.len() as u32) as nat,
            final(self).at(id as int).size == 0,
            final(self).at(id as int).kind matches NodeKind::Directory { expanded: e, .. } && e
                == expanded,
            parent != id ==> final(self).kids_of(id as int) == Seq::<NodeId>::empty(),
            parent == id ==> final(self).kids_of(id as int) == seq![id],
            final(self).at(id as int).modified == modified,
            final(self).at(id as int).depth == depth,
            parent < old(self).len() ==> final(self).wf(),
    {
        let name_ref = self.strings.intern_bytes(name);
        let ghost mid = *self;
        let node = Node {
            name: name_ref,
            size: 0,
            kind: NodeKind::Directory { children: Vec::new(), expanded },
            modified,
            parent: Some(parent),
            depth,
            file_count: 0,
            subdir_count: 0,
            alive: true,
        };
        let id = self.push_node(parent, node);
        proof {
            assert(mid.nodes_view() == old(self).nodes_view());
            if parent == id {
                assert(self.kids_of(id as int) =~= seq![id]);
            }
            if parent < old(self).len() {
                lemma_truncate_le(old(self).strings.buf@.len() as usize);
                lemma_truncate_le(name@.len() as usize);
                assert(old(self).arena().bytes().is_prefix_of(self.arena().bytes()));
                Self::lemma_appended_wf(*old(self), *self, parent, id);
            }
        }
        id
    }

    /// Adds a file under `parent` and returns its index. The name is stored
    /// first, then the extension.
    pub fn add_file(
        &mut self,
        parent: NodeId,
        name: &[u8],
        size: u64,
        extension: Option<&str>,
        modified: SystemTime,
        depth: u16,
    ) -> (id: NodeId)
        requires
            old(self).wf(),
            parent <= old(self).len(),
        ensures
            appended(*old(self), *final(self), parent, id),
            final(self).arena().bytes() == old(self).arena().bytes() + name@ + match extension {
                Some(e) => e.spec_bytes(),
                None => Seq::<u8>::empty(),
            },
            final(self).at(id as int).name.start() == (old(self).arena().bytes().len() as u32) as nat,
            final(self).at(id as int).name.count() == (name@.len() as u32) as nat,
            final(self).at(id as int).size == size,
            !final(self).at(id as int).spec_is_dir(),
            extension is None ==> final(self).at(id as int).ext_ref() is None,
            extension matches Some(e) ==> final(self).at(id as int).ext_ref() matches Some(r) && r.start()
                == ((old(self).arena().bytes().len() + name@.len()) as u32) as nat && r.count() == (
            e.spec_bytes().len() as u32) as nat,
            final(self).at(id as int).modified == modified,
            final(self).at(id as int).depth == depth,
            parent < old(self).len() ==> final(self).wf(),
    {
        let name_ref = self.strings.intern_bytes(name);
        let ext_ref = match extension {
            Some(e) => Some(self.strings.intern_str(e)),
            None => None,
        };
        let ghost mid = *self;
        let node = Node {
            name: name_ref,
            size,
            kind: NodeKind::File { extension: ext_ref },
            modified,
            parent: Some(parent),
            depth,
            file_count: 0,
            subdir_count: 0,
            alive: true,
        };
        let id = self.push_node(parent, node);
        proof {
            assert(mid.nodes_view() == old(self).nodes_view());
            if extension is None {
                assert(self.arena().bytes() =~= old(self).arena().bytes() + name@ + Seq::<u8>::empty());
            }
            if parent < old(self).len() {
                lemma_truncate_le(old(self).strings.buf@.len() as usize);
                lemma_truncate_le(name@.len() as usize);
                lemma_truncate_le((old(self).strings.buf@.len() + name@.len()) as usize);
                if let Some(e) = extension {
                    lemma_truncate_le(e.spec_bytes().len() as usize);
                }
                assert(old(self).arena().bytes().is_prefix_of(self.arena().bytes()));
                Self::lemma_appended_wf(*old(self), *self, parent, id);
            }
        }
        id
    }

    /// Number of live nodes.
    pub fn node_count(&self) -> (n: usize)
        ensures
            n == live_count(self.nodes_view()),
    {
        let mut n: usize = 0;
        let mut i: usize = 0;
        while i < self.nodes.len()
            invariant
                i <= self.nodes@.len(),
                n == live_count(self.nodes@.take(i as int)),
                n <= i,
            decreases self.nodes@.len() - i,
        {
            assert(self.nodes@.take(i as int + 1).drop_last() =~= self.nodes@.take(i as int));
            if self.nodes[i].alive {
                n = n + 1;
            }
            i = i + 1;
        }
        assert(self.nodes@.take(i as int) =~= self.nodes@);
        n
    }
}

/// Number of live nodes in a sequence.
pub open spec fn live_count(ns: Seq<Node>) -> nat
    decreases ns.len(),
{
    if ns.len() == 0 {
        0
    } else {
        live_count(ns.drop_last()) + if ns.last().live() { 1nat } else { 0nat }
    }
}

/// (bytes, files, directories) recorded in a node.
pub open spec fn totals_of(n: Node) -> (int, int, int) {
    (n.size as int, n.file_count as int, n.subdir_count as int)
}

/// What a live child adds to its directory's record: its bytes, then one
/// file for a file or its files for a directory, then one directory plus
/// its directories for a directory.
pub open spec fn share_of(n: Node) -> (int, int, int) {
    if n.spec_is_dir() {
        (n.size as int, n.file_count as int, 1 + n.subdir_count)
    } else {
        (n.size as int, 1, 0)
    }
}

pub open spec fn add3(a: (int, int, int), b: (int, int, int)) -> (int, int, int) {
    (a.0 + b.0, a.1 + b.1, a.2 + b.2)
}

/// Sum of the shares of the live nodes listed in `ch`.
pub open spec fn kids_sum(ns: Seq<Node>, ch: Seq<NodeId>) -> (int, int, int)
    decreases ch.len(),
{
    if ch.len() == 0 {
        (0, 0, 0)
    } else {
        let c = ch.last() as int;
        let rest = kids_sum(ns, ch.drop_last());
        if c < ns.len() && ns[c].live() {
            add3(rest, share_of(ns[c]))
        } else {
            rest
        }
    }
}

/// All three totals fit in a `u64`.
pub open spec fn fits(t: (int, int, int)) -> bool {
    &&& 0 <= t.0 <= u64::MAX
    &&& 0 <= t.1 <= u64::MAX
    &&& 0 <= t.2 <= u64::MAX
}

/// Totals of the subtree of node `i`, counted over live nodes reached
/// through children lists: a file gives its own size; a directory the sum
/// over its live children.
pub open spec fn subtree_totals(ns: Seq<Node>, i: int) -> (int, int, int)
    decreases ns.len() - i, 1int, 0int,
{
    if 0 <= i < ns.len() {
        if ns[i].spec_is_dir() {
            kids_totals(ns, i, ns[i].kids().len() as int)
        } else {
            (ns[i].size as int, 0, 0)
        }
    } else {
        (0, 0, 0)
    }
}

/// Totals over the first `k` children of node `i`.
pub open spec fn kids_totals(ns: Seq<Node>, i: int, k: int) -> (int, int, int)
    decreases ns.len() - i, 0int, k,
{
    if 0 <= i < ns.len() && 0 < k <= ns[i].kids().len() {
        let rest = kids_totals(ns, i, k - 1);
        let c = ns[i].kids()[k - 1] as int;
        if i < c < ns.len() && ns[c].live() {
            let t = subtree_totals(ns, c);
            if ns[c].spec_is_dir() {
                (rest.0 + t.0, rest.1 + t.1, rest.2 + 1 + t.2)
            } else {
                (rest.0 + t.0, rest.1 + 1, rest.2)
            }
        } else {
            rest
        }
    } else {
        (0, 0, 0)
    }
}

/// Two nodes agree on everything but their three totals.
pub open spec fn same_but_totals(a: Node, b: Node) -> bool {
    a == Node { size: a.size, file_count: a.file_count, subdir_count: a.subdir_count, ..b }
}

proof fn lemma_totals_nonneg(ns: Seq<Node>, i: int)
    ensures
        subtree_totals(ns, i).0 >= 0,
        subtree_totals(ns, i).1 >= 0,
        subtree_totals(ns, i).2 >= 0,
    decreases ns.len() - i, 1int, 0int,
{
    if 0 <= i < ns.len() && ns[i].spec_is_dir() {
        lemma_kids_totals_mono(ns, i, ns[i].kids().len() as int);
        assert(kids_totals(ns, i, 0) == (0int, 0int, 0int));
    }
}

/// The totals over a prefix of the children grow with the prefix.
proof fn lemma_kids_totals_mono(ns: Seq<Node>, i: int, k: int)
    requires
        0 <= i < ns.len(),
        0 <= k <= ns[i].kids().len(),
    ensures
        forall|j: int|
            0 <= j <= k ==> {
                &&& 0 <= (#[trigger] kids_totals(ns, i, j)).0 <= kids_totals(ns, i, k).0
                &&& 0 <= kids_totals(ns, i, j).1 <= kids_totals(ns, i, k).1
                &&& 0 <= kids_totals(ns, i, j).2 <= kids_totals(ns, i, k).2
            },
    decreases ns.len() - i, 0int, k,
{
    if k > 0 {
        lemma_kids_totals_mono(ns, i, k - 1);
        let rest = kids_totals(ns, i, k - 1);
        let c = ns[i].kids()[k - 1] as int;
        if i < c < ns.len() && ns[c].live() {
            lemma_totals_nonneg(ns, c);
        }
        let cur = kids_totals(ns, i, k);
        assert(cur.0 >= rest.0 && cur.1 >= rest.1 && cur.2 >= rest.2);
        assert forall|j: int| 0 <= j <= k implies {
            &&& 0 <= (#[trigger] kids_totals(ns, i, j)).0 <= cur.0
            &&& 0 <= kids_totals(ns, i, j).1 <= cur.1
            &&& 0 <= kids_totals(ns, i, j).2 <= cur.2
        } by {
            if j < k {
                assert(0 <= kids_totals(ns, i, j).0 <= rest.0);
            }
        }
    } else {
        assert(kids_totals(ns, i, 0) == (0int, 0int, 0int));
    }
}

impl FileTree {
    /// Every live directory records exactly the totals of its live children.
    pub open spec fn totals_consistent(&self) -> bool {
        forall|i: int|
            0 <= i < self.len() && self.alive_at(i) && (#[trigger] self.at(i)).spec_is_dir()
                ==> totals_of(self.at(i)) == kids_sum(self.nodes_view(), self.kids_of(i))
    }

    /// No live directory's totals overflow a `u64`.
    pub open spec fn totals_fit(&self) -> bool {
        forall|i: int|
            0 <= i < self.len() && self.alive_at(i) && (#[trigger] self.at(i)).spec_is_dir()
                ==> fits(subtree_totals(self.nodes_view(), i))
    }

    /// With children that carry their subtree totals, a directory's live
    /// children sum to its own subtree totals.
    proof fn lemma_kids_sum_totals(t: FileTree, ns: Seq<Node>, i: int, k: int)
        requires
            t.wf(),
            ns.len() == t.len(),
            0 <= i < t.len(),
            t.at(i).spec_is_dir(),
            0 <= k <= t.kids_of(i).len(),
            forall|j: int|
                i < j < t.len() ==> if t.alive_at(j) && t.at(j).spec_is_dir() {
                    &&& same_but_totals(#[trigger] ns[j], t.at(j))
                    &&& totals_of(ns[j]) == subtree_totals(t.nodes_view(), j)
                } else {
                    ns[j] == t.at(j)
                },
        ensures
            kids_sum(ns, t.kids_of(i).take(k)) == kids_totals(t.nodes_view(), i, k),
        decreases k,
    {
        if k > 0 {
            Self::lemma_kids_sum_totals(t, ns, i, k - 1);
            assert(t.kids_of(i).take(k).drop_last() =~= t.kids_of(i).take(k - 1));
            assert(t.kids_of(i).take(k).last() == t.kids_of(i)[k - 1]);
            let c = t.kids_of(i)[k - 1] as int;
            assert(i < c < t.len());
            assert(ns[c].live() == t.alive_at(c));
            assert(ns[c].spec_is_dir() == t.at(c).spec_is_dir());
            let rest = kids_totals(t.nodes_view(), i, k - 1);
            if t.alive_at(c) {
                if t.at(c).spec_is_dir() {
                    assert(totals_of(ns[c]) == subtree_totals(t.nodes_view(), c));
                } else {
                    assert(ns[c] == t.at(c));
                    assert(subtree_totals(t.nodes_view(), c) == (t.at(c).size as int, 0int, 0int));
                }
            }
        } else {
            assert(t.kids_of(i).take(0).len() == 0);
            assert(kids_totals(t.nodes_view(), i, 0) == (0int, 0int, 0int));
        }
    }

    /// Recomputes, bottom-up, the totals of every live directory from its
    /// live children. Files and removed nodes keep theirs.
    pub fn compute_sizes(&mut self)
        requires
            old(self).wf(),
            old(self).totals_fit(),
        ensures
            final(self).len() == old(self).len(),
            final(self).root_view() == old(self).root_view(),
            final(self).arena() == old(self).arena(),
            forall|i: int|
                0 <= i < old(self).len() ==> if old(self).alive_at(i) && old(
                    self,
                ).at(i).spec_is_dir() {
                    &&& same_but_totals(#[trigger] final(self).at(i), old(self).at(i))
                    &&& totals_of(final(self).at(i)) == subtree_totals(old(self).nodes_view(), i)
                } else {
                    final(self).at(i) == old(self).at(i)
                },
            final(self).wf(),
            final(self).totals_consistent(),
    {
        let ghost t0 = *self;
        let len = self.nodes.len();
        let mut i = len;
        while i > 0
            invariant
                t0.wf(),
                t0.totals_fit(),
                len == t0.len(),
                i <= len,
                self.nodes@.len() == len,
                self.root == t0.root,
                self.strings == t0.strings,
                forall|j: int|
                    0 <= j < len ==> if j >= i && t0.alive_at(j) && t0.at(j).spec_is_dir() {
                        &&& same_but_totals(#[trigger] self.nodes@[j], t0.at(j))
                        &&& totals_of(self.nodes@[j]) == subtree_totals(t0.nodes_view(), j)
                    } else {
                        self.nodes@[j] == t0.at(j)
                    },
            decreases i,
        {
            i = i - 1;
            if self.nodes[i].alive {
                if let NodeKind::Directory { children, .. } = &self.nodes[i].kind {
                    assert(children@ == t0.kids_of(i as int));
                    let n = children.len();
                    let mut bytes: u64 = 0;
                    let mut files: u64 = 0;
                    let mut dirs: u64 = 0;
                    let mut j: usize = 0;
                    proof {
                        lemma_kids_totals_mono(t0.nodes_view(), i as int, n as int);
                        assert(fits(subtree_totals(t0.nodes_view(), i as int)));
                    }
                    while j < n
                        invariant
                            t0.wf(),
                            0 <= i < len,
                            len == t0.len(),
                            self.nodes@.len() == len,
                            t0.alive_at(i as int),
                            t0.at(i as int).spec_is_dir(),
                            children@ == t0.kids_of(i as int),
                            n == children@.len(),
                            j <= n,
                            fits(kids_totals(t0.nodes_view(), i as int, n as int)),
                            forall|m: int|
                                0 <= m <= n ==> {
                                    &&& 0 <= (#[trigger] kids_totals(t0.nodes_view(), i as int, m)).0
                                        <= kids_totals(t0.nodes_view(), i as int, n as int).0
                                    &&& 0 <= kids_totals(t0.nodes_view(), i as int, m).1
                                        <= kids_totals(t0.nodes_view(), i as int, n as int).1
                                    &&& 0 <= kids_totals(t0.nodes_view(), i as int, m).2
                                        <= kids_totals(t0.nodes_view(), i as int, n as int).2
                                },
                            (bytes as int, files as int, dirs as int) == kids_totals(
                                t0.nodes_view(),
                                i as int,
                                j as int,
                            ),
                            forall|m: int|
                                i < m < len ==> if t0.alive_at(m) && t0.at(m).spec_is_dir() {
                                    &&& same_but_totals(#[trigger] self.nodes@[m], t0.at(m))
                                    &&& totals_of(self.nodes@[m]) == subtree_totals(
                                        t0.nodes_view(),
                                        m,
                                    )
                                } else {
                                    self.nodes@[m] == t0.at(m)
                                },
                        decreases n - j,
                    {
                        let c = children[j];
                        proof {
                            assert(i < c < len);
                            lemma_totals_nonneg(t0.nodes_view(), c as int);
                            let ghost next = kids_totals(t0.nodes_view(), i as int, j as int + 1);
                        }
                        let child = &self.nodes[c];
                        if child.alive {
                            if child.is_dir() {
                                bytes = bytes + child.size;
                                files = files + child.file_count;
                                dirs = dirs + 1 + child.subdir_count;
                            } else {
                                bytes = bytes + child.size;
                                files = files + 1;
                            }
                        }
                        j = j + 1;
                    }
                    let node = &mut self.nodes[i];
                    node.size = bytes;
                    node.file_count = files;
                    node.subdir_count = dirs;
                }
            }
        }
        proof {
            assert forall|k: int|
                0 <= k < self.len() && self.alive_at(k) && (#[trigger] self.at(k)).spec_is_dir()
                    implies totals_of(self.at(k)) == kids_sum(self.nodes_view(), self.kids_of(k)) by {
                assert(t0.alive_at(k) && t0.at(k).spec_is_dir());
                assert(self.kids_of(k) == t0.kids_of(k));
                Self::lemma_kids_sum_totals(t0, self.nodes_view(), k, t0.kids_of(k).len() as int);
                assert(t0.kids_of(k).take(t0.kids_of(k).len() as int) =~= t0.kids_of(k));
            }
            assert forall|k: int| 0 <= k < self.len() implies self.kids_of(k) == t0.kids_of(k)
                && (#[trigger] self.at(k)).parent == t0.at(k).parent && self.at(k).name == t0.at(k).name
                && self.at(k).ext_ref() == t0.at(k).ext_ref() by {}
        }
    }
}

/// `x` lies strictly below `a`: following parents up from `x`, every step
/// is listed in the parent's children, and the walk reaches `a`.
pub open spec fn below(ns: Seq<Node>, a: int, x: int) -> bool
    decreases x,
{
    if 0 <= x < ns.len() {
        match ns[x].parent {
            Some(p) => (p as int) < x && ns[p as int].kids().contains(x as NodeId) && (p == a
                || below(ns, a, p as int)),
            None => false,
        }
    } else {
        false
    }
}

/// `a` is a strict ancestor of `x` by parent links.
pub open spec fn above(ns: Seq<Node>, a: int, x: int) -> bool
    decreases x,
{
    if 0 <= x < ns.len() {
        match ns[x].parent {
            Some(p) => (p as int) < x && (p == a || above(ns, a, p as int)),
            None => false,
        }
    } else {
        false
    }
}

/// The node with its live flag cleared.
pub open spec fn killed(n: Node) -> Node {
    Node { alive: false, ..n }
}

/// `ch` with every occurrence of `x` taken out.
pub open spec fn without(ch: Seq<NodeId>, x: NodeId) -> Seq<NodeId>
    decreases ch.len(),
{
    if ch.len() == 0 {
        ch
    } else if ch.last() == x {
        without(ch.drop_last(), x)
    } else {
        without(ch.drop_last(), x).push(ch.last())
    }
}

/// Two node sequences agree on parents, kinds and names: the shape the
/// relations `below` and `above` read.
pub open spec fn same_shape(a: Seq<Node>, b: Seq<Node>) -> bool {
    &&& a.len() == b.len()
    &&& forall|i: int|
        0 <= i < a.len() ==> (#[trigger] a[i]).parent == b[i].parent && a[i].kind == b[i].kind
}

proof fn lemma_below_shape(a: Seq<Node>, b: Seq<Node>, r: int, x: int)
    requires
        same_shape(a, b),
    ensures
        below(a, r, x) == below(b, r, x),
    decreases x,
{
    if 0 <= x < a.len() {
        assert(a[x].parent == b[x].parent);
        if let Some(p) = a[x].parent {
            if (p as int) < x {
                assert(a[p as int].kind == b[p as int].kind);
                lemma_below_shape(a, b, r, p as int);
            }
        }
    }
}

proof fn lemma_below_trans(ns: Seq<Node>, a: int, b: int, x: int)
    requires
        below(ns, a, b),
        below(ns, b, x),
    ensures
        below(ns, a, x),
    decreases x,
{
    let p = ns[x].parent->0 as int;
    if p != b {
        lemma_below_trans(ns, a, b, p);
    }
}

proof fn lemma_below_is_above(ns: Seq<Node>, a: int, x: int)
    requires
        below(ns, a, x),
    ensures
        above(ns, a, x),
        0 <= a < x,
    decreases x,
{
    let p = ns[x].parent->0 as int;
    if p != a {
        lemma_below_is_above(ns, a, p);
    }
}

proof fn lemma_above_lt(ns: Seq<Node>, a: int, x: int)
    requires
        above(ns, a, x),
    ensures
        0 <= a < x,
    decreases x,
{
    let p = ns[x].parent->0 as int;
    if p != a {
        lemma_above_lt(ns, a, p);
    }
}

/// `j` is one of the first `k` entries of `ch` or lies below one of them.
pub open spec fn covered(ns: Seq<Node>, ch: Seq<NodeId>, k: int, j: int) -> bool {
    exists|m: int| 0 <= m < k && (j == #[trigger] ch[m] || below(ns, ch[m] as int, j))
}

proof fn lemma_covered_step(ns: Seq<Node>, ch: Seq<NodeId>, k: int, j: int)
    requires
        0 <= k < ch.len(),
    ensures
        covered(ns, ch, k + 1, j) == (covered(ns, ch, k, j) || j == ch[k] || below(
            ns,
            ch[k] as int,
            j,
        )),
{
    if covered(ns, ch, k + 1, j) {
        let m = choose|m: int| 0 <= m < k + 1 && (j == #[trigger] ch[m] || below(ns, ch[m] as int, j));
        if m < k {
            assert(covered(ns, ch, k, j));
        }
    }
    if covered(ns, ch, k, j) {
        let m = choose|m: int| 0 <= m < k && (j == #[trigger] ch[m] || below(ns, ch[m] as int, j));
        assert(0 <= m < k + 1 && (j == ch[m] || below(ns, ch[m] as int, j)));
    }
    if j == ch[k] || below(ns, ch[k] as int, j) {
        assert(0 <= k < k + 1 && (j == ch[k] || below(ns, ch[k] as int, j)));
    }
}

impl FileTree {
    /// Below a node lie exactly its children and what lies below them.
    proof fn lemma_below_kids(t: FileTree, id: int, x: int)
        requires
            t.wf(),
            0 <= id < t.len(),
        ensures
            below(t.nodes_view(), id, x) <==> covered(
                t.nodes_view(),
                t.kids_of(id),
                t.kids_of(id).len() as int,
                x,
            ),
        decreases x,
    {
        let ns = t.nodes_view();
        if below(ns, id, x) {
            let p = ns[x].parent->0 as int;
            if p == id {
                let m = choose|m: int| 0 <= m < t.kids_of(id).len() && t.kids_of(id)[m] == x;
                assert(x == t.kids_of(id)[m]);
            } else {
                Self::lemma_below_kids(t, id, p);
                let m = choose|m: int|
                    0 <= m < t.kids_of(id).len() && (p == #[trigger] t.kids_of(id)[m] || below(
                        ns,
                        t.kids_of(id)[m] as int,
                        p,
                    ));
                let c = t.kids_of(id)[m] as int;
                assert(below(ns, c, x));
            }
        }
        if covered(ns, t.kids_of(id), t.kids_of(id).len() as int, x) {
            let m = choose|m: int|
                0 <= m < t.kids_of(id).len() && (x == #[trigger] t.kids_of(id)[m] || below(
                    ns,
                    t.kids_of(id)[m] as int,
                    x,
                ));
            let c = t.kids_of(id)[m] as int;
            assert(t.at(c).parent == Some(id as NodeId));
            assert(t.kids_of(id).contains(c as NodeId));
            assert(below(ns, id, c));
            if x != c {
                lemma_below_trans(ns, id, c, x);
            }
        }
    }

    /// Clears the live flag of every node below `id`.
    fn mark_dead_recursive(&mut self, id: NodeId)
        requires
            old(self).wf(),
            id < old(self).len(),
        ensures
            final(self).len() == old(self).len(),
            final(self).root_view() == old(self).root_view(),
            final(self).arena() == old(self).arena(),
            forall|j: int|
                0 <= j < old(self).len() ==> #[trigger] final(self).at(j) == if below(
                    old(self).nodes_view(),
                    id as int,
                    j,
                ) {
                    killed(old(self).at(j))
                } else {
                    old(self).at(j)
                },
        decreases old(self).len() - id,
    {
        let ghost t0 = *self;
        let child_ids: Vec<NodeId> = match &self.nodes[id].kind {
            NodeKind::Directory { children, .. } => children.clone(),
            NodeKind::File { .. } => Vec::new(),
        };
        assert(child_ids@ =~= t0.kids_of(id as int));
        let n = child_ids.len();
        let mut k: usize = 0;
        while k < n
            invariant
                t0.wf(),
                id < t0.len(),
                old(self).len() == t0.len(),
                n == child_ids@.len(),
                child_ids@ == t0.kids_of(id as int),
                k <= n,
                self.nodes@.len() == t0.len(),
                self.root == t0.root,
                self.strings == t0.strings,
                forall|j: int|
                    0 <= j < t0.len() ==> #[trigger] self.nodes@[j] == if covered(
                        t0.nodes_view(),
                        child_ids@,
                        k as int,
                        j,
                    ) {
                        killed(t0.at(j))
                    } else {
                        t0.at(j)
                    },
            decreases n - k,
        {
            let c = child_ids[k];
            assert(id < c < t0.len());
            let ghost before = self.nodes@;
            self.nodes[c].alive = false;
            proof {
                assert(same_shape(self.nodes@, t0.nodes_view()));
                assert(self.wf()) by {
                    assert(forall|i: int| 0 <= i < self.len() ==> #[trigger] self.kids_of(i) == t0.kids_of(i));
                    assert(forall|i: int| 0 <= i < self.len() ==> (#[trigger] self.at(i)).parent == t0.at(i).parent && self.at(i).name == t0.at(i).name && self.at(i).ext_ref() == t0.at(i).ext_ref());
                }
            }
            let ghost mid = *self;
            assert(mid.len() == t0.len());
            assert(mid.len() - c < t0.len() - id);
            self.mark_dead_recursive(c);
            proof {
                assert forall|j: int| 0 <= j < t0.len() implies #[trigger] self.nodes@[j] == if covered(
                        t0.nodes_view(),
                        child_ids@,
                        k + 1,
                        j,
                    ) {
                        killed(t0.at(j))
                    } else {
                        t0.at(j)
                    } by {
                    lemma_below_shape(mid.nodes_view(), t0.nodes_view(), c as int, j);
                    lemma_covered_step(t0.nodes_view(), child_ids@, k as int, j);
                    let cov = covered(t0.nodes_view(), child_ids@, k as int, j);
                    let b = below(t0.nodes_view(), c as int, j);
                    assert(self.at(j) == if b { killed(mid.at(j)) } else { mid.at(j) });
                    if b {
                        lemma_below_is_above(t0.nodes_view(), c as int, j);
                    }
                    if j == c {
                        assert(mid.at(j) == killed(before[j]));
                    } else {
                        assert(mid.at(j) == before[j]);
                    }
                    assert(before[j] == if cov { killed(t0.at(j)) } else { t0.at(j) });
                }
            }
            k = k + 1;
        }
        proof {
            assert forall|j: int| 0 <= j < t0.len() implies #[trigger] self.at(j) == if below(
                    t0.nodes_view(),
                    id as int,
                    j,
                ) {
                    killed(t0.at(j))
                } else {
                    t0.at(j)
                } by {
                Self::lemma_below_kids(t0, id as int, j);
                assert(self.at(j) == self.nodes@[j]);
            }
        }
    }
}

/// The entries of `s` strictly increase.
pub open spec fn increasing(s: Seq<NodeId>) -> bool {
    forall|j: int, k: int| 0 <= j < k < s.len() ==> #[trigger] s[j] < #[trigger] s[k]
}

proof fn lemma_without(ch: Seq<NodeId>, x: NodeId)
    ensures
        forall|m: int|
            0 <= m < without(ch, x).len() ==> #[trigger] without(ch, x)[m] != x && ch.contains(
                without(ch, x)[m],
            ),
        increasing(ch) ==> increasing(without(ch, x)),
        without(ch, x).len() <= ch.len(),
    decreases ch.len(),
{
    if ch.len() > 0 {
        let r = ch.drop_last();
        lemma_without(r, x);
        assert forall|m: int| 0 <= m < without(r, x).len() implies ch.contains(
            #[trigger] without(r, x)[m],
        ) by {
            let i = choose|i: int| 0 <= i < r.len() && r[i] == without(r, x)[m];
            assert(ch[i] == r[i]);
        }
        if ch.last() != x {
            let w = without(r, x).push(ch.last());
            assert forall|m: int| 0 <= m < w.len() implies #[trigger] w[m] != x && ch.contains(
                w[m],
            ) by {
                if m == w.len() - 1 {
                    assert(ch[ch.len() - 1] == w[m]);
                } else {
                    assert(w[m] == without(r, x)[m]);
                }
            }
            if increasing(ch) {
                assert(increasing(r));
                assert forall|j: int, k: int| 0 <= j < k < w.len() implies #[trigger] w[j]
                    < #[trigger] w[k] by {
                    if k == w.len() - 1 {
                        let i = choose|i: int| 0 <= i < r.len() && r[i] == without(r, x)[j];
                        assert(ch[i] < ch[ch.len() - 1]);
                    } else {
                        assert(w[j] == without(r, x)[j] && w[k] == without(r, x)[k]);
                    }
                }
            }
        }
    }
}

/// `a` minus `b`, or zero where `b` is larger.
pub open spec fn minus_floor(a: u64, b: int) -> u64 {
    if a >= b {
        (a - b) as u64
    } else {
        0
    }
}

/// What the removal of `n` takes from each of its ancestors' totals.
pub open spec fn removal_delta(n: Node) -> (int, int, int) {
    if n.spec_is_dir() {
        (
            n.size as int,
            n.file_count as int,
            if n.subdir_count < u64::MAX { n.subdir_count + 1 } else { u64::MAX as int },
        )
    } else {
        (n.size as int, 1, 0)
    }
}

/// `after` is `before` once node `id` has been removed: `id` and every node
/// below it are no longer live; its parent no longer lists it; every
/// ancestor's totals drop by what `id` recorded, stopping at zero.
pub open spec fn removed(before: FileTree, after: FileTree, id: NodeId) -> bool {
    &&& after.len() == before.len()
    &&& after.root_view() == before.root_view()
    &&& after.arena() == before.arena()
    &&& forall|j: int| 0 <= j < before.len() ==> #[trigger] removed_at(before, after, id, j)
}

/// Node `j` of `after` is node `j` of `before` once `id` has been removed.
pub open spec fn removed_at(before: FileTree, after: FileTree, id: NodeId, j: int) -> bool {
    let ns = before.nodes_view();
    let d = removal_delta(ns[id as int]);
    let n = ns[j];
    let m = after.at(j);
    let up = above(ns, j, id as int);
    &&& m.name == n.name
    &&& m.modified == n.modified
    &&& m.parent == n.parent
    &&& m.depth == n.depth
    &&& m.live() == (n.live() && j != id && !below(ns, id as int, j))
    &&& m.size == if up {
        minus_floor(n.size, d.0)
    } else {
        n.size
    }
    &&& m.file_count == if up {
        minus_floor(n.file_count, d.1)
    } else {
        n.file_count
    }
    &&& m.subdir_count == if up {
        minus_floor(n.subdir_count, d.2)
    } else {
        n.subdir_count
    }
    &&& if ns[id as int].parent == Some(j as NodeId) && n.spec_is_dir() {
        &&& m.kind matches NodeKind::Directory { expanded, .. } && expanded == n.kind->expanded
        &&& m.kids() == without(n.kids(), id)
    } else {
        m.kind == n.kind
    }
}

proof fn lemma_above_linear(ns: Seq<Node>, a: int, b: int, x: int)
    requires
        above(ns, a, x),
        above(ns, b, x),
        a < b,
    ensures
        above(ns, a, b),
    decreases x,
{
    let p = ns[x].parent->0 as int;
    if b == p {
    } else if a == p {
        lemma_above_lt(ns, b, p);
    } else {
        lemma_above_linear(ns, a, b, p);
    }
}

proof fn lemma_above_trans(ns: Seq<Node>, a: int, b: int, x: int)
    requires
        above(ns, a, b),
        above(ns, b, x),
    ensures
        above(ns, a, x),
    decreases x,
{
    let p = ns[x].parent->0 as int;
    if p != b {
        lemma_above_trans(ns, a, b, p);
    }
}

/// Ancestry by parent links only reads the parent fields.
proof fn lemma_above_same(a: Seq<Node>, b: Seq<Node>, r: int, x: int)
    requires
        a.len() == b.len(),
        forall|i: int| 0 <= i < a.len() ==> (#[trigger] a[i]).parent == b[i].parent,
    ensures
        above(a, r, x) == above(b, r, x),
    decreases x,
{
    if 0 <= x < a.len() {
        if let Some(p) = a[x].parent {
            if (p as int) < x {
                lemma_above_same(a, b, r, p as int);
            }
        }
    }
}

impl FileTree {
    /// Well-formedness carries over to a tree with the same parents, names,
    /// extensions and children lists.
    proof fn lemma_wf_from(before: FileTree, after: FileTree)
        requires
            before.wf(),
            after.len() == before.len(),
            after.root_view() == before.root_view(),
            after.arena() == before.arena(),
            forall|i: int|
                0 <= i < before.len() ==> (#[trigger] after.at(i)).parent == before.at(i).parent
                    && after.at(i).name == before.at(i).name && after.at(i).ext_ref() == before.at(
                    i,
                ).ext_ref() && after.kids_of(i) == before.kids_of(i),
        ensures
            after.wf(),
    {
        assert forall|i: int| 0 < i < after.len() implies ((#[trigger] after.at(i)).parent matches Some(p) && p < i) by {
            assert(before.at(i).parent == after.at(i).parent);
        }
        assert forall|i: int, j: int|
            0 <= i < after.len() && 0 <= j < after.kids_of(i).len() implies {
                let c = #[trigger] after.kids_of(i)[j];
                &&& i < c < after.len()
                &&& after.at(c as int).parent == Some(i as NodeId)
            } by {
            assert(after.kids_of(i) == before.kids_of(i));
            let c = before.kids_of(i)[j];
            assert(after.at(c as int).parent == before.at(c as int).parent);
        }
        assert forall|i: int, j: int, k: int|
            0 <= i < after.len() && 0 <= j < k < after.kids_of(i).len() implies #[trigger] after.kids_of(
                i,
            )[j] < #[trigger] after.kids_of(i)[k] by {
            assert(after.kids_of(i) == before.kids_of(i));
            assert(before.kids_of(i)[j] < before.kids_of(i)[k]);
        }
        assert forall|i: int| 0 <= i < after.len() implies {
            &&& after.arena().holds((#[trigger] after.at(i)).name)
            &&& (after.at(i).ext_ref() matches Some(e) ==> after.arena().holds(e))
        } by {
            assert(before.arena().holds(before.at(i).name));
        }
        assert(after.at(0).parent == before.at(0).parent);
    }
}

impl FileTree {
    /// Marks `id` as no longer live and takes it out of its parent's children.
    fn unlink(&mut self, id: NodeId)
        requires
            old(self).wf(),
            id < old(self).len(),
        ensures
            final(self).wf(),
            final(self).len() == old(self).len(),
            final(self).root_view() == old(self).root_view(),
            final(self).arena() == old(self).arena(),
            final(self).at(id as int) == killed(old(self).at(id as int)),
            forall|i: int|
                0 <= i < old(self).len() && i != id && old(self).at(id as int).parent != Some(
                    i as NodeId,
                ) ==> #[trigger] final(self).at(i) == old(self).at(i),
            old(self).at(id as int).parent matches Some(p) ==> if old(self).at(
                p as int,
            ).spec_is_dir() {
                &&& same_but_kids(final(self).at(p as int), old(self).at(p as int))
                &&& final(self).kids_of(p as int) == without(old(self).kids_of(p as int), id)
            } else {
                final(self).at(p as int) == old(self).at(p as int)
            },
    {
        let ghost t0 = *self;
        let ghost ns = t0.nodes_view();
        let parent = self.nodes[id].parent;
        assert(ns[id as int] == t0.at(id as int));
        assert(parent is Some ==> id > 0 && parent->0 < id);
        self.nodes[id].alive = false;
        if let Some(pid) = parent {
            match &mut self.nodes[pid].kind {
                NodeKind::Directory { children, .. } => {
                    let mut kept: Vec<NodeId> = Vec::new();
                    let n = children.len();
                    let mut k: usize = 0;
                    while k < n
                        invariant
                            n == children@.len(),
                            k <= n,
                            kept@ == without(children@.take(k as int), id),
                        decreases n - k,
                    {
                        assert(children@.take(k as int + 1).drop_last() =~= children@.take(k as int));
                        if children[k] != id {
                            kept.push(children[k]);
                        }
                        k = k + 1;
                    }
                    assert(children@.take(n as int) =~= children@);
                    *children = kept;
                },
                NodeKind::File { .. } => {},
            }
        }
        proof {
            let t1 = *self;
            assert forall|i: int| 0 <= i < t0.len() && i != id && parent != Some(i as NodeId)
                implies #[trigger] t1.at(i) == ns[i] by {}
            assert(t1.at(id as int) == killed(ns[id as int]));
            if let Some(pid) = parent {
                lemma_without(ns[pid as int].kids(), id);
                assert forall|j: int, k: int| 0 <= j < k < ns[pid as int].kids().len() implies
                    #[trigger] ns[pid as int].kids()[j] < #[trigger] ns[pid as int].kids()[k] by {
                    assert(t0.kids_of(pid as int)[j] < t0.kids_of(pid as int)[k]);
                }
                assert(increasing(ns[pid as int].kids()));
                if ns[pid as int].spec_is_dir() {
                    assert(t1.kids_of(pid as int) == without(ns[pid as int].kids(), id));
                    assert(same_but_kids(t1.at(pid as int), ns[pid as int]));
                } else {
                    assert(t1.at(pid as int) == ns[pid as int]);
                }
            }
            assert forall|i: int| 0 <= i < t1.len() implies #[trigger] t1.at(i).parent == t0.at(i).parent
                && t1.at(i).name == t0.at(i).name && t1.at(i).ext_ref() == t0.at(i).ext_ref() by {}
            assert(t1.at(0).parent is None);
            assert forall|i: int| 0 < i < t1.len() implies ((#[trigger] t1.at(i)).parent matches Some(p) && p < i) by {
                assert(t0.at(i).parent == t1.at(i).parent);
            }
            assert forall|i: int| 0 <= i < t1.len() implies {
                &&& t1.arena().holds((#[trigger] t1.at(i)).name)
                &&& (t1.at(i).ext_ref() matches Some(e) ==> t1.arena().holds(e))
            } by {
                assert(t0.arena().holds(t0.at(i).name));
            }
            assert forall|i: int, j: int|
                0 <= i < t1.len() && 0 <= j < t1.kids_of(i).len() implies {
                    let c = #[trigger] t1.kids_of(i)[j];
                    &&& i < c < t1.len()
                    &&& t1.at(c as int).parent == Some(i as NodeId)
                } by {
                let c = t1.kids_of(i)[j];
                if parent == Some(i as NodeId) && ns[i].spec_is_dir() {
                    assert(ns[i].kids().contains(c));
                    let x = choose|x: int| 0 <= x < ns[i].kids().len() && ns[i].kids()[x] == c;
                    assert(t0.kids_of(i)[x] == c);
                } else {
                    assert(t1.kids_of(i) == ns[i].kids());
                    assert(t0.kids_of(i)[j] == c);
                }
            }
            assert forall|i: int, j: int, k: int|
                0 <= i < t1.len() && 0 <= j < k < t1.kids_of(i).len() implies #[trigger] t1.kids_of(
                    i,
                )[j] < #[trigger] t1.kids_of(i)[k] by {
                if parent == Some(i as NodeId) && ns[i].spec_is_dir() {
                    let w = without(ns[i].kids(), id);
                    assert(increasing(w));
                    assert(t1.kids_of(i) == w);
                    assert(w[j] < w[k]);
                } else {
                    assert(t1.kids_of(i) == ns[i].kids());
                    assert(t0.kids_of(i)[j] < t0.kids_of(i)[k]);
                }
            }
        }
    }

    /// Takes `delta` off the totals of every ancestor of `id`, stopping at zero.
    fn drop_from_ancestors(&mut self, id: NodeId, size: u64, dfiles: u64, ddirs: u64)
        requires
            old(self).wf(),
            id < old(self).len(),
        ensures
            final(self).wf(),
            final(self).len() == old(self).len(),
            final(self).root_view() == old(self).root_view(),
            final(self).arena() == old(self).arena(),
            forall|j: int|
                0 <= j < old(self).len() ==> {
                    let m = #[trigger] final(self).at(j);
                    let n = old(self).at(j);
                    let up = above(old(self).nodes_view(), j, id as int);
                    &&& same_but_totals(m, n)
                    &&& m.size == if up {
                        minus_floor(n.size, size as int)
                    } else {
                        n.size
                    }
                    &&& m.file_count == if up {
                        minus_floor(n.file_count, dfiles as int)
                    } else {
                        n.file_count
                    }
                    &&& m.subdir_count == if up {
                        minus_floor(n.subdir_count, ddirs as int)
                    } else {
                        n.subdir_count
                    }
                },
    {
        let ghost t0 = *self;
        let ghost ns = t0.nodes_view();
        let parent = self.nodes[id].parent;
        assert(t0.at(id as int).parent == parent);
        proof {
            assert forall|j: int| 0 <= j < t0.len() && above(ns, j, id as int) implies parent is Some
                && j <= parent->0 by {
                let p = ns[id as int].parent->0 as int;
                if j != p {
                    lemma_above_lt(ns, j, p);
                }
            }
        }
        let mut current = parent;
        while current.is_some()
            invariant
                t0.wf(),
                ns == t0.nodes_view(),
                id < t0.len(),
                parent == ns[id as int].parent,
                self.nodes@.len() == t0.len(),
                self.root == t0.root,
                self.strings == t0.strings,
                current is None || current == parent || above(ns, current->0 as int, id as int),
                forall|j: int|
                    0 <= j < t0.len() ==> {
                        let m = #[trigger] self.nodes@[j];
                        let n = ns[j];
                        let done = above(ns, j, id as int) && (current is None || j
                            > current->0);
                        &&& same_but_totals(m, n)
                        &&& m.size == if done {
                            minus_floor(n.size, size as int)
                        } else {
                            n.size
                        }
                        &&& m.file_count == if done {
                            minus_floor(n.file_count, dfiles as int)
                        } else {
                            n.file_count
                        }
                        &&& m.subdir_count == if done {
                            minus_floor(n.subdir_count, ddirs as int)
                        } else {
                            n.subdir_count
                        }
                    },
            decreases (if current is Some {
                current->0 + 1
            } else {
                0
            }),
        {
            let pid = current.unwrap();
            proof {
                if current == parent {
                    assert(t0.at(id as int).parent == parent);
                    assert(above(ns, pid as int, id as int));
                }
                lemma_above_lt(ns, pid as int, id as int);
            }
            let node = &mut self.nodes[pid];
            node.size = node.size.saturating_sub(size);
            node.file_count = node.file_count.saturating_sub(dfiles);
            node.subdir_count = node.subdir_count.saturating_sub(ddirs);
            let next = node.parent;
            proof {
                assert(next == ns[pid as int].parent);
                assert(t0.at(pid as int) == ns[pid as int]);
                if pid > 0 {
                    assert(ns[pid as int].parent is Some);
                    assert(above(ns, next->0 as int, pid as int));
                    lemma_above_trans(ns, next->0 as int, pid as int, id as int);
                }
                assert forall|j: int| 0 <= j < t0.len() implies (above(ns, j, id as int) && (next is None || j
                    > next->0)) == (above(ns, j, id as int) && (j > pid || j == pid)) by {
                    if above(ns, j, id as int) && j < pid {
                        lemma_above_linear(ns, j, pid as int, id as int);
                        let q = ns[pid as int].parent->0 as int;
                        if j != q {
                            lemma_above_lt(ns, j, q);
                        }
                    }
                    if next is None && above(ns, j, id as int) {
                        lemma_above_lt(ns, j, id as int);
                        if j < pid {
                            lemma_above_linear(ns, j, pid as int, id as int);
                            assert(ns[pid as int].parent is None);
                        }
                    }
                }
            }
            current = next;
        }
        proof {
            assert forall|i: int| 0 <= i < t0.len() implies (#[trigger] self.at(i)).parent == t0.at(i).parent
                && self.at(i).name == t0.at(i).name && self.at(i).ext_ref() == t0.at(i).ext_ref()
                && self.kids_of(i) == t0.kids_of(i) by {}
            Self::lemma_wf_from(t0, *self);
        }
    }

    /// Removes `id` from its parent's children, takes its totals off every
    /// ancestor (stopping at zero) and marks it and everything below it as
    /// no longer live.
    pub fn remove_node(&mut self, id: NodeId)
        requires
            old(self).wf(),
            id < old(self).len(),
        ensures
            removed(*old(self), *final(self), id),
            final(self).wf(),
    {
        let ghost t0 = *self;
        let ghost ns = t0.nodes_view();
        let size = self.nodes[id].size;
        let (dfiles, ddirs) = match &self.nodes[id].kind {
            NodeKind::Directory { .. } => (
                self.nodes[id].file_count,
                self.nodes[id].subdir_count.saturating_add(1),
            ),
            NodeKind::File { .. } => (1u64, 0u64),
        };
        assert((size as int, dfiles as int, ddirs as int) == removal_delta(ns[id as int]));
        self.unlink(id);
        let ghost t1 = *self;
        self.drop_from_ancestors(id, size, dfiles, ddirs);
        let ghost t2 = *self;
        self.mark_dead_recursive(id);
        proof {
            assert forall|j: int| 0 <= j < t0.len() implies #[trigger] t1.nodes_view()[j].parent == ns[j].parent by {
                assert(t1.at(j).parent == t0.at(j).parent);
            }
            assert forall|j: int| 0 <= j < t0.len() implies #[trigger] t2.nodes_view()[j].parent == ns[j].parent by {
                assert(t1.at(j).parent == t0.at(j).parent);
                assert(t2.at(j).parent == t1.at(j).parent);
            }
            assert forall|i: int| 0 <= i < t0.len() implies (#[trigger] self.at(i)).parent == t2.at(i).parent
                && self.at(i).name == t2.at(i).name && self.at(i).ext_ref() == t2.at(i).ext_ref()
                && self.kids_of(i) == t2.kids_of(i) by {}
            Self::lemma_wf_from(t2, *self);
            assert forall|j: int| 0 <= j < t0.len() && j >= id implies #[trigger] t2.nodes_view()[j].kind == ns[j].kind by {
                assert(t2.at(j).kind == t1.at(j).kind);
                if let Some(p) = ns[id as int].parent {
                    assert(t0.at(id as int).parent == Some(p));
                }
            }
            assert forall|j: int| 0 <= j < t0.len() implies (#[trigger] above(t1.nodes_view(), j, id as int))
                == above(ns, j, id as int) by {
                lemma_above_same(t1.nodes_view(), ns, j, id as int);
            }
            assert forall|j: int| 0 <= j < t0.len() implies #[trigger] below(t2.nodes_view(), id as int, j)
                == below(ns, id as int, j) by {
                lemma_below_same_above(t2.nodes_view(), ns, id, j);
            }
            assert forall|j: int| 0 <= j < t0.len() implies removed_at(t0, *self, id, j) by {
                if above(ns, j, id as int) {
                    lemma_above_lt(ns, j, id as int);
                    if below(ns, id as int, j) {
                        lemma_below_is_above(ns, id as int, j);
                    }
                }
                if below(ns, id as int, j) {
                    lemma_below_is_above(ns, id as int, j);
                }
            }
        }
    }
}

/// Below-relations that start at `id` do not see a change confined to the
/// children list of `id`'s parent.
proof fn lemma_below_same_above(a: Seq<Node>, b: Seq<Node>, id: NodeId, x: int)
    requires
        a.len() == b.len(),
        forall|i: int| 0 <= i < a.len() ==> (#[trigger] a[i]).parent == b[i].parent,
        forall|i: int| 0 <= i < a.len() && i >= id ==> (#[trigger] a[i]).kind == b[i].kind,
    ensures
        below(a, id as int, x) == below(b, id as int, x),
    decreases x,
{
    if 0 <= x < a.len() {
        if let Some(p) = a[x].parent {
            if (p as int) < x && p != id {
                lemma_below_same_above(a, b, id, p as int);
            }
            if (p as int) < x && (p == id || below(a, id as int, p as int) || below(b, id as int, p as int)) {
                if p != id {
                    if below(a, id as int, p as int) {
                        lemma_below_is_above(a, id as int, p as int);
                    } else {
                        lemma_below_is_above(b, id as int, p as int);
                    }
                }
                assert(a[p as int].kind == b[p as int].kind);
            }
        }
    }
}

/// What node `c` adds to a sum over children: its share when it exists
/// and is live, nothing otherwise.
pub open spec fn term(ns: Seq<Node>, c: NodeId) -> (int, int, int) {
    if c < ns.len() && ns[c as int].live() {
        share_of(ns[c as int])
    } else {
        (0, 0, 0)
    }
}

pub open spec fn ge3(a: (int, int, int), b: (int, int, int)) -> bool {
    a.0 >= b.0 && a.1 >= b.1 && a.2 >= b.2
}

pub open spec fn sub3(a: (int, int, int), b: (int, int, int)) -> (int, int, int) {
    (a.0 - b.0, a.1 - b.1, a.2 - b.2)
}

proof fn lemma_kids_sum_unfold(ns: Seq<Node>, ch: Seq<NodeId>)
    requires
        ch.len() > 0,
    ensures
        kids_sum(ns, ch) == add3(kids_sum(ns, ch.drop_last()), term(ns, ch.last())),
{
}

proof fn lemma_kids_sum_nonneg(ns: Seq<Node>, ch: Seq<NodeId>)
    ensures
        ge3(kids_sum(ns, ch), (0, 0, 0)),
    decreases ch.len(),
{
    if ch.len() > 0 {
        lemma_kids_sum_nonneg(ns, ch.drop_last());
    }
}

/// A sum over children is at least the share of any one of them.
proof fn lemma_kids_sum_ge(ns: Seq<Node>, ch: Seq<NodeId>, m: int)
    requires
        0 <= m < ch.len(),
    ensures
        ge3(kids_sum(ns, ch), term(ns, ch[m])),
    decreases ch.len(),
{
    lemma_kids_sum_nonneg(ns, ch.drop_last());
    if m < ch.len() - 1 {
        lemma_kids_sum_ge(ns, ch.drop_last(), m);
    }
}

/// Sums agree where every member adds the same.
proof fn lemma_kids_sum_eq(a: Seq<Node>, b: Seq<Node>, ch: Seq<NodeId>)
    requires
        forall|m: int| 0 <= m < ch.len() ==> term(a, #[trigger] ch[m]) == term(b, ch[m]),
    ensures
        kids_sum(a, ch) == kids_sum(b, ch),
    decreases ch.len(),
{
    if ch.len() > 0 {
        assert forall|m: int| 0 <= m < ch.drop_last().len() implies term(a, #[trigger] ch.drop_last()[m])
            == term(b, ch.drop_last()[m]) by {
            assert(ch.drop_last()[m] == ch[m]);
        }
        lemma_kids_sum_eq(a, b, ch.drop_last());
        assert(term(a, ch[ch.len() - 1]) == term(b, ch[ch.len() - 1]));
    }
}

/// Sums differ by the change of the one member `ch[d]` that adds differently.
proof fn lemma_kids_sum_one(a: Seq<Node>, b: Seq<Node>, ch: Seq<NodeId>, d: int)
    requires
        0 <= d < ch.len(),
        forall|m: int| 0 <= m < ch.len() && m != d ==> term(a, #[trigger] ch[m]) == term(b, ch[m]),
    ensures
        kids_sum(b, ch) == add3(sub3(kids_sum(a, ch), term(a, ch[d])), term(b, ch[d])),
    decreases ch.len(),
{
    let r = ch.drop_last();
    if d == ch.len() - 1 {
        assert forall|m: int| 0 <= m < r.len() implies term(a, #[trigger] r[m]) == term(b, r[m]) by {
            assert(r[m] == ch[m]);
        }
        lemma_kids_sum_eq(a, b, r);
    } else {
        assert forall|m: int| 0 <= m < r.len() && m != d implies term(a, #[trigger] r[m]) == term(b, r[m]) by {
            assert(r[m] == ch[m]);
        }
        lemma_kids_sum_one(a, b, r, d);
        assert(r[d] == ch[d]);
        assert(term(a, ch[ch.len() - 1]) == term(b, ch[ch.len() - 1]));
    }
}

/// Taking a member out of a strictly increasing list takes its share off the sum.
proof fn lemma_kids_sum_without(ns: Seq<Node>, ch: Seq<NodeId>, x: NodeId)
    requires
        increasing(ch),
    ensures
        kids_sum(ns, ch) == add3(kids_sum(ns, without(ch, x)), if ch.contains(x) {
            term(ns, x)
        } else {
            (0, 0, 0)
        }),
    decreases ch.len(),
{
    if ch.len() > 0 {
        let r = ch.drop_last();
        assert(increasing(r));
        lemma_kids_sum_without(ns, r, x);
        if ch.last() == x {
            assert(!r.contains(x)) by {
                if r.contains(x) {
                    let i = choose|i: int| 0 <= i < r.len() && r[i] == x;
                    assert(ch[i] < ch[ch.len() - 1]);
                }
            }
            assert(ch.contains(x)) by {
                assert(ch[ch.len() - 1] == x);
            }
        } else {
            lemma_kids_sum_unfold(ns, without(r, x).push(ch.last()));
            assert(without(r, x).push(ch.last()).drop_last() =~= without(r, x));
            assert(ch.contains(x) == r.contains(x)) by {
                if ch.contains(x) {
                    let i = choose|i: int| 0 <= i < ch.len() && ch[i] == x;
                    assert(r[i] == x);
                }
                if r.contains(x) {
                    let i = choose|i: int| 0 <= i < r.len() && r[i] == x;
                    assert(ch[i] == x);
                }
            }
        }
    }
}

/// Each link from `x` up to the root is listed in the parent's children,
/// and every node above `x` is live.
pub open spec fn attached(ns: Seq<Node>, x: int) -> bool
    decreases x,
{
    if 0 <= x < ns.len() {
        match ns[x].parent {
            None => true,
            Some(p) => (p as int) < x && ns[p as int].live() && ns[p as int].kids().contains(
                x as NodeId,
            ) && attached(ns, p as int),
        }
    } else {
        false
    }
}

impl FileTree {
    /// Below an ancestor `a` of `x` there is a child of `a` on the way to `x`;
    /// it is listed and live when `x` is attached.
    proof fn lemma_step_down(t: FileTree, a: int, x: int) -> (d: int)
        requires
            t.wf(),
            above(t.nodes_view(), a, x),
            attached(t.nodes_view(), x),
        ensures
            0 <= d < t.len(),
            t.at(d).parent == Some(a as NodeId),
            d == x || above(t.nodes_view(), d, x),
            t.kids_of(a).contains(d as NodeId),
            t.alive_at(a),
            d == x || t.alive_at(d),
            attached(t.nodes_view(), d),
        decreases x,
    {
        let ns = t.nodes_view();
        let p = ns[x].parent->0 as int;
        if p == a {
            x
        } else {
            let d = Self::lemma_step_down(t, a, p);
            if d != p {
                lemma_above_trans(ns, d, p, x);
            }
            d
        }
    }

    /// The child of `j` on the way down to `x` is the only child of `j` that
    /// is `x` or above it.
    proof fn lemma_one_way_down(t: FileTree, j: int, c: int, d: int, x: int)
        requires
            t.wf(),
            0 <= j < t.len(),
            t.at(c).parent == Some(j as NodeId),
            t.at(d).parent == Some(j as NodeId),
            0 <= c < t.len(),
            0 <= d < t.len(),
            c == x || above(t.nodes_view(), c, x),
            d == x || above(t.nodes_view(), d, x),
        ensures
            c == d,
    {
        let ns = t.nodes_view();
        assert(j < c && j < d);
        if c != d {
            if c == x {
                lemma_above_lt(ns, d, x);
                assert(ns[x].parent == Some(j as NodeId));
                if d != j {
                    assert(above(ns, d, j));
                    lemma_above_lt(ns, d, j);
                }
            } else if d == x {
                assert(ns[x].parent == Some(j as NodeId));
                assert(above(ns, c, j));
                lemma_above_lt(ns, c, j);
            } else if c < d {
                lemma_above_linear(ns, c, d, x);
                assert(above(ns, c, j));
                lemma_above_lt(ns, c, j);
            } else {
                lemma_above_linear(ns, d, c, x);
                assert(above(ns, d, j));
                lemma_above_lt(ns, d, j);
            }
        }
    }

    /// Every ancestor of an attached node records at least what removing
    /// the node takes off.
    proof fn lemma_ancestor_covers(t: FileTree, a: int, id: NodeId)
        requires
            t.wf(),
            t.totals_consistent(),
            id < t.len(),
            t.alive_at(id as int),
            attached(t.nodes_view(), id as int),
            above(t.nodes_view(), a, id as int),
        ensures
            ge3(totals_of(t.at(a)), removal_delta(t.at(id as int))),
            ge3(share_of(t.at(a)), removal_delta(t.at(id as int))),
        decreases id - a,
    {
        let ns = t.nodes_view();
        let d = Self::lemma_step_down(t, a, id as int);
        lemma_above_lt(ns, a, id as int);
        assert(t.at(a).spec_is_dir());
        let m = choose|m: int| 0 <= m < t.kids_of(a).len() && t.kids_of(a)[m] == d as NodeId;
        lemma_kids_sum_ge(ns, t.kids_of(a), m);
        if d != id {
            lemma_above_lt(ns, d, id as int);
            Self::lemma_ancestor_covers(t, d, id);
        }
    }

    /// Law: removing a live node whose way up to the root is listed and live
    /// keeps every live directory's totals equal to the sum over its live
    /// children.
    pub proof fn lemma_remove_keeps_totals(before: FileTree, after: FileTree, id: NodeId)
        requires
            before.wf(),
            before.totals_consistent(),
            id < before.len(),
            before.alive_at(id as int),
            attached(before.nodes_view(), id as int),
            removed(before, after, id),
        ensures
            after.totals_consistent(),
    {
        let ns = before.nodes_view();
        let delta = removal_delta(ns[id as int]);
        assert forall|j: int|
            0 <= j < after.len() && after.alive_at(j) && (#[trigger] after.at(j)).spec_is_dir()
                implies totals_of(after.at(j)) == kids_sum(after.nodes_view(), after.kids_of(j)) by {
            assert(removed_at(before, after, id, j));
            let n = before.at(j);
            assert(n.live() && j != id && !below(ns, id as int, j));
            assert(n.spec_is_dir());
            // Children of `j` other than the way down to `id` add the same.
            assert forall|c: NodeId|
                n.kids().contains(c) && c != id && !above(ns, c as int, id as int) implies term(
                    ns,
                    c,
                ) == term(after.nodes_view(), c) by {
                let m = choose|m: int| 0 <= m < n.kids().len() && n.kids()[m] == c;
                assert(before.kids_of(j)[m] == c);
                assert(removed_at(before, after, id, c as int));
                if below(ns, id as int, c as int) {
                    assert(ns[c as int].parent == Some(j as NodeId));
                }
            }
            if above(ns, j, id as int) {
                Self::lemma_ancestor_covers(before, j, id);
                let d = Self::lemma_step_down(before, j, id as int);
                let md = choose|m: int| 0 <= m < n.kids().len() && n.kids()[m] == d as NodeId;
                assert(before.kids_of(j)[md] == d as NodeId);
                if d == id {
                    // `j` is the parent: `id` leaves its children list.
                    assert(ns[id as int].parent == Some(j as NodeId));
                    assert(increasing(n.kids())) by {
                        assert forall|x: int, y: int| 0 <= x < y < n.kids().len() implies #[trigger] n.kids()[x]
                            < #[trigger] n.kids()[y] by {
                            assert(before.kids_of(j)[x] < before.kids_of(j)[y]);
                        }
                    }
                    lemma_without(n.kids(), id);
                    lemma_kids_sum_without(ns, n.kids(), id);
                    let w = without(n.kids(), id);
                    assert forall|m: int| 0 <= m < w.len() implies term(ns, #[trigger] w[m]) == term(
                        after.nodes_view(),
                        w[m],
                    ) by {
                        let c = w[m];
                        assert(n.kids().contains(c) && c != id);
                        let mc = choose|x: int| 0 <= x < n.kids().len() && n.kids()[x] == c;
                        assert(before.kids_of(j)[mc] == c);
                        if above(ns, c as int, id as int) {
                            Self::lemma_one_way_down(before, j, c as int, id as int, id as int);
                        }
                    }
                    lemma_kids_sum_eq(ns, after.nodes_view(), w);
                    lemma_kids_sum_ge(ns, n.kids(), md);
                    assert(term(ns, id) == delta);
                } else {
                    // One child on the way down loses `delta`, the others are unchanged.
                    assert(ns[id as int].parent != Some(j as NodeId)) by {
                        if ns[id as int].parent == Some(j as NodeId) {
                            Self::lemma_one_way_down(before, j, d, id as int, id as int);
                        }
                    }
                    assert(after.kids_of(j) == n.kids());
                    assert forall|m: int| 0 <= m < n.kids().len() && m != md implies term(
                        ns,
                        #[trigger] n.kids()[m],
                    ) == term(after.nodes_view(), n.kids()[m]) by {
                        let c = n.kids()[m];
                        assert(before.kids_of(j)[m] == c);
                        assert(n.kids().contains(c));
                        if c == id {
                            assert(ns[id as int].parent == Some(j as NodeId));
                        }
                        if above(ns, c as int, id as int) {
                            Self::lemma_one_way_down(before, j, c as int, d, id as int);
                            assert(c == d);
                            assert(increasing(n.kids())) by {
                                assert forall|x: int, y: int| 0 <= x < y < n.kids().len() implies #[trigger] n.kids()[x]
                                    < #[trigger] n.kids()[y] by {
                                    assert(before.kids_of(j)[x] < before.kids_of(j)[y]);
                                }
                            }
                        }
                    }
                    lemma_kids_sum_one(ns, after.nodes_view(), n.kids(), md);
                    Self::lemma_ancestor_covers(before, d, id);
                    let e = Self::lemma_step_down(before, d, id as int);
                    assert(before.kids_of(d).len() > 0);
                    assert(ns[d].spec_is_dir());
                    assert(removed_at(before, after, id, d));
                    lemma_above_lt(ns, d, id as int);
                    assert(!below(ns, id as int, d)) by {
                        if below(ns, id as int, d) {
                            lemma_below_is_above(ns, id as int, d);
                        }
                    }
                }
            } else {
                assert(ns[id as int].parent != Some(j as NodeId));
                assert(after.kids_of(j) == n.kids());
                assert forall|m: int| 0 <= m < n.kids().len() implies term(ns, #[trigger] n.kids()[m])
                    == term(after.nodes_view(), n.kids()[m]) by {
                    let c = n.kids()[m];
                    assert(before.kids_of(j)[m] == c);
                    assert(n.kids().contains(c));
                    if c == id {
                        assert(ns[id as int].parent == Some(j as NodeId));
                    }
                    if above(ns, c as int, id as int) {
                        assert(ns[c as int].parent == Some(j as NodeId));
                        assert(above(ns, j, c as int));
                        lemma_above_trans(ns, j, c as int, id as int);
                    }
                }
                lemma_kids_sum_eq(ns, after.nodes_view(), n.kids());
            }
        }
    }
}

/// The node with its three totals replaced (cut to `u64`).
pub open spec fn with_totals(n: Node, t: (int, int, int)) -> Node {
    Node { size: t.0 as u64, file_count: t.1 as u64, subdir_count: t.2 as u64, ..n }
}

/// The nodes after node `x` and then each of its ancestors, in turn, has
/// its totals recomputed from its live children; a file keeps its totals.
pub open spec fn refresh_up(ns: Seq<Node>, x: int) -> Seq<Node>
    decreases x,
{
    if 0 <= x < ns.len() {
        let next = if ns[x].spec_is_dir() {
            ns.update(x, with_totals(ns[x], kids_sum(ns, ns[x].kids())))
        } else {
            ns
        };
        match ns[x].parent {
            Some(p) => if (p as int) < x {
                refresh_up(next, p as int)
            } else {
                next
            },
            None => next,
        }
    } else {
        ns
    }
}

/// No sum computed by `refresh_up(ns, x)` overflows a `u64`.
pub open spec fn refresh_up_fits(ns: Seq<Node>, x: int) -> bool
    decreases x,
{
    if 0 <= x < ns.len() {
        let next = if ns[x].spec_is_dir() {
            ns.update(x, with_totals(ns[x], kids_sum(ns, ns[x].kids())))
        } else {
            ns
        };
        &&& ns[x].spec_is_dir() ==> fits(kids_sum(ns, ns[x].kids()))
        &&& match ns[x].parent {
            Some(p) => (p as int) < x ==> refresh_up_fits(next, p as int),
            None => true,
        }
    } else {
        true
    }
}

impl FileTree {
    /// Marks every node below `target` as no longer live and empties its
    /// children list; `target` itself stays.
    pub fn clear_descendants(&mut self, target: NodeId)
        requires
            old(self).wf(),
            target < old(self).len(),
        ensures
            final(self).wf(),
            final(self).len() == old(self).len(),
            final(self).root_view() == old(self).root_view(),
            final(self).arena() == old(self).arena(),
            forall|j: int|
                0 <= j < old(self).len() && j != target ==> #[trigger] final(self).at(j) == if below(
                    old(self).nodes_view(),
                    target as int,
                    j,
                ) {
                    killed(old(self).at(j))
                } else {
                    old(self).at(j)
                },
            if old(self).at(target as int).spec_is_dir() {
                &&& same_but_kids(final(self).at(target as int), old(self).at(target as int))
                &&& final(self).kids_of(target as int) == Seq::<NodeId>::empty()
            } else {
                final(self).at(target as int) == old(self).at(target as int)
            },
    {
        let ghost t0 = *self;
        self.mark_dead_recursive(target);
        let ghost t1 = *self;
        proof {
            assert(!below(t0.nodes_view(), target as int, target as int)) by {
                if below(t0.nodes_view(), target as int, target as int) {
                    lemma_below_is_above(t0.nodes_view(), target as int, target as int);
                }
            }
            assert(t1.at(target as int) == t0.at(target as int));
        }
        match &mut self.nodes[target].kind {
            NodeKind::Directory { children, .. } => {
                children.clear();
            },
            NodeKind::File { .. } => {},
        }
        proof {
            assert forall|i: int| 0 <= i < t1.len() implies (#[trigger] self.at(i)).parent == t1.at(i).parent
                && self.at(i).name == t1.at(i).name && self.at(i).ext_ref() == t1.at(i).ext_ref()
                && (i != target ==> self.kids_of(i) == t1.kids_of(i)) by {}
            assert(self.wf()) by {
                assert(forall|i: int| 0 <= i < t1.len() ==> (#[trigger] t1.at(i)).parent == t0.at(i).parent);
                assert forall|i: int| 0 < i < self.len() implies ((#[trigger] self.at(i)).parent matches Some(p) && p < i) by {
                    assert(t0.at(i).parent == self.at(i).parent);
                }
                assert forall|i: int, j: int|
                    0 <= i < self.len() && 0 <= j < self.kids_of(i).len() implies {
                        let c = #[trigger] self.kids_of(i)[j];
                        &&& i < c < self.len()
                        &&& self.at(c as int).parent == Some(i as NodeId)
                    } by {
                    assert(i != target);
                    assert(self.kids_of(i) == t0.kids_of(i));
                    let c = t0.kids_of(i)[j];
                    assert(self.at(c as int).parent == t0.at(c as int).parent);
                }
                assert forall|i: int, j: int, k: int|
                    0 <= i < self.len() && 0 <= j < k < self.kids_of(i).len() implies #[trigger] self.kids_of(
                        i,
                    )[j] < #[trigger] self.kids_of(i)[k] by {
                    assert(self.kids_of(i) == t0.kids_of(i));
                    assert(t0.kids_of(i)[j] < t0.kids_of(i)[k]);
                }
                assert forall|i: int| 0 <= i < self.len() implies {
                    &&& self.arena().holds((#[trigger] self.at(i)).name)
                    &&& (self.at(i).ext_ref() matches Some(e) ==> self.arena().holds(e))
                } by {
                    assert(t0.arena().holds(t0.at(i).name));
                    assert(t1.at(i).name == t0.at(i).name && t1.at(i).ext_ref() == t0.at(i).ext_ref());
                }
            }
        }
    }

    /// Recomputes the totals of `target` and then of each ancestor in turn,
    /// each from its live children as they stand at that moment; stops and
    /// returns `false` when a total would overflow a `u64`, which happens
    /// exactly when `refresh_up_fits` fails.
    pub fn try_recompute_sizes_upward(&mut self, target: NodeId) -> (ok: bool)
        requires
            old(self).wf(),
            target < old(self).len(),
        ensures
            final(self).wf(),
            final(self).len() == old(self).len(),
            final(self).root_view() == old(self).root_view(),
            final(self).arena() == old(self).arena(),
            ok == refresh_up_fits(old(self).nodes_view(), target as int),
            ok ==> final(self).nodes_view() == refresh_up(old(self).nodes_view(), target as int),
    {
        let ghost t0 = *self;
        let ghost goal = refresh_up(t0.nodes_view(), target as int);
        let ghost fits0 = refresh_up_fits(t0.nodes_view(), target as int);
        let mut current: Option<NodeId> = Some(target);
        while current.is_some()
            invariant
                t0 == *old(self),
                fits0 == refresh_up_fits(t0.nodes_view(), target as int),
                t0.wf(),
                self.nodes@.len() == t0.len(),
                self.root == t0.root,
                self.strings == t0.strings,
                forall|i: int|
                    0 <= i < t0.len() ==> same_but_totals(#[trigger] self.nodes@[i], t0.at(i)),
                match current {
                    Some(c) => {
                        &&& c < t0.len()
                        &&& refresh_up(self.nodes@, c as int) == goal
                        &&& refresh_up_fits(self.nodes@, c as int) == fits0
                    },
                    None => self.nodes@ == goal && fits0,
                },
            decreases (if current is Some {
                current->0 + 1
            } else {
                0
            }),
        {
            let c = current.unwrap();
            let ghost before = self.nodes@;
            assert(same_but_totals(before[c as int], t0.at(c as int)));
            if let NodeKind::Directory { children, .. } = &self.nodes[c].kind {
                let n = children.len();
                let mut bytes: u64 = 0;
                let mut files: u64 = 0;
                let mut dirs: u64 = 0;
                let mut j: usize = 0;
                proof {
                    lemma_kids_sum_prefix_mono(before, children@, n as int);
                }
                while j < n
                    invariant
                        t0 == *old(self),
                        fits0 == refresh_up_fits(t0.nodes_view(), target as int),
                        t0.wf(),
                        self.nodes@.len() == t0.len(),
                        self.root == t0.root,
                        self.strings == t0.strings,
                        forall|i: int|
                            0 <= i < t0.len() ==> same_but_totals(#[trigger] self.nodes@[i], t0.at(i)),
                        c < t0.len(),
                        refresh_up_fits(before, c as int) == fits0,
                        before[c as int].spec_is_dir(),
                        before[c as int].kids() == children@,
                        n == children@.len(),
                        j <= n,
                        self.nodes@ == before,
                        forall|m: int|
                            0 <= m <= n ==> ge3(kids_sum(before, children@), #[trigger] kids_sum(before, children@.take(m)))
                                && ge3(kids_sum(before, children@.take(m)), (0, 0, 0)),
                        (bytes as int, files as int, dirs as int) == kids_sum(before, children@.take(j as int)),
                    decreases n - j,
                {
                    let k = children[j];
                    proof {
                        assert(children@.take(j as int + 1).drop_last() =~= children@.take(j as int));
                        assert(children@.take(j as int + 1).last() == k);
                    }
                    if k < self.nodes.len() {
                        let child = &self.nodes[k];
                        if child.alive {
                            let (db, df, dd): (u64, u64, u64) = if child.is_dir() {
                                (child.size, child.file_count, 1)
                            } else {
                                (child.size, 1, 0)
                            };
                            let sd = if child.is_dir() {
                                dirs.checked_add(child.subdir_count)
                            } else {
                                Some(dirs)
                            };
                            let nb = bytes.checked_add(db);
                            let nf = files.checked_add(df);
                            let nd = match sd {
                                Some(x) => x.checked_add(dd),
                                None => None,
                            };
                            match (nb, nf, nd) {
                                (Some(b2), Some(f2), Some(d2)) => {
                                    bytes = b2;
                                    files = f2;
                                    dirs = d2;
                                },
                                _ => {
                                    proof {
                                        let step = kids_sum(before, children@.take(j as int + 1));
                                        assert(!fits(step));
                                        assert(!fits(kids_sum(before, children@)));
                                        assert(!refresh_up_fits(before, c as int));
                                        assert forall|i: int| 0 <= i < t0.len() implies (#[trigger] self.at(i)).parent
                                            == t0.at(i).parent && self.at(i).name == t0.at(i).name
                                            && self.at(i).ext_ref() == t0.at(i).ext_ref() && self.kids_of(i)
                                            == t0.kids_of(i) by {
                                            assert(same_but_totals(self.nodes@[i], t0.at(i)));
                                        }
                                        Self::lemma_wf_from(t0, *self);
                                    }
                                    return false;
                                },
                            }
                        }
                    }
                    j = j + 1;
                }
                assert(children@.take(n as int) =~= children@);
                let node = &mut self.nodes[c];
                node.size = bytes;
                node.file_count = files;
                node.subdir_count = dirs;
            }
            let next = self.nodes[c].parent;
            proof {
                assert(next == t0.at(c as int).parent);
                assert(self.nodes@ == if before[c as int].spec_is_dir() {
                    before.update(c as int, with_totals(before[c as int], kids_sum(before, before[c as int].kids())))
                } else {
                    before
                });
                if let Some(p) = next {
                    assert(c > 0);
                    assert(t0.at(c as int).parent matches Some(q) && q < c);
                }
                assert forall|i: int| 0 <= i < t0.len() implies same_but_totals(#[trigger] self.nodes@[i], t0.at(i)) by {
                    assert(same_but_totals(before[i], t0.at(i)));
                }
            }
            current = next;
        }
        proof {
            assert forall|i: int| 0 <= i < t0.len() implies (#[trigger] self.at(i)).parent == t0.at(i).parent
                && self.at(i).name == t0.at(i).name && self.at(i).ext_ref() == t0.at(i).ext_ref()
                && self.kids_of(i) == t0.kids_of(i) by {
                assert(same_but_totals(self.nodes@[i], t0.at(i)));
            }
            Self::lemma_wf_from(t0, *self);
        }
        true
    }

    /// Recomputes the totals of `target` and then of each ancestor in turn,
    /// each from its live children as they stand at that moment.
    pub fn recompute_sizes_upward(&mut self, target: NodeId)
        requires
            old(self).wf(),
            target < old(self).len(),
            refresh_up_fits(old(self).nodes_view(), target as int),
        ensures
            final(self).wf(),
            final(self).len() == old(self).len(),
            final(self).root_view() == old(self).root_view(),
            final(self).arena() == old(self).arena(),
            final(self).nodes_view() == refresh_up(old(self).nodes_view(), target as int),
    {
        self.try_recompute_sizes_upward(target);
    }
}

/// Children have larger indices than their directory and name it as
/// their parent; a parent has a smaller index than its child.
pub open spec fn linked(ns: Seq<Node>) -> bool {
    &&& forall|i: int, j: int|
        0 <= i < ns.len() && 0 <= j < ns[i].kids().len() ==> {
            let c = #[trigger] ns[i].kids()[j];
            &&& i < c < ns.len()
            &&& ns[c as int].parent == Some(i as NodeId)
        }
    &&& forall|i: int| 0 <= i < ns.len() ==> ((#[trigger] ns[i]).parent matches Some(p) ==> p < i)
}

/// A live directory records exactly the totals of its live children.
pub open spec fn consistent_at(ns: Seq<Node>, i: int) -> bool {
    0 <= i < ns.len() && ns[i].live() && ns[i].spec_is_dir() ==> totals_of(ns[i]) == kids_sum(ns, ns[i].kids())
}

/// Node `i` is `x` or one of its ancestors.
pub open spec fn on_path(ns: Seq<Node>, x: int, i: int) -> bool {
    i == x || above(ns, i, x)
}

/// Refreshing upward changes only totals, only of directories on the way
/// up from `x`.
proof fn lemma_refresh_shape(ns: Seq<Node>, x: int)
    requires
        linked(ns),
    ensures
        refresh_up(ns, x).len() == ns.len(),
        forall|i: int|
            0 <= i < ns.len() ==> {
                &&& same_but_totals(#[trigger] refresh_up(ns, x)[i], ns[i])
                &&& (!ns[i].spec_is_dir() ==> refresh_up(ns, x)[i] == ns[i])
                &&& (!on_path(ns, x, i) ==> refresh_up(ns, x)[i] == ns[i])
            },
    decreases x,
{
    if 0 <= x < ns.len() {
        let next = if ns[x].spec_is_dir() {
            ns.update(x, with_totals(ns[x], kids_sum(ns, ns[x].kids())))
        } else {
            ns
        };
        assert forall|i: int| 0 <= i < ns.len() implies (#[trigger] next[i]).parent == ns[i].parent
            && next[i].kids() == ns[i].kids() && next[i].kind == ns[i].kind by {}
        assert(linked(next));
        match ns[x].parent {
            Some(p) => {
                assert(ns[x] == ns[x]);
                lemma_refresh_shape(next, p as int);
                assert forall|i: int| 0 <= i < ns.len() implies {
                    &&& same_but_totals(#[trigger] refresh_up(ns, x)[i], ns[i])
                    &&& (!ns[i].spec_is_dir() ==> refresh_up(ns, x)[i] == ns[i])
                    &&& (!on_path(ns, x, i) ==> refresh_up(ns, x)[i] == ns[i])
                } by {
                    lemma_above_same(next, ns, i, p as int);
                    assert(same_but_totals(refresh_up(next, p as int)[i], next[i]));
                }
            },
            None => {},
        }
    }
}

/// Refreshing upward from `x` leaves every live directory consistent when
/// all those off the way up already were.
proof fn lemma_refresh_consistent(ns: Seq<Node>, x: int)
    requires
        linked(ns),
        0 <= x < ns.len(),
        refresh_up_fits(ns, x),
        forall|i: int| 0 <= i < ns.len() && !on_path(ns, x, i) ==> #[trigger] consistent_at(ns, i),
    ensures
        forall|i: int| 0 <= i < ns.len() ==> #[trigger] consistent_at(refresh_up(ns, x), i),
    decreases x,
{
    let ks = kids_sum(ns, ns[x].kids());
    let next = if ns[x].spec_is_dir() {
        ns.update(x, with_totals(ns[x], ks))
    } else {
        ns
    };
    assert forall|i: int| 0 <= i < ns.len() implies (#[trigger] next[i]).parent == ns[i].parent
        && next[i].kids() == ns[i].kids() && next[i].kind == ns[i].kind && next[i].live() == ns[i].live() by {}
    assert(linked(next));
    // The refreshed directory is consistent.
    assert(consistent_at(next, x)) by {
        if ns[x].spec_is_dir() && ns[x].live() {
            assert forall|m: int| 0 <= m < ns[x].kids().len() implies term(next, #[trigger] ns[x].kids()[m])
                == term(ns, ns[x].kids()[m]) by {
                let c = ns[x].kids()[m];
                assert(x < c < ns.len());
            }
            lemma_kids_sum_eq(next, ns, ns[x].kids());
            assert(fits(ks));
        }
    }
    // So is every directory off the way up.
    assert forall|i: int| 0 <= i < ns.len() && !on_path(ns, x, i) implies #[trigger] consistent_at(next, i) by {
        assert(consistent_at(ns, i));
        if ns[i].live() && ns[i].spec_is_dir() {
            assert(next[i] == ns[i]);
            assert forall|m: int| 0 <= m < ns[i].kids().len() implies term(next, #[trigger] ns[i].kids()[m])
                == term(ns, ns[i].kids()[m]) by {
                let c = ns[i].kids()[m];
                if c == x {
                    assert(ns[x].parent == Some(i as NodeId));
                    assert(above(ns, i, x));
                }
            }
            lemma_kids_sum_eq(next, ns, ns[i].kids());
        }
    }
    match ns[x].parent {
        Some(p) => {
            assert(p < x);
            assert forall|i: int| 0 <= i < ns.len() && !on_path(next, p as int, i) implies #[trigger] consistent_at(
                next,
                i,
            ) by {
                lemma_above_same(next, ns, i, p as int);
                if i != x {
                    assert(!on_path(ns, x, i));
                }
            }
            lemma_refresh_consistent(next, p as int);
            assert(refresh_up(ns, x) == refresh_up(next, p as int));
        },
        None => {
            assert forall|i: int| 0 <= i < ns.len() implies #[trigger] consistent_at(next, i) by {
                if i != x {
                    assert(!above(ns, i, x));
                }
            }
            assert(refresh_up(ns, x) == next);
        },
    }
}

/// With every live directory consistent, each records its subtree totals.
proof fn lemma_consistent_totals(ns: Seq<Node>, i: int)
    requires
        linked(ns),
        forall|j: int| 0 <= j < ns.len() ==> #[trigger] consistent_at(ns, j),
        0 <= i < ns.len(),
        ns[i].live(),
        ns[i].spec_is_dir(),
    ensures
        totals_of(ns[i]) == subtree_totals(ns, i),
    decreases ns.len() - i, 1int, 0int,
{
    lemma_consistent_kids(ns, i, ns[i].kids().len() as int);
    assert(ns[i].kids().take(ns[i].kids().len() as int) =~= ns[i].kids());
    assert(consistent_at(ns, i));
}

proof fn lemma_consistent_kids(ns: Seq<Node>, i: int, k: int)
    requires
        linked(ns),
        forall|j: int| 0 <= j < ns.len() ==> #[trigger] consistent_at(ns, j),
        0 <= i < ns.len(),
        0 <= k <= ns[i].kids().len(),
    ensures
        kids_sum(ns, ns[i].kids().take(k)) == kids_totals(ns, i, k),
    decreases ns.len() - i, 0int, k,
{
    if k > 0 {
        lemma_consistent_kids(ns, i, k - 1);
        let ch = ns[i].kids();
        assert(ch.take(k).drop_last() =~= ch.take(k - 1));
        assert(ch.take(k).last() == ch[k - 1]);
        let c = ch[k - 1] as int;
        assert(i < c < ns.len());
        let rest = kids_sum(ns, ch.take(k - 1));
        assert(kids_sum(ns, ch.take(k)) == if ns[c].live() {
            add3(rest, share_of(ns[c]))
        } else {
            rest
        });
        if ns[c].live() {
            if ns[c].spec_is_dir() {
                lemma_consistent_totals(ns, c);
            } else {
                assert(subtree_totals(ns, c) == (ns[c].size as int, 0int, 0int));
            }
        }
    } else {
        assert(ns[i].kids().take(0).len() == 0);
    }
}

/// Subtree totals read the totals of files only, and the tree's shape.
proof fn lemma_subtree_same(a: Seq<Node>, b: Seq<Node>, i: int)
    requires
        a.len() == b.len(),
        forall|j: int| 0 <= j < a.len() ==> same_but_totals(#[trigger] a[j], b[j]) && (!b[j].spec_is_dir() ==> a[j] == b[j]),
    ensures
        subtree_totals(a, i) == subtree_totals(b, i),
    decreases a.len() - i, 1int, 0int,
{
    if 0 <= i < a.len() {
        assert(same_but_totals(a[i], b[i]));
        if a[i].spec_is_dir() {
            lemma_kids_same(a, b, i, a[i].kids().len() as int);
        } else {
            assert(a[i] == b[i]);
        }
    }
}

proof fn lemma_kids_same(a: Seq<Node>, b: Seq<Node>, i: int, k: int)
    requires
        a.len() == b.len(),
        forall|j: int| 0 <= j < a.len() ==> same_but_totals(#[trigger] a[j], b[j]) && (!b[j].spec_is_dir() ==> a[j] == b[j]),
        0 <= i < a.len(),
    ensures
        kids_totals(a, i, k) == kids_totals(b, i, k),
    decreases a.len() - i, 0int, k,
{
    assert(same_but_totals(a[i], b[i]));
    assert(a[i].kids() == b[i].kids());
    if 0 < k <= a[i].kids().len() {
        lemma_kids_same(a, b, i, k - 1);
        let c = a[i].kids()[k - 1] as int;
        if i < c < a.len() {
            assert(same_but_totals(a[c], b[c]));
            lemma_subtree_same(a, b, c);
        }
    }
}

/// A live directory records the bytes of its live children.
pub open spec fn size_consistent_at(ns: Seq<Node>, i: int) -> bool {
    0 <= i < ns.len() && ns[i].live() && ns[i].spec_is_dir() ==> ns[i].size == kids_sum(ns, ns[i].kids()).0
}

/// Refreshing upward from `x` leaves every live directory recording the
/// bytes of its live children when all those off the way up already did.
proof fn lemma_refresh_size_consistent(ns: Seq<Node>, x: int)
    requires
        linked(ns),
        0 <= x < ns.len(),
        refresh_up_fits(ns, x),
        forall|i: int| 0 <= i < ns.len() && !on_path(ns, x, i) ==> #[trigger] size_consistent_at(ns, i),
    ensures
        forall|i: int| 0 <= i < ns.len() ==> #[trigger] size_consistent_at(refresh_up(ns, x), i),
    decreases x,
{
    let ks = kids_sum(ns, ns[x].kids());
    let next = if ns[x].spec_is_dir() {
        ns.update(x, with_totals(ns[x], ks))
    } else {
        ns
    };
    assert forall|i: int| 0 <= i < ns.len() implies (#[trigger] next[i]).parent == ns[i].parent
        && next[i].kids() == ns[i].kids() && next[i].kind == ns[i].kind && next[i].live() == ns[i].live() by {}
    assert(linked(next));
    // The refreshed directory is consistent.
    assert(size_consistent_at(next, x)) by {
        if ns[x].spec_is_dir() && ns[x].live() {
            assert forall|m: int| 0 <= m < ns[x].kids().len() implies term(next, #[trigger] ns[x].kids()[m])
                == term(ns, ns[x].kids()[m]) by {
                let c = ns[x].kids()[m];
                assert(x < c < ns.len());
            }
            lemma_kids_sum_eq(next, ns, ns[x].kids());
            assert(fits(ks));
        }
    }
    // So is every directory off the way up.
    assert forall|i: int| 0 <= i < ns.len() && !on_path(ns, x, i) implies #[trigger] size_consistent_at(next, i) by {
        assert(size_consistent_at(ns, i));
        if ns[i].live() && ns[i].spec_is_dir() {
            assert(next[i] == ns[i]);
            assert forall|m: int| 0 <= m < ns[i].kids().len() implies term(next, #[trigger] ns[i].kids()[m])
                == term(ns, ns[i].kids()[m]) by {
                let c = ns[i].kids()[m];
                if c == x {
                    assert(ns[x].parent == Some(i as NodeId));
                    assert(above(ns, i, x));
                }
            }
            lemma_kids_sum_eq(next, ns, ns[i].kids());
        }
    }
    match ns[x].parent {
        Some(p) => {
            assert(p < x);
            assert forall|i: int| 0 <= i < ns.len() && !on_path(next, p as int, i) implies #[trigger] size_consistent_at(
                next,
                i,
            ) by {
                lemma_above_same(next, ns, i, p as int);
                if i != x {
                    assert(!on_path(ns, x, i));
                }
            }
            lemma_refresh_size_consistent(next, p as int);
            assert(refresh_up(ns, x) == refresh_up(next, p as int));
        },
        None => {
            assert forall|i: int| 0 <= i < ns.len() implies #[trigger] size_consistent_at(next, i) by {
                if i != x {
                    assert(!above(ns, i, x));
                }
            }
            assert(refresh_up(ns, x) == next);
        },
    }
}

/// With every live directory recording the bytes of its live children,
/// each records the bytes of its subtree.
proof fn lemma_size_consistent_totals(ns: Seq<Node>, i: int)
    requires
        linked(ns),
        forall|j: int| 0 <= j < ns.len() ==> #[trigger] size_consistent_at(ns, j),
        0 <= i < ns.len(),
        ns[i].live(),
        ns[i].spec_is_dir(),
    ensures
        ns[i].size == subtree_totals(ns, i).0,
    decreases ns.len() - i, 1int, 0int,
{
    lemma_size_consistent_kids(ns, i, ns[i].kids().len() as int);
    assert(ns[i].kids().take(ns[i].kids().len() as int) =~= ns[i].kids());
    assert(size_consistent_at(ns, i));
}

proof fn lemma_size_consistent_kids(ns: Seq<Node>, i: int, k: int)
    requires
        linked(ns),
        forall|j: int| 0 <= j < ns.len() ==> #[trigger] size_consistent_at(ns, j),
        0 <= i < ns.len(),
        0 <= k <= ns[i].kids().len(),
    ensures
        kids_sum(ns, ns[i].kids().take(k)).0 == kids_totals(ns, i, k).0,
    decreases ns.len() - i, 0int, k,
{
    if k > 0 {
        lemma_size_consistent_kids(ns, i, k - 1);
        let ch = ns[i].kids();
        assert(ch.take(k).drop_last() =~= ch.take(k - 1));
        assert(ch.take(k).last() == ch[k - 1]);
        let c = ch[k - 1] as int;
        assert(i < c < ns.len());
        let rest = kids_sum(ns, ch.take(k - 1));
        assert(kids_sum(ns, ch.take(k)) == if ns[c].live() {
            add3(rest, share_of(ns[c]))
        } else {
            rest
        });
        if ns[c].live() {
            if ns[c].spec_is_dir() {
                lemma_size_consistent_totals(ns, c);
            } else {
                assert(subtree_totals(ns, c) == (ns[c].size as int, 0int, 0int));
            }
        }
    } else {
        assert(ns[i].kids().take(0).len() == 0);
    }
}

impl FileTree {
    /// Refreshing upward from `target` gives what `compute_sizes` gives,
    /// when every live directory off the way up from `target` already
    /// records the totals of its live children: each live directory ends up
    /// with its subtree totals, and nodes off the way up are unchanged.
    pub proof fn lemma_refresh_matches_compute(t: FileTree, target: NodeId)
        requires
            t.wf(),
            target < t.len(),
            refresh_up_fits(t.nodes_view(), target as int),
            forall|i: int|
                0 <= i < t.len() && !on_path(t.nodes_view(), target as int, i) ==> #[trigger] consistent_at(
                    t.nodes_view(),
                    i,
                ),
        ensures
            refresh_up(t.nodes_view(), target as int).len() == t.len(),
            forall|i: int|
                0 <= i < t.len() && t.alive_at(i) && t.at(i).spec_is_dir() ==> totals_of(
                    #[trigger] refresh_up(t.nodes_view(), target as int)[i],
                ) == subtree_totals(t.nodes_view(), i),
            forall|i: int|
                0 <= i < t.len() && !on_path(t.nodes_view(), target as int, i) ==> #[trigger] refresh_up(
                    t.nodes_view(),
                    target as int,
                )[i] == t.at(i),
    {
        let ns = t.nodes_view();
        assert forall|i: int, j: int| 0 <= i < ns.len() && 0 <= j < ns[i].kids().len() implies {
            let c = #[trigger] ns[i].kids()[j];
            &&& i < c < ns.len()
            &&& ns[c as int].parent == Some(i as NodeId)
        } by {
            assert(t.kids_of(i)[j] == ns[i].kids()[j]);
        }
        assert forall|i: int| 0 <= i < ns.len() implies ((#[trigger] ns[i]).parent matches Some(p) ==> p < i) by {
            if i > 0 {
                assert(t.at(i) == ns[i]);
            }
        }
        assert(linked(ns));
        let r = refresh_up(ns, target as int);
        lemma_refresh_shape(ns, target as int);
        lemma_refresh_consistent(ns, target as int);
        assert forall|i: int| 0 <= i < r.len() implies (#[trigger] r[i]).parent == ns[i].parent && r[i].kids()
            == ns[i].kids() by {
            assert(same_but_totals(r[i], ns[i]));
        }
        assert(linked(r));
        assert forall|i: int| 0 <= i < t.len() && t.alive_at(i) && t.at(i).spec_is_dir() implies totals_of(
            #[trigger] r[i],
        ) == subtree_totals(ns, i) by {
            assert(same_but_totals(r[i], ns[i]));
            lemma_consistent_totals(r, i);
            lemma_subtree_same(r, ns, i);
        }
    }

    /// Refreshing upward from `target` gives the sizes that `compute_sizes`
    /// gives, when every live directory off the way up from `target`
    /// already records the bytes of its live children: each live directory
    /// ends up with the bytes of its subtree, and nodes off the way up are
    /// unchanged.
    pub proof fn lemma_refresh_sizes_match_compute(t: FileTree, target: NodeId)
        requires
            t.wf(),
            target < t.len(),
            refresh_up_fits(t.nodes_view(), target as int),
            forall|i: int|
                0 <= i < t.len() && !on_path(t.nodes_view(), target as int, i) ==> #[trigger] size_consistent_at(
                    t.nodes_view(),
                    i,
                ),
        ensures
            refresh_up(t.nodes_view(), target as int).len() == t.len(),
            forall|i: int|
                0 <= i < t.len() && t.alive_at(i) && t.at(i).spec_is_dir() ==> (#[trigger] refresh_up(
                    t.nodes_view(),
                    target as int,
                )[i]).size == subtree_totals(t.nodes_view(), i).0,
            forall|i: int|
                0 <= i < t.len() && !on_path(t.nodes_view(), target as int, i) ==> #[trigger] refresh_up(
                    t.nodes_view(),
                    target as int,
                )[i] == t.at(i),
    {
        let ns = t.nodes_view();
        assert forall|i: int, j: int| 0 <= i < ns.len() && 0 <= j < ns[i].kids().len() implies {
            let c = #[trigger] ns[i].kids()[j];
            &&& i < c < ns.len()
            &&& ns[c as int].parent == Some(i as NodeId)
        } by {
            assert(t.kids_of(i)[j] == ns[i].kids()[j]);
        }
        assert forall|i: int| 0 <= i < ns.len() implies ((#[trigger] ns[i]).parent matches Some(p) ==> p < i) by {
            if i > 0 {
                assert(t.at(i) == ns[i]);
            }
        }
        assert(linked(ns));
        let r = refresh_up(ns, target as int);
        lemma_refresh_shape(ns, target as int);
        lemma_refresh_size_consistent(ns, target as int);
        assert forall|i: int| 0 <= i < r.len() implies (#[trigger] r[i]).parent == ns[i].parent && r[i].kids()
            == ns[i].kids() by {
            assert(same_but_totals(r[i], ns[i]));
        }
        assert(linked(r));
        assert forall|i: int| 0 <= i < t.len() && t.alive_at(i) && t.at(i).spec_is_dir() implies (#[trigger] r[i]).size
            == subtree_totals(ns, i).0 by {
            assert(same_but_totals(r[i], ns[i]));
            lemma_size_consistent_totals(r, i);
            lemma_subtree_same(r, ns, i);
        }
    }
}

/// Sums over prefixes of a children list grow with the prefix.
proof fn lemma_kids_sum_prefix_mono(ns: Seq<Node>, ch: Seq<NodeId>, n: int)
    requires
        n == ch.len(),
    ensures
        forall|m: int|
            0 <= m <= n ==> ge3(kids_sum(ns, ch), #[trigger] kids_sum(ns, ch.take(m))) && ge3(
                kids_sum(ns, ch.take(m)),
                (0, 0, 0),
            ),
    decreases n,
{
    assert(ch.take(n) =~= ch);
    lemma_kids_sum_nonneg(ns, ch);
    if n > 0 {
        let r = ch.drop_last();
        lemma_kids_sum_prefix_mono(ns, r, n - 1);
        assert forall|m: int| 0 <= m <= n implies ge3(kids_sum(ns, ch), #[trigger] kids_sum(ns, ch.take(m)))
            && ge3(kids_sum(ns, ch.take(m)), (0, 0, 0)) by {
            if m < n {
                assert(ch.take(m) =~= r.take(m));
            }
            lemma_kids_sum_nonneg(ns, ch.take(m));
        }
    }
}

/// The entries of `ch` that name live nodes, in order.
pub open spec fn live_only(ns: Seq<Node>, ch: Seq<NodeId>) -> Seq<NodeId>
    decreases ch.len(),
{
    if ch.len() == 0 {
        ch
    } else if ch.last() < ns.len() && ns[ch.last() as int].live() {
        live_only(ns, ch.drop_last()).push(ch.last())
    } else {
        live_only(ns, ch.drop_last())
    }
}

/// `live_only` keeps exactly the live entries, in order, and no more
/// than there were.
pub proof fn lemma_live_only(ns: Seq<Node>, ch: Seq<NodeId>)
    ensures
        forall|x: NodeId| #[trigger] live_only(ns, ch).contains(x) <==> (ch.contains(x) && x < ns.len()
            && ns[x as int].live()),
        increasing(ch) ==> increasing(live_only(ns, ch)),
        live_only(ns, ch).len() <= ch.len(),
    decreases ch.len(),
{
    if ch.len() > 0 {
        let r = ch.drop_last();
        lemma_live_only(ns, r);
        assert forall|x: NodeId| ch.contains(x) <==> (r.contains(x) || x == ch.last()) by {
            if ch.contains(x) {
                let i = choose|i: int| 0 <= i < ch.len() && ch[i] == x;
                if i < r.len() {
                    assert(r[i] == x);
                }
            }
            if r.contains(x) {
                let i = choose|i: int| 0 <= i < r.len() && r[i] == x;
                assert(ch[i] == x);
            }
            if x == ch.last() {
                assert(ch[ch.len() - 1] == x);
            }
        }
        let w = live_only(ns, r);
        if ch.last() < ns.len() && ns[ch.last() as int].live() {
            assert forall|x: NodeId| w.push(ch.last()).contains(x) <==> (w.contains(x) || x == ch.last()) by {
                if w.push(ch.last()).contains(x) {
                    let i = choose|i: int| 0 <= i < w.len() + 1 && w.push(ch.last())[i] == x;
                    if i < w.len() {
                        assert(w[i] == x);
                    }
                }
                if w.contains(x) {
                    let i = choose|i: int| 0 <= i < w.len() && w[i] == x;
                    assert(w.push(ch.last())[i] == x);
                }
                if x == ch.last() {
                    assert(w.push(ch.last())[w.len() as int] == x);
                }
            }
            if increasing(ch) {
                assert(increasing(r));
                assert forall|j: int, k: int| 0 <= j < k < w.len() + 1 implies #[trigger] w.push(ch.last())[j]
                    < #[trigger] w.push(ch.last())[k] by {
                    if k == w.len() {
                        assert(w.contains(w[j]));
                        let i = choose|i: int| 0 <= i < r.len() && r[i] == w[j];
                        assert(ch[i] < ch[ch.len() - 1]);
                    } else {
                        assert(w.push(ch.last())[j] == w[j] && w.push(ch.last())[k] == w[k]);
                    }
                }
            }
        } else {
            if increasing(ch) {
                assert(increasing(r));
            }
        }
        assert forall|x: NodeId| #[trigger] live_only(ns, ch).contains(x) <==> (ch.contains(x) && x < ns.len()
            && ns[x as int].live()) by {
            assert(w.contains(x) <==> (r.contains(x) && x < ns.len() && ns[x as int].live()));
        }
    }
}

impl FileTree {
    /// The live children of `id`, largest first; equal sizes keep the order
    /// of the children list.
    pub fn children_sorted(&self, id: NodeId) -> (r: Vec<NodeId>)
        requires
            self.wf(),
            id < self.len(),
        ensures
            ({
                let l = live_only(self.nodes_view(), self.kids_of(id as int));
                &&& r@.len() == l.len()
                &&& r@.no_duplicates()
                &&& forall|x: NodeId| r@.contains(x) <==> l.contains(x)
                &&& forall|i: int, j: int|
                    0 <= i < j < r@.len() ==> self.at(#[trigger] r@[i] as int).size > self.at(
                        #[trigger] r@[j] as int,
                    ).size || (self.at(r@[i] as int).size == self.at(r@[j] as int).size && r@[i]
                        < r@[j])
            }),
    {
        let ghost ns = self.nodes_view();
        let kids = self.node(id).children();
        let ghost ch = kids@;
        let mut live: Vec<NodeId> = Vec::new();
        let n = kids.len();
        let mut k: usize = 0;
        while k < n
            invariant
                self.wf(),
                id < self.len(),
                ns == self.nodes_view(),
                ch == kids@,
                ch == self.kids_of(id as int),
                n == ch.len(),
                k <= n,
                live@ == live_only(ns, ch.take(k as int)),
            decreases n - k,
        {
            assert(ch.take(k as int + 1).drop_last() =~= ch.take(k as int));
            let c = kids[k];
            assert(self.kids_of(id as int)[k as int] == c);
            if self.nodes[c].alive {
                live.push(c);
            }
            k = k + 1;
        }
        assert(ch.take(n as int) =~= ch);
        let ghost l = live@;
        proof {
            lemma_live_only(ns, ch);
            assert forall|x: int, y: int| 0 <= x < y < ch.len() implies #[trigger] ch[x] < #[trigger] ch[y] by {
                assert(self.kids_of(id as int)[x] < self.kids_of(id as int)[y]);
            }
            assert forall|m: int| 0 <= m < l.len() implies #[trigger] l[m] < self.len() by {
                assert(l.contains(l[m]));
            }
        }
        let mut keys: Vec<u128> = Vec::new();
        let mut m: usize = 0;
        while m < live.len()
            invariant
                self.wf(),
                l == live@,
                forall|q: int| 0 <= q < l.len() ==> #[trigger] l[q] < self.len(),
                m <= l.len(),
                keys@ == Seq::new(m as nat, |q: int| (u64::MAX - self.at(l[q] as int).size) as u128),
            decreases l.len() - m,
        {
            let sz = self.nodes[live[m]].size;
            keys.push((u64::MAX - sz) as u128);
            assert(keys@ =~= Seq::new((m + 1) as nat, |q: int| (u64::MAX - self.at(l[q] as int).size) as u128));
            m = m + 1;
        }
        let order = order_by_keys(&keys);
        let mut r: Vec<NodeId> = Vec::new();
        let mut q: usize = 0;
        while q < order.len()
            invariant
                is_key_order(keys@, order@),
                keys@.len() == l.len(),
                l == live@,
                q <= order@.len(),
                r@ == Seq::new(q as nat, |x: int| l[order@[x] as int]),
            decreases order@.len() - q,
        {
            r.push(live[order[q]]);
            assert(r@ =~= Seq::new((q + 1) as nat, |x: int| l[order@[x] as int]));
            q = q + 1;
        }
        proof {
            assert(increasing(l));
            assert forall|i: int, j: int| 0 <= i < j < r@.len() implies self.at(#[trigger] r@[i] as int).size > self.at(
                #[trigger] r@[j] as int).size || (self.at(r@[i] as int).size == self.at(r@[j] as int).size && r@[i] < r@[j]) by {
                assert(key_before(keys@, order@[i], order@[j]));
                let a = order@[i] as int;
                let b = order@[j] as int;
                if a < b {
                    assert(l[a] < l[b]);
                }
            }
            assert forall|i: int, j: int| 0 <= i < r@.len() && 0 <= j < r@.len() && i != j implies r@[i] != r@[j] by {
                if i < j {
                    assert(key_before(keys@, order@[i], order@[j]));
                } else {
                    assert(key_before(keys@, order@[j], order@[i]));
                }
                let a = order@[i] as int;
                let b = order@[j] as int;
                if a < b {
                    assert(l[a] < l[b]);
                } else if b < a {
                    assert(l[b] < l[a]);
                }
            }
            assert forall|x: NodeId| r@.contains(x) <==> l.contains(x) by {
                if r@.contains(x) {
                    let i = choose|i: int| 0 <= i < r@.len() && r@[i] == x;
                    assert(l[order@[i] as int] == x);
                }
                if l.contains(x) {
                    let p = choose|p: int| 0 <= p < l.len() && l[p] == x;
                    assert(order@.contains(p as usize));
                    let i = choose|i: int| 0 <= i < order@.len() && order@[i] == p as usize;
                    assert(r@[i] == x);
                }
            }
        }
        r
    }
}

/// The live files at or below node `i`, in depth-first order along the
/// children lists; nothing below a node that is no longer live.
pub open spec fn files_from(ns: Seq<Node>, i: int) -> Seq<NodeId>
    decreases ns.len() - i, 1int, 0int,
{
    if 0 <= i < ns.len() && ns[i].live() {
        if ns[i].spec_is_dir() {
            files_kids(ns, i, ns[i].kids().len() as int)
        } else {
            seq![i as NodeId]
        }
    } else {
        Seq::empty()
    }
}

/// The live files below the first `k` children of node `i`.
pub open spec fn files_kids(ns: Seq<Node>, i: int, k: int) -> Seq<NodeId>
    decreases ns.len() - i, 0int, k,
{
    if 0 <= i < ns.len() && 0 < k <= ns[i].kids().len() {
        let c = ns[i].kids()[k - 1] as int;
        files_kids(ns, i, k - 1) + if i < c < ns.len() {
            files_from(ns, c)
        } else {
            Seq::empty()
        }
    } else {
        Seq::empty()
    }
}

/// Appends one component to a path, as `PathBuf::push` does on Unix: an
/// absolute component replaces the path; otherwise a `/` goes between
/// unless the path is empty or already ends in one.
pub open spec fn path_push(path: Seq<u8>, part: Seq<u8>) -> Seq<u8> {
    if part.len() > 0 && part[0] == 47u8 {
        part
    } else if path.len() > 0 && path.last() != 47u8 {
        path + seq![47u8] + part
    } else {
        path + part
    }
}

impl FileTree {
    /// The full path of node `x`: the root's name, then each name below it.
    pub open spec fn path_of(&self, x: int) -> Seq<u8>
        decreases x,
    {
        if 0 <= x < self.len() {
            match self.at(x).parent {
                Some(p) => if (p as int) < x {
                    path_push(self.path_of(p as int), self.name_of(x))
                } else {
                    self.name_of(x)
                },
                None => self.name_of(x),
            }
        } else {
            Seq::empty()
        }
    }

    fn collect_files_recursive(&self, id: NodeId, files: &mut Vec<NodeId>)
        requires
            self.wf(),
            id < self.len(),
        ensures
            final(files)@ == old(files)@ + files_from(self.nodes_view(), id as int),
        decreases self.len() - id,
    {
        let node = &self.nodes[id];
        if !node.alive {
            assert(files_from(self.nodes_view(), id as int) =~= Seq::<NodeId>::empty());
            return ;
        }
        match &node.kind {
            NodeKind::File { .. } => {
                files.push(id);
            },
            NodeKind::Directory { children, .. } => {
                let n = children.len();
                let mut k: usize = 0;
                assert(files_kids(self.nodes_view(), id as int, 0) =~= Seq::<NodeId>::empty());
                while k < n
                    invariant
                        self.wf(),
                        id < self.len(),
                        children@ == self.kids_of(id as int),
                        self.at(id as int).spec_is_dir(),
                        self.alive_at(id as int),
                        n == children@.len(),
                        k <= n,
                        files@ == old(files)@ + files_kids(self.nodes_view(), id as int, k as int),
                    decreases n - k,
                {
                    let c = children[k];
                    assert(self.kids_of(id as int)[k as int] == c);
                    assert(id < c < self.len());
                    self.collect_files_recursive(c, files);
                    assert(files@ =~= old(files)@ + files_kids(self.nodes_view(), id as int, k + 1));
                    k = k + 1;
                }
            },
        }
    }

    /// The live files at or below `root`, in depth-first order.
    pub fn collect_files(&self, root: NodeId) -> (r: Vec<NodeId>)
        requires
            self.wf(),
            root < self.len(),
        ensures
            r@ == files_from(self.nodes_view(), root as int),
    {
        let mut files = Vec::new();
        self.collect_files_recursive(root, &mut files);
        assert(files@ =~= files_from(self.nodes_view(), root as int));
        files
    }

    fn path_bytes(&self, id: NodeId) -> (r: Vec<u8>)
        requires
            self.wf(),
            id < self.len(),
        ensures
            r@ == self.path_of(id as int),
        decreases id,
    {
        let name = self.name_bytes(id);
        match self.nodes[id].parent {
            Some(p) => {
                assert(self.at(id as int).parent == Some(p));
                assert(p < id);
                let mut path = self.path_bytes(p);
                if name.len() > 0 && name[0] == 47u8 {
                    let mut whole: Vec<u8> = Vec::new();
                    whole.extend_from_slice(name);
                    assert(whole@ =~= self.name_of(id as int));
                    whole
                } else {
                    let ghost before = path@;
                    if path.len() > 0 && path[path.len() - 1] != 47u8 {
                        path.push(47u8);
                    }
                    let ghost mid = path@;
                    path.extend_from_slice(name);
                    assert(path@ =~= mid + name@);
                    assert(path@ =~= path_push(before, self.name_of(id as int)));
                    path
                }
            },
            None => {
                let mut whole: Vec<u8> = Vec::new();
                whole.extend_from_slice(name);
                assert(whole@ =~= self.name_of(id as int));
                whole
            },
        }
    }

    /// The full path of `id` as bytes: the root's name, then the names down
    /// to `id`, joined as `PathBuf::push` joins them.
    pub fn full_path(&self, id: NodeId) -> (r: Vec<u8>)
        requires
            self.wf(),
            id < self.len(),
        ensures
            r@ == self.path_of(id as int),
    {
        self.path_bytes(id)
    }
}

impl FileTree {
    /// The extension of file `f` as text: the lossy decoding of its bytes,
    /// empty when it has none.
    pub open spec fn ext_key(&self, f: NodeId) -> Seq<char> {
        match self.at(f as int).ext_ref() {
            Some(e) => lossy_utf8(self.arena().slice(e)),
            None => Seq::empty(),
        }
    }

    /// Total size of the files in `fs` whose extension is `key`.
    pub open spec fn ext_bytes(&self, fs: Seq<NodeId>, key: Seq<char>) -> int
        decreases fs.len(),
    {
        if fs.len() == 0 {
            0
        } else {
            self.ext_bytes(fs.drop_last(), key) + if self.ext_key(fs.last()) == key {
                self.at(fs.last() as int).size as int
            } else {
                0
            }
        }
    }

    /// Number of files in `fs` whose extension is `key`.
    pub open spec fn ext_files(&self, fs: Seq<NodeId>, key: Seq<char>) -> int
        decreases fs.len(),
    {
        if fs.len() == 0 {
            0
        } else {
            self.ext_files(fs.drop_last(), key) + if self.ext_key(fs.last()) == key {
                1int
            } else {
                0
            }
        }
    }

    /// `r` is the per-extension summary of the files `fs`: one entry per
    /// extension that occurs, with the total size and the number of files.
    pub open spec fn ext_summary(&self, fs: Seq<NodeId>, r: Seq<(String, u64, usize)>) -> bool {
        &&& forall|i: int|
            0 <= i < r.len() ==> (#[trigger] r[i]).1 == self.ext_bytes(fs, r[i].0@) && r[i].2
                == self.ext_files(fs, r[i].0@) && r[i].2 >= 1
        &&& forall|i: int, j: int| 0 <= i < j < r.len() ==> (#[trigger] r[i]).0@ != (#[trigger] r[j]).0@
        &&& forall|m: int|
            0 <= m < fs.len() ==> exists|i: int| 0 <= i < r.len() && (#[trigger] r[i]).0@ == self.ext_key(#[trigger] fs[m])
    }

    proof fn lemma_ext_prefix(&self, fs: Seq<NodeId>, k: int, key: Seq<char>)
        requires
            0 <= k <= fs.len(),
        ensures
            0 <= self.ext_bytes(fs.take(k), key) <= self.ext_bytes(fs, key),
            0 <= self.ext_files(fs.take(k), key) <= k,
        decreases fs.len() - k,
    {
        self.lemma_ext_nonneg(fs.take(k), key);
        if k < fs.len() {
            self.lemma_ext_prefix(fs, k + 1, key);
            let t = fs.take(k + 1);
            assert(t.drop_last() =~= fs.take(k));
            assert(self.ext_bytes(t, key) >= self.ext_bytes(t.drop_last(), key));
        } else {
            assert(fs.take(k) =~= fs);
            self.lemma_ext_nonneg(fs, key);
        }
    }

    proof fn lemma_ext_nonneg(&self, fs: Seq<NodeId>, key: Seq<char>)
        ensures
            0 <= self.ext_bytes(fs, key),
            0 <= self.ext_files(fs, key) <= fs.len(),
        decreases fs.len(),
    {
        if fs.len() > 0 {
            self.lemma_ext_nonneg(fs.drop_last(), key);
        }
    }

    /// `r` tallies the files `fs` by extension, with totals of any size:
    /// one entry per extension that occurs, with the total size and the
    /// number of files.
    pub open spec fn ext_tally(&self, fs: Seq<NodeId>, r: Seq<(String, u128, usize)>) -> bool {
        &&& forall|i: int|
            0 <= i < r.len() ==> (#[trigger] r[i]).1 == self.ext_bytes(fs, r[i].0@) && r[i].2
                == self.ext_files(fs, r[i].0@) && r[i].2 >= 1
        &&& forall|i: int, j: int| 0 <= i < j < r.len() ==> (#[trigger] r[i]).0@ != (#[trigger] r[j]).0@
        &&& forall|m: int|
            0 <= m < fs.len() ==> exists|i: int| 0 <= i < r.len() && (#[trigger] r[i]).0@ == self.ext_key(#[trigger] fs[m])
    }

    /// No total of `n` files exceeds `n` times the largest size.
    proof fn lemma_ext_bound(&self, fs: Seq<NodeId>, key: Seq<char>)
        ensures
            self.ext_bytes(fs, key) <= fs.len() * (u64::MAX as int),
        decreases fs.len(),
    {
        if fs.len() > 0 {
            self.lemma_ext_bound(fs.drop_last(), key);
            assert(fs.drop_last().len() * (u64::MAX as int) + u64::MAX == fs.len() * (u64::MAX as int)) by (nonlinear_arith)
                requires
                    fs.drop_last().len() + 1 == fs.len(),
            ;
        }
    }

    /// Per-extension totals over the live files at or below `root`, largest
    /// total first, when every total fits a `u64`; `None` when one does
    /// not. A file without an extension counts under the empty one.
    pub fn try_collect_extensions(&self, root: NodeId) -> (r: Option<Vec<(String, u64, usize)>>)
        requires
            self.wf(),
            root < self.len(),
        ensures
            r is Some <==> forall|key: Seq<char>|
                #[trigger] self.ext_bytes(files_from(self.nodes_view(), root as int), key) <= u64::MAX,
            r matches Some(v) ==> self.ext_summary(files_from(self.nodes_view(), root as int), v@),
            r matches Some(v) ==> forall|i: int, j: int|
                0 <= i < j < v@.len() ==> (#[trigger] v@[i]).1 >= (#[trigger] v@[j]).1,
    {
        let files = self.collect_files(root);
        let ghost fs = files@;
        proof {
            assert forall|m: int| 0 <= m < fs.len() implies #[trigger] fs[m] < self.len() by {
                lemma_files_from_in_range(self.nodes_view(), root as int);
            }
            assert(fs.take(0) =~= Seq::<NodeId>::empty());
        }
        let mut acc: Vec<(String, u128, usize)> = Vec::new();
        let mut k: usize = 0;
        while k < files.len()
            invariant
                self.wf(),
                fs == files@,
                forall|m: int| 0 <= m < fs.len() ==> #[trigger] fs[m] < self.len(),
                k <= fs.len(),
                self.ext_tally(fs.take(k as int), acc@),
            decreases fs.len() - k,
        {
            let f = files[k];
            let ghost pre = fs.take(k as int);
            let ghost post = fs.take(k as int + 1);
            assert(post.drop_last() =~= pre);
            assert(post.last() == f);
            assert(fs[k as int] == f);
            let key = match &self.nodes[f].kind {
                NodeKind::File { extension: Some(e) } => {
                    assert(self.arena().holds(*e)) by {
                        assert(self.arena().holds(self.at(f as int).ext_ref()->0));
                    }
                    utf8_lossy(self.strings.get(*e))
                },
                _ => String::new(),
            };
            assert(key@ == self.ext_key(f));
            let size = self.nodes[f].size;
            proof {
                self.lemma_ext_prefix(fs, k as int + 1, key@);
                self.lemma_ext_bound(pre, key@);
                assert(self.ext_bytes(post, key@) == self.ext_bytes(pre, key@) + size);
                assert(self.ext_files(post, key@) == self.ext_files(pre, key@) + 1);
                assert(files@.len() <= usize::MAX);
                assert(pre.len() * (u64::MAX as int) + u64::MAX <= u128::MAX) by (nonlinear_arith)
                    requires
                        pre.len() < usize::MAX,
                        usize::MAX <= u64::MAX,
                ;
            }
            match find_key(&acc, &key) {
                Some(i) => {
                    let b = acc[i].1 + size as u128;
                    let c = acc[i].2 + 1;
                    let ghost old_acc = acc@;
                    acc.set(i, (key, b, c));
                    proof {
                        assert forall|x: int| 0 <= x < acc@.len() implies (#[trigger] acc@[x]).1
                            == self.ext_bytes(post, acc@[x].0@) && acc@[x].2 == self.ext_files(post, acc@[x].0@)
                            && acc@[x].2 >= 1 by {
                            if x != i {
                                assert(acc@[x] == old_acc[x]);
                                assert(old_acc[x].0@ != key@) by {
                                    if x < i {
                                        assert(old_acc[x].0@ != old_acc[i as int].0@);
                                    } else {
                                        assert(old_acc[i as int].0@ != old_acc[x].0@);
                                    }
                                }
                            }
                        }
                        assert forall|x: int, y: int| 0 <= x < y < acc@.len() implies (#[trigger] acc@[x]).0@
                            != (#[trigger] acc@[y]).0@ by {
                            assert(old_acc[x].0@ != old_acc[y].0@);
                        }
                        assert forall|m: int| 0 <= m < post.len() implies exists|x: int|
                            0 <= x < acc@.len() && (#[trigger] acc@[x]).0@ == self.ext_key(#[trigger] post[m]) by {
                            if m < pre.len() {
                                assert(post[m] == pre[m]);
                                let x = choose|x: int| 0 <= x < old_acc.len() && (#[trigger] old_acc[x]).0@ == self.ext_key(pre[m]);
                                assert(acc@[x].0@ == old_acc[x].0@);
                            } else {
                                assert(acc@[i as int].0@ == self.ext_key(post[m]));
                            }
                        }
                    }
                },
                None => {
                    let ghost old_acc = acc@;
                    acc.push((key, size as u128, 1));
                    proof {
                        assert forall|mm: int| 0 <= mm < pre.len() implies self.ext_key(#[trigger] pre[mm]) != key@ by {
                            let x = choose|x: int| 0 <= x < old_acc.len() && (#[trigger] old_acc[x]).0@ == self.ext_key(pre[mm]);
                        }
                        self.lemma_ext_absent(pre, key@);
                        assert forall|x: int| 0 <= x < acc@.len() implies (#[trigger] acc@[x]).1
                            == self.ext_bytes(post, acc@[x].0@) && acc@[x].2 == self.ext_files(post, acc@[x].0@)
                            && acc@[x].2 >= 1 by {
                            if x < old_acc.len() {
                                assert(acc@[x] == old_acc[x]);
                            }
                        }
                        assert forall|x: int, y: int| 0 <= x < y < acc@.len() implies (#[trigger] acc@[x]).0@
                            != (#[trigger] acc@[y]).0@ by {
                            if y < old_acc.len() {
                                assert(old_acc[x].0@ != old_acc[y].0@);
                            }
                        }
                        assert forall|m: int| 0 <= m < post.len() implies exists|x: int|
                            0 <= x < acc@.len() && (#[trigger] acc@[x]).0@ == self.ext_key(#[trigger] post[m]) by {
                            if m < pre.len() {
                                assert(post[m] == pre[m]);
                                let x = choose|x: int| 0 <= x < old_acc.len() && (#[trigger] old_acc[x]).0@ == self.ext_key(pre[m]);
                                assert(acc@[x] == old_acc[x]);
                            } else {
                                assert(acc@[old_acc.len() as int].0@ == self.ext_key(post[m]));
                            }
                        }
                    }
                },
            }
            k = k + 1;
        }
        assert(fs.take(fs.len() as int) =~= fs);
        let ghost wide = acc@;
        let mut narrow: Vec<(String, u64, usize)> = Vec::new();
        let mut m: usize = 0;
        while m < acc.len()
            invariant
                wide == acc@,
                fs == files_from(self.nodes_view(), root as int),
                self.ext_tally(fs, wide),
                m <= wide.len(),
                narrow@.len() == m,
                forall|x: int|
                    0 <= x < m ==> (#[trigger] narrow@[x]).0@ == wide[x].0@ && narrow@[x].1 == wide[x].1
                        && narrow@[x].2 == wide[x].2,
            decreases wide.len() - m,
        {
            if acc[m].1 > u64::MAX as u128 {
                proof {
                    let key = wide[m as int].0@;
                    assert(self.ext_bytes(fs, key) > u64::MAX);
                }
                return None;
            }
            narrow.push((acc[m].0.clone(), acc[m].1 as u64, acc[m].2));
            m = m + 1;
        }
        let ghost done = narrow@;
        proof {
            assert forall|i: int| 0 <= i < done.len() implies (#[trigger] done[i]).1 == self.ext_bytes(fs, done[i].0@)
                && done[i].2 == self.ext_files(fs, done[i].0@) && done[i].2 >= 1 by {
                assert(wide[i].1 == self.ext_bytes(fs, wide[i].0@));
            }
            assert forall|i: int, j: int| 0 <= i < j < done.len() implies (#[trigger] done[i]).0@ != (#[trigger] done[j]).0@ by {
                assert(wide[i].0@ != wide[j].0@);
            }
            assert forall|mm: int| 0 <= mm < fs.len() implies exists|i: int|
                0 <= i < done.len() && (#[trigger] done[i]).0@ == self.ext_key(#[trigger] fs[mm]) by {
                let x = choose|x: int| 0 <= x < wide.len() && (#[trigger] wide[x]).0@ == self.ext_key(fs[mm]);
                assert(done[x].0@ == wide[x].0@);
            }
            assert(self.ext_summary(fs, done));
            assert forall|key: Seq<char>| #[trigger] self.ext_bytes(fs, key) <= u64::MAX by {
                if exists|x: int| 0 <= x < done.len() && (#[trigger] done[x]).0@ == key {
                    let x = choose|x: int| 0 <= x < done.len() && (#[trigger] done[x]).0@ == key;
                    assert(done[x].1 == self.ext_bytes(fs, key));
                } else {
                    assert forall|mm: int| 0 <= mm < fs.len() implies self.ext_key(#[trigger] fs[mm]) != key by {
                        let x = choose|x: int| 0 <= x < done.len() && (#[trigger] done[x]).0@ == self.ext_key(fs[mm]);
                    }
                    self.lemma_ext_absent(fs, key);
                }
            }
        }
        let mut keys: Vec<u128> = Vec::new();
        let mut m: usize = 0;
        while m < narrow.len()
            invariant
                done == narrow@,
                m <= done.len(),
                keys@ == Seq::new(m as nat, |q: int| (u64::MAX - done[q].1) as u128),
            decreases done.len() - m,
        {
            keys.push((u64::MAX - narrow[m].1) as u128);
            assert(keys@ =~= Seq::new((m + 1) as nat, |q: int| (u64::MAX - done[q].1) as u128));
            m = m + 1;
        }
        let order = order_by_keys(&keys);
        let mut r: Vec<(String, u64, usize)> = Vec::new();
        let mut q: usize = 0;
        while q < order.len()
            invariant
                is_key_order(keys@, order@),
                keys@.len() == done.len(),
                done == narrow@,
                q <= order@.len(),
                r@ == Seq::new(q as nat, |x: int| done[order@[x] as int]),
            decreases order@.len() - q,
        {
            let e = &narrow[order[q]];
            r.push((e.0.clone(), e.1, e.2));
            assert(r@ =~= Seq::new((q + 1) as nat, |x: int| done[order@[x] as int]));
            q = q + 1;
        }
        proof {
            assert forall|i: int, j: int| 0 <= i < j < r@.len() implies (#[trigger] r@[i]).1 >= (#[trigger] r@[j]).1 by {
                assert(key_before(keys@, order@[i], order@[j]));
            }
            assert forall|i: int, j: int| 0 <= i < j < r@.len() implies (#[trigger] r@[i]).0@ != (#[trigger] r@[j]).0@ by {
                assert(key_before(keys@, order@[i], order@[j]));
                let a = order@[i] as int;
                let b = order@[j] as int;
                if a < b {
                    assert(done[a].0@ != done[b].0@);
                } else if b < a {
                    assert(done[b].0@ != done[a].0@);
                }
            }
            assert forall|mm: int| 0 <= mm < fs.len() implies exists|i: int| 0 <= i < r@.len() && (#[trigger] r@[i]).0@
                == self.ext_key(#[trigger] fs[mm]) by {
                let x = choose|x: int| 0 <= x < done.len() && (#[trigger] done[x]).0@ == self.ext_key(fs[mm]);
                assert(order@.contains(x as usize));
                let i = choose|i: int| 0 <= i < order@.len() && order@[i] == x as usize;
                assert(r@[i] == done[x]);
            }
        }
        Some(r)
    }

    /// Per-extension totals over the live files at or below `root`, largest
    /// total first; a file without an extension counts under the empty one.
    pub fn collect_extensions(&self, root: NodeId) -> (r: Vec<(String, u64, usize)>)
        requires
            self.wf(),
            root < self.len(),
            forall|key: Seq<char>| #[trigger] self.ext_bytes(files_from(self.nodes_view(), root as int), key) <= u64::MAX,
        ensures
            self.ext_summary(files_from(self.nodes_view(), root as int), r@),
            forall|i: int, j: int| 0 <= i < j < r@.len() ==> (#[trigger] r@[i]).1 >= (#[trigger] r@[j]).1,
    {
        self.try_collect_extensions(root).unwrap()
    }

    /// An extension that no file has sums to nothing.
    proof fn lemma_ext_absent(&self, fs: Seq<NodeId>, key: Seq<char>)
        requires
            forall|m: int| 0 <= m < fs.len() ==> self.ext_key(#[trigger] fs[m]) != key,
        ensures
            self.ext_bytes(fs, key) == 0,
            self.ext_files(fs, key) == 0,
        decreases fs.len(),
    {
        if fs.len() > 0 {
            let r = fs.drop_last();
            assert forall|m: int| 0 <= m < r.len() implies self.ext_key(#[trigger] r[m]) != key by {
                assert(r[m] == fs[m]);
            }
            self.lemma_ext_absent(r, key);
            assert(self.ext_key(fs[fs.len() - 1]) != key);
        }
    }
}

proof fn lemma_files_from_in_range(ns: Seq<Node>, i: int)
    requires
        ns.len() <= usize::MAX,
    ensures
        forall|m: int| 0 <= m < files_from(ns, i).len() ==> #[trigger] files_from(ns, i)[m] < ns.len(),
    decreases ns.len() - i, 1int, 0int,
{
    if 0 <= i < ns.len() && ns[i].live() {
        if ns[i].spec_is_dir() {
            lemma_files_kids_in_range(ns, i, ns[i].kids().len() as int);
            assert(files_from(ns, i) == files_kids(ns, i, ns[i].kids().len() as int));
        } else {
            assert(files_from(ns, i) == seq![i as NodeId]);
            assert(files_from(ns, i)[0] == i);
        }
    } else {
        assert(files_from(ns, i) == Seq::<NodeId>::empty());
    }
}

proof fn lemma_files_kids_in_range(ns: Seq<Node>, i: int, k: int)
    requires
        ns.len() <= usize::MAX,
    ensures
        forall|m: int| 0 <= m < files_kids(ns, i, k).len() ==> #[trigger] files_kids(ns, i, k)[m] < ns.len(),
    decreases ns.len() - i, 0int, k,
{
    if 0 <= i < ns.len() && 0 < k <= ns[i].kids().len() {
        lemma_files_kids_in_range(ns, i, k - 1);
        let c = ns[i].kids()[k - 1] as int;
        if i < c < ns.len() {
            lemma_files_from_in_range(ns, c);
        }
        let a = files_kids(ns, i, k - 1);
        let b = if i < c < ns.len() { files_from(ns, c) } else { Seq::empty() };
        assert forall|m: int| 0 <= m < (a + b).len() implies #[trigger] (a + b)[m] < ns.len() by {
            if m < a.len() {
                assert((a + b)[m] == a[m]);
            } else {
                assert((a + b)[m] == b[m - a.len()]);
            }
        }
    }
}

/// The position of the entry whose text is `key`, if any.
fn find_key(acc: &Vec<(String, u128, usize)>, key: &String) -> (r: Option<usize>)
    ensures
        r matches Some(i) ==> i < acc@.len() && acc@[i as int].0@ == key@,
        r is None ==> forall|x: int| 0 <= x < acc@.len() ==> (#[trigger] acc@[x]).0@ != key@,
{
    let mut i: usize = 0;
    while i < acc.len()
        invariant
            i <= acc@.len(),
            forall|x: int| 0 <= x < i ==> (#[trigger] acc@[x]).0@ != key@,
        decreases acc@.len() - i,
    {
        if acc[i].0 == *key {
            return Some(i);
        }
        i = i + 1;
    }
    None
}

/// Cutting a count to 32 bits never makes it larger.
proof fn lemma_truncate_le(x: usize)
    ensures
        (x as u32) as nat <= x,
{
    assert((x as u32) <= x) by (bit_vector);
}

/// The source nodes a graft copies from node `i` down, in the order it
/// copies them: a live node first, then the subtrees of its children from
/// the last child to the first. Nothing at or below a node that is no
/// longer live.
pub open spec fn graft_visit(ns: Seq<Node>, i: int) -> Seq<NodeId>
    decreases ns.len() - i, 1int, 0int,
{
    if 0 <= i < ns.len() && ns[i].live() {
        seq![i as NodeId] + graft_visit_kids(ns, i, ns[i].kids().len() as int)
    } else {
        Seq::empty()
    }
}

/// The nodes a graft copies below the first `k` children of node `i`,
/// child `k - 1` first.
pub open spec fn graft_visit_kids(ns: Seq<Node>, i: int, k: int) -> Seq<NodeId>
    decreases ns.len() - i, 0int, k,
{
    if 0 <= i < ns.len() && 0 < k <= ns[i].kids().len() {
        let c = ns[i].kids()[k - 1] as int;
        (if i < c < ns.len() {
            graft_visit(ns, c)
        } else {
            Seq::empty()
        }) + graft_visit_kids(ns, i, k - 1)
    } else {
        Seq::empty()
    }
}

/// The source nodes a graft of `src` copies, in order: everything below
/// its root, which itself is not copied.
pub open spec fn graft_order(src: FileTree) -> Seq<NodeId> {
    graft_visit_kids(src.nodes_view(), 0, src.kids_of(0).len() as int)
}

/// A depth one deeper, stopping at the largest `u16`.
pub open spec fn deeper(d: u16) -> u16 {
    if d < u16::MAX {
        (d + 1) as u16
    } else {
        d
    }
}

/// The depth a graft gives the copy of source node `x` when the target
/// has depth `td`: one more than its parent's copy, or than the target
/// for a child of the source root.
pub open spec fn graft_depth(ns: Seq<Node>, x: int, td: u16) -> u16
    decreases x,
{
    if 0 < x < ns.len() {
        match ns[x].parent {
            Some(p) => if 0 < p < x {
                deeper(graft_depth(ns, p as int, td))
            } else {
                deeper(td)
            },
            None => deeper(td),
        }
    } else {
        td
    }
}

/// The children of directory `d` in `m` are exactly the nodes from index
/// `n` on that name `d` as their parent.
pub open spec fn kids_exactly(m: FileTree, d: int, n: int) -> bool {
    forall|c: int|
        0 <= c < m.len() ==> (#[trigger] m.kids_of(d).contains(c as NodeId) <==> (n <= c && m.at(
            c,
        ).parent == Some(d as NodeId)))
}

/// Node `n + k` of `m` is the copy of source node `graft_order(src)[k]`
/// grafted under `target` (depth `td`): same kind, size (a directory
/// starts at 0), modification time, name and extension text, depth as
/// `graft_depth` says, expanded while shallower than 2, and as parent the
/// target or the copy of its source parent. Names and extensions are
/// stated while the arena offsets fit in 32 bits.
pub open spec fn graft_copy(n: int, m: FileTree, target: NodeId, td: u16, src: FileTree, k: int) -> bool {
    let order = graft_order(src);
    let ns = src.nodes_view();
    let x = order[k] as int;
    let d = m.at(n + k);
    &&& d.live()
    &&& d.modified == ns[x].modified
    &&& d.depth == graft_depth(ns, x, td)
    &&& d.file_count == 0
    &&& d.subdir_count == 0
    &&& d.spec_is_dir() == ns[x].spec_is_dir()
    &&& (d.kind matches NodeKind::Directory { expanded, .. } ==> {
        &&& expanded == (d.depth < 2)
        &&& d.size == 0
        &&& kids_exactly(m, n + k, n)
    })
    &&& (!d.spec_is_dir() ==> d.size == ns[x].size && (d.ext_ref() is None <==> ns[x].ext_ref() is None))
    &&& graft_parent_ok(n, order, ns[x].parent, d.parent, target, k)
    &&& m.arena().bytes().len() <= u32::MAX ==> {
        &&& m.name_of(n + k) == src.name_of(x)
        &&& (d.ext_ref() matches Some(e) ==> ns[x].ext_ref() matches Some(se) && m.arena().slice(e)
            == encode_utf8(lossy_utf8(src.arena().slice(se))))
    }
}

/// The parent `dp` of a copy made `k`-th is the target when the source
/// parent `sp` is the source root, and otherwise an earlier copy of `sp`.
pub open spec fn graft_parent_ok(
    n: int,
    order: Seq<NodeId>,
    sp: Option<NodeId>,
    dp: Option<NodeId>,
    target: NodeId,
    k: int,
) -> bool {
    match (sp, dp) {
        (Some(s), Some(q)) => if s == 0 {
            q == target
        } else {
            n <= q < n + k && order[q - n] == s
        },
        _ => false,
    }
}

/// The first `cnt` source nodes in graft order have their copies at
/// `n`, `n + 1`, ... in `m`.
pub open spec fn graft_made(n: int, m: FileTree, target: NodeId, td: u16, src: FileTree, cnt: int) -> bool {
    forall|k: int| 0 <= k < cnt ==> #[trigger] graft_copy(n, m, target, td, src, k)
}

/// What a stack of pending graft entries will still copy, top first.
pub open spec fn graft_pending(ns: Seq<Node>, st: Seq<(NodeId, NodeId, u16)>) -> Seq<NodeId>
    decreases st.len(),
{
    if st.len() == 0 {
        Seq::empty()
    } else {
        graft_visit(ns, st.last().0 as int) + graft_pending(ns, st.drop_last())
    }
}

/// Entries a graft pushes, visited or not, from node `i` down.
pub open spec fn graft_weight(ns: Seq<Node>, i: int) -> nat
    decreases ns.len() - i, 1int, 0int,
{
    if 0 <= i < ns.len() && ns[i].live() {
        1 + graft_weight_kids(ns, i, ns[i].kids().len() as int)
    } else {
        1
    }
}

pub open spec fn graft_weight_kids(ns: Seq<Node>, i: int, k: int) -> nat
    decreases ns.len() - i, 0int, k,
{
    if 0 <= i < ns.len() && 0 < k <= ns[i].kids().len() {
        let c = ns[i].kids()[k - 1] as int;
        (if i < c < ns.len() {
            graft_weight(ns, c)
        } else {
            1
        }) + graft_weight_kids(ns, i, k - 1)
    } else {
        0
    }
}

pub open spec fn graft_stack_weight(ns: Seq<Node>, st: Seq<(NodeId, NodeId, u16)>) -> nat
    decreases st.len(),
{
    if st.len() == 0 {
        0
    } else {
        graft_weight(ns, st.last().0 as int) + graft_stack_weight(ns, st.drop_last())
    }
}

/// A pending graft entry `(source node, destination parent, depth)` is
/// sound: the source node is a non-root node, the depth is the one it
/// will get, and the destination is the target (for a child of the
/// source root) or the copy, a directory, of its source parent.
pub open spec fn graft_entry_ok(
    ns: Seq<Node>,
    e: (NodeId, NodeId, u16),
    n: int,
    m: FileTree,
    target: NodeId,
    td: u16,
    order: Seq<NodeId>,
) -> bool {
    &&& 0 < e.0 < ns.len()
    &&& e.2 == graft_depth(ns, e.0 as int, td)
    &&& e.1 < m.len()
    &&& graft_parent_ok(n, order, ns[e.0 as int].parent, Some(e.1), target, m.len() - n)
    &&& (ns[e.0 as int].parent != Some(0usize) ==> m.at(e.1 as int).spec_is_dir())
}

/// The nodes of a graft of `src` under `target` of `t0`, with `m` built
/// so far: `t0` is kept but for the target's children, and the copies
/// made so far follow it in graft order.
pub open spec fn graft_base(t0: FileTree, m: FileTree, target: NodeId, src: FileTree) -> bool {
    let n = t0.len() as int;
    let done = m.len() - n;
    let order = graft_order(src);
    let td = t0.at(target as int).depth;
    &&& src.wf()
    &&& t0.wf()
    &&& m.wf()
    &&& target < n
    &&& n <= m.len()
    &&& done <= order.len()
    &&& m.root_view() == t0.root_view()
    &&& t0.arena().bytes().is_prefix_of(m.arena().bytes())
    &&& forall|j: int| 0 <= j < n && j != target ==> #[trigger] m.at(j) == t0.at(j)
    &&& if t0.at(target as int).spec_is_dir() {
        &&& same_but_kids(m.at(target as int), t0.at(target as int))
        &&& kids_exactly(m, target as int, n)
    } else {
        m.at(target as int) == t0.at(target as int)
    }
    &&& graft_made(n, m, target, td, src, done)
}

/// The state of a graft with `st` still pending.
pub open spec fn graft_inv(
    t0: FileTree,
    m: FileTree,
    st: Seq<(NodeId, NodeId, u16)>,
    target: NodeId,
    src: FileTree,
) -> bool {
    let n = t0.len() as int;
    let order = graft_order(src);
    let td = t0.at(target as int).depth;
    &&& graft_base(t0, m, target, src)
    &&& graft_pending(src.nodes_view(), st) == order.skip(m.len() - n)
    &&& forall|q: int|
        0 <= q < st.len() ==> graft_entry_ok(src.nodes_view(), #[trigger] st[q], n, m, target, td, order)
}

proof fn lemma_prefix_trans(a: Seq<u8>, b: Seq<u8>, c: Seq<u8>)
    requires
        a.is_prefix_of(b),
        b.is_prefix_of(c),
    ensures
        a.is_prefix_of(c),
{
    assert forall|i: int| 0 <= i < a.len() implies #[trigger] c.subrange(0, a.len() as int)[i] == a[i] by {
        assert(c.subrange(0, b.len() as int)[i] == b[i]);
        assert(b.subrange(0, a.len() as int)[i] == a[i]);
    }
    assert(a =~= c.subrange(0, a.len() as int));
}

/// A reference that lies in an arena reads the same in any extension of it.
proof fn lemma_slice_prefix(a: StringArena, b: StringArena, r: StrRef)
    requires
        a.bytes().is_prefix_of(b.bytes()),
        a.holds(r),
    ensures
        b.holds(r),
        b.slice(r) == a.slice(r),
{
    assert forall|i: int| 0 <= i < a.slice(r).len() implies #[trigger] b.slice(r)[i] == a.slice(r)[i] by {
        assert(b.bytes().subrange(0, a.bytes().len() as int)[r.start() + i] == b.bytes()[r.start() + i]);
    }
    assert(b.slice(r) =~= a.slice(r));
}

impl FileTree {
    /// Appending a node keeps "the children of `d` are exactly the nodes
    /// from `n` on that name it as parent", given the new node is from `n` on.
    proof fn lemma_kids_exactly_append(m: FileTree, m2: FileTree, p: NodeId, id: NodeId, d: int, n: int)
        requires
            m.wf(),
            m2.wf(),
            appended(m, m2, p, id),
            p < m.len(),
            0 <= d < m.len(),
            m.at(d).spec_is_dir(),
            n <= id,
            kids_exactly(m, d, n),
        ensures
            kids_exactly(m2, d, n),
    {
        assert forall|c: int| 0 <= c < m2.len() implies (#[trigger] m2.kids_of(d).contains(c as NodeId) <==> (n <= c
            && m2.at(c).parent == Some(d as NodeId))) by {
            if c < m.len() {
                assert(m2.at(c).parent == m.at(c).parent);
                assert(m.kids_of(d).contains(c as NodeId) <==> (n <= c && m.at(c).parent == Some(d as NodeId)));
                if d == p && m.at(d).spec_is_dir() {
                    assert(m2.kids_of(d) == m.kids_of(d).push(id));
                    if m2.kids_of(d).contains(c as NodeId) {
                        let w = choose|w: int| 0 <= w < m2.kids_of(d).len() && m2.kids_of(d)[w] == c as NodeId;
                        if w < m.kids_of(d).len() {
                            assert(m.kids_of(d)[w] == c as NodeId);
                        }
                    }
                    if m.kids_of(d).contains(c as NodeId) {
                        let w = choose|w: int| 0 <= w < m.kids_of(d).len() && m.kids_of(d)[w] == c as NodeId;
                        assert(m2.kids_of(d)[w] == c as NodeId);
                    }
                } else {
                    assert(m2.kids_of(d) == m.kids_of(d));
                }
            } else {
                assert(c == id);
                if d == p && m.at(d).spec_is_dir() {
                    assert(m2.kids_of(d) == m.kids_of(d).push(id));
                    assert(m2.kids_of(d)[m.kids_of(d).len() as int] == id);
                } else {
                    assert(m2.kids_of(d) == m.kids_of(d));
                    if m2.kids_of(d).contains(c as NodeId) {
                        let w = choose|w: int| 0 <= w < m.kids_of(d).len() && m.kids_of(d)[w] == c as NodeId;
                        assert(m.kids_of(d)[w] < m.len());
                    }
                }
            }
        }
    }

    /// Appending a node under `p` keeps every copy made so far.
    proof fn lemma_graft_made_append(
        n: int,
        m: FileTree,
        m2: FileTree,
        p: NodeId,
        id: NodeId,
        target: NodeId,
        td: u16,
        src: FileTree,
        done: int,
    )
        requires
            0 <= n,
            0 <= done,
            m.wf(),
            m2.wf(),
            appended(m, m2, p, id),
            p < m.len(),
            n <= id,
            id == n + done,
            m.arena().bytes().is_prefix_of(m2.arena().bytes()),
            graft_made(n, m, target, td, src, done),
        ensures
            graft_made(n, m2, target, td, src, done),
    {
        assert forall|k: int| 0 <= k < done implies #[trigger] graft_copy(n, m2, target, td, src, k) by {
            assert(graft_copy(n, m, target, td, src, k));
            let j = n + k;
            let d = m.at(j);
            let d2 = m2.at(j);
            if j == p && d.spec_is_dir() {
                assert(same_but_kids(d2, d));
            } else {
                assert(d2 == d);
            }
            assert(d2.name == d.name && d2.ext_ref() == d.ext_ref() && d2.size == d.size && d2.parent == d.parent);
            if d.spec_is_dir() {
                Self::lemma_kids_exactly_append(m, m2, p, id, j, n);
            }
            if m2.arena().bytes().len() <= u32::MAX {
                assert(m.arena().holds(d.name));
                lemma_slice_prefix(m.arena(), m2.arena(), d.name);
                if let Some(e) = d.ext_ref() {
                    assert(m.arena().holds(e));
                    lemma_slice_prefix(m.arena(), m2.arena(), e);
                }
            }
        }
    }
}

impl FileTree {
    /// Appending the next copy under its destination keeps the graft's base.
    proof fn lemma_graft_base_append(
        t0: FileTree,
        m0: FileTree,
        m1: FileTree,
        p: NodeId,
        id: NodeId,
        target: NodeId,
        src: FileTree,
    )
        requires
            graft_base(t0, m0, target, src),
            m1.wf(),
            appended(m0, m1, p, id),
            m0.arena().bytes().is_prefix_of(m1.arena().bytes()),
            p < m0.len(),
            p == target || (t0.len() <= p && m0.at(p as int).spec_is_dir()),
            m0.len() - t0.len() < graft_order(src).len(),
            graft_copy(
                t0.len() as int,
                m1,
                target,
                t0.at(target as int).depth,
                src,
                m0.len() - t0.len(),
            ),
        ensures
            graft_base(t0, m1, target, src),
    {
        let n = t0.len() as int;
        let done = m0.len() - n;
        let td = t0.at(target as int).depth;
        lemma_prefix_trans(t0.arena().bytes(), m0.arena().bytes(), m1.arena().bytes());
        Self::lemma_graft_made_append(n, m0, m1, p, id, target, td, src, done);
        assert forall|j: int| 0 <= j < n && j != target implies #[trigger] m1.at(j) == t0.at(j) by {
            assert(m0.at(j) == t0.at(j));
        }
        if t0.at(target as int).spec_is_dir() {
            assert(same_but_kids(m0.at(target as int), t0.at(target as int)));
            Self::lemma_kids_exactly_append(m0, m1, p, id, target as int, n);
            if p == target {
                assert(same_but_kids(m1.at(target as int), m0.at(target as int)));
            }
        }
        assert forall|k: int| 0 <= k < done + 1 implies #[trigger] graft_copy(n, m1, target, td, src, k) by {
            if k < done {
                assert(graft_made(n, m1, target, td, src, done));
            }
        }
    }

    /// Appending a node keeps every pending entry sound.
    proof fn lemma_graft_entries_keep(
        ns: Seq<Node>,
        st: Seq<(NodeId, NodeId, u16)>,
        n: int,
        m0: FileTree,
        m1: FileTree,
        p: NodeId,
        id: NodeId,
        target: NodeId,
        td: u16,
        order: Seq<NodeId>,
    )
        requires
            appended(m0, m1, p, id),
            p < m0.len(),
            n <= m0.len(),
            forall|q: int| 0 <= q < st.len() ==> graft_entry_ok(ns, #[trigger] st[q], n, m0, target, td, order),
        ensures
            forall|q: int| 0 <= q < st.len() ==> graft_entry_ok(ns, #[trigger] st[q], n, m1, target, td, order),
    {
        assert forall|q: int| 0 <= q < st.len() implies graft_entry_ok(ns, #[trigger] st[q], n, m1, target, td, order) by {
            let e = st[q];
            assert(graft_entry_ok(ns, e, n, m0, target, td, order));
            if e.1 == p && m0.at(p as int).spec_is_dir() {
                assert(same_but_kids(m1.at(p as int), m0.at(p as int)));
            } else {
                assert(m1.at(e.1 as int) == m0.at(e.1 as int));
            }
        }
    }
}

impl FileTree {
    /// Takes the top entry off `stack`; if its source node is live, copies
    /// it under the entry's destination and, for a directory, pushes its
    /// children with the copy as their destination.
    #[verifier::spinoff_prover]
    fn graft_step(
        &mut self,
        source: &FileTree,
        target: NodeId,
        stack: &mut Vec<(NodeId, NodeId, u16)>,
        origin: &mut Vec<NodeId>,
        Ghost(t0): Ghost<FileTree>,
    )
        requires
            graft_inv(t0, *old(self), old(stack)@, target, *source),
            old(stack)@.len() > 0,
            old(origin)@ == graft_order(*source).take(old(self).len() - t0.len()),
            forall|k: int| 0 <= k < old(origin)@.len() ==> #[trigger] old(origin)@[k] < source.len(),
        ensures
            forall|k: int| 0 <= k < final(origin)@.len() ==> #[trigger] final(origin)@[k] < source.len(),
            graft_inv(t0, *final(self), final(stack)@, target, *source),
            final(origin)@ == graft_order(*source).take(final(self).len() - t0.len()),
            graft_stack_weight(source.nodes_view(), final(stack)@) < graft_stack_weight(
                source.nodes_view(),
                old(stack)@,
            ),
    {
        let ghost ns = source.nodes_view();
        let ghost n = t0.len() as int;
        let ghost order = graft_order(*source);
        let ghost td = t0.at(target as int).depth;
        let ghost m0 = *self;
        let ghost st0 = stack@;
        let ghost done = m0.len() - n;
        let e = stack.pop().unwrap();
        let ghost rest = stack@;
        let x = e.0;
        let p = e.1;
        let dep = e.2;
        proof {
            assert(rest =~= st0.drop_last());
            assert(graft_entry_ok(ns, st0[st0.len() - 1], n, m0, target, td, order));
            assert(graft_pending(ns, st0) == graft_visit(ns, x as int) + graft_pending(ns, rest));
            assert(graft_stack_weight(ns, st0) == graft_weight(ns, x as int) + graft_stack_weight(ns, rest));
            assert forall|q: int| 0 <= q < rest.len() implies graft_entry_ok(ns, #[trigger] rest[q], n, m0, target, td, order) by {
                assert(rest[q] == st0[q]);
            }
        }
        if !source.nodes[x].alive {
            proof {
                assert(graft_visit(ns, x as int) =~= Seq::<NodeId>::empty());
                assert(graft_pending(ns, rest) =~= graft_pending(ns, st0));
            }
            return ;
        }
        let ghost after = order.skip(done + 1);
        proof {
            assert(graft_visit(ns, x as int)[0] == x);
            assert(order.skip(done) == graft_visit(ns, x as int) + graft_pending(ns, rest));
            assert(order.skip(done)[0] == x);
            assert(graft_base(t0, m0, target, *source));
            assert(0 <= done <= order.len());
            assert(order.skip(done).len() == order.len() - done);
            assert(graft_visit(ns, x as int).len() >= 1);
            assert(0 <= done < order.len());
            assert(order.skip(done)[0] == order[done]);
            assert(order[done] == x);
            assert(after =~= order.skip(done).drop_first());
            assert(after =~= graft_visit_kids(ns, x as int, ns[x as int].kids().len() as int) + graft_pending(ns, rest));
            assert(source.wf());
            assert(source.arena().holds(source.at(x as int).name));
            assert(order.take(done + 1) =~= order.take(done).push(x));
        }
        origin.push(x);
        let name = source.strings.get(source.nodes[x].name);
        match &source.nodes[x].kind {
            NodeKind::File { extension } => {
                let ext_owned: Option<String> = match extension {
                    Some(r) => {
                        assert(source.arena().holds(source.at(x as int).ext_ref()->0));
                        Some(utf8_lossy(source.strings.get(*r)))
                    },
                    None => None,
                };
                let ext: Option<&str> = match &ext_owned {
                    Some(t) => Some(t.as_str()),
                    None => None,
                };
                let id = self.add_file(p, name, source.nodes[x].size, ext, source.nodes[x].modified, dep);
                proof {
                    let m1 = *self;
                    assert(m0.arena().bytes().is_prefix_of(m1.arena().bytes())) by {
                        assert(m1.arena().bytes().subrange(0, m0.arena().bytes().len() as int) =~= m0.arena().bytes());
                    }
                    assert(id == n + done);
                    let d = m1.at(id as int);
                    assert(graft_parent_ok(n, order, ns[x as int].parent, d.parent, target, done));
                    if m1.arena().bytes().len() <= u32::MAX {
                        let b0 = m0.arena().bytes();
                        assert(m1.arena().slice(d.name) =~= name@);
                        if let Some(er) = d.ext_ref() {
                            let t = ext_owned->0;
                            assert(ext->0@ == t@);
                            assert(m1.arena().slice(er) =~= ext->0.spec_bytes());
                        }
                    }
                    assert(graft_copy(n, m1, target, td, *source, done));
                    Self::lemma_graft_base_append(t0, m0, m1, p, id, target, *source);
                    Self::lemma_graft_entries_keep(ns, rest, n, m0, m1, p, id, target, td, order);
                    assert(graft_visit_kids(ns, x as int, 0) =~= Seq::<NodeId>::empty());
                    assert(after =~= graft_pending(ns, rest));
                }
            },
            NodeKind::Directory { children, .. } => {
                let id = self.add_dir(p, name, dep < 2, source.nodes[x].modified, dep);
                proof {
                    let m1 = *self;
                    assert(m0.arena().bytes().is_prefix_of(m1.arena().bytes())) by {
                        assert(m1.arena().bytes().subrange(0, m0.arena().bytes().len() as int) =~= m0.arena().bytes());
                    }
                    assert(id == n + done);
                    let d = m1.at(id as int);
                    assert(graft_parent_ok(n, order, ns[x as int].parent, d.parent, target, done));
                    if m1.arena().bytes().len() <= u32::MAX {
                        assert(m1.arena().slice(d.name) =~= name@);
                    }
                    assert forall|c: int| 0 <= c < m1.len() implies (#[trigger] m1.kids_of(id as int).contains(c as NodeId)
                        <==> (n <= c && m1.at(c).parent == Some(id))) by {
                        if c > 0 {
                            assert(m1.at(c).parent matches Some(q) && q < c);
                        }
                    }
                    assert(kids_exactly(m1, id as int, n));
                    assert(graft_copy(n, m1, target, td, *source, done));
                    Self::lemma_graft_base_append(t0, m0, m1, p, id, target, *source);
                    Self::lemma_graft_entries_keep(ns, rest, n, m0, m1, p, id, target, td, order);
                }
                let ghost m1 = *self;
                let mut j: usize = 0;
                while j < children.len()
                    invariant
                        source.wf(),
                        m1 == *self,
                        ns == source.nodes_view(),
                        0 < x < ns.len(),
                        ns[x as int].live(),
                        children@ == ns[x as int].kids(),
                        dep == graft_depth(ns, x as int, td),
                        id == m1.len() - 1,
                        n <= id,
                        order[id - n] == x,
                        m1.at(id as int).spec_is_dir(),
                        j <= children@.len(),
                        graft_pending(ns, stack@) == graft_visit_kids(ns, x as int, j as int) + graft_pending(
                            ns,
                            rest,
                        ),
                        graft_stack_weight(ns, stack@) == graft_weight_kids(ns, x as int, j as int)
                            + graft_stack_weight(ns, rest),
                        forall|q: int|
                            0 <= q < stack@.len() ==> graft_entry_ok(ns, #[trigger] stack@[q], n, m1, target, td, order),
                    decreases children@.len() - j,
                {
                    let c = children[j];
                    let ghost before = stack@;
                    proof {
                        assert(source.kids_of(x as int)[j as int] == c);
                        assert(x < c < ns.len());
                        assert(ns[c as int].parent == Some(x));
                    }
                    stack.push((c, id, dep.saturating_add(1)));
                    proof {
                        assert(stack@.drop_last() =~= before);
                        assert(graft_pending(ns, stack@) == graft_visit(ns, c as int) + graft_pending(ns, before));
                        assert(graft_visit_kids(ns, x as int, j + 1) == graft_visit(ns, c as int) + graft_visit_kids(ns, x as int, j as int));
                        assert(graft_pending(ns, stack@) =~= graft_visit_kids(ns, x as int, j + 1) + graft_pending(ns, rest));
                        assert(graft_stack_weight(ns, stack@) == graft_weight(ns, c as int) + graft_stack_weight(ns, before));
                        assert(graft_depth(ns, c as int, td) == deeper(dep));
                        assert forall|q: int| 0 <= q < stack@.len() implies graft_entry_ok(ns, #[trigger] stack@[q], n, m1, target, td, order) by {
                            if q < before.len() {
                                assert(stack@[q] == before[q]);
                            }
                        }
                    }
                    j = j + 1;
                }
                proof {
                    assert(graft_weight(ns, x as int) == 1 + graft_weight_kids(ns, x as int, children@.len() as int));
                }
            },
        }
    }
}

/// `m` is `t0` with everything below `target` taken out of the tree and
/// the live content below the root of `src` copied under `target` in its
/// place, before any totals are refreshed: the nodes below `target` are no
/// longer live, `target` lists exactly the copies of the source root's
/// children, and the copies follow the old nodes in graft order.
pub open spec fn grafted(t0: FileTree, m: FileTree, target: NodeId, src: FileTree) -> bool {
    let n = t0.len() as int;
    &&& m.wf()
    &&& m.len() == n + graft_order(src).len()
    &&& m.root_view() == t0.root_view()
    &&& t0.arena().bytes().is_prefix_of(m.arena().bytes())
    &&& forall|j: int|
        0 <= j < n && j != target ==> #[trigger] m.at(j) == if below(t0.nodes_view(), target as int, j) {
            killed(t0.at(j))
        } else {
            t0.at(j)
        }
    &&& if t0.at(target as int).spec_is_dir() {
        &&& same_but_kids(m.at(target as int), t0.at(target as int))
        &&& kids_exactly(m, target as int, n)
    } else {
        m.at(target as int) == t0.at(target as int)
    }
    &&& graft_made(n, m, target, t0.at(target as int).depth, src, graft_order(src).len() as int)
}

impl FileTree {
    /// Copies the live content below the root of `source` under `target`,
    /// which has no children, in graft order.
    fn graft_nodes(&mut self, target: NodeId, source: &FileTree) -> (origin: Vec<NodeId>)
        requires
            old(self).wf(),
            source.wf(),
            target < old(self).len(),
            old(self).at(target as int).spec_is_dir() ==> old(self).kids_of(target as int).len() == 0,
        ensures
            graft_base(*old(self), *final(self), target, *source),
            final(self).len() == old(self).len() + graft_order(*source).len(),
            origin@ == graft_order(*source),
            forall|k: int| 0 <= k < origin@.len() ==> #[trigger] origin@[k] < source.len(),
    {
        let ghost t0 = *self;
        let ghost ns = source.nodes_view();
        let ghost n = t0.len() as int;
        let ghost order = graft_order(*source);
        let td = self.nodes[target].depth;
        let mut stack: Vec<(NodeId, NodeId, u16)> = Vec::new();
        let sroot = source.root;
        match &source.nodes[sroot].kind {
            NodeKind::Directory { children, .. } => {
                let mut j: usize = 0;
                while j < children.len()
                    invariant
                        source.wf(),
                        sroot == 0,
                        ns == source.nodes_view(),
                        children@ == ns[0].kids(),
                        td == t0.at(target as int).depth,
                        t0 == *self,
                        n == t0.len(),
                        order == graft_order(*source),
                        target < n,
                        j <= children@.len(),
                        graft_pending(ns, stack@) == graft_visit_kids(ns, 0, j as int),
                        forall|q: int|
                            0 <= q < stack@.len() ==> graft_entry_ok(ns, #[trigger] stack@[q], n, t0, target, td, order),
                    decreases children@.len() - j,
                {
                    let c = children[j];
                    let ghost before = stack@;
                    proof {
                        assert(source.kids_of(0)[j as int] == c);
                        assert(0 < c < ns.len());
                        assert(ns[c as int].parent == Some(0usize));
                    }
                    stack.push((c, target, td.saturating_add(1)));
                    proof {
                        assert(stack@.drop_last() =~= before);
                        assert(graft_pending(ns, stack@) == graft_visit(ns, c as int) + graft_pending(ns, before));
                        assert(graft_pending(ns, stack@) =~= graft_visit_kids(ns, 0, j + 1));
                        assert(graft_depth(ns, c as int, td) == deeper(td));
                        assert(t0.len() - n == 0);
                        assert(graft_parent_ok(n, order, ns[c as int].parent, Some(target), target, 0));
                        assert(graft_entry_ok(ns, stack@[before.len() as int], n, t0, target, td, order));
                        assert forall|q: int| 0 <= q < stack@.len() implies graft_entry_ok(ns, #[trigger] stack@[q], n, t0, target, td, order) by {
                            if q < before.len() {
                                assert(stack@[q] == before[q]);
                            }
                        }
                    }
                    j = j + 1;
                }
            },
            NodeKind::File { .. } => {
                assert(graft_pending(ns, stack@) =~= graft_visit_kids(ns, 0, 0));
            },
        }
        proof {
            assert(order.skip(0) =~= order);
            assert(graft_made(n, t0, target, td, *source, 0));
            assert(t0.arena().bytes().is_prefix_of(t0.arena().bytes())) by {
                assert(t0.arena().bytes().subrange(0, t0.arena().bytes().len() as int) =~= t0.arena().bytes());
            }
            if t0.at(target as int).spec_is_dir() {
                assert(kids_exactly(t0, target as int, n));
            }
            assert(graft_base(t0, *self, target, *source));
        }
        let mut origin: Vec<NodeId> = Vec::new();
        assert(order.take(0) =~= Seq::<NodeId>::empty());
        while stack.len() > 0
            invariant
                graft_inv(t0, *self, stack@, target, *source),
                origin@ == graft_order(*source).take(self.len() - t0.len()),
                forall|k: int| 0 <= k < origin@.len() ==> #[trigger] origin@[k] < source.len(),
            decreases graft_stack_weight(source.nodes_view(), stack@),
        {
            self.graft_step(source, target, &mut stack, &mut origin, Ghost(t0));
        }
        proof {
            let done = self.len() - n;
            assert(graft_pending(ns, stack@) =~= Seq::<NodeId>::empty());
            assert(order.skip(done).len() == 0);
            assert(order.take(done) =~= order);
        }
        origin
    }

    /// Gives each copied directory, from index `n` on, the totals of the
    /// source directory it copies; `origin` lists the copied source nodes in
    /// graft order.
    fn copy_source_totals(&mut self, n: usize, source: &FileTree, origin: &Vec<NodeId>)
        requires
            old(self).wf(),
            n + origin@.len() == old(self).len(),
            origin@ == graft_order(*source),
            forall|k: int| 0 <= k < origin@.len() ==> #[trigger] origin@[k] < source.len(),
        ensures
            final(self).wf(),
            final(self).len() == old(self).len(),
            final(self).root_view() == old(self).root_view(),
            final(self).arena() == old(self).arena(),
            final(self).nodes_view() == with_source_totals(old(self).nodes_view(), n as int, *source),
    {
        let ghost t0 = *self;
        let ghost ns0 = t0.nodes_view();
        let cnt = origin.len();
        let mut k: usize = 0;
        while k < cnt
            invariant
                t0.wf(),
                ns0 == t0.nodes_view(),
                cnt == origin@.len(),
                n + cnt == ns0.len(),
                origin@ == graft_order(*source),
                forall|q: int| 0 <= q < origin@.len() ==> #[trigger] origin@[q] < source.len(),
                k <= cnt,
                self.root == t0.root,
                self.strings == t0.strings,
                self.nodes@ == source_totals_upto(ns0, n as int, *source, k as int),
            decreases cnt - k,
        {
            let i = n + k;
            let ghost before = self.nodes@;
            if self.nodes[i].is_dir() {
                let x = origin[k];
                let a = source.nodes[x].size;
                let b = source.nodes[x].file_count;
                let c = source.nodes[x].subdir_count;
                let node = &mut self.nodes[i];
                node.size = a;
                node.file_count = b;
                node.subdir_count = c;
            }
            assert(self.nodes@ =~= source_totals_upto(ns0, n as int, *source, k + 1));
            k = k + 1;
        }
        proof {
            assert(self.nodes@ =~= with_source_totals(ns0, n as int, *source));
            assert forall|i: int| 0 <= i < t0.len() implies (#[trigger] self.at(i)).parent == t0.at(i).parent
                && self.at(i).name == t0.at(i).name && self.at(i).ext_ref() == t0.at(i).ext_ref()
                && self.kids_of(i) == t0.kids_of(i) by {
                assert(self.nodes@[i] == self.at(i));
            }
            Self::lemma_wf_from(t0, *self);
        }
    }

    /// Replaces everything below `target` by the live content below the
    /// root of `source` (the source root itself is not copied), each copied
    /// directory with the totals of the directory it copies, then refreshes
    /// the totals of `target` and its ancestors; stops with `false` when a
    /// total would overflow a `u64`. When the source's totals are its own
    /// subtree totals, as a scan leaves them, the refreshed subtree reads
    /// as a fresh scan of it.
    pub fn try_graft_under(&mut self, target: NodeId, source: FileTree) -> (ok: bool)
        requires
            old(self).wf(),
            source.wf(),
            target < old(self).len(),
        ensures
            final(self).wf(),
            exists|m: FileTree|
                #[trigger] grafted(*old(self), m, target, source) && ok == refresh_up_fits(
                    with_source_totals(m.nodes_view(), old(self).len() as int, source),
                    target as int,
                ) && (ok ==> final(self).nodes_view() == refresh_up(
                    with_source_totals(m.nodes_view(), old(self).len() as int, source),
                    target as int,
                ) && final(self).arena() == m.arena() && final(self).root_view() == m.root_view()),
    {
        let ghost t_old = *self;
        let n = self.nodes.len();
        self.clear_descendants(target);
        let ghost t_clr = *self;
        let origin = self.graft_nodes(target, &source);
        let ghost m = *self;
        proof {
            assert forall|j: int| 0 <= j < t_old.len() && j != target implies #[trigger] m.at(j) == if below(t_old.nodes_view(), target as int, j) {
                killed(t_old.at(j))
            } else {
                t_old.at(j)
            } by {
                assert(m.at(j) == t_clr.at(j));
            }
            assert(t_clr.at(target as int).depth == t_old.at(target as int).depth);
            assert(t_old.arena().bytes() == t_clr.arena().bytes());
            assert(grafted(t_old, m, target, source));
        }
        self.copy_source_totals(n, &source, &origin);
        self.try_recompute_sizes_upward(target)
    }

    /// Replaces everything below `target` by the live content below the
    /// root of `source` (the source root itself is not copied), each copied
    /// directory with the totals of the directory it copies, then refreshes
    /// the totals of `target` and its ancestors.
    pub fn graft_under(&mut self, target: NodeId, source: FileTree)
        requires
            old(self).wf(),
            source.wf(),
            target < old(self).len(),
            forall|m: FileTree| #[trigger] grafted(*old(self), m, target, source) ==> refresh_up_fits(
                with_source_totals(m.nodes_view(), old(self).len() as int, source),
                target as int,
            ),
        ensures
            final(self).wf(),
            exists|m: FileTree|
                #[trigger] grafted(*old(self), m, target, source) && final(self).nodes_view() == refresh_up(
                    with_source_totals(m.nodes_view(), old(self).len() as int, source),
                    target as int,
                ) && final(self).arena() == m.arena() && final(self).root_view() == m.root_view(),
    {
        self.try_graft_under(target, source);
    }
}

impl FileTree {
    /// A graft copies each source node with its own data: in the tree
    /// `graft_under` leaves, the node made `k`-th after the old ones, the
    /// copy of source node `x = graft_order(source)[k]`, is live and has the
    /// modification time of `x` (whatever the times of the source root and
    /// of the other source nodes), is a directory exactly when `x` is, has
    /// the size of `x` when a file, and, while the arena offsets fit in 32
    /// bits, the name of `x`.
    pub proof fn lemma_graft_copies_source_nodes(t0: FileTree, t1: FileTree, target: NodeId, source: FileTree)
        requires
            exists|m: FileTree|
                #[trigger] grafted(t0, m, target, source) && t1.nodes_view() == refresh_up(
                    with_source_totals(m.nodes_view(), t0.len() as int, source),
                    target as int,
                ) && t1.arena() == m.arena(),
        ensures
            t1.len() == t0.len() + graft_order(source).len(),
            forall|k: int|
                0 <= k < graft_order(source).len() ==> {
                    let x = graft_order(source)[k] as int;
                    let d = #[trigger] t1.at(t0.len() + k);
                    &&& d.live()
                    &&& d.modified == source.at(x).modified
                    &&& d.spec_is_dir() == source.at(x).spec_is_dir()
                    &&& (!d.spec_is_dir() ==> d.size == source.at(x).size)
                    &&& (t1.arena().bytes().len() <= u32::MAX ==> t1.name_of(t0.len() + k) == source.name_of(x))
                },
    {
        let m = choose|m: FileTree|
            #[trigger] grafted(t0, m, target, source) && t1.nodes_view() == refresh_up(
                with_source_totals(m.nodes_view(), t0.len() as int, source),
                target as int,
            ) && t1.arena() == m.arena();
        let n = t0.len() as int;
        let ns = m.nodes_view();
        let ws = with_source_totals(ns, n, source);
        assert forall|i: int, j: int| 0 <= i < ns.len() && 0 <= j < ns[i].kids().len() implies {
            let c = #[trigger] ns[i].kids()[j];
            &&& i < c < ns.len()
            &&& ns[c as int].parent == Some(i as NodeId)
        } by {
            assert(m.kids_of(i)[j] == ns[i].kids()[j]);
        }
        assert forall|i: int| 0 <= i < ns.len() implies ((#[trigger] ns[i]).parent matches Some(p) ==> p < i) by {
            if i > 0 {
                assert(m.at(i) == ns[i]);
            }
        }
        assert(linked(ns));
        assert forall|i: int| 0 <= i < ns.len() implies same_but_totals(#[trigger] ws[i], ns[i]) by {}
        assert forall|i: int, j: int| 0 <= i < ws.len() && 0 <= j < ws[i].kids().len() implies {
            let c = #[trigger] ws[i].kids()[j];
            &&& i < c < ws.len()
            &&& ws[c as int].parent == Some(i as NodeId)
        } by {
            assert(same_but_totals(ws[i], ns[i]));
            let c = ns[i].kids()[j];
            assert(same_but_totals(ws[c as int], ns[c as int]));
        }
        assert forall|i: int| 0 <= i < ws.len() implies ((#[trigger] ws[i]).parent matches Some(p) ==> p < i) by {
            assert(same_but_totals(ws[i], ns[i]));
        }
        assert(linked(ws));
        lemma_refresh_shape(ws, target as int);
        assert forall|k: int| 0 <= k < graft_order(source).len() implies {
            let x = graft_order(source)[k] as int;
            let d = #[trigger] t1.at(n + k);
            &&& d.live()
            &&& d.modified == source.at(x).modified
            &&& d.spec_is_dir() == source.at(x).spec_is_dir()
            &&& (!d.spec_is_dir() ==> d.size == source.at(x).size)
            &&& (t1.arena().bytes().len() <= u32::MAX ==> t1.name_of(n + k) == source.name_of(x))
        } by {
            assert(graft_copy(n, m, target, t0.at(target as int).depth, source, k));
            assert(same_but_totals(refresh_up(ws, target as int)[n + k], ws[n + k]));
            assert(same_but_totals(ws[n + k], ns[n + k]));
            if !ns[n + k].spec_is_dir() {
                assert(ws[n + k] == ns[n + k]);
                assert(refresh_up(ws, target as int)[n + k] == ws[n + k]);
            }
        }
    }
}

/// `ns` with each copied directory among the first `k` copies (from index
/// `n` on) given the totals of the source node it copies.
pub open spec fn source_totals_upto(ns: Seq<Node>, n: int, src: FileTree, k: int) -> Seq<Node> {
    Seq::new(
        ns.len(),
        |i: int|
            if n <= i < n + k && i - n < graft_order(src).len() && ns[i].spec_is_dir() {
                with_totals(ns[i], totals_of(src.at(graft_order(src)[i - n] as int)))
            } else {
                ns[i]
            },
    )
}

/// `ns` with every directory copied by a graft, from index `n` on, given
/// the totals of the source directory it copies.
pub open spec fn with_source_totals(ns: Seq<Node>, n: int, src: FileTree) -> Seq<Node> {
    source_totals_upto(ns, n, src, graft_order(src).len() as int)
}

/// `totals` holds the subtree totals, each fitting a `u64`, of every
/// live directory from index `from` on.
pub open spec fn totals_known(t: FileTree, totals: Seq<(u64, u64, u64)>, from: int) -> bool {
    forall|j: int|
        from <= j < t.len() && t.alive_at(j) && t.at(j).spec_is_dir() ==> {
            &&& fits(#[trigger] subtree_totals(t.nodes_view(), j))
            &&& totals[j].0 as int == subtree_totals(t.nodes_view(), j).0
            &&& totals[j].1 as int == subtree_totals(t.nodes_view(), j).1
            &&& totals[j].2 as int == subtree_totals(t.nodes_view(), j).2
        }
}

impl FileTree {
    /// Whether `compute_sizes` can run without a total overflowing: the
    /// totals of every live directory fit in a `u64`. Computes them
    /// bottom-up aside, without changing the tree.
    pub fn sizes_fit(&self) -> (b: bool)
        requires
            self.wf(),
        ensures
            b == self.totals_fit(),
    {
        let ghost ns = self.nodes_view();
        let len = self.nodes.len();
        let mut totals: Vec<(u64, u64, u64)> = Vec::new();
        let mut k: usize = 0;
        while k < len
            invariant
                k <= len,
                totals@.len() == k,
            decreases len - k,
        {
            totals.push((0, 0, 0));
            k = k + 1;
        }
        let mut i = len;
        while i > 0
            invariant
                self.wf(),
                ns == self.nodes_view(),
                len == self.len(),
                i <= len,
                totals@.len() == len,
                totals_known(*self, totals@, i as int),
            decreases i,
        {
            i = i - 1;
            if self.nodes[i].alive {
                if let NodeKind::Directory { children, .. } = &self.nodes[i].kind {
                    assert(children@ == self.kids_of(i as int));
                    let n = children.len();
                    let mut bytes: u64 = 0;
                    let mut files: u64 = 0;
                    let mut dirs: u64 = 0;
                    let mut j: usize = 0;
                    proof {
                        lemma_kids_totals_mono(ns, i as int, n as int);
                    }
                    while j < n
                        invariant
                            self.wf(),
                            ns == self.nodes_view(),
                            0 <= i < len,
                            len == self.len(),
                            totals@.len() == len,
                            self.alive_at(i as int),
                            self.at(i as int).spec_is_dir(),
                            children@ == self.kids_of(i as int),
                            n == children@.len(),
                            j <= n,
                            forall|m: int|
                                0 <= m <= n ==> {
                                    &&& 0 <= (#[trigger] kids_totals(ns, i as int, m)).0 <= kids_totals(
                                        ns,
                                        i as int,
                                        n as int,
                                    ).0
                                    &&& 0 <= kids_totals(ns, i as int, m).1 <= kids_totals(ns, i as int, n as int).1
                                    &&& 0 <= kids_totals(ns, i as int, m).2 <= kids_totals(ns, i as int, n as int).2
                                },
                            (bytes as int, files as int, dirs as int) == kids_totals(ns, i as int, j as int),
                            totals_known(*self, totals@, i + 1),
                        decreases n - j,
                    {
                        let c = children[j];
                        proof {
                            assert(i < c < len);
                            lemma_totals_nonneg(ns, c as int);
                        }
                        let child = &self.nodes[c];
                        let ghost next = kids_totals(ns, i as int, j as int + 1);
                        if child.alive {
                            let (cb, cf, cd) = if child.is_dir() {
                                let t = totals[c];
                                (t.0 as u128, t.1 as u128, 1 + t.2 as u128)
                            } else {
                                (child.size as u128, 1u128, 0u128)
                            };
                            let nb = bytes as u128 + cb;
                            let nf = files as u128 + cf;
                            let nd = dirs as u128 + cd;
                            if nb > u64::MAX as u128 || nf > u64::MAX as u128 || nd > u64::MAX as u128 {
                                proof {
                                    assert(!fits(kids_totals(ns, i as int, n as int)));
                                    assert(!fits(subtree_totals(ns, i as int)));
                                    assert(!self.totals_fit());
                                }
                                return false;
                            }
                            bytes = nb as u64;
                            files = nf as u64;
                            dirs = nd as u64;
                        }
                        j = j + 1;
                    }
                    let ghost before = totals@;
                    totals.set(i, (bytes, files, dirs));
                    proof {
                        assert(subtree_totals(ns, i as int) == kids_totals(ns, i as int, n as int));
                        assert forall|m: int|
                            i <= m < len && self.alive_at(m) && self.at(m).spec_is_dir() implies {
                                &&& fits(subtree_totals(ns, m))
                                &&& (#[trigger] totals@[m]).0 as int == subtree_totals(ns, m).0
                                &&& totals@[m].1 as int == subtree_totals(ns, m).1
                                &&& totals@[m].2 as int == subtree_totals(ns, m).2
                            } by {
                            if m > i {
                                assert(totals@[m] == before[m]);
                            }
                        }
                        assert(totals_known(*self, totals@, i as int));
                    }
                }
            }
        }
        true
    }
}

/// The node with its folder shown open if it was closed and closed if it
/// was open; a file is left as it is.
pub open spec fn toggled(n: Node) -> Node {
    match n.kind {
        NodeKind::Directory { children, expanded } => Node {
            kind: NodeKind::Directory { children, expanded: !expanded },
            ..n
        },
        NodeKind::File { .. } => n,
    }
}

impl FileTree {
    /// Opens a closed folder of the directory tree, or closes an open one.
    pub fn toggle_expanded(&mut self, id: NodeId)
        requires
            old(self).wf(),
            id < old(self).len(),
        ensures
            final(self).wf(),
            final(self).len() == old(self).len(),
            final(self).root_view() == old(self).root_view(),
            final(self).arena() == old(self).arena(),
            final(self).at(id as int) == toggled(old(self).at(id as int)),
            forall|i: int| 0 <= i < old(self).len() && i != id ==> #[trigger] final(self).at(i) == old(self).at(i),
    {
        let ghost t0 = *self;
        if let NodeKind::Directory { expanded, .. } = &mut self.nodes[id].kind {
            *expanded = !*expanded;
        }
        proof {
            assert(self.nodes@[id as int] == toggled(t0.at(id as int)));
            assert forall|i: int| 0 <= i < t0.len() implies (#[trigger] self.at(i)).parent == t0.at(i).parent
                && self.at(i).name == t0.at(i).name && self.at(i).ext_ref() == t0.at(i).ext_ref()
                && self.kids_of(i) == t0.kids_of(i) by {
                assert(self.nodes@[i] == self.at(i));
            }
            Self::lemma_wf_from(t0, *self);
        }
    }
}

/// The node with its folder shown open; a file is left as it is.
pub open spec fn opened(n: Node) -> Node {
    match n.kind {
        NodeKind::Directory { children, .. } => Node {
            kind: NodeKind::Directory { children, expanded: true },
            ..n
        },
        NodeKind::File { .. } => n,
    }
}

impl FileTree {
    /// Opens every directory above `id`, so that the node shows in the
    /// directory tree; nothing else changes.
    pub fn expand_ancestors(&mut self, id: NodeId)
        requires
            old(self).wf(),
            id < old(self).len(),
        ensures
            final(self).wf(),
            final(self).len() == old(self).len(),
            final(self).root_view() == old(self).root_view(),
            final(self).arena() == old(self).arena(),
            forall|i: int|
                0 <= i < old(self).len() ==> #[trigger] final(self).at(i) == if above(
                    old(self).nodes_view(),
                    i,
                    id as int,
                ) {
                    opened(old(self).at(i))
                } else {
                    old(self).at(i)
                },
    {
        let ghost t0 = *self;
        let ghost ns0 = t0.nodes_view();
        let mut current: Option<NodeId> = self.nodes[id].parent;
        proof {
            if id > 0 {
                assert(t0.at(id as int).parent matches Some(p) && p < id);
            }
            if let Some(p) = current {
                assert(above(ns0, p as int, id as int));
            }
        }
        while current.is_some()
            invariant
                t0.wf(),
                ns0 == t0.nodes_view(),
                id < t0.len(),
                self.nodes@.len() == t0.len(),
                self.root == t0.root,
                self.strings == t0.strings,
                current matches Some(c) ==> c < id && above(ns0, c as int, id as int),
                forall|i: int|
                    0 <= i < t0.len() ==> #[trigger] self.nodes@[i] == if above(ns0, i, id as int) && !(
                    current matches Some(c) && (i == c || above(ns0, i, c as int))) {
                        opened(ns0[i])
                    } else {
                        ns0[i]
                    },
            decreases (if current is Some {
                current->0 + 1
            } else {
                0
            }),
        {
            let c = current.unwrap();
            let ghost before = self.nodes@;
            if let NodeKind::Directory { expanded, .. } = &mut self.nodes[c].kind {
                *expanded = true;
            }
            let next = self.nodes[c].parent;
            proof {
                assert(before[c as int] == ns0[c as int]) by {
                    if above(ns0, c as int, c as int) {
                        lemma_above_lt(ns0, c as int, c as int);
                    }
                }
                assert(self.nodes@[c as int] == opened(ns0[c as int]));
                assert(next == ns0[c as int].parent);
                if let Some(p) = next {
                    assert(c > 0);
                    assert(t0.at(c as int).parent matches Some(q) && q < c);
                    assert(above(ns0, p as int, c as int));
                    lemma_above_trans(ns0, p as int, c as int, id as int);
                }
                assert forall|i: int| 0 <= i < t0.len() implies #[trigger] self.nodes@[i] == if above(ns0, i, id as int)
                    && !(next matches Some(n) && (i == n || above(ns0, i, n as int))) {
                    opened(ns0[i])
                } else {
                    ns0[i]
                } by {
                    if i != c {
                        assert(self.nodes@[i] == before[i]);
                        assert(above(ns0, i, c as int) == (next matches Some(n) && (i == n || above(ns0, i, n as int))));
                    } else {
                        if let Some(n) = next {
                            if above(ns0, c as int, n as int) {
                                lemma_above_lt(ns0, c as int, n as int);
                            }
                        }
                    }
                }
            }
            current = next;
        }
        proof {
            assert forall|i: int| 0 <= i < t0.len() implies (#[trigger] self.at(i)).parent == t0.at(i).parent
                && self.at(i).name == t0.at(i).name && self.at(i).ext_ref() == t0.at(i).ext_ref()
                && self.kids_of(i) == t0.kids_of(i) by {
                assert(self.nodes@[i] == self.at(i));
            }
            Self::lemma_wf_from(t0, *self);
        }
    }
}

} // verus!
