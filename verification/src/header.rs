//! The header of the image: the directory tree, kept as a list of nodes in
//! which node 0 is the root, and the table of the names used in it.
use vstd::prelude::*;
use crate::directory::{DirectoryData, DirectoryView};
use crate::file::{FileData, FileView};
use crate::fs_base::{Error, ErrorKind};
use crate::serde::{
    Decoded, be_bytes_u32, u32_of_be, decode_many, encode_many, lemma_many_roundtrip, lemma_many_stops, lemma_many_items,
    lemma_u32_roundtrip, lemma_prefix_decodes, push_u32, push_bytes, deser_u8, deser_u32,
};
use crate::string_buffer::{StringBuffer, StringBufferView};
use crate::traits::{Directive, Serde};
use crate::util::string_helper::{split_path, split_on_slash, texts, lemma_split_nonempty, lemma_split_join};

verus! {

pub enum Node {
    Directory(DirectoryData),
    File(FileData),
}

pub enum NodeView {
    Directory(DirectoryView),
    File(FileView),
}

impl View for Node {
    type V = NodeView;

    open spec fn view(&self) -> NodeView {
        match self {
            Node::Directory(d) => NodeView::Directory(d@),
            Node::File(f) => NodeView::File(f@),
        }
    }
}

impl Directive for Node {
    open spec fn names_child(&self, id: u32) -> bool {
        match self {
            Node::Directory(d) => d.names_child(id),
            Node::File(f) => f.names_child(id),
        }
    }

    fn has_child(&self, str_buf: &StringBuffer, s: &String) -> (res: bool) {
        match self {
            Node::Directory(dir) => dir.has_child(str_buf, s),
            Node::File(file) => file.has_child(str_buf, s),
        }
    }

    fn has_child_by_id(&self, id: u32) -> (res: bool) {
        match self {
            Node::Directory(dir) => dir.has_child_by_id(id),
            Node::File(file) => file.has_child_by_id(id),
        }
    }
}

impl Serde for Node {
    open spec fn serializable(v: NodeView) -> bool {
        match v {
            NodeView::Directory(d) => DirectoryData::serializable(d),
            NodeView::File(f) => FileData::serializable(f),
        }
    }

    /// A tag byte, 0 for a directory and 1 for a file, then the node.
    open spec fn encode(v: NodeView) -> Seq<u8> {
        match v {
            NodeView::Directory(d) => seq![0u8] + DirectoryData::encode(d),
            NodeView::File(f) => seq![1u8] + FileData::encode(f),
        }
    }

    /// Fails with `BadDeser` on an unknown tag.
    open spec fn decode(bytes: Seq<u8>) -> Decoded<NodeView> {
        if bytes.len() < 1 {
            Decoded::Aborts
        } else if bytes[0] == 0 {
            match DirectoryData::decode(bytes.skip(1)) {
                Decoded::Value(d, n) => Decoded::Value(NodeView::Directory(d), n + 1),
                Decoded::Fails(k) => Decoded::Fails(k),
                Decoded::Aborts => Decoded::Aborts,
            }
        } else if bytes[0] == 1 {
            match FileData::decode(bytes.skip(1)) {
                Decoded::Value(f, n) => Decoded::Value(NodeView::File(f), n + 1),
                Decoded::Fails(k) => Decoded::Fails(k),
                Decoded::Aborts => Decoded::Aborts,
            }
        } else {
            Decoded::Fails(ErrorKind::BadDeser)
        }
    }

    open spec fn restored(v: NodeView) -> NodeView {
        match v {
            NodeView::Directory(d) => NodeView::Directory(DirectoryData::restored(d)),
            NodeView::File(f) => NodeView::File(FileData::restored(f)),
        }
    }

    fn serialize(&self) -> (res: Vec<u8>) {
        let mut res: Vec<u8> = Vec::new();
        match self {
            Node::Directory(dir) => {
                res.push(0);
                let d = dir.serialize();
                push_bytes(&mut res, d.as_slice());
            },
            Node::File(file) => {
                res.push(1);
                let f = file.serialize();
                push_bytes(&mut res, f.as_slice());
            },
        }
        res
    }

    /// An unknown tag is reported as "Unrecognized node type".
    fn deserialize(buffer: &mut &[u8]) -> (res: Result<Self, Error>)
        ensures
            Self::decode(old(buffer)@) is Fails ==> res->Err_0.text() == "Unrecognized node type"@,
    {
        let ghost start = buffer@;
        let node_type = deser_u8(buffer)?;
        assert(node_type == start[0]);
        match node_type {
            0 => {
                let ghost inner = buffer@;
                assert(inner == start.skip(1));
                let dir = DirectoryData::deserialize(buffer)?;
                proof {
                    let n = DirectoryData::decode(inner)->Value_1;
                    assert(buffer@ =~= start.skip((n + 1) as int));
                }
                Ok(Node::Directory(dir))
            },
            1 => {
                let ghost inner = buffer@;
                assert(inner == start.skip(1));
                let file = FileData::deserialize(buffer)?;
                proof {
                    let n = FileData::decode(inner)->Value_1;
                    assert(buffer@ =~= start.skip((n + 1) as int));
                }
                Ok(Node::File(file))
            },
            _ => Err(Error::BadDeser("Unrecognized node type".to_owned())),
        }
    }

    proof fn lemma_roundtrip(v: NodeView, rest: Seq<u8>) {
        match v {
            NodeView::Directory(d) => lemma_directory_node_roundtrip(d, rest),
            NodeView::File(f) => lemma_file_node_roundtrip(f, rest),
        }
    }
}

#[verifier::rlimit(40)]
proof fn lemma_directory_node_roundtrip(d: DirectoryView, rest: Seq<u8>)
    requires
        DirectoryData::serializable(d),
    ensures
        Node::decode(Node::encode(NodeView::Directory(d)) + rest) == Decoded::Value(
            Node::restored(NodeView::Directory(d)),
            Node::encode(NodeView::Directory(d)).len(),
        ),
{
    let e = DirectoryData::encode(d);
    let b = (seq![0u8] + e) + rest;
    DirectoryData::lemma_roundtrip(d, rest);
    assert(b.skip(1) =~= e + rest);
    assert(Node::encode(NodeView::Directory(d)) == seq![0u8] + e);
    assert(b[0] == 0u8);
}

#[verifier::rlimit(40)]
proof fn lemma_file_node_roundtrip(f: FileView, rest: Seq<u8>)
    requires
        FileData::serializable(f),
    ensures
        Node::decode(Node::encode(NodeView::File(f)) + rest) == Decoded::Value(
            Node::restored(NodeView::File(f)),
            Node::encode(NodeView::File(f)).len(),
        ),
{
    let e = FileData::encode(f);
    let b = (seq![1u8] + e) + rest;
    FileData::lemma_roundtrip(f, rest);
    assert(b.skip(1) =~= e + rest);
    assert(Node::encode(NodeView::File(f)) == seq![1u8] + e);
    assert(b[0] == 1u8);
}

pub open spec fn node_encoder() -> spec_fn(NodeView) -> Seq<u8> {
    |v: NodeView| Node::encode(v)
}

pub open spec fn node_decoder() -> spec_fn(Seq<u8>) -> Decoded<NodeView> {
    |b: Seq<u8>| Node::decode(b)
}

pub open spec fn node_restorer() -> spec_fn(NodeView) -> NodeView {
    |v: NodeView| Node::restored(v)
}

pub open spec fn node_serializable() -> spec_fn(NodeView) -> bool {
    |v: NodeView| Node::serializable(v)
}

pub open spec fn node_views(list: Seq<Node>) -> Seq<NodeView> {
    list.map_values(|n: Node| n@)
}

/// A list of nodes: their number, then each node.
#[verifier::opaque]
pub open spec fn encode_node_list(list: Seq<NodeView>) -> Seq<u8> {
    be_bytes_u32(list.len() as u32) + encode_many(list, node_encoder())
}

#[verifier::opaque]
pub open spec fn decode_node_list(bytes: Seq<u8>) -> Decoded<Seq<NodeView>> {
    if bytes.len() < 4 {
        Decoded::Aborts
    } else {
        match decode_many(bytes.skip(4), u32_of_be(bytes) as nat, node_decoder()) {
            Decoded::Value(list, n) => Decoded::Value(list, n + 4),
            Decoded::Fails(k) => Decoded::Fails(k),
            Decoded::Aborts => Decoded::Aborts,
        }
    }
}

fn serialize_node_list(list: &Vec<Node>) -> (res: Vec<u8>)
    requires
        list@.len() <= u32::MAX,
        forall|i: int| 0 <= i < list@.len() ==> Node::serializable(#[trigger] list@[i]@),
    ensures
        res@ == encode_node_list(node_views(list@)),
{
    reveal(encode_node_list);
    let ghost views = node_views(list@);
    let mut res: Vec<u8> = Vec::new();
    push_u32(&mut res, list.len() as u32);
    let mut i: usize = 0;
    while i < list.len()
        invariant
            views == node_views(list@),
            i <= list@.len(),
            list@.len() <= u32::MAX,
            forall|j: int| 0 <= j < list@.len() ==> Node::serializable(#[trigger] list@[j]@),
            res@ == be_bytes_u32(list@.len() as u32) + encode_many(
                views.subrange(0, i as int),
                node_encoder(),
            ),
        decreases list@.len() - i,
    {
        let n = list[i].serialize();
        push_bytes(&mut res, n.as_slice());
        i = i + 1;
        proof {
            let sub = views.subrange(0, i as int);
            assert(sub.drop_last() =~= views.subrange(0, i - 1));
            assert(sub.last() == list@[i - 1]@);
            assert(res@ =~= be_bytes_u32(list@.len() as u32) + encode_many(sub, node_encoder()));
        }
    }
    assert(views.subrange(0, i as int) =~= views);
    res
}

fn deserialize_node_list(buffer: &mut &[u8]) -> (res: Result<Vec<Node>, Error>)
    requires
        !(decode_node_list(old(buffer)@) is Aborts),
    ensures
        match decode_node_list(old(buffer)@) {
            Decoded::Value(list, n) => res is Ok && node_views(res->Ok_0@) == list && n <= old(
                buffer,
            )@.len() && final(buffer)@ == old(buffer)@.skip(n as int),
            Decoded::Fails(k) => res is Err && res->Err_0.kind() == k,
            Decoded::Aborts => false,
        },
{
    reveal(decode_node_list);
    let ghost start = buffer@;
    let capacity = deser_u32(buffer)?;
    let ghost body = buffer@;
    let ghost count = capacity as nat;
    let mut res: Vec<Node> = Vec::new();
    let ghost mut consumed: nat = 0;
    let mut i: u32 = 0;
    assert(node_views(res@) =~= Seq::<NodeView>::empty());
    while i < capacity
        invariant
            start == old(buffer)@,
            start.len() >= 4,
            capacity == u32_of_be(start),
            count == capacity,
            body == start.skip(4),
            !(decode_node_list(start) is Aborts),
            i <= capacity,
            res@.len() == i,
            decode_many(body, i as nat, node_decoder()) == Decoded::Value(node_views(res@), consumed),
            buffer@ == body.skip(consumed as int),
            consumed <= body.len(),
        decreases capacity - i,
    {
        let ghost here = buffer@;
        proof {
            reveal(decode_node_list);
            assert(node_decoder()(here) == Node::decode(here));
            if Node::decode(here) is Aborts || Node::decode(here) is Fails {
                lemma_many_stops(body, (i + 1) as nat, count, node_decoder());
            }
        }
        let node = match Node::deserialize(buffer) {
            Ok(node) => node,
            Err(e) => {
                proof {
                    reveal(decode_node_list);
                }
                return Err(e);
            },
        };
        let ghost before = node_views(res@);
        res.push(node);
        i = i + 1;
        proof {
            let m = Node::decode(here)->Value_1;
            assert(node_views(res@) =~= before.push(node@));
            consumed = consumed + m;
            assert(buffer@ =~= body.skip(consumed as int));
        }
    }
    proof {
        reveal(decode_node_list);
        assert(buffer@ =~= start.skip((consumed + 4) as int));
    }
    Ok(res)
}

pub struct Header {
    pub node_buffer: Vec<Node>,
    pub str_buffer: StringBuffer,
}

pub struct HeaderView {
    pub nodes: Seq<NodeView>,
    pub strings: StringBufferView,
}

impl View for Header {
    type V = HeaderView;

    open spec fn view(&self) -> HeaderView {
        HeaderView { nodes: node_views(self.node_buffer@), strings: self.str_buffer@ }
    }
}

/// The child that node `cur` has under the name `name`, if the name is known
/// and `cur` is a directory with a child under it.
pub open spec fn step(h: HeaderView, cur: u32, name: Seq<char>) -> Result<u32, ErrorKind> {
    if !h.strings.names.contains_key(name) {
        Err(ErrorKind::InvalidDirective)
    } else {
        let id = h.strings.names[name];
        match h.nodes[cur as int] {
            NodeView::Directory(d) => if d.name_child_map.contains_key(id) {
                Ok(d.name_child_map[id])
            } else {
                Err(ErrorKind::InvalidPath)
            },
            NodeView::File(_) => Err(ErrorKind::InvalidPath),
        }
    }
}

/// The node reached from the root by following the names `steps` in order.
pub open spec fn walk(h: HeaderView, steps: Seq<Seq<char>>) -> Result<u32, ErrorKind>
    decreases steps.len(),
{
    if steps.len() == 0 {
        Ok(0)
    } else {
        match walk(h, steps.drop_last()) {
            Ok(cur) => step(h, cur, steps.last()),
            Err(k) => Err(k),
        }
    }
}

/// The text of the error that a failed walk gives: the unknown name, or a
/// missing child, at the first step that fails.
pub open spec fn walk_error_text(h: HeaderView, steps: Seq<Seq<char>>) -> Seq<char>
    decreases steps.len(),
{
    if steps.len() == 0 {
        Seq::empty()
    } else {
        match walk(h, steps.drop_last()) {
            Err(_) => walk_error_text(h, steps.drop_last()),
            Ok(_) => if h.strings.names.contains_key(steps.last()) {
                "Provided an invalid path."@
            } else {
                "Bad string: "@ + steps.last() + " "@
            },
        }
    }
}

/// The text of the error that navigating to `path` gives.
pub open spec fn path_error_text(h: HeaderView, path: Seq<char>) -> Seq<char> {
    walk_error_text(h, split_on_slash(path).skip(1))
}

/// The node at `path`: its first piece names the root and is not looked at,
/// each later piece names a child of the node before.
pub open spec fn path_target(h: HeaderView, path: Seq<char>) -> Result<u32, ErrorKind> {
    walk(h, split_on_slash(path).skip(1))
}

impl HeaderView {
    /// Every child link of a directory points at a node of the list.
    pub open spec fn links_in_range(self) -> bool {
        forall|i: int, k: u32|
            #![trigger self.nodes[i], self.nodes[i]->Directory_0.name_child_map[k]]
            0 <= i < self.nodes.len() && self.nodes[i] is Directory
                && self.nodes[i]->Directory_0.name_child_map.contains_key(k)
                ==> self.nodes[i]->Directory_0.name_child_map[k] < self.nodes.len()
    }

    /// Every child link of a directory points at a later node, so that the
    /// nodes form a tree below the root.
    pub open spec fn links_forward(self) -> bool {
        forall|i: int, k: u32|
            #![trigger self.nodes[i], self.nodes[i]->Directory_0.name_child_map[k]]
            0 <= i < self.nodes.len() && self.nodes[i] is Directory
                && self.nodes[i]->Directory_0.name_child_map.contains_key(k)
                ==> i < self.nodes[i]->Directory_0.name_child_map[k] < self.nodes.len()
    }

    /// A tree with a root, whose node ids fit in 32 bits, over a well-formed
    /// table of names.
    pub open spec fn wf(self) -> bool {
        &&& 0 < self.nodes.len() <= u32::MAX
        &&& self.links_forward()
        &&& self.strings.wf()
    }
}

/// A walk fails only on an unknown name or a missing child.
pub proof fn lemma_walk_errors(h: HeaderView, steps: Seq<Seq<char>>)
    ensures
        walk(h, steps) is Err ==> walk(h, steps)->Err_0 == ErrorKind::InvalidDirective
            || walk(h, steps)->Err_0 == ErrorKind::InvalidPath,
    decreases steps.len(),
{
    if steps.len() > 0 {
        lemma_walk_errors(h, steps.drop_last());
    }
}

/// Walking from the root reaches only nodes of the list.
pub proof fn lemma_walk_in_range(h: HeaderView, steps: Seq<Seq<char>>)
    requires
        h.links_in_range(),
        h.nodes.len() > 0,
    ensures
        walk(h, steps) is Ok ==> walk(h, steps)->Ok_0 < h.nodes.len(),
    decreases steps.len(),
{
    if steps.len() > 0 {
        lemma_walk_in_range(h, steps.drop_last());
        if let Ok(cur) = walk(h, steps.drop_last()) {
            if let Ok(nxt) = step(h, cur, steps.last()) {
                let id = h.strings.names[steps.last()];
                assert(h.nodes[cur as int]->Directory_0.name_child_map[id] < h.nodes.len());
            }
        }
    }
}

/// A node that holds no links.
pub open spec fn no_links(n: NodeView) -> bool {
    match n {
        NodeView::Directory(d) => d.name_child_map == Map::<u32, u32>::empty(),
        NodeView::File(_) => true,
    }
}

pub open spec fn has_no_links() -> spec_fn(NodeView) -> bool {
    |n: NodeView| no_links(n)
}

/// A tree read from bytes is well formed when it has a root: its nodes hold
/// no links, since the names of children are not stored, and its table of
/// names is read with distinct names.
pub proof fn lemma_decoded_header_wf(bytes: Seq<u8>)
    requires
        Header::decode(bytes) is Value,
        Header::decode(bytes)->Value_0.nodes.len() > 0,
    ensures
        Header::decode(bytes)->Value_0.wf(),
{
    reveal(decode_node_list);
    let h = Header::decode(bytes)->Value_0;
    assert forall|b: Seq<u8>| #[trigger] node_decoder()(b) is Value implies has_no_links()(
        node_decoder()(b)->Value_0,
    ) by {
        assert(node_decoder()(b) == Node::decode(b));
    }
    lemma_many_items(bytes.skip(4), u32_of_be(bytes) as nat, node_decoder(), has_no_links());
    assert forall|i: int| 0 <= i < h.nodes.len() implies #[trigger] no_links(h.nodes[i]) by {
        assert(has_no_links()(h.nodes[i]));
    }
    assert forall|i: int, k: u32|
        0 <= i < h.nodes.len() && h.nodes[i] is Directory
            && h.nodes[i]->Directory_0.name_child_map.contains_key(k) implies i
        < h.nodes[i]->Directory_0.name_child_map[k] < h.nodes.len() by {
        assert(no_links(h.nodes[i]));
    }
    let n = decode_node_list(bytes)->Value_1;
    let sb = bytes.skip(n as int);
    let pre = crate::string_buffer::preamble_bytes();
    let body = sb.skip(pre.len() as int);
    crate::serde::lemma_many_items(
        body.skip(4),
        u32_of_be(body) as nat,
        crate::string_buffer::name_decoder(),
        |s: Seq<char>| true,
    );
    let list = decode_many(body.skip(4), u32_of_be(body) as nat, crate::string_buffer::name_decoder())->Value_0;
    crate::string_buffer::lemma_ids_in_order(list);
}

/// Every node that a walk looks into is in the list: before each step whose
/// name is known, the node reached so far.
pub open spec fn walk_safe(h: HeaderView, steps: Seq<Seq<char>>) -> bool {
    forall|i: int|
        #![trigger walk(h, steps.take(i))]
        0 <= i < steps.len() && walk(h, steps.take(i)) is Ok && h.strings.names.contains_key(steps[i])
            ==> walk(h, steps.take(i))->Ok_0 < h.nodes.len()
}

/// Navigating to `path` looks only into nodes of the list.
pub open spec fn path_safe(h: HeaderView, path: Seq<char>) -> bool {
    walk_safe(h, split_on_slash(path).skip(1))
}

/// Navigating to `path` looks only into nodes of the list, and the node it
/// reaches, if any, is in the list.
pub open spec fn path_in_range(h: HeaderView, path: Seq<char>) -> bool {
    &&& path_safe(h, path)
    &&& path_target(h, path) is Ok ==> path_target(h, path)->Ok_0 < h.nodes.len()
}

/// In a tree whose links all point into the list, every path stays in it.
pub proof fn lemma_links_keep_paths_in_range(h: HeaderView, path: Seq<char>)
    requires
        h.links_in_range(),
        h.nodes.len() > 0,
    ensures
        path_in_range(h, path),
{
    let steps = split_on_slash(path).skip(1);
    assert forall|i: int|
        #![trigger walk(h, steps.take(i))]
        0 <= i < steps.len() && walk(h, steps.take(i)) is Ok implies walk(h, steps.take(i))->Ok_0
        < h.nodes.len() by {
        lemma_walk_in_range(h, steps.take(i));
    }
    lemma_walk_in_range(h, steps);
}

impl Header {
    /// A tree that holds only the root directory, named "@".
    pub fn new() -> (res: Self)
        ensures
            res@.nodes.len() == 1,
            res@.nodes[0] is Directory,
            res@.nodes[0]->Directory_0.children == Seq::<u32>::empty(),
            res@.nodes[0]->Directory_0.name_child_map == Map::<u32, u32>::empty(),
            res@.nodes[0]->Directory_0.inode.name_id == 0,
            res@.nodes[0]->Directory_0.inode.permissions == 0,
            res@.nodes[0]->Directory_0.inode.size == 0,
            res@.nodes[0]->Directory_0.inode.created_at.in_calendar_range(),
            res@.nodes[0]->Directory_0.inode.last_modified.in_calendar_range(),
            res@.strings.strings == seq!["@"@],
            res@.strings.names == Map::<Seq<char>, u32>::empty().insert("@"@, 0),
            res@.wf(),
    {
        let mut node_buffer: Vec<Node> = Vec::new();
        node_buffer.push(Node::Directory(DirectoryData::new()));
        let mut str_buf = StringBuffer::new();
        str_buf.add("@");
        let res = Self { node_buffer: node_buffer, str_buffer: str_buf };
        assert(res@.nodes =~= seq![node_buffer@[0]@]);
        assert(res@.strings.strings =~= seq!["@"@]);
        res
    }

    pub fn from(node_buffer: Vec<Node>, str_buffer: StringBuffer) -> (res: Self)
        ensures
            res@ == (HeaderView { nodes: node_views(node_buffer@), strings: str_buffer@ }),
    {
        Self { node_buffer: node_buffer, str_buffer: str_buffer }
    }

    /// Adds `n` as a child of the directory at `path`, under the name id
    /// `name_id`, and gives `None`. The node is added to the list before the
    /// parent is looked at: where `path` leads to a file, the node stays in
    /// the list, unlinked, and an `InvalidPath` error is given.
    pub fn add_node(&mut self, path: &str, name_id: u32, n: Node) -> (res: Option<Error>)
        requires
            path_in_range(old(self)@, path@),
        ensures
            match path_target(old(self)@, path@) {
                Err(k) => res is Some && res->0.kind() == k && res->0.text() == path_error_text(
                    old(self)@,
                    path@,
                ) && final(self)@ == old(self)@,
                Ok(p) => match old(self)@.nodes[p as int] {
                    NodeView::Directory(_) => res is None && final(self)@ == with_child(
                        old(self)@,
                        p,
                        name_id,
                        n@,
                    ),
                    NodeView::File(_) => res is Some && res->0.kind() == ErrorKind::InvalidPath
                        && res->0.text() == "Cannot add to a file a file."@ && final(self)@ == (
                    HeaderView { nodes: old(self)@.nodes.push(n@), strings: old(self)@.strings }),
                },
            },
    {
        let parent_id = match self.navigate(path) {
            Ok(id) => id,
            Err(err) => {
                return Some(err);
            },
        };
        proof {
            assert(path_target(self@, path@) == Ok::<u32, ErrorKind>(parent_id));
            assert(parent_id < self@.nodes.len());
        }
        let ghost pre = self@;
        let node_id = self.push_node(n);
        assert(self.node_buffer@.len() == self@.nodes.len());
        let ghost pushed = self@;
        let parent = self.node_buffer.remove(parent_id as usize);
        assert(parent@ == pushed.nodes[parent_id as int]);
        let (parent, res) = match parent {
            Node::Directory(mut dir) => {
                dir.add_child(name_id, node_id);
                (Node::Directory(dir), None)
            },
            Node::File(f) => (
                Node::File(f),
                Some(Error::InvalidPath("Cannot add to a file a file.".to_owned())),
            ),
        };
        self.node_buffer.insert(parent_id as usize, parent);
        proof {
            assert(self.node_buffer@.len() == pushed.nodes.len());
            match pre.nodes[parent_id as int] {
                NodeView::Directory(_) => {
                    assert(self@.nodes =~= with_child(pre, parent_id, name_id, n@).nodes);
                },
                NodeView::File(_) => {
                    assert(self@.nodes =~= pre.nodes.push(n@));
                },
            }
        }
        res
    }

    /// Whether navigating to `path` looks only into nodes of the list and
    /// reaches, if anything, a node of the list: what `navigate`, `add_node`,
    /// and the operations that look at the node reached, ask of a path.
    pub fn path_stays_in_list(&self, path: &str) -> (res: bool)
        ensures
            res == path_in_range(self@, path@),
    {
        broadcast use vstd::std_specs::hash::group_hash_axioms;

        let steps = split_path(path);
        let ghost pieces = split_on_slash(path@);
        let ghost st = pieces.skip(1);
        let ghost h = self@;
        proof {
            lemma_split_nonempty(path@);
        }
        let mut current_node: u32 = 0;
        let mut i: usize = 1;
        assert(pieces.subrange(1, 1) =~= Seq::<Seq<char>>::empty());
        while i < steps.len()
            invariant
                texts(steps@) == pieces,
                pieces == split_on_slash(path@),
                st == pieces.skip(1),
                h == self@,
                1 <= i <= steps@.len(),
                walk(h, pieces.subrange(1, i as int)) == Ok::<u32, ErrorKind>(current_node),
                forall|j: int|
                    #![trigger walk(h, st.take(j))]
                    0 <= j < i - 1 && walk(h, st.take(j)) is Ok && h.strings.names.contains_key(st[j])
                        ==> walk(h, st.take(j))->Ok_0 < h.nodes.len(),
            decreases steps@.len() - i,
        {
            let ghost done = pieces.subrange(1, i as int);
            let ghost next = pieces.subrange(1, i + 1);
            proof {
                assert(next.drop_last() =~= done);
                assert(next.last() == steps@[i as int]@);
                assert(st.take(i - 1) =~= done);
                assert(st[i - 1] == pieces[i as int]);
                assert(st.take(i as int) =~= next);
            }
            let known = self.str_buffer.get(&steps[i]);
            let str_id = match known {
                Ok(id) => id,
                Err(_) => {
                    proof {
                        assert(walk(h, st.take(i as int)) is Err);
                        assert forall|j: int|
                            #![trigger walk(h, st.take(j))]
                            0 <= j < st.len() && walk(h, st.take(j)) is Ok && h.strings.names.contains_key(st[j])
                            implies walk(h, st.take(j))->Ok_0 < h.nodes.len() by {
                            if j >= i {
                                lemma_walk_stops(h, st, i as nat, j as nat);
                            }
                        }
                        lemma_walk_stops(h, st, i as nat, st.len());
                        assert(st.take(st.len() as int) =~= st);
                    }
                    return true;
                },
            };
            if current_node as usize >= self.node_buffer.len() {
                proof {
                    assert(walk(h, st.take(i - 1)) == Ok::<u32, ErrorKind>(current_node));
                }
                return false;
            }
            let node_ref = &self.node_buffer[current_node as usize];
            if node_ref.has_child_by_id(str_id) == false {
                proof {
                    assert(walk(h, st.take(i as int)) is Err);
                    assert forall|j: int|
                        #![trigger walk(h, st.take(j))]
                        0 <= j < st.len() && walk(h, st.take(j)) is Ok && h.strings.names.contains_key(st[j])
                        implies walk(h, st.take(j))->Ok_0 < h.nodes.len() by {
                        if j >= i {
                            lemma_walk_stops(h, st, i as nat, j as nat);
                        }
                    }
                    lemma_walk_stops(h, st, i as nat, st.len());
                    assert(st.take(st.len() as int) =~= st);
                }
                return true;
            }
            match node_ref {
                Node::Directory(dir) => {
                    current_node = *dir.name_child_map.get(&str_id).unwrap();
                },
                _ => {
                    return true;
                },
            }
            i = i + 1;
        }
        assert(pieces.subrange(1, i as int) =~= st);
        let reached: usize = current_node as usize;
        reached < self.node_buffer.len()
    }

    /// Appends a node to the list and gives its id.
    fn push_node(&mut self, n: Node) -> (res: u32)
        ensures
            res == old(self)@.nodes.len() as u32,
            final(self)@ == (HeaderView { nodes: old(self)@.nodes.push(n@), strings: old(self)@.strings }),
    {
        let id = self.node_buffer.len();
        self.node_buffer.push(n);
        assert(self@.nodes =~= old(self)@.nodes.push(n@));
        #[verifier::truncate]
        let r = id as u32;
        r
    }

    /// The id of the node at `path`. The first piece of `path` stands for
    /// the root; each later piece must be a known name of a child of the
    /// directory before it.
    pub fn navigate(&self, path: &str) -> (res: Result<u32, Error>)
        requires
            path_safe(self@, path@),
        ensures
            match path_target(self@, path@) {
                Ok(id) => res == Ok::<u32, Error>(id),
                Err(k) => res is Err && res->Err_0.kind() == k,
            },
            res is Err ==> res->Err_0.text() == path_error_text(self@, path@),
    {
        broadcast use vstd::std_specs::hash::group_hash_axioms;

        let steps = split_path(path);
        let ghost pieces = split_on_slash(path@);
        proof {
            lemma_split_nonempty(path@);
        }
        if steps.len() == 0 {
            return Err(Error::EmptyPath("Provided an empty path".to_owned()));
        }
        let mut current_node: u32 = 0;
        let mut i: usize = 1;
        assert(pieces.subrange(1, 1) =~= Seq::<Seq<char>>::empty());
        while i < steps.len()
            invariant
                texts(steps@) == pieces,
                pieces == split_on_slash(path@),
                1 <= i <= steps@.len(),
                path_safe(self@, path@),
                walk(self@, pieces.subrange(1, i as int)) == Ok::<u32, ErrorKind>(current_node),
            decreases steps@.len() - i,
        {
            let ghost done = pieces.subrange(1, i as int);
            let ghost next = pieces.subrange(1, i + 1);
            proof {
                assert(next.drop_last() =~= done);
                assert(next.last() == steps@[i as int]@);
                assert(pieces.skip(1).take(i - 1) =~= done);
                assert(pieces.skip(1)[i - 1] == pieces[i as int]);
            }
            let str_id = match self.str_buffer.get(&steps[i]) {
                Ok(id) => id,
                Err(e) => {
                    proof {
                        assert(pieces.skip(1).subrange(0, i as int) =~= next);
                        assert(walk(self@, next) is Err);
                        lemma_walk_stops(self@, pieces.skip(1), i as nat, (pieces.len() - 1) as nat);
                        assert(pieces.skip(1).subrange(0, pieces.len() - 1) =~= pieces.skip(1));
                    }
                    return Err(e);
                },
            };
            proof {
                assert(walk(self@, pieces.skip(1).take(i - 1)) == Ok::<u32, ErrorKind>(current_node));
            }
            let node_ref = &self.node_buffer[current_node as usize];
            if node_ref.has_child_by_id(str_id) == false {
                proof {
                    assert(pieces.skip(1).subrange(0, i as int) =~= next);
                    assert(walk(self@, next) is Err);
                    lemma_walk_stops(self@, pieces.skip(1), i as nat, (pieces.len() - 1) as nat);
                    assert(pieces.skip(1).subrange(0, pieces.len() - 1) =~= pieces.skip(1));
                }
                return Err(Error::InvalidPath("Provided an invalid path.".to_owned()));
            }
            match node_ref {
                Node::Directory(dir) => {
                    current_node = *dir.name_child_map.get(&str_id).unwrap();
                },
                _ => {
                    return Err(Error::Unreachable("Unreachable code".to_owned()));
                },
            }
            i = i + 1;
        }
        assert(pieces.subrange(1, i as int) =~= pieces.skip(1));
        Ok(current_node)
    }
}

impl Serde for Header {
    open spec fn serializable(v: HeaderView) -> bool {
        &&& v.nodes.len() <= u32::MAX
        &&& forall|i: int| 0 <= i < v.nodes.len() ==> #[trigger] Node::serializable(v.nodes[i])
        &&& StringBuffer::serializable(v.strings)
    }

    /// The list of nodes, then the table of names.
    open spec fn encode(v: HeaderView) -> Seq<u8> {
        encode_node_list(v.nodes) + StringBuffer::encode(v.strings)
    }

    open spec fn decode(bytes: Seq<u8>) -> Decoded<HeaderView> {
        match decode_node_list(bytes) {
            Decoded::Value(nodes, n) => match StringBuffer::decode(bytes.skip(n as int)) {
                Decoded::Value(strings, m) => Decoded::Value(HeaderView { nodes, strings }, n + m),
                Decoded::Fails(k) => Decoded::Fails(k),
                Decoded::Aborts => Decoded::Aborts,
            },
            Decoded::Fails(k) => Decoded::Fails(k),
            Decoded::Aborts => Decoded::Aborts,
        }
    }

    /// Each node restored, and the table restored.
    open spec fn restored(v: HeaderView) -> HeaderView {
        HeaderView {
            nodes: v.nodes.map_values(node_restorer()),
            strings: StringBuffer::restored(v.strings),
        }
    }

    fn serialize(&self) -> (res: Vec<u8>) {
        proof {
            assert forall|i: int| 0 <= i < self.node_buffer@.len() implies Node::serializable(
                #[trigger] self.node_buffer@[i]@,
            ) by {
                assert(self@.nodes[i] == self.node_buffer@[i]@);
            }
        }
        let mut res = serialize_node_list(&self.node_buffer);
        let s = self.str_buffer.serialize();
        push_bytes(&mut res, s.as_slice());
        res
    }

    fn deserialize(buffer: &mut &[u8]) -> (res: Result<Self, Error>) {
        let ghost start = buffer@;
        let list = deserialize_node_list(buffer)?;
        let ghost mid = buffer@;
        let str_buf = StringBuffer::deserialize(buffer)?;
        proof {
            let n = decode_node_list(start)->Value_1;
            assert(mid == start.skip(n as int));
            if StringBuffer::decode(mid) is Value {
                let m = StringBuffer::decode(mid)->Value_1;
                assert(buffer@ =~= start.skip((n + m) as int));
            }
        }
        Ok(Header::from(list, str_buf))
    }

    proof fn lemma_roundtrip(v: HeaderView, rest: Seq<u8>) {
        let s = StringBuffer::encode(v.strings);
        let l = encode_node_list(v.nodes);
        let b = Self::encode(v) + rest;
        lemma_node_list_roundtrip(v.nodes, s + rest);
        assert(b =~= l + (s + rest));
        assert(b.skip(l.len() as int) =~= s + rest);
        StringBuffer::lemma_roundtrip(v.strings, rest);
        lemma_header_decode(b, l.len(), v.nodes.map_values(node_restorer()), s.len(), StringBuffer::restored(v.strings));
    }
}

proof fn lemma_header_decode(b: Seq<u8>, n: nat, nodes: Seq<NodeView>, m: nat, strings: StringBufferView)
    requires
        decode_node_list(b) == Decoded::Value(nodes, n),
        StringBuffer::decode(b.skip(n as int)) == Decoded::Value(strings, m),
    ensures
        Header::decode(b) == Decoded::Value(HeaderView { nodes, strings }, n + m),
{
}

#[verifier::spinoff_prover]
#[verifier::rlimit(40)]
proof fn lemma_node_list_roundtrip(nodes: Seq<NodeView>, rest: Seq<u8>)
    requires
        nodes.len() <= u32::MAX,
        forall|i: int| 0 <= i < nodes.len() ==> #[trigger] Node::serializable(nodes[i]),
    ensures
        decode_node_list(encode_node_list(nodes) + rest) == Decoded::Value(
            nodes.map_values(node_restorer()),
            encode_node_list(nodes).len(),
        ),
{
    reveal(encode_node_list);
    reveal(decode_node_list);
    let items = encode_many(nodes, node_encoder());
    let b = encode_node_list(nodes) + rest;
    assert forall|x: NodeView, r: Seq<u8>| #[trigger] node_serializable()(x) implies #[trigger] node_decoder()(
        node_encoder()(x) + r,
    ) == Decoded::Value(node_restorer()(x), node_encoder()(x).len()) by {
        Node::lemma_roundtrip(x, r);
    }
    assert forall|i: int| 0 <= i < nodes.len() implies #[trigger] node_serializable()(nodes[i]) by {
        assert(Node::serializable(nodes[i]));
    }
    lemma_many_roundtrip(nodes, rest, node_encoder(), node_decoder(), node_restorer(), node_serializable());
    lemma_u32_roundtrip(nodes.len() as u32);
    assert(b =~= be_bytes_u32(nodes.len() as u32) + (items + rest));
    lemma_prefix_decodes(be_bytes_u32(nodes.len() as u32), items + rest);
    assert(b.skip(4) =~= items + rest);
}

/// The tree after `n` is added as the child of directory `p` under `name_id`:
/// `n` gets the next id, and `p` lists it last among its children.
pub open spec fn with_child(h: HeaderView, p: u32, name_id: u32, n: NodeView) -> HeaderView {
    let d = h.nodes[p as int]->Directory_0;
    let id = h.nodes.len() as u32;
    HeaderView {
        nodes: h.nodes.push(n).update(
            p as int,
            NodeView::Directory(
                DirectoryView {
                    children: d.children.push(id),
                    name_child_map: d.name_child_map.insert(name_id, id),
                    ..d
                },
            ),
        ),
        strings: h.strings,
    }
}

/// After a node is added under a directory, the new node is the one at the
/// old end of the list, the directory lists that id last among its children
/// (after the ones it listed before), and its name now leads to that id.
pub proof fn lemma_add_node_lists_child(h: HeaderView, p: u32, name_id: u32, n: NodeView)
    requires
        0 <= p < h.nodes.len(),
        h.nodes.len() < u32::MAX,
        h.nodes[p as int] is Directory,
    ensures
        ({
            let h2 = with_child(h, p, name_id, n);
            let id = h.nodes.len();
            let d = h.nodes[p as int]->Directory_0;
            let d2 = h2.nodes[p as int]->Directory_0;
            &&& h2.nodes.len() == id + 1
            &&& h2.nodes[id as int] == n
            &&& h2.nodes[p as int] is Directory
            &&& d2.children.len() == d.children.len() + 1
            &&& d2.children.last() == id
            &&& d2.children.subrange(0, d.children.len() as int) == d.children
            &&& d2.name_child_map.contains_key(name_id)
            &&& d2.name_child_map[name_id] == id
            &&& d2.children.last() == d2.name_child_map[name_id]
            &&& d2.inode == d.inode
            &&& forall|i: int| 0 <= i < h.nodes.len() && i != p ==> h2.nodes[i] == h.nodes[i]
        }),
{
    let h2 = with_child(h, p, name_id, n);
    let d = h.nodes[p as int]->Directory_0;
    assert(h2.nodes[p as int]->Directory_0.children.subrange(0, d.children.len() as int) =~= d.children);
}

/// Links that point forward point into the list.
pub proof fn lemma_forward_in_range(h: HeaderView)
    requires
        h.links_forward(),
    ensures
        h.links_in_range(),
{
    assert forall|i: int, k: u32|
        0 <= i < h.nodes.len() && h.nodes[i] is Directory
            && h.nodes[i]->Directory_0.name_child_map.contains_key(k) implies h.nodes[i]->Directory_0.name_child_map[k]
        < h.nodes.len() by {
    }
}

/// A walk gives the same node in a tree that differs from `h` only at
/// nodes with ids at or above the node it reaches.
pub proof fn lemma_walk_agrees(h: HeaderView, h2: HeaderView, steps: Seq<Seq<char>>, x: u32)
    requires
        h.links_forward(),
        h.nodes.len() > 0,
        h2.strings == h.strings,
        h2.nodes.len() >= h.nodes.len(),
        walk(h, steps) == Ok::<u32, ErrorKind>(x),
        x < h.nodes.len(),
        forall|c: int| 0 <= c < x ==> h2.nodes[c] == h.nodes[c],
    ensures
        walk(h2, steps) == Ok::<u32, ErrorKind>(x),
    decreases steps.len(),
{
    if steps.len() > 0 {
        let init = steps.drop_last();
        lemma_forward_in_range(h);
        lemma_walk_in_range(h, init);
        let c = walk(h, init)->Ok_0;
        let id = h.strings.names[steps.last()];
        assert(h.nodes[c as int]->Directory_0.name_child_map.contains_key(id));
        assert(h.nodes[c as int]->Directory_0.name_child_map[id] == x);
        assert(c < x);
        lemma_walk_agrees(h, h2, init, c);
    }
}

/// A walk that succeeds in `h` gives the same node in `h2`, where `h2` is
/// `h` with one more name `name_id` in directory `p`, which `p` did not use.
pub proof fn lemma_walk_kept(h: HeaderView, h2: HeaderView, steps: Seq<Seq<char>>, p: u32, name_id: u32)
    requires
        h.links_in_range(),
        h.nodes.len() > 0,
        h2.strings == h.strings,
        h2.nodes.len() >= h.nodes.len(),
        0 <= p < h.nodes.len(),
        h.nodes[p as int] is Directory,
        !h.nodes[p as int]->Directory_0.name_child_map.contains_key(name_id),
        h2.nodes[p as int] is Directory,
        forall|k: u32| #[trigger] h.nodes[p as int]->Directory_0.name_child_map.contains_key(k)
            ==> h2.nodes[p as int]->Directory_0.name_child_map.contains_key(k)
            && h2.nodes[p as int]->Directory_0.name_child_map[k]
            == h.nodes[p as int]->Directory_0.name_child_map[k],
        forall|c: int| 0 <= c < h.nodes.len() && c != p ==> h2.nodes[c] == h.nodes[c],
        walk(h, steps) is Ok,
    ensures
        walk(h2, steps) == walk(h, steps),
    decreases steps.len(),
{
    if steps.len() > 0 {
        let init = steps.drop_last();
        lemma_walk_kept(h, h2, init, p, name_id);
        lemma_walk_in_range(h, init);
        let c = walk(h, init)->Ok_0;
        if c == p {
            let id = h.strings.names[steps.last()];
            assert(h.nodes[p as int]->Directory_0.name_child_map.contains_key(id));
        }
    }
}

/// After `add_node` adds a node under a name, the path of the parent joined
/// by '/' to that name leads to the new node, and the parent's own path
/// still leads to the parent.
pub proof fn lemma_add_then_navigate(h: HeaderView, path: Seq<char>, name: Seq<char>, name_id: u32, n: NodeView)
    requires
        h.wf(),
        h.nodes.len() < u32::MAX,
        !name.contains('/'),
        h.strings.names.contains_key(name),
        h.strings.names[name] == name_id,
        path_target(h, path) is Ok,
        h.nodes[path_target(h, path)->Ok_0 as int] is Directory,
    ensures
        path_target(with_child(h, path_target(h, path)->Ok_0, name_id, n), path + seq!['/'] + name)
            == Ok::<u32, ErrorKind>(h.nodes.len() as u32),
        path_target(with_child(h, path_target(h, path)->Ok_0, name_id, n), path) == path_target(h, path),
{
    let p = path_target(h, path)->Ok_0;
    let h2 = with_child(h, p, name_id, n);
    let steps = split_on_slash(path).skip(1);
    lemma_split_nonempty(path);
    lemma_split_join(path, name);
    lemma_forward_in_range(h);
    lemma_walk_in_range(h, steps);
    assert forall|c: int| 0 <= c < p implies h2.nodes[c] == h.nodes[c] by {}
    lemma_walk_agrees(h, h2, steps, p);
    let steps2 = split_on_slash(path + seq!['/'] + name).skip(1);
    assert(steps2 =~= steps.push(name));
    assert(steps2.drop_last() =~= steps);
}

/// Adding a node under a name that its parent does not use yet leaves every
/// path that led somewhere leading to the same node.
pub proof fn lemma_add_keeps_paths(h: HeaderView, p: u32, name_id: u32, n: NodeView, q: Seq<char>)
    requires
        h.wf(),
        0 <= p < h.nodes.len(),
        h.nodes[p as int] is Directory,
        !h.nodes[p as int]->Directory_0.name_child_map.contains_key(name_id),
        path_target(h, q) is Ok,
    ensures
        path_target(with_child(h, p, name_id, n), q) == path_target(h, q),
{
    let h2 = with_child(h, p, name_id, n);
    lemma_forward_in_range(h);
    lemma_walk_kept(h, h2, split_on_slash(q).skip(1), p, name_id);
}

/// Adding a node that has no children of its own keeps the tree well formed,
/// whether it is linked under a directory or only appended.
pub proof fn lemma_add_keeps_wf(h: HeaderView, p: u32, name_id: u32, n: NodeView)
    requires
        h.wf(),
        h.nodes.len() < u32::MAX,
        0 <= p < h.nodes.len(),
        n is Directory ==> n->Directory_0.name_child_map == Map::<u32, u32>::empty(),
    ensures
        h.nodes[p as int] is Directory ==> with_child(h, p, name_id, n).wf(),
        (HeaderView { nodes: h.nodes.push(n), strings: h.strings }).wf(),
{
    let h3 = HeaderView { nodes: h.nodes.push(n), strings: h.strings };
    assert forall|i: int, k: u32|
        0 <= i < h3.nodes.len() && h3.nodes[i] is Directory
            && h3.nodes[i]->Directory_0.name_child_map.contains_key(k) implies i
        < h3.nodes[i]->Directory_0.name_child_map[k] < h3.nodes.len() by {
        if i < h.nodes.len() {
            assert(h.nodes[i] == h3.nodes[i]);
        }
    }
    if h.nodes[p as int] is Directory {
        let h2 = with_child(h, p, name_id, n);
        assert forall|i: int, k: u32|
            0 <= i < h2.nodes.len() && h2.nodes[i] is Directory
                && h2.nodes[i]->Directory_0.name_child_map.contains_key(k) implies i
            < h2.nodes[i]->Directory_0.name_child_map[k] < h2.nodes.len() by {
            if i < h.nodes.len() && i != p {
                assert(h.nodes[i] == h2.nodes[i]);
            }
            if i == p && k != name_id {
                assert(h.nodes[i]->Directory_0.name_child_map.contains_key(k));
            }
        }
    }
}

/// Once a walk fails, walking further fails the same way.
pub proof fn lemma_walk_stops(h: HeaderView, steps: Seq<Seq<char>>, i: nat, j: nat)
    requires
        i <= j <= steps.len(),
        walk(h, steps.subrange(0, i as int)) is Err,
    ensures
        walk(h, steps.subrange(0, j as int)) == walk(h, steps.subrange(0, i as int)),
        walk_error_text(h, steps.subrange(0, j as int)) == walk_error_text(
            h,
            steps.subrange(0, i as int),
        ),
    decreases j - i,
{
    if i < j {
        lemma_walk_stops(h, steps, i, (j - 1) as nat);
        assert(steps.subrange(0, j as int).drop_last() =~= steps.subrange(0, j - 1));
    }
}

} // verus!
