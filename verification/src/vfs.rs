//! The state of an open file system: its header and its block device. The
//! host file that holds the image is kept by the caller, who writes the
//! image that `image` gives after each change of the tree and carries out
//! the reads and writes that the plans list.
use vstd::prelude::*;
use crate::block_device::{BlockDevice, BlockDeviceView};
use crate::directory::{DirectoryData, DirectoryView};
use crate::file::{FileData, FileView};
use crate::fs_base::{Error, ErrorKind};
use crate::header::{
    Header, HeaderView, Node, NodeView, path_error_text, path_in_range, path_target, with_child,
};
use crate::inode::INode;
use crate::ops;
use crate::serde::{Decoded, decodes_to};
use crate::string_buffer::{StringBufferView, with_name};
use crate::traits::Serde;
use crate::util::date_time::DateTime;

verus! {

pub struct Vfs {
    pub header: Header,
    pub block_device: BlockDevice,
}

pub struct VfsView {
    pub header: HeaderView,
    pub device: BlockDeviceView,
}

impl View for Vfs {
    type V = VfsView;

    open spec fn view(&self) -> VfsView {
        VfsView { header: self.header@, device: self.block_device@ }
    }
}

/// The blocks of a file are distinct blocks among the first `num` of the
/// image.
pub open spec fn file_blocks_sound(f: FileView, num: u32) -> bool {
    &&& f.block_indices.no_duplicates()
    &&& forall|j: int| 0 <= j < f.block_indices.len() ==> #[trigger] f.block_indices[j] < num
}

impl VfsView {
    /// Every file's blocks are distinct blocks that the block device has
    /// allocated.
    pub open spec fn blocks_sound(self) -> bool {
        forall|i: int|
            0 <= i < self.header.nodes.len() && #[trigger] self.header.nodes[i] is File
                ==> file_blocks_sound(self.header.nodes[i]->File_0, self.device.num_blocks)
    }
}

/// New blocks numbered from the old count on, added after a file's sound
/// blocks, keep them sound under the new count.
pub proof fn lemma_grown_blocks_sound(f: FileView, num: u32, grown: nat, g: FileView)
    requires
        file_blocks_sound(f, num),
        num + grown <= u32::MAX,
        g.block_indices == f.block_indices + crate::block_device::block_run(num, grown),
    ensures
        file_blocks_sound(g, (num + grown) as u32),
{
    let a = f.block_indices;
    let b = g.block_indices;
    assert forall|i: int, j: int| 0 <= i < b.len() && 0 <= j < b.len() && i != j implies b[i] != b[j] by {
        if i < a.len() && j < a.len() {
        } else if i < a.len() {
            assert(b[i] < num);
        } else if j < a.len() {
            assert(b[j] < num);
        }
    }
}

/// The last position of '/' in `s`, if there is one.
pub open spec fn last_slash(s: Seq<char>) -> Option<int>
    decreases s.len(),
{
    if s.len() == 0 {
        None
    } else if s.last() == '/' {
        Some(s.len() - 1)
    } else {
        last_slash(s.drop_last())
    }
}

/// A path split at its last '/' into the name after it and the path before
/// it; a path with no '/' past its first character is both.
pub open spec fn split_last(s: Seq<char>) -> (Seq<char>, Seq<char>) {
    match last_slash(s) {
        Some(i) => if i == 0 {
            (s, s)
        } else {
            (s.subrange(i + 1, s.len() as int), s.subrange(0, i))
        },
        None => (s, s),
    }
}

/// The path of the tree for a path given by a user: the root's name "@",
/// then the path.
pub open spec fn engine_path(path: Seq<char>) -> Seq<char> {
    "@/"@ + path
}

/// A new node for a name: a directory when `dir`, else a file; it has no
/// children, no blocks, a size of 0, permissions 0, the given name, and
/// creation and modification times read from the clock, in calendar range.
pub open spec fn is_fresh_node(n: NodeView, name_id: u32, dir: bool) -> bool {
    match n {
        NodeView::Directory(d) => dir && d.inode.name_id == name_id && d.inode.permissions == 0
            && d.inode.size == 0 && d.children == Seq::<u32>::empty() && d.name_child_map
            == Map::<u32, u32>::empty() && d.inode.created_at.in_calendar_range()
            && d.inode.last_modified.in_calendar_range(),
        NodeView::File(f) => !dir && f.inode.name_id == name_id && f.inode.permissions == 0
            && f.inode.size == 0 && f.block_indices == Seq::<u32>::empty()
            && f.inode.created_at.in_calendar_range() && f.inode.last_modified.in_calendar_range(),
    }
}

/// The inode of a node.
pub open spec fn inode_of(n: NodeView) -> INode {
    match n {
        NodeView::Directory(d) => d.inode,
        NodeView::File(f) => f.inode,
    }
}

/// What creating the node named by `path` does to the tree `h`, given the
/// node `n` that it adds, and the id that it gives or the kind of its error:
/// the last name of the path is added to the table; then, where the path
/// before it leads to a directory, `n` becomes its child under that name;
/// where it leads to a file, `n` is only appended; where it leads nowhere,
/// the tree keeps its nodes.
pub open spec fn created(h: HeaderView, path: Seq<char>, n: NodeView) -> (HeaderView, Result<u32, ErrorKind>) {
    let (name, parent) = split_last(engine_path(path));
    let h1 = HeaderView { strings: with_name(h.strings, name), ..h };
    let name_id = h1.strings.names[name];
    match path_target(h1, parent) {
        Err(k) => (h1, Err(k)),
        Ok(p) => match h1.nodes[p as int] {
            NodeView::Directory(_) => (with_child(h1, p, name_id, n), Ok(h.nodes.len() as u32)),
            NodeView::File(_) => (
                HeaderView { nodes: h1.nodes.push(n), ..h1 },
                Err(ErrorKind::InvalidPath),
            ),
        },
    }
}

/// The file that `open_file` opens for `path`.
pub open spec fn open_target(h: HeaderView, path: Seq<char>) -> Result<u32, ErrorKind> {
    match path_target(h, engine_path(path)) {
        Ok(id) => match h.nodes[id as int] {
            NodeView::File(_) => Ok(id),
            NodeView::Directory(_) => Err(ErrorKind::BadCall),
        },
        Err(k) => Err(k),
    }
}

pub proof fn lemma_last_slash(s: Seq<char>)
    ensures
        match last_slash(s) {
            Some(i) => 0 <= i < s.len() && s[i] == '/' && forall|j: int| i < j < s.len() ==> s[j]
                != '/',
            None => forall|j: int| 0 <= j < s.len() ==> s[j] != '/',
        },
    decreases s.len(),
{
    if s.len() > 0 && s.last() != '/' {
        let t = s.drop_last();
        lemma_last_slash(t);
        assert(forall|j: int| 0 <= j < t.len() ==> t[j] == s[j]);
        assert(s[s.len() - 1] == s.last());
    }
}

/// A path's last '/' is no earlier than any of its '/'.
pub proof fn lemma_last_slash_after(s: Seq<char>, k: int)
    requires
        0 <= k < s.len(),
        s[k] == '/',
    ensures
        last_slash(s) is Some,
        last_slash(s)->Some_0 >= k,
{
    lemma_last_slash(s);
}

/// A user's path, put under the root, splits into a name without '/' and
/// the path of the node that holds it.
pub proof fn lemma_split_engine_path(path: Seq<char>)
    ensures
        ({
            let e = engine_path(path);
            let (name, parent) = split_last(e);
            &&& e == parent + seq!['/'] + name
            &&& !name.contains('/')
        }),
{
    reveal_strlit("@/");
    let e = engine_path(path);
    assert(e[1] == '/');
    lemma_last_slash_after(e, 1);
    lemma_last_slash(e);
    let i = last_slash(e)->Some_0;
    let (name, parent) = split_last(e);
    assert(e =~= parent + seq!['/'] + name);
    assert(!name.contains('/')) by {
        if name.contains('/') {
            let j = choose|j: int| 0 <= j < name.len() && name[j] == '/';
            assert(e[i + 1 + j] == '/');
        }
    }
}

/// A file that `create` makes is the one that `open_file` then opens at the
/// same path.
pub proof fn lemma_create_then_open(h: HeaderView, path: Seq<char>, n: NodeView)
    requires
        h.wf(),
        h.nodes.len() < u32::MAX,
        h.strings.next_index < u32::MAX,
        n is File,
        created(h, path, n).1 is Ok,
    ensures
        open_target(created(h, path, n).0, path) == created(h, path, n).1,
{
    let e = engine_path(path);
    let (name, parent) = split_last(e);
    lemma_split_engine_path(path);
    crate::string_buffer::lemma_with_name_wf(h.strings, name);
    let h1 = HeaderView { strings: with_name(h.strings, name), ..h };
    let name_id = h1.strings.names[name];
    let p = path_target(h1, parent)->Ok_0;
    crate::header::lemma_add_then_navigate(h1, parent, name, name_id, n);
    assert(parent + seq!['/'] + name == e);
    crate::header::lemma_forward_in_range(h1);
    crate::header::lemma_walk_in_range(h1, crate::util::string_helper::split_on_slash(parent).skip(1));
    assert(p < h.nodes.len());
    let h2 = with_child(h1, p, name_id, n);
    assert(h2.nodes[h.nodes.len() as int] == n);
}

/// The id that creating a node at `path` gives is the last child that the
/// directory before the path's last '/' then lists (what `read_dir` of that
/// directory gives), after the children it listed before; and the path's
/// last name leads from that directory to the same id.
pub proof fn lemma_create_then_list(h: HeaderView, path: Seq<char>, n: NodeView)
    requires
        h.wf(),
        h.nodes.len() < u32::MAX,
        h.strings.next_index < u32::MAX,
        created(h, path, n).1 is Ok,
    ensures
        ({
            let (name, parent) = split_last(engine_path(path));
            let h2 = created(h, path, n).0;
            let id = created(h, path, n).1->Ok_0;
            &&& id == h.nodes.len()
            &&& path_target(h2, parent) is Ok
            &&& h2.nodes[path_target(h2, parent)->Ok_0 as int] is Directory
            &&& h2.nodes[path_target(h2, parent)->Ok_0 as int]->Directory_0.children.last() == id
            &&& h2.nodes[path_target(h2, parent)->Ok_0 as int]->Directory_0.children.drop_last()
                == h.nodes[path_target(h2, parent)->Ok_0 as int]->Directory_0.children
            &&& path_target(h2, parent + seq!['/'] + name) == Ok::<u32, ErrorKind>(id as u32)
            &&& h2.nodes[id as int] == n
        }),
{
    let e = engine_path(path);
    let (name, parent) = split_last(e);
    lemma_split_engine_path(path);
    crate::string_buffer::lemma_with_name_wf(h.strings, name);
    let h1 = HeaderView { strings: with_name(h.strings, name), ..h };
    let name_id = h1.strings.names[name];
    let p = path_target(h1, parent)->Ok_0;
    crate::header::lemma_add_then_navigate(h1, parent, name, name_id, n);
    crate::header::lemma_forward_in_range(h1);
    crate::header::lemma_walk_in_range(h1, crate::util::string_helper::split_on_slash(parent).skip(1));
    assert(p < h.nodes.len());
    crate::header::lemma_add_node_lists_child(h1, p, name_id, n);
    let h2 = with_child(h1, p, name_id, n);
    let d = h.nodes[p as int]->Directory_0;
    let c2 = h2.nodes[p as int]->Directory_0.children;
    assert(c2.drop_last() =~= c2.subrange(0, d.children.len() as int));
}

/// A node that creating at `path` adds is new in every respect: it is a
/// directory exactly when one was asked for, it is named by the path's last
/// name, it is empty, and its creation and modification times are dates and
/// times of the calendar.
pub proof fn lemma_created_node_is_new(h: HeaderView, path: Seq<char>, n: NodeView, dir: bool, name_id: u32)
    requires
        h.wf(),
        h.nodes.len() < u32::MAX,
        h.strings.next_index < u32::MAX,
        is_fresh_node(n, name_id, dir),
        created(h, path, n).1 is Ok,
    ensures
        ({
            let h2 = created(h, path, n).0;
            let id = created(h, path, n).1->Ok_0;
            let node = h2.nodes[id as int];
            let inode = inode_of(node);
            &&& (node is Directory) == dir
            &&& inode.name_id == name_id
            &&& inode.size == 0
            &&& inode.permissions == 0
            &&& inode.created_at.in_calendar_range()
            &&& inode.last_modified.in_calendar_range()
            &&& 1 <= inode.created_at.date.month <= 12
            &&& 1 <= inode.created_at.date.day <= 31
        }),
{
    lemma_create_then_list(h, path, n);
}

/// Creating a file or a directory keeps the tree well formed, whether it
/// succeeds or not, and adds at most one node and one name.
pub proof fn lemma_created_wf(h: HeaderView, path: Seq<char>, n: NodeView, dir: bool, name_id: u32)
    requires
        h.wf(),
        h.nodes.len() < u32::MAX,
        h.strings.next_index < u32::MAX,
        is_fresh_node(n, name_id, dir),
    ensures
        created(h, path, n).0.wf(),
        created(h, path, n).0.nodes.len() <= h.nodes.len() + 1,
        created(h, path, n).0.strings.next_index <= h.strings.next_index + 1,
{
    let (name, parent) = split_last(engine_path(path));
    crate::string_buffer::lemma_with_name_wf(h.strings, name);
    let h1 = HeaderView { strings: with_name(h.strings, name), ..h };
    let name_id1 = h1.strings.names[name];
    assert(h1.wf());
    if let Ok(p) = path_target(h1, parent) {
        crate::header::lemma_forward_in_range(h1);
        crate::header::lemma_walk_in_range(h1, crate::util::string_helper::split_on_slash(parent).skip(1));
        crate::header::lemma_add_keeps_wf(h1, p, name_id1, n);
    }
}

/// Creating a file or a directory keeps every file's blocks sound: the new
/// node holds no blocks, and the block device is untouched.
pub proof fn lemma_created_sound(v: VfsView, path: Seq<char>, n: NodeView, dir: bool, name_id: u32)
    requires
        v.blocks_sound(),
        v.header.wf(),
        is_fresh_node(n, name_id, dir),
    ensures
        (VfsView { header: created(v.header, path, n).0, device: v.device }).blocks_sound(),
{
    let h = v.header;
    let (name, parent) = split_last(engine_path(path));
    let h1 = HeaderView { strings: with_name(h.strings, name), ..h };
    let h2 = created(h, path, n).0;
    let v2 = VfsView { header: h2, device: v.device };
    let name_id1 = h1.strings.names[name];
    assert forall|i: int|
        0 <= i < h2.nodes.len() && #[trigger] h2.nodes[i] is File implies file_blocks_sound(
        h2.nodes[i]->File_0,
        v.device.num_blocks,
    ) by {
        match path_target(h1, parent) {
            Err(_) => {
                assert(h2.nodes == h.nodes);
            },
            Ok(p) => {
                crate::header::lemma_forward_in_range(h1);
                crate::header::lemma_walk_in_range(h1, crate::util::string_helper::split_on_slash(parent).skip(1));
                assert(p < h.nodes.len());
                let pushed = h.nodes.push(n);
                if h1.nodes[p as int] is Directory {
                    assert(h2 == with_child(h1, p, name_id1, n));
                    assert(h2.nodes == pushed.update(p as int, h2.nodes[p as int]));
                    assert(i != p);
                    assert(h2.nodes[i] == pushed[i]);
                } else {
                    assert(h2.nodes == pushed);
                }
                if i < h.nodes.len() {
                    assert(pushed[i] == h.nodes[i]);
                } else {
                    assert(pushed[i] == n);
                    assert(n->File_0.block_indices =~= Seq::<u32>::empty());
                }
            },
        }
    }
}

/// Opening the image of a file system, whatever follows it, reads back its
/// header and its block device, each in the form that their encodings
/// restore, and takes exactly the bytes of the image.
pub proof fn lemma_image_then_open(v: VfsView, rest: Seq<u8>)
    requires
        Header::serializable(v.header),
        BlockDevice::serializable(v.device),
    ensures
        ({
            let h = Header::encode(v.header);
            let data = h + BlockDevice::encode(v.device) + rest;
            &&& Header::decode(data) == Decoded::Value(Header::restored(v.header), h.len())
            &&& BlockDevice::decode(data.skip(h.len() as int)) == Decoded::Value(
                BlockDevice::restored(v.device),
                BlockDevice::encode(v.device).len(),
            )
        }),
{
    let h = Header::encode(v.header);
    let d = BlockDevice::encode(v.device);
    let data = h + d + rest;
    assert(data =~= h + (d + rest));
    Header::lemma_roundtrip(v.header, d + rest);
    assert(data.skip(h.len() as int) =~= d + rest);
    BlockDevice::lemma_roundtrip(v.device, rest);
}

impl Vfs {
    /// A new file system that holds only the root directory.
    pub fn new() -> (res: Self)
        ensures
            res@.header.nodes.len() == 1,
            res@.header.nodes[0] is Directory,
            res@.header.nodes[0]->Directory_0.children == Seq::<u32>::empty(),
            res@.header.nodes[0]->Directory_0.inode.name_id == 0,
            res@.header.strings.strings == seq!["@"@],
            res@.header.wf(),
            res@.device.num_blocks == 0,
            res@.device.free_blocks == Seq::<u32>::empty(),
            res@.blocks_sound(),
    {
        Self { header: Header::new(), block_device: BlockDevice::new() }
    }

    /// Reads a file system from an image: the header, then the block device.
    pub fn open(data: &[u8]) -> (res: Result<Self, Error>)
        requires
            !(Header::decode(data@) is Aborts),
            Header::decode(data@) is Value ==> !(BlockDevice::decode(
                data@.skip(Header::decode(data@)->Value_1 as int),
            ) is Aborts),
        ensures
            match Header::decode(data@) {
                Decoded::Value(h, n) => match BlockDevice::decode(data@.skip(n as int)) {
                    Decoded::Value(d, m) => res is Ok && res->Ok_0@ == (VfsView { header: h, device: d }),
                    Decoded::Fails(k) => res is Err && res->Err_0.kind() == k,
                    Decoded::Aborts => false,
                },
                Decoded::Fails(k) => res is Err && res->Err_0.kind() == k,
                Decoded::Aborts => false,
            },
            res is Ok && res->Ok_0@.header.nodes.len() > 0 ==> res->Ok_0@.header.wf(),
    {
        proof {
            if Header::decode(data@) is Value && Header::decode(data@)->Value_0.nodes.len() > 0 {
                crate::header::lemma_decoded_header_wf(data@);
            }
        }
        let mut slice: &[u8] = data;
        let header = Header::deserialize(&mut slice)?;
        let block_device = BlockDevice::deserialize(&mut slice)?;
        Ok(Self { header, block_device })
    }

    /// The image of the file system's metadata: the header, then the block
    /// device.
    pub fn image(&self) -> (res: Vec<u8>)
        requires
            Header::serializable(self@.header),
            BlockDevice::serializable(self@.device),
        ensures
            res@ == Header::encode(self@.header) + BlockDevice::encode(self@.device),
    {
        let mut data = self.header.serialize();
        let d = self.block_device.serialize();
        crate::serde::push_bytes(&mut data, d.as_slice());
        data
    }

    /// The node ids of the children of the directory at `path`.
    pub fn read_dir(&self, path: &str) -> (res: Result<Vec<u32>, Error>)
        requires
            path_in_range(self@.header, engine_path(path@)),
        ensures
            match path_target(self@.header, engine_path(path@)) {
                Ok(id) => match self@.header.nodes[id as int] {
                    NodeView::Directory(d) => res is Ok && res->Ok_0@ == d.children,
                    NodeView::File(_) => res is Err && res->Err_0.kind() == ErrorKind::BadCall
                        && res->Err_0.text() == "Attempted to call read_dir on a file"@,
                },
                Err(k) => res is Err && res->Err_0.kind() == k && res->Err_0.text() == path_error_text(
                    self@.header,
                    engine_path(path@),
                ),
            },
    {
        let full = Self::to_engine_path(path);
        let node_id = self.header.navigate(full.as_str())?;
        let node = &self.header.node_buffer[node_id as usize];
        match node {
            Node::Directory(dir_data) => Ok(dir_data.children.clone()),
            Node::File(_) => Err(Error::BadCall("Attempted to call read_dir on a file".to_owned())),
        }
    }

    /// Splits a path at its last '/' into the name after it and the path
    /// before it.
    pub fn split_from_cwd<'a>(path: &'a str) -> (res: (&'a str, &'a str))
        ensures
            (res.0@, res.1@) == split_last(path@),
    {
        let n = path.unicode_len();
        let mut i = n;
        assert(path@.subrange(0, n as int) =~= path@);
        while i > 0
            invariant
                n == path@.len(),
                i <= n,
                last_slash(path@) == last_slash(path@.subrange(0, i as int)),
                forall|j: int| i <= j < n ==> path@[j] != '/',
            decreases i,
        {
            let c = path.get_char(i - 1);
            if c == '/' {
                proof {
                    assert(path@.subrange(0, i as int).last() == '/');
                }
                let ind = i - 1;
                if ind == 0 {
                    return (path, path);
                }
                return (path.substring_char(ind + 1, n), path.substring_char(0, ind));
            }
            proof {
                assert(path@.subrange(0, i as int).drop_last() =~= path@.subrange(0, i - 1));
            }
            i = i - 1;
        }
        assert(path@.subrange(0, 0) =~= Seq::<char>::empty());
        (path, path)
    }

    /// The tree's path for a user's path: "@/" before it.
    pub fn to_engine_path(path: &str) -> (res: String)
        ensures
            res@ == engine_path(path@),
    {
        "@/".to_owned().concat(path)
    }

    /// Adds the node named by `path`, as a directory when `dir`, else as a
    /// file; gives its id.
    fn create_node(&mut self, path: &str, dir: bool) -> (res: Result<u32, Error>)
        requires
            old(self)@.header.wf(),
            old(self)@.header.nodes.len() < u32::MAX,
            old(self)@.header.strings.next_index < u32::MAX,
        ensures
            final(self)@.device == old(self)@.device,
            final(self)@.header.wf(),
            old(self)@.blocks_sound() ==> final(self)@.blocks_sound(),
            final(self)@.header.nodes.len() <= old(self)@.header.nodes.len() + 1,
            final(self)@.header.strings.next_index <= old(self)@.header.strings.next_index + 1,
            exists|n: NodeView|
                is_fresh_node(n, final(self)@.header.strings.names[split_last(engine_path(path@)).0], dir)
                    && #[trigger] created(old(self)@.header, path@, n) == (final(self)@.header, match res {
                        Ok(id) => Ok::<u32, ErrorKind>(id),
                        Err(e) => Err(e.kind()),
                    }),
    {
        let full = Self::to_engine_path(path);
        let (last_directive, path_to_directive) = Self::split_from_cwd(full.as_str());
        let ghost pre = self@.header;
        let name_id = self.header.str_buffer.add(last_directive);
        let inode = INode::from(name_id, 0, DateTime::now(), DateTime::now(), 0);
        let node = if dir {
            Node::Directory(DirectoryData::from(inode, Vec::new()))
        } else {
            Node::File(FileData::from(inode, Vec::new()))
        };
        let ghost h1 = self@.header;
        assert(h1 == (HeaderView { strings: with_name(pre.strings, last_directive@), ..pre }));
        let id = self.header.node_buffer.len() as u32;
        proof {
            assert(h1.nodes.len() == self.header.node_buffer@.len());
        }
        let ghost nv = node@;
        proof {
            crate::header::lemma_forward_in_range(h1);
            crate::header::lemma_links_keep_paths_in_range(h1, path_to_directive@);
        }
        let res = match self.header.add_node(path_to_directive, name_id, node) {
            Some(err) => Err(err),
            None => Ok(id),
        };
        proof {
            assert(split_last(engine_path(path@)) == (last_directive@, path_to_directive@));
            assert(h1.strings.names[last_directive@] == name_id);
            assert(self@.header.strings == h1.strings);
            assert(is_fresh_node(nv, self@.header.strings.names[split_last(engine_path(path@)).0], dir));
            lemma_created_wf(pre, path@, nv, dir, name_id);
            if old(self)@.blocks_sound() {
                lemma_created_sound(old(self)@, path@, nv, dir, name_id);
            }
            assert(created(pre, path@, nv) == (self@.header, match res {
                Ok(id) => Ok::<u32, ErrorKind>(id),
                Err(e) => Err(e.kind()),
            }));
        }
        res
    }

    /// Opens the file at `path`.
    pub fn open_file(&self, path: &str) -> (res: Result<ops::File, Error>)
        requires
            path_in_range(self@.header, engine_path(path@)),
        ensures
            match open_target(self@.header, path@) {
                Ok(id) => res is Ok && res->Ok_0.id() == id && res->Ok_0.next_block() == 0,
                Err(k) => res is Err && res->Err_0.kind() == k,
            },
            path_target(self@.header, engine_path(path@)) is Err ==> res is Err && res->Err_0.text()
                == path_error_text(self@.header, engine_path(path@)),
            res is Err && res->Err_0.kind() == ErrorKind::BadCall ==> res->Err_0.text()
                == "Attempted to call open_file on a directory"@,
            res is Ok ==> res->Ok_0.id() < self@.header.nodes.len() && self@.header.nodes[res->Ok_0.id() as int] is File,
    {
        let full = Self::to_engine_path(path);
        proof {
            crate::header::lemma_walk_errors(
                self@.header,
                crate::util::string_helper::split_on_slash(full@).skip(1),
            );
        }
        let node_id = self.header.navigate(full.as_str())?;
        let node = &self.header.node_buffer[node_id as usize];
        match node {
            Node::Directory(_) => Err(
                Error::BadCall("Attempted to call open_file on a directory".to_owned()),
            ),
            Node::File(_) => Ok(ops::File::from(node_id)),
        }
    }

    /// Opens the file with node id `entry`.
    pub fn open_entry(&self, entry: u32) -> (res: Result<ops::File, Error>)
        requires
            entry < self@.header.nodes.len(),
        ensures
            match self@.header.nodes[entry as int] {
                NodeView::File(_) => res is Ok && res->Ok_0.id() == entry && res->Ok_0.next_block()
                    == 0,
                NodeView::Directory(_) => res is Err && res->Err_0.kind() == ErrorKind::BadCall
                    && res->Err_0.text() == "Attempted to call open_file on a directory"@,
            },
    {
        let node = &self.header.node_buffer[entry as usize];
        match node {
            Node::Directory(_) => Err(
                Error::BadCall("Attempted to call open_file on a directory".to_owned()),
            ),
            Node::File(_) => Ok(ops::File::from(entry)),
        }
    }

    /// Opens the file at `path`, creating it when `path` does not lead to a
    /// file.
    pub fn create(&mut self, path: &str) -> (res: Result<ops::File, Error>)
        requires
            old(self)@.header.wf(),
            !(open_target(old(self)@.header, path@) is Ok) ==> old(self)@.header.nodes.len() < u32::MAX
                && old(self)@.header.strings.next_index < u32::MAX,
        ensures
            final(self)@.device == old(self)@.device,
            final(self)@.header.wf(),
            old(self)@.blocks_sound() ==> final(self)@.blocks_sound(),
            final(self)@.header.nodes.len() <= old(self)@.header.nodes.len() + 1,
            final(self)@.header.strings.next_index <= old(self)@.header.strings.next_index + 1,
            open_target(old(self)@.header, path@) is Ok ==> final(self)@ == old(self)@ && res is Ok
                && res->Ok_0.id() == open_target(old(self)@.header, path@)->Ok_0,
            !(open_target(old(self)@.header, path@) is Ok) ==> exists|n: NodeView|
                is_fresh_node(n, final(self)@.header.strings.names[split_last(engine_path(path@)).0], false)
                    && #[trigger] created(old(self)@.header, path@, n).0 == final(self)@.header
                    && match created(old(self)@.header, path@, n).1 {
                        Ok(id) => res is Ok && res->Ok_0.id() == id,
                        Err(k) => res is Err && res->Err_0.kind() == k,
                    },
            res is Ok ==> res->Ok_0.id() < final(self)@.header.nodes.len()
                && final(self)@.header.nodes[res->Ok_0.id() as int] is File
                && res->Ok_0.next_block() == 0,
    {
        proof {
            crate::header::lemma_forward_in_range(old(self)@.header);
            crate::header::lemma_links_keep_paths_in_range(old(self)@.header, engine_path(path@));
        }
        match self.open_file(path) {
            Ok(file) => {
                return Ok(file);
            },
            _ => {},
        }
        let r = self.create_node(path, false);
        let ghost n = choose|n: NodeView|
            is_fresh_node(n, self@.header.strings.names[split_last(engine_path(path@)).0], false)
                && #[trigger] created(old(self)@.header, path@, n) == (self@.header, match r {
                    Ok(id) => Ok::<u32, ErrorKind>(id),
                    Err(e) => Err(e.kind()),
                });
        let res = match r {
            Ok(file_id) => Ok(ops::File::from(file_id)),
            Err(e) => Err(e),
        };
        assert(created(old(self)@.header, path@, n).0 == self@.header);
        proof {
            if r is Ok {
                let h = old(self)@.header;
                let parent = split_last(engine_path(path@)).1;
                let h1 = HeaderView { strings: with_name(h.strings, split_last(engine_path(path@)).0), ..h };
                crate::header::lemma_forward_in_range(h1);
                crate::header::lemma_walk_in_range(h1, crate::util::string_helper::split_on_slash(parent).skip(1));
            }
        }
        res
    }

    /// Creates the directory at `path`.
    pub fn create_dir(&mut self, path: &str) -> (res: Result<ops::Directory, Error>)
        requires
            old(self)@.header.wf(),
            old(self)@.header.nodes.len() < u32::MAX,
            old(self)@.header.strings.next_index < u32::MAX,
        ensures
            final(self)@.device == old(self)@.device,
            final(self)@.header.wf(),
            old(self)@.blocks_sound() ==> final(self)@.blocks_sound(),
            final(self)@.header.nodes.len() <= old(self)@.header.nodes.len() + 1,
            final(self)@.header.strings.next_index <= old(self)@.header.strings.next_index + 1,
            exists|n: NodeView|
                is_fresh_node(n, final(self)@.header.strings.names[split_last(engine_path(path@)).0], true)
                    && #[trigger] created(old(self)@.header, path@, n).0 == final(self)@.header
                    && match created(old(self)@.header, path@, n).1 {
                        Ok(_) => res is Ok,
                        Err(k) => res is Err && res->Err_0.kind() == k,
                    },
    {
        let r = self.create_node(path, true);
        let ghost n = choose|n: NodeView|
            is_fresh_node(n, self@.header.strings.names[split_last(engine_path(path@)).0], true)
                && #[trigger] created(old(self)@.header, path@, n) == (self@.header, match r {
                    Ok(id) => Ok::<u32, ErrorKind>(id),
                    Err(e) => Err(e.kind()),
                });
        let res = match r {
            Ok(_) => Ok(ops::Directory::new()),
            Err(e) => Err(e),
        };
        assert(created(old(self)@.header, path@, n).0 == self@.header);
        res
    }
}

} // verus!
