use vstd::prelude::*;
use std::collections::HashMap;
use crate::fs_base::Error;
use crate::inode::INode;
use crate::serde::{
    Decoded, decode_vec_u32, encode_vec_u32, lemma_vec_u32_roundtrip, ser_vec_u32, deser_vec_u32,
    push_bytes, usize_width,
};
use crate::string_buffer::StringBuffer;
use crate::traits::{Directive, Serde};

verus! {

broadcast use vstd::std_specs::hash::group_hash_axioms;

/// A directory: its inode, the ids of its children in the order they were
/// added, and a map from each child's name id to the child's node id.
#[derive(PartialEq, Eq)]
pub struct DirectoryData {
    pub inode: INode,
    pub children: Vec<u32>,
    pub name_child_map: HashMap<u32, u32>,
}

pub struct DirectoryView {
    pub inode: INode,
    pub children: Seq<u32>,
    pub name_child_map: Map<u32, u32>,
}

impl View for DirectoryData {
    type V = DirectoryView;

    open spec fn view(&self) -> DirectoryView {
        DirectoryView {
            inode: self.inode,
            children: self.children@,
            name_child_map: self.name_child_map@,
        }
    }
}

impl DirectoryData {
    /// An empty directory with a fresh inode.
    pub fn new() -> (res: Self)
        ensures
            res.inode.name_id == 0,
            res.inode.size == 0,
            res.inode.permissions == 0,
            res.inode.created_at.in_calendar_range(),
            res.inode.last_modified.in_calendar_range(),
            res@.children == Seq::<u32>::empty(),
            res@.name_child_map == Map::<u32, u32>::empty(),
    {
        Self { inode: INode::new(), children: Vec::new(), name_child_map: HashMap::new() }
    }

    /// A directory with the given inode and children, and no names for them.
    pub fn from(n: INode, children: Vec<u32>) -> (res: Self)
        ensures
            res@ == (DirectoryView { inode: n, children: children@, name_child_map: Map::empty() }),
    {
        Self { inode: n, children: children, name_child_map: HashMap::new() }
    }

    /// Adds the node `node_id` as a child under the name `name_id`; a child
    /// already under that name stays in `children` but loses the name.
    pub fn add_child(&mut self, name_id: u32, node_id: u32)
        ensures
            final(self)@ == (DirectoryView {
                inode: old(self).inode,
                children: old(self)@.children.push(node_id),
                name_child_map: old(self)@.name_child_map.insert(name_id, node_id),
            }),
    {
        self.name_child_map.insert(name_id, node_id);
        self.children.push(node_id);
    }
}

impl Serde for DirectoryData {
    open spec fn serializable(v: DirectoryView) -> bool {
        v.children.len() <= u32::MAX
    }

    /// The inode, then the list of children; the names are not stored.
    open spec fn encode(v: DirectoryView) -> Seq<u8> {
        INode::encode(v.inode) + encode_vec_u32(v.children)
    }

    open spec fn decode(bytes: Seq<u8>) -> Decoded<DirectoryView> {
        match INode::decode(bytes) {
            Decoded::Value(inode, n) => match decode_vec_u32(bytes.skip(n as int)) {
                Decoded::Value(children, m) => Decoded::Value(
                    DirectoryView { inode, children, name_child_map: Map::empty() },
                    n + m,
                ),
                _ => Decoded::Aborts,
            },
            _ => Decoded::Aborts,
        }
    }

    /// A directory read back has no names for its children.
    open spec fn restored(v: DirectoryView) -> DirectoryView {
        DirectoryView { name_child_map: Map::empty(), ..v }
    }

    fn serialize(&self) -> (res: Vec<u8>) {
        let mut res = self.inode.serialize();
        let c = ser_vec_u32(self.children.as_slice());
        push_bytes(&mut res, c.as_slice());
        res
    }

    fn deserialize(buffer: &mut &[u8]) -> (res: Result<Self, Error>) {
        let ghost start = buffer@;
        let node = INode::deserialize(buffer)?;
        let block_indices = deser_vec_u32(buffer)?;
        assert(buffer@ =~= start.skip(20 + usize_width() as int + (4 + 4 * (block_indices@.len() as int))));
        Ok(DirectoryData::from(node, block_indices))
    }

    proof fn lemma_roundtrip(v: DirectoryView, rest: Seq<u8>) {
        let i = INode::encode(v.inode);
        let c = encode_vec_u32(v.children);
        INode::lemma_roundtrip(v.inode, c + rest);
        lemma_vec_u32_roundtrip(v.children, rest);
        assert(Self::encode(v) + rest =~= i + (c + rest));
        assert((i + (c + rest)).skip(i.len() as int) =~= c + rest);
    }
}

impl Directive for DirectoryData {
    /// A directory names a child under each name id of its map.
    open spec fn names_child(&self, id: u32) -> bool {
        self.name_child_map@.contains_key(id)
    }

    fn has_child(&self, str_buf: &StringBuffer, s: &String) -> (res: bool) {
        let str_id = str_buf.get(s);
        if let Ok(id) = str_id {
            return self.has_child_by_id(id);
        }
        false
    }

    fn has_child_by_id(&self, name_id: u32) -> (res: bool) {
        self.name_child_map.contains_key(&name_id)
    }
}

/// Reading back the encoding of a directory gives its inode, with both of
/// its times, and its children in order; the names of the children are not
/// stored, so the map from names to children comes back empty.
pub proof fn lemma_directory_reads_back(d: DirectoryView, rest: Seq<u8>)
    requires
        d.children.len() <= u32::MAX,
    ensures
        DirectoryData::decode(DirectoryData::encode(d) + rest) is Value,
        DirectoryData::decode(DirectoryData::encode(d) + rest)->Value_0.inode == d.inode,
        DirectoryData::decode(DirectoryData::encode(d) + rest)->Value_0.children == d.children,
        DirectoryData::decode(DirectoryData::encode(d) + rest)->Value_0.name_child_map == Map::<u32, u32>::empty(),
{
    DirectoryData::lemma_roundtrip(d, rest);
}

} // verus!
