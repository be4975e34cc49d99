use vstd::prelude::*;
use crate::fs_base::{BLOCK_CAPACITY, Error};
use crate::inode::INode;
use crate::serde::{
    Decoded, decode_vec_u32, encode_vec_u32, lemma_vec_u32_roundtrip, ser_vec_u32, deser_vec_u32,
    push_bytes, usize_width,
};
use crate::string_buffer::StringBuffer;
use crate::traits::{Directive, Serde};

verus! {

/// A file: its inode and the blocks that hold its bytes, in order.
pub struct FileData {
    pub inode: INode,
    pub block_indices: Vec<u32>,
}

pub struct FileView {
    pub inode: INode,
    pub block_indices: Seq<u32>,
}

impl View for FileData {
    type V = FileView;

    open spec fn view(&self) -> FileView {
        FileView { inode: self.inode, block_indices: self.block_indices@ }
    }
}

impl FileData {
    pub fn from(n: INode, blocks: Vec<u32>) -> (res: Self)
        ensures
            res@ == (FileView { inode: n, block_indices: blocks@ }),
    {
        Self { inode: n, block_indices: blocks }
    }

    /// The bytes that the file's blocks can hold.
    pub fn capacity(&self) -> (res: usize)
        requires
            self.block_indices@.len() * BLOCK_CAPACITY <= usize::MAX,
        ensures
            res == self.block_indices@.len() * BLOCK_CAPACITY,
    {
        self.block_indices.len() * BLOCK_CAPACITY
    }
}

impl Serde for FileData {
    open spec fn serializable(v: FileView) -> bool {
        v.block_indices.len() <= u32::MAX
    }

    /// The inode, then the list of blocks.
    open spec fn encode(v: FileView) -> Seq<u8> {
        INode::encode(v.inode) + encode_vec_u32(v.block_indices)
    }

    open spec fn decode(bytes: Seq<u8>) -> Decoded<FileView> {
        match INode::decode(bytes) {
            Decoded::Value(inode, n) => match decode_vec_u32(bytes.skip(n as int)) {
                Decoded::Value(block_indices, m) => Decoded::Value(
                    FileView { inode, block_indices },
                    n + m,
                ),
                _ => Decoded::Aborts,
            },
            _ => Decoded::Aborts,
        }
    }

    open spec fn restored(v: FileView) -> FileView {
        v
    }

    fn serialize(&self) -> (res: Vec<u8>) {
        let mut res = self.inode.serialize();
        let c = ser_vec_u32(self.block_indices.as_slice());
        push_bytes(&mut res, c.as_slice());
        res
    }

    fn deserialize(buffer: &mut &[u8]) -> (res: Result<Self, Error>) {
        let ghost start = buffer@;
        let node = INode::deserialize(buffer)?;
        let block_indices = deser_vec_u32(buffer)?;
        assert(buffer@ =~= start.skip(20 + usize_width() as int + (4 + 4 * (block_indices@.len() as int))));
        Ok(FileData::from(node, block_indices))
    }

    proof fn lemma_roundtrip(v: FileView, rest: Seq<u8>) {
        let i = INode::encode(v.inode);
        let c = encode_vec_u32(v.block_indices);
        INode::lemma_roundtrip(v.inode, c + rest);
        lemma_vec_u32_roundtrip(v.block_indices, rest);
        assert(Self::encode(v) + rest =~= i + (c + rest));
        assert((i + (c + rest)).skip(i.len() as int) =~= c + rest);
    }
}

impl Directive for FileData {
    /// A file has no children.
    open spec fn names_child(&self, id: u32) -> bool {
        false
    }

    fn has_child(&self, _str_buf: &StringBuffer, _s: &String) -> (res: bool) {
        false
    }

    fn has_child_by_id(&self, _id: u32) -> (res: bool) {
        false
    }
}

/// Reading back the encoding of a file gives that very file: its inode,
/// with both of its times, and its blocks in order.
pub proof fn lemma_file_reads_back(f: FileView, rest: Seq<u8>)
    requires
        f.block_indices.len() <= u32::MAX,
    ensures
        FileData::decode(FileData::encode(f) + rest) == Decoded::Value(f, FileData::encode(f).len()),
        FileData::decode(FileData::encode(f) + rest)->Value_0.inode == f.inode,
        FileData::decode(FileData::encode(f) + rest)->Value_0.block_indices == f.block_indices,
{
    FileData::lemma_roundtrip(f, rest);
}

} // verus!
