//! Handles on the nodes of an open file system.
use vstd::prelude::*;
use crate::block_device::{
    BlockDevice, BlockDeviceView, ReadOp, WriteOp, blocks_for, block_run, block_start, chunk_blocks,
    chunk_ops, chunk_size, min, read_ops, write_layout, write_ops,
};
use crate::file::FileView;
use crate::fs_base::{BLOCK_CAPACITY, Error, ErrorKind, READ_TO_STRING_LIMIT};
use crate::header::{HeaderView, Node, NodeView};
use crate::inode::INode;
use crate::util::date_time::DateTime;
use crate::vfs::{Vfs, VfsView, file_blocks_sound, lemma_grown_blocks_sound};
use crate::image::{
    grown_by_append, lemma_append_then_read, lemma_write_then_read, run_reads, run_writes,
};

verus! {

/// Putting a file node in the place of a file node keeps the tree well
/// formed: only directories hold links.
proof fn lemma_file_update_keeps_wf(h: HeaderView, h2: HeaderView, id: int)
    requires
        h.wf(),
        0 <= id < h.nodes.len(),
        h.nodes[id] is File,
        h2.strings == h.strings,
        h2.nodes.len() == h.nodes.len(),
        h2.nodes[id] is File,
        forall|i: int| 0 <= i < h.nodes.len() && i != id ==> h2.nodes[i] == h.nodes[i],
    ensures
        h2.wf(),
{
    assert forall|i: int, k: u32|
        0 <= i < h2.nodes.len() && h2.nodes[i] is Directory
            && h2.nodes[i]->Directory_0.name_child_map.contains_key(k) implies i
        < h2.nodes[i]->Directory_0.name_child_map[k] < h2.nodes.len() by {
        assert(h.nodes[i] == h2.nodes[i]);
    }
}

/// Putting a file in the place of a file, with blocks that are sound under
/// a count no smaller than before, keeps every file's blocks sound.
proof fn lemma_file_update_keeps_sound(v: VfsView, v2: VfsView, id: int)
    requires
        v.blocks_sound(),
        0 <= id < v.header.nodes.len(),
        v2.header.nodes.len() == v.header.nodes.len(),
        v2.device.num_blocks >= v.device.num_blocks,
        v2.header.nodes[id] is File,
        file_blocks_sound(v2.header.nodes[id]->File_0, v2.device.num_blocks),
        forall|i: int| 0 <= i < v.header.nodes.len() && i != id ==> v2.header.nodes[i] == v.header.nodes[i],
    ensures
        v2.blocks_sound(),
{
    assert forall|i: int|
        0 <= i < v2.header.nodes.len() && #[trigger] v2.header.nodes[i] is File implies file_blocks_sound(
        v2.header.nodes[i]->File_0,
        v2.device.num_blocks,
    ) by {
        if i != id {
            assert(v.header.nodes[i] == v2.header.nodes[i]);
            assert(file_blocks_sound(v.header.nodes[i]->File_0, v.device.num_blocks));
        }
    }
}

/// A handle on a directory.
pub struct Directory {}

impl Directory {
    pub fn new() -> (res: Self) {
        Self {}
    }
}

impl Default for Directory {
    fn default() -> (res: Self) {
        Self::new()
    }
}

/// A handle on a file: the file's node id, and the position in the file's
/// list of blocks where the next buffered read starts.
pub struct File {
    file_id: u32,
    last_block_index: u32,
}

impl File {
    pub fn from(file_id: u32) -> (res: Self)
        ensures
            res.id() == file_id,
            res.next_block() == 0,
    {
        Self { file_id, last_block_index: 0 }
    }

    pub closed spec fn id(&self) -> u32 {
        self.file_id
    }

    pub closed spec fn next_block(&self) -> u32 {
        self.last_block_index
    }

    /// The position in the file's list of blocks where the next buffered
    /// read starts.
    pub fn last_block_index(&self) -> (res: u32)
        ensures
            res == self.next_block(),
    {
        self.last_block_index
    }

    /// The node id of the file.
    pub fn file_id(&self) -> (res: u32)
        ensures
            res == self.id(),
    {
        self.file_id
    }

    /// Plans writing `buffer` as the whole content of the file: its blocks
    /// take the bytes in order, new blocks take the rest, and the file's
    /// size becomes the buffer's length and its modification time the
    /// current time. A handle on a directory plans nothing.
    pub fn write_all(&mut self, vfs: &mut Vfs, buffer: &[u8]) -> (ops: Vec<WriteOp>)
        requires
            old(self).id() < old(vfs)@.header.nodes.len(),
            old(vfs)@.header.nodes[old(self).id() as int] is File ==> ({
                let f = old(vfs)@.header.nodes[old(self).id() as int]->File_0;
                let w = write_layout(buffer@.len(), f.block_indices, 0, 0);
                w.tail_start < buffer@.len() ==> old(vfs)@.device.num_blocks + blocks_for(
                    (buffer@.len() - w.tail_start) as nat,
                ) <= u32::MAX
            }),
        ensures
            old(vfs)@.header.wf() ==> final(vfs)@.header.wf(),
            old(vfs)@.blocks_sound() ==> final(vfs)@.blocks_sound(),
            *final(self) == *old(self),
            match old(vfs)@.header.nodes[old(self).id() as int] {
                NodeView::File(f) => {
                    let len = buffer@.len();
                    let w = write_layout(len, f.block_indices, 0, 0);
                    let grown = if w.tail_start < len {
                        blocks_for((len - w.tail_start) as nat)
                    } else {
                        0
                    };
                    let g = final(vfs)@.header.nodes[old(self).id() as int];
                    &&& ops@ == write_ops(len, f.block_indices, w)
                    &&& g is File
                    &&& g->File_0.block_indices == f.block_indices + block_run(old(vfs)@.device.num_blocks, grown)
                    &&& g->File_0.inode == INode { size: len as usize, last_modified: g->File_0.inode.last_modified, ..f.inode }
                    &&& g->File_0.inode.last_modified.in_calendar_range()
                    &&& final(vfs)@.header.nodes == old(vfs)@.header.nodes.update(old(self).id() as int, g)
                    &&& final(vfs)@.header.strings == old(vfs)@.header.strings
                    &&& final(vfs)@.device == BlockDeviceView {
                        num_blocks: (old(vfs)@.device.num_blocks + grown) as u32,
                        ..old(vfs)@.device
                    }
                    &&& file_blocks_sound(f, old(vfs)@.device.num_blocks) && (len > 0
                        || f.block_indices.len() > 0) ==> forall|img: Seq<u8>|
                        img.len() == block_start(old(vfs)@.device.num_blocks) ==> #[trigger] run_reads(
                            run_writes(img, buffer@, ops@),
                            read_ops(g->File_0.block_indices, len),
                        ) == buffer@
                },
                NodeView::Directory(_) => ops@ == Seq::<WriteOp>::empty() && final(vfs)@ == old(vfs)@,
            },
    {
        let idx = self.file_id as usize;
        let ghost pre = vfs@;
        let node = vfs.header.node_buffer.remove(idx);
        let (node, ops) = match node {
            Node::File(mut file_data) => {
                let ghost f = file_data@;
                let ops = vfs.block_device.write(buffer.len(), &mut file_data.block_indices);
                proof {
                    let num = pre.device.num_blocks;
                    let len = buffer@.len();
                    if file_blocks_sound(f, num) && (len > 0 || f.block_indices.len() > 0) {
                        assert forall|img: Seq<u8>| img.len() == block_start(num) implies #[trigger] run_reads(
                            run_writes(img, buffer@, ops@),
                            read_ops(file_data.block_indices@, len),
                        ) == buffer@ by {
                            lemma_write_then_read(img, buffer@, f.block_indices, num);
                        }
                    }
                }
                file_data.inode.last_modified = DateTime::now();
                file_data.inode.size = buffer.len();
                (Node::File(file_data), ops)
            },
            Node::Directory(d) => (Node::Directory(d), Vec::new()),
        };
        vfs.header.node_buffer.insert(idx, node);
        proof {
            assert(vfs@.header.nodes =~= pre.header.nodes.update(idx as int, vfs@.header.nodes[idx as int]));
            if pre.header.nodes[idx as int] is Directory {
                assert(vfs@.header.nodes =~= pre.header.nodes);
            } else {
                if pre.header.wf() {
                    lemma_file_update_keeps_wf(pre.header, vfs@.header, idx as int);
                }
                if pre.blocks_sound() {
                    lemma_file_update_keeps_sound(pre, vfs@, idx as int);
                }
            }
        }
        ops
    }

    /// Plans reading the file's bytes, block by block. A handle on a
    /// directory plans nothing.
    pub fn read(&mut self, vfs: &Vfs) -> (ops: Vec<ReadOp>)
        requires
            old(self).id() < vfs@.header.nodes.len(),
            vfs@.header.nodes[old(self).id() as int] is File ==> ({
                let f = vfs@.header.nodes[old(self).id() as int]->File_0;
                &&& f.inode.size <= f.block_indices.len() * BLOCK_CAPACITY
                &&& f.block_indices.len() > 0
            }),
        ensures
            *final(self) == *old(self),
            match vfs@.header.nodes[old(self).id() as int] {
                NodeView::File(f) => ops@ == read_ops(f.block_indices, f.inode.size as nat),
                NodeView::Directory(_) => ops@ == Seq::<ReadOp>::empty(),
            },
    {
        let node = &vfs.header.node_buffer[self.file_id as usize];
        if let Node::File(file_data) = node {
            return BlockDevice::read(file_data.block_indices.as_slice(), file_data.inode.size);
        }
        Vec::new()
    }

    /// Plans reading the file's bytes to make a string of them; a file of
    /// `READ_TO_STRING_LIMIT` bytes or more is refused.
    pub fn read_to_string(&mut self, vfs: &Vfs) -> (res: Result<Vec<ReadOp>, Error>)
        requires
            old(self).id() < vfs@.header.nodes.len(),
            vfs@.header.nodes[old(self).id() as int] is File ==> ({
                let f = vfs@.header.nodes[old(self).id() as int]->File_0;
                f.inode.size < READ_TO_STRING_LIMIT ==> f.inode.size <= f.block_indices.len()
                    * BLOCK_CAPACITY && f.block_indices.len() > 0
            }),
        ensures
            *final(self) == *old(self),
            match vfs@.header.nodes[old(self).id() as int] {
                NodeView::File(f) => if f.inode.size >= READ_TO_STRING_LIMIT {
                    res is Err && res->Err_0.kind() == ErrorKind::FileOps && res->Err_0.text()
                        == "File too big to read into a string. Try buffered reading"@
                } else {
                    res is Ok && res->Ok_0@ == read_ops(f.block_indices, f.inode.size as nat)
                },
                NodeView::Directory(_) => res is Ok && res->Ok_0@ == Seq::<ReadOp>::empty(),
            },
    {
        let node = &vfs.header.node_buffer[self.file_id as usize];
        if let Node::File(file_data) = node {
            if file_data.inode.size >= READ_TO_STRING_LIMIT {
                return Err(
                    Error::FileOps(
                        "File too big to read into a string. Try buffered reading".to_owned(),
                    ),
                );
            }
            return Ok(
                BlockDevice::read(file_data.block_indices.as_slice(), file_data.inode.size),
            );
        }
        Ok(Vec::new())
    }

    /// Plans the next buffered read of the file, and moves the handle past
    /// the blocks that it reads; also gives the number of bytes it takes.
    pub fn read_chunk(&mut self, vfs: &Vfs) -> (res: Result<(Vec<ReadOp>, usize), Error>)
        requires
            old(self).id() < vfs@.header.nodes.len(),
            vfs@.header.nodes[old(self).id() as int] is File ==> ({
                let f = vfs@.header.nodes[old(self).id() as int]->File_0;
                let from = old(self).next_block() as nat;
                &&& from <= f.block_indices.len()
                &&& f.block_indices.len() > 0
                &&& from + chunk_blocks(f.block_indices.len(), from, f.inode.size as nat) <= u32::MAX
            }),
        ensures
            final(self).id() == old(self).id(),
            match vfs@.header.nodes[old(self).id() as int] {
                NodeView::File(f) => {
                    let from = old(self).next_block() as nat;
                    let count = chunk_blocks(f.block_indices.len(), from, f.inode.size as nat);
                    &&& res is Ok
                    &&& res->Ok_0.0@ == chunk_ops(f.block_indices, from, f.inode.size as nat)
                    &&& res->Ok_0.1 == min(
                        chunk_size(f.block_indices.len(), from, f.inode.size as nat) as int,
                        count * BLOCK_CAPACITY,
                    )
                    &&& final(self).next_block() == from + count
                },
                NodeView::Directory(_) => res is Err && res->Err_0.kind() == ErrorKind::BadCall
                    && res->Err_0.text() == "Index invalidated/corrupted. It now points to a directory"@
                    && final(self).next_block() == old(self).next_block(),
            },
    {
        let node = &vfs.header.node_buffer[self.file_id as usize];
        if let Node::File(file_data) = node {
            let res = BlockDevice::read_from(
                file_data.block_indices.as_slice(),
                file_data.inode.size,
                &mut self.last_block_index,
            );
            return Ok(res);
        }
        Err(Error::BadCall("Index invalidated/corrupted. It now points to a directory".to_owned()))
    }

    /// Starts replacing the file's content by appended chunks: its size
    /// becomes 0. A handle on a directory is refused.
    pub fn start_import(&mut self, vfs: &mut Vfs) -> (res: Result<(), Error>)
        requires
            old(self).id() < old(vfs)@.header.nodes.len(),
        ensures
            old(vfs)@.header.wf() ==> final(vfs)@.header.wf(),
            old(vfs)@.blocks_sound() ==> final(vfs)@.blocks_sound(),
            *final(self) == *old(self),
            final(vfs)@.device == old(vfs)@.device,
            final(vfs)@.header.strings == old(vfs)@.header.strings,
            match old(vfs)@.header.nodes[old(self).id() as int] {
                NodeView::File(f) => res is Ok && final(vfs)@.header.nodes == old(vfs)@.header.nodes.update(
                    old(self).id() as int,
                    NodeView::File(FileView { inode: INode { size: 0, ..f.inode }, ..f }),
                ),
                NodeView::Directory(_) => res is Err && res->Err_0.kind() == ErrorKind::BadCall
                    && res->Err_0.text() == "Attempted to use a directory index in file operations"@
                    && final(vfs)@ == old(vfs)@,
            },
    {
        self.set_size(vfs, 0)
    }

    /// Ends an import of `total` bytes: the file's size becomes `total`.
    pub fn finish_import(&mut self, vfs: &mut Vfs, total: usize) -> (res: Result<(), Error>)
        requires
            old(self).id() < old(vfs)@.header.nodes.len(),
        ensures
            old(vfs)@.header.wf() ==> final(vfs)@.header.wf(),
            old(vfs)@.blocks_sound() ==> final(vfs)@.blocks_sound(),
            *final(self) == *old(self),
            final(vfs)@.device == old(vfs)@.device,
            final(vfs)@.header.strings == old(vfs)@.header.strings,
            match old(vfs)@.header.nodes[old(self).id() as int] {
                NodeView::File(f) => res is Ok && final(vfs)@.header.nodes == old(vfs)@.header.nodes.update(
                    old(self).id() as int,
                    NodeView::File(FileView { inode: INode { size: total, ..f.inode }, ..f }),
                ),
                NodeView::Directory(_) => res is Err && res->Err_0.kind() == ErrorKind::BadCall
                    && res->Err_0.text() == "Attempted to use a directory index in file operations"@
                    && final(vfs)@ == old(vfs)@,
            },
    {
        self.set_size(vfs, total)
    }

    fn set_size(&mut self, vfs: &mut Vfs, size: usize) -> (res: Result<(), Error>)
        requires
            old(self).id() < old(vfs)@.header.nodes.len(),
        ensures
            old(vfs)@.header.wf() ==> final(vfs)@.header.wf(),
            old(vfs)@.blocks_sound() ==> final(vfs)@.blocks_sound(),
            *final(self) == *old(self),
            final(vfs)@.device == old(vfs)@.device,
            final(vfs)@.header.strings == old(vfs)@.header.strings,
            match old(vfs)@.header.nodes[old(self).id() as int] {
                NodeView::File(f) => res is Ok && final(vfs)@.header.nodes == old(vfs)@.header.nodes.update(
                    old(self).id() as int,
                    NodeView::File(FileView { inode: INode { size, ..f.inode }, ..f }),
                ),
                NodeView::Directory(_) => res is Err && res->Err_0.kind() == ErrorKind::BadCall
                    && res->Err_0.text() == "Attempted to use a directory index in file operations"@
                    && final(vfs)@ == old(vfs)@,
            },
    {
        let idx = self.file_id as usize;
        let ghost pre = vfs@;
        let node = vfs.header.node_buffer.remove(idx);
        let (node, res) = match node {
            Node::File(mut file_data) => {
                file_data.inode.size = size;
                (Node::File(file_data), Ok(()))
            },
            Node::Directory(d) => (
                Node::Directory(d),
                Err(
                    Error::BadCall(
                        "Attempted to use a directory index in file operations".to_owned(),
                    ),
                ),
            ),
        };
        vfs.header.node_buffer.insert(idx, node);
        proof {
            if pre.header.nodes[idx as int] is Directory {
                assert(vfs@.header.nodes =~= pre.header.nodes);
            } else {
                assert(vfs@.header.nodes =~= pre.header.nodes.update(idx as int, vfs@.header.nodes[idx as int]));
                if pre.header.wf() {
                    lemma_file_update_keeps_wf(pre.header, vfs@.header, idx as int);
                }
                if pre.blocks_sound() {
                    lemma_file_update_keeps_sound(pre, vfs@, idx as int);
                }
            }
        }
        res
    }

    /// Plans appending `chunk` to the file, whose bytes so far number
    /// `total`. A handle on a directory plans nothing.
    pub fn import_chunk(&mut self, vfs: &mut Vfs, chunk: &[u8], total: usize) -> (ops: Vec<WriteOp>)
        requires
            old(self).id() < old(vfs)@.header.nodes.len(),
            old(vfs)@.header.nodes[old(self).id() as int] is File ==> ({
                let f = old(vfs)@.header.nodes[old(self).id() as int]->File_0;
                let w = write_layout(
                    chunk@.len(),
                    f.block_indices,
                    blocks_for(total as nat) as u32 as nat,
                    total as nat,
                );
                &&& total % BLOCK_CAPACITY != 0 ==> chunk@.len() >= BLOCK_CAPACITY - total % BLOCK_CAPACITY
                &&& w.tail_start < chunk@.len() ==> old(vfs)@.device.num_blocks + blocks_for(
                    (chunk@.len() - w.tail_start) as nat,
                ) <= u32::MAX
            }),
        ensures
            old(vfs)@.header.wf() ==> final(vfs)@.header.wf(),
            old(vfs)@.blocks_sound() ==> final(vfs)@.blocks_sound(),
            *final(self) == *old(self),
            final(vfs)@.header.strings == old(vfs)@.header.strings,
            match old(vfs)@.header.nodes[old(self).id() as int] {
                NodeView::File(f) => {
                    let len = chunk@.len();
                    let w = write_layout(len, f.block_indices, blocks_for(total as nat) as u32 as nat, total as nat);
                    let grown = if w.tail_start < len {
                        blocks_for((len - w.tail_start) as nat)
                    } else {
                        0
                    };
                    &&& ops@ == write_ops(len, f.block_indices, w)
                    &&& final(vfs)@.header.nodes == old(vfs)@.header.nodes.update(
                        old(self).id() as int,
                        NodeView::File(FileView {
                            block_indices: f.block_indices + block_run(old(vfs)@.device.num_blocks, grown),
                            ..f
                        }),
                    )
                    &&& final(vfs)@.device == BlockDeviceView {
                        num_blocks: (old(vfs)@.device.num_blocks + grown) as u32,
                        ..old(vfs)@.device
                    }
                    &&& file_blocks_sound(f, old(vfs)@.device.num_blocks) && f.block_indices.len()
                        == blocks_for(total as nat) && f.block_indices.len() <= u32::MAX
                        && total % BLOCK_CAPACITY == 0 && total + len > 0
                        && total + len <= usize::MAX && old(vfs)@.device.num_blocks + blocks_for(len)
                        <= u32::MAX ==> forall|img: Seq<u8>, before: Seq<u8>|
                        #![trigger run_writes(img, chunk@, ops@), before + chunk@]
                        img.len() == block_start(old(vfs)@.device.num_blocks) && before.len() == total && (
                        total > 0 ==> run_reads(img, read_ops(f.block_indices, total as nat)) == before)
                            ==> run_reads(
                            run_writes(img, chunk@, ops@),
                            read_ops(f.block_indices + block_run(old(vfs)@.device.num_blocks, grown), (total + len) as nat),
                        ) == before + chunk@
                },
                NodeView::Directory(_) => ops@ == Seq::<WriteOp>::empty() && final(vfs)@ == old(vfs)@,
            },
    {
        let idx = self.file_id as usize;
        let ghost pre = vfs@;
        let node = vfs.header.node_buffer.remove(idx);
        let (node, ops) = match node {
            Node::File(mut file_data) => {
                let ghost f = file_data@;
                let ops = vfs.block_device.append(
                    chunk.len(),
                    &mut file_data.block_indices,
                    total,
                );
                proof {
                    let num = pre.device.num_blocks;
                    let len = chunk@.len();
                    if file_blocks_sound(f, num) && f.block_indices.len() == blocks_for(total as nat)
                        && f.block_indices.len() <= u32::MAX && total % BLOCK_CAPACITY == 0 && total + len > 0 && total + len <= usize::MAX
                        && num + blocks_for(len) <= u32::MAX {
                        assert forall|img: Seq<u8>, before: Seq<u8>|
                            #![trigger run_writes(img, chunk@, ops@), before + chunk@]
                            img.len() == block_start(num) && before.len() == total && (total > 0
                                ==> run_reads(img, read_ops(f.block_indices, total as nat)) == before)
                            implies run_reads(
                            run_writes(img, chunk@, ops@),
                            read_ops(f.block_indices + block_run(num, grown_by_append(len, f.block_indices, total as nat)), (total + len) as nat),
                        ) == before + chunk@ by {
                            lemma_append_then_read(img, before, chunk@, f.block_indices, num);
                        }
                    }
                }
                (Node::File(file_data), ops)
            },
            Node::Directory(d) => (Node::Directory(d), Vec::new()),
        };
        vfs.header.node_buffer.insert(idx, node);
        proof {
            if pre.header.nodes[idx as int] is Directory {
                assert(vfs@.header.nodes =~= pre.header.nodes);
            } else {
                assert(vfs@.header.nodes =~= pre.header.nodes.update(idx as int, vfs@.header.nodes[idx as int]));
                if pre.header.wf() {
                    lemma_file_update_keeps_wf(pre.header, vfs@.header, idx as int);
                }
                if pre.blocks_sound() {
                    lemma_file_update_keeps_sound(pre, vfs@, idx as int);
                }
            }
        }
        ops
    }
}

} // verus!
