//! The data blocks of the image. After a header of `HEADER_SIZE` bytes, the
//! image holds blocks of `BLOCK_CAPACITY` bytes, numbered from 0; block `i`
//! starts at byte `HEADER_SIZE + i * BLOCK_CAPACITY`. The block device keeps
//! count of the blocks and decides which bytes go where; the operations that
//! read and write the image follow the plans that it makes.
use vstd::prelude::*;
use vstd::string::StringSliceAdditionalSpecFns;
use crate::fs_base::{
    BLOCK_CAPACITY, BLOCK_DEVICE_PREAMBLE, BUFFERED_IO_LIMIT, Error, ErrorKind, HEADER_SIZE,
    HEADER_TAIL, MAX_PROCESS_CAPACITY,
};
use crate::serde::{
    Decoded, be_bytes_u32, u32_of_be, decode_vec_u32, encode_vec_u32, lemma_vec_u32_roundtrip,
    lemma_u32_roundtrip, lemma_prefix_decodes, ser_vec_u32, deser_vec_u32, deser_u32, push_u32,
    push_bytes, starts_with,
};
use crate::traits::Serde;
use crate::string_buffer::string_from_utf8;
use vstd::utf8::{valid_utf8, decode_utf8};

verus! {

pub struct BlockDevice {
    free_blocks: Vec<u32>,
    num_blocks: u32,
}

pub struct BlockDeviceView {
    pub free_blocks: Seq<u32>,
    /// The number of blocks allocated in the image.
    pub num_blocks: u32,
}

impl View for BlockDevice {
    type V = BlockDeviceView;

    closed spec fn view(&self) -> BlockDeviceView {
        BlockDeviceView {
            free_blocks: self.free_blocks@,
            num_blocks: self.num_blocks,
        }
    }
}

/// The number of blocks that `size` bytes fill, the last one perhaps in part.
pub open spec fn blocks_for(size: nat) -> nat {
    if size % (BLOCK_CAPACITY as nat) == 0 {
        size / (BLOCK_CAPACITY as nat)
    } else {
        size / (BLOCK_CAPACITY as nat) + 1
    }
}

/// Where block `index` starts in the image.
pub open spec fn block_start(index: u32) -> nat {
    (HEADER_SIZE + index * BLOCK_CAPACITY) as nat
}

/// The bytes that pad `len` bytes at the end of the image to a whole number
/// of blocks; a length that is already a multiple of the block size gets a
/// whole block of padding.
pub open spec fn padding_for(len: nat) -> nat {
    (BLOCK_CAPACITY - len % (BLOCK_CAPACITY as nat)) as nat
}

pub open spec fn min(a: int, b: int) -> int {
    if a <= b {
        a
    } else {
        b
    }
}

/// One step of writing a buffer to the image.
#[derive(PartialEq, Eq, Structural, Clone, Copy, Debug)]
pub enum WriteOp {
    /// Write bytes `start..end` of the buffer at byte `offset` of the image.
    WriteAt { offset: u64, start: usize, end: usize },
    /// Append bytes `start..end` of the buffer at the end of the image.
    Append { start: usize, end: usize },
    /// Append `count` copies of `byte` at the end of the image.
    Fill { byte: u8, count: usize },
}

/// One step of reading blocks of the image into a buffer.
#[derive(PartialEq, Eq, Structural, Clone, Copy, Debug)]
pub struct ReadOp {
    /// Where in the image to read.
    pub offset: u64,
    /// Where in the buffer the bytes go.
    pub start: usize,
    /// How many bytes to read.
    pub len: usize,
}

/// How `write_from` lays out a buffer of `len` bytes over the file's blocks
/// `blocks`, starting at position `block_ind` of that list, for a file whose
/// size was `file_size`.
pub struct WriteLayout {
    /// Where the bytes that complete a partly filled last block go, if any.
    pub head: Option<u64>,
    /// The first byte of the buffer written into existing blocks.
    pub body_start: nat,
    /// The position in `blocks` of the first existing block written.
    pub first_block: nat,
    /// The number of existing blocks written.
    pub body_blocks: nat,
    /// The first byte of the buffer appended in new blocks.
    pub tail_start: nat,
}

pub open spec fn write_layout(len: nat, blocks: Seq<u32>, block_ind: nat, file_size: nat) -> WriteLayout {
    let from = file_size % (BLOCK_CAPACITY as nat);
    let head: Option<u64> = if from == 0 {
        None
    } else {
        Some((HEADER_SIZE + from + (block_ind as u32) * BLOCK_CAPACITY) as u64)
    };
    let body_start: nat = if from == 0 {
        0
    } else {
        (BLOCK_CAPACITY - from) as nat
    };
    let first_block: nat = if from == 0 {
        block_ind
    } else {
        block_ind + 1
    };
    let avail: nat = if first_block < blocks.len() {
        (blocks.len() - first_block) as nat
    } else {
        0
    };
    let body_blocks = min(avail as int, blocks_for((len - body_start) as nat) as int) as nat;
    let tail_start = min(body_start + body_blocks * BLOCK_CAPACITY, len as int) as nat;
    WriteLayout { head, body_start, first_block, body_blocks, tail_start }
}

/// The steps that `write_from` takes for the layout `w` of `len` bytes.
pub open spec fn write_ops(len: nat, blocks: Seq<u32>, w: WriteLayout) -> Seq<WriteOp> {
    let head: Seq<WriteOp> = match w.head {
        Some(offset) => seq![WriteOp::WriteAt { offset, start: 0, end: w.body_start as usize }],
        None => Seq::empty(),
    };
    let body = Seq::new(
        w.body_blocks,
        |i: int|
            WriteOp::WriteAt {
                offset: block_start(blocks[w.first_block + i]) as u64,
                start: (w.body_start + i * BLOCK_CAPACITY) as usize,
                end: min(w.body_start + (i + 1) * BLOCK_CAPACITY, len as int) as usize,
            },
    );
    let tail: Seq<WriteOp> = if w.tail_start < len {
        seq![
            WriteOp::Append { start: w.tail_start as usize, end: len as usize },
            WriteOp::Fill { byte: 95u8, count: padding_for((len - w.tail_start) as nat) as usize },
        ]
    } else {
        Seq::empty()
    };
    head + body + tail
}

/// The blocks numbered `first, first + 1, ...`, `count` of them.
pub open spec fn block_run(first: u32, count: nat) -> Seq<u32> {
    Seq::new(count, |i: int| (first + i) as u32)
}

impl BlockDevice {
    pub fn new() -> (res: Self)
        ensures
            res@ == (BlockDeviceView { free_blocks: Seq::empty(), num_blocks: 0 }),
    {
        let res = Self { free_blocks: Vec::new(), num_blocks: 0u32 };
        assert(res@.free_blocks =~= Seq::<u32>::empty());
        res
    }

    pub fn from(free_blocks: Vec<u32>, num_blocks: u32) -> (res: Self)
        ensures
            res@ == (BlockDeviceView { free_blocks: free_blocks@, num_blocks }),
    {
        Self { free_blocks, num_blocks }
    }

    /// The number of blocks allocated in the image.
    pub fn num_blocks(&self) -> (res: u32)
        ensures
            res == self@.num_blocks,
    {
        self.num_blocks
    }

    /// The number of blocks that `size` bytes fill, cut to 32 bits.
    pub fn size_in_blocks(size: usize) -> (res: u32)
        ensures
            res == blocks_for(size as nat) as u32,
    {
        let mut blocks = size / BLOCK_CAPACITY;
        if size % BLOCK_CAPACITY != 0 {
            blocks += 1;
        }
        #[verifier::truncate]
        let r = blocks as u32;
        r
    }

    pub fn buffer_in_blocks(buffer: &[u8]) -> (res: u32)
        ensures
            res == blocks_for(buffer@.len()) as u32,
    {
        Self::size_in_blocks(buffer.len())
    }

    /// Where block `index` starts in the image.
    pub fn block_offset(index: u32) -> (res: u64)
        ensures
            res == block_start(index),
    {
        let i = index as u64;
        assert(i * 8192 <= 4294967295 * 8192) by (nonlinear_arith)
            requires
                i <= 4294967295,
        ;
        HEADER_SIZE as u64 + i * BLOCK_CAPACITY as u64
    }

    /// The padding that follows `buffer_len` bytes appended to the image.
    pub fn block_padding(buffer_len: usize) -> (res: usize)
        ensures
            res == padding_for(buffer_len as nat),
            0 < res <= BLOCK_CAPACITY,
    {
        BLOCK_CAPACITY - buffer_len % BLOCK_CAPACITY
    }

    /// The number of '-' bytes that fill the header after `buffer_len` bytes
    /// of header data, leaving room for the header's closing mark.
    pub fn header_filler_len(buffer_len: usize) -> (res: usize)
        requires
            buffer_len + HEADER_TAIL.spec_bytes().len() <= HEADER_SIZE,
        ensures
            res == HEADER_SIZE - buffer_len - HEADER_TAIL.spec_bytes().len(),
    {
        HEADER_SIZE - buffer_len - HEADER_TAIL.len()
    }

    /// What follows `data_len` bytes of metadata written at the start of the
    /// image: where they do not fill the header region, '-' bytes up to the
    /// header's closing mark, which is written after them; nothing where the
    /// metadata fills the region or there is no room for '-' bytes.
    pub fn header_closing(data_len: usize) -> (res: Option<usize>)
        requires
            data_len < HEADER_SIZE ==> data_len + HEADER_TAIL.spec_bytes().len() <= HEADER_SIZE,
        ensures
            data_len >= HEADER_SIZE ==> res is None,
            data_len < HEADER_SIZE && data_len + HEADER_TAIL.spec_bytes().len() == HEADER_SIZE
                ==> res is None,
            data_len < HEADER_SIZE && data_len + HEADER_TAIL.spec_bytes().len() < HEADER_SIZE
                ==> res == Some((HEADER_SIZE - data_len - HEADER_TAIL.spec_bytes().len()) as usize),
    {
        if data_len < HEADER_SIZE {
            let remainder = Self::header_filler_len(data_len);
            if remainder == 0 {
                return None;
            }
            return Some(remainder);
        }
        None
    }
}

/// Whole blocks before the `i`-th one hold fewer than `r` bytes exactly when
/// `r` bytes fill more than `i` blocks.
pub proof fn lemma_blocks_for(r: nat, i: nat)
    ensures
        (i * BLOCK_CAPACITY < r) == (i < blocks_for(r)),
        blocks_for(r) * BLOCK_CAPACITY >= r,
        r > 0 ==> blocks_for(r) > 0,
{
    assert((i * 8192 < r) == (i < (if r % 8192 == 0 { r / 8192 } else { r / 8192 + 1 })))
        by (nonlinear_arith);
    assert((if r % 8192 == 0 { r / 8192 } else { r / 8192 + 1 }) * 8192 >= r) by (nonlinear_arith);
}

impl BlockDevice {
    /// Plans writing `buffer_len` bytes of a buffer as the whole content of a
    /// file whose blocks are `block_indices`: its blocks take the bytes in
    /// order, and the rest goes to new blocks at the end of the image.
    pub fn write(&mut self, buffer_len: usize, block_indices: &mut Vec<u32>) -> (ops: Vec<WriteOp>)
        requires
            ({
                let w = write_layout(buffer_len as nat, old(block_indices)@, 0, 0);
                w.tail_start < buffer_len ==> old(self)@.num_blocks + blocks_for(
                    (buffer_len - w.tail_start) as nat,
                ) <= u32::MAX
            }),
        ensures
            ({
                let w = write_layout(buffer_len as nat, old(block_indices)@, 0, 0);
                let grown = if w.tail_start < buffer_len {
                    blocks_for((buffer_len - w.tail_start) as nat)
                } else {
                    0
                };
                &&& ops@ == write_ops(buffer_len as nat, old(block_indices)@, w)
                &&& final(block_indices)@ == old(block_indices)@ + block_run(old(self)@.num_blocks, grown)
                &&& final(self)@ == BlockDeviceView { num_blocks: (old(self)@.num_blocks + grown) as u32, ..old(self)@ }
            }),
    {
        self.write_from(buffer_len, block_indices, 0, 0)
    }
}

impl BlockDevice {
    /// Plans writing `buffer_len` bytes of a buffer into a file whose blocks
    /// are `block_indices`, from position `block_ind` of that list, for a
    /// file that held `vfs_file_size` bytes. Where the file's size is not a
    /// multiple of the block size, the bytes that complete its last block go
    /// first, into block number `block_ind` at the size's offset within a
    /// block; then each existing block from the next position takes up to a
    /// block of bytes; the rest is appended to the image in new blocks,
    /// followed by '_' padding, and the new blocks are added to the file's
    /// list and to the count.
    fn write_from(
        &mut self,
        buffer_len: usize,
        block_indices: &mut Vec<u32>,
        block_ind: usize,
        vfs_file_size: usize,
    ) -> (ops: Vec<WriteOp>)
        requires
            vfs_file_size % BLOCK_CAPACITY != 0 ==> buffer_len >= BLOCK_CAPACITY - vfs_file_size
                % BLOCK_CAPACITY && block_ind < usize::MAX,
            ({
                let w = write_layout(buffer_len as nat, old(block_indices)@, block_ind as nat, vfs_file_size as nat);
                w.tail_start < buffer_len ==> old(self)@.num_blocks + blocks_for(
                    (buffer_len - w.tail_start) as nat,
                ) <= u32::MAX
            }),
        ensures
            ({
                let w = write_layout(buffer_len as nat, old(block_indices)@, block_ind as nat, vfs_file_size as nat);
                let grown = if w.tail_start < buffer_len {
                    blocks_for((buffer_len - w.tail_start) as nat)
                } else {
                    0
                };
                &&& ops@ == write_ops(buffer_len as nat, old(block_indices)@, w)
                &&& final(block_indices)@ == old(block_indices)@ + block_run(old(self)@.num_blocks, grown)
                &&& final(self)@ == BlockDeviceView { num_blocks: (old(self)@.num_blocks + grown) as u32, ..old(self)@ }
            }),
    {
        let ghost blocks = block_indices@;
        let ghost w = write_layout(buffer_len as nat, blocks, block_ind as nat, vfs_file_size as nat);
        let ghost len = buffer_len as nat;
        let mut ops: Vec<WriteOp> = Vec::new();
        let from = vfs_file_size % BLOCK_CAPACITY;
        let mut pos: usize = 0;
        let block_ind_start = if from != 0 {
            let remainder = BLOCK_CAPACITY - from;
            #[verifier::truncate]
            let b = block_ind as u32;
            assert(b * 8192 <= 4294967295 * 8192) by (nonlinear_arith)
                requires
                    b <= 4294967295,
            ;
            let offset = HEADER_SIZE as u64 + from as u64 + b as u64 * BLOCK_CAPACITY as u64;
            ops.push(WriteOp::WriteAt { offset, start: 0, end: remainder });
            pos = remainder;
            block_ind + 1
        } else {
            block_ind
        };
        let ghost head = ops@;
        assert(head == write_ops(len, blocks, w).subrange(0, head.len() as int));
        let mut idx = block_ind_start;
        let mut done = false;
        while idx < block_indices.len() && !done
            invariant
                blocks == block_indices@,
                w == write_layout(len, blocks, block_ind as nat, vfs_file_size as nat),
                len == buffer_len,
                pos == min(w.body_start + (idx - w.first_block) * BLOCK_CAPACITY, len as int),
                idx > w.first_block ==> w.body_start + (idx - w.first_block - 1) * BLOCK_CAPACITY < len,
                w.first_block == block_ind_start,
                block_ind_start <= idx,
                idx <= blocks.len() || idx == block_ind_start,
                pos <= len,
                done ==> pos == len,
                ops@ == head + Seq::new(
                    (idx - w.first_block) as nat,
                    |i: int|
                        WriteOp::WriteAt {
                            offset: block_start(blocks[w.first_block + i]) as u64,
                            start: (w.body_start + i * BLOCK_CAPACITY) as usize,
                            end: min(w.body_start + (i + 1) * BLOCK_CAPACITY, len as int) as usize,
                        },
                ),
                head.len() == if w.head is Some { 1int } else { 0int },
            decreases block_indices@.len() - idx, (if done { 0int } else { 1int }),
        {
            if pos == buffer_len {
                done = true;
            } else {
                let left = buffer_len - pos;
                let write_len = if MAX_PROCESS_CAPACITY < left { MAX_PROCESS_CAPACITY } else { left };
                let offset = Self::block_offset(block_indices[idx]);
                let ghost k = (idx - w.first_block) as int;
                proof {
                    assert(BLOCK_CAPACITY == 8192);
                    assert(MAX_PROCESS_CAPACITY == 8192);
                    assert(pos == w.body_start + k * BLOCK_CAPACITY);
                    assert((k + 1) * BLOCK_CAPACITY == k * BLOCK_CAPACITY + BLOCK_CAPACITY);
                }
                ops.push(WriteOp::WriteAt { offset, start: pos, end: pos + write_len });
                pos = pos + write_len;
                idx = idx + 1;
                proof {
                    assert(idx - w.first_block - 1 == k);
                    assert(ops@ =~= head + Seq::new(
                        (idx - w.first_block) as nat,
                        |i: int|
                            WriteOp::WriteAt {
                                offset: block_start(blocks[w.first_block + i]) as u64,
                                start: (w.body_start + i * BLOCK_CAPACITY) as usize,
                                end: min(w.body_start + (i + 1) * BLOCK_CAPACITY, len as int) as usize,
                            },
                    ));
                }
            }
        }
        proof {
            let k = (idx - w.first_block) as nat;
            let r = (len - w.body_start) as nat;
            lemma_blocks_for(r, k);
            if k > 0 {
                lemma_blocks_for(r, (k - 1) as nat);
                assert((k - 1) * BLOCK_CAPACITY < r);
            }
            if done {
                assert(w.body_start + k * BLOCK_CAPACITY >= len);
                assert(k >= blocks_for(r));
            } else {
                assert(idx == blocks.len() || (idx == w.first_block && w.first_block >= blocks.len()));
            }
            assert(k == w.body_blocks);
            assert(pos == w.tail_start);
        }
        let ghost body_ops = ops@;
        if pos < buffer_len {
            let left = buffer_len - pos;
            let new_blocks = Self::size_in_blocks(left);
            ops.push(WriteOp::Append { start: pos, end: buffer_len });
            ops.push(WriteOp::Fill { byte: 95u8, count: Self::block_padding(left) });
            let mut i: u32 = 0;
            while i < new_blocks
                invariant
                    i <= new_blocks,
                    new_blocks == blocks_for(left as nat),
                    self@ == old(self)@,
                    self@.num_blocks + new_blocks <= u32::MAX,
                    block_indices@ == blocks + block_run(self@.num_blocks, i as nat),
                decreases new_blocks - i,
            {
                block_indices.push(i + self.num_blocks);
                i = i + 1;
                assert(block_indices@ =~= blocks + block_run(self@.num_blocks, i as nat));
            }
            self.num_blocks = self.num_blocks + new_blocks;
        } else {
            assert(block_indices@ =~= blocks + block_run(old(self)@.num_blocks, 0));
        }
        assert(ops@ =~= write_ops(len, blocks, w));
        ops
    }
}

/// The reads that take `size` bytes of a file from its blocks, block by
/// block; an empty file still reads its first block, for no bytes.
pub open spec fn read_ops(blocks: Seq<u32>, size: nat) -> Seq<ReadOp> {
    let k = if size == 0 {
        1
    } else {
        blocks_for(size)
    };
    Seq::new(
        k,
        |i: int|
            ReadOp {
                offset: block_start(blocks[i]) as u64,
                start: (i * BLOCK_CAPACITY) as usize,
                len: min(BLOCK_CAPACITY as int, size - i * BLOCK_CAPACITY) as usize,
            },
    )
}

/// The number of bytes that a buffered read starting at block position
/// `from` of a file of `file_size` bytes in `count` blocks takes: a whole
/// buffer, except for the last buffer of the file, which takes the rest.
pub open spec fn chunk_size(count: nat, from: nat, file_size: nat) -> nat {
    if from + BUFFERED_IO_LIMIT / BLOCK_CAPACITY >= count {
        file_size % (BUFFERED_IO_LIMIT as nat)
    } else {
        BUFFERED_IO_LIMIT as nat
    }
}

/// The number of blocks that a buffered read from block position `from`
/// reads: enough for `chunk_size` bytes, at least one, and no more than the
/// file has left.
pub open spec fn chunk_blocks(count: nat, from: nat, file_size: nat) -> nat {
    let total = chunk_size(count, from, file_size);
    if from >= count {
        0
    } else {
        min(
            (count - from) as int,
            if total == 0 {
                1
            } else {
                blocks_for(total) as int
            },
        ) as nat
    }
}

pub open spec fn chunk_ops(blocks: Seq<u32>, from: nat, file_size: nat) -> Seq<ReadOp> {
    let total = chunk_size(blocks.len(), from, file_size);
    Seq::new(
        chunk_blocks(blocks.len(), from, file_size),
        |i: int|
            ReadOp {
                offset: block_start(blocks[from + i]) as u64,
                start: (i * BLOCK_CAPACITY) as usize,
                len: min(BLOCK_CAPACITY as int, total - i * BLOCK_CAPACITY) as usize,
            },
    )
}

/// `size - shift` bytes fill as many blocks fewer than `size` bytes as
/// `shift` is whole blocks.
pub(crate) proof fn lemma_blocks_for_shift(size: nat, k: nat)
    requires
        k * BLOCK_CAPACITY < size,
    ensures
        blocks_for((size - k * BLOCK_CAPACITY) as nat) == blocks_for(size) - k,
{
    let b = BLOCK_CAPACITY as int;
    let x = size as int;
    let y = x - k * b;
    vstd::arithmetic::div_mod::lemma_fundamental_div_mod(x, b);
    let q = x / b;
    let r = x % b;
    assert(y == (q - k) * b + r) by (nonlinear_arith)
        requires
            x == b * q + r,
            y == x - k * b,
    ;
    vstd::arithmetic::div_mod::lemma_fundamental_div_mod_converse(y, b, q - k, r);
}

/// Reading a file buffer by buffer, from its first block on, reads the same
/// blocks for the same bytes as reading it whole, where the file has as many
/// blocks as its bytes fill and its size is not a multiple of the buffer:
/// the `c`-th buffered read takes up to `BUFFERED_IO_LIMIT / BLOCK_CAPACITY`
/// blocks from position `c * (BUFFERED_IO_LIMIT / BLOCK_CAPACITY)` on, its
/// bytes are the next `BUFFERED_IO_LIMIT` of the file or the rest of them,
/// each block's bytes go where they go in the whole read less the bytes of
/// the buffers before, and once every block is read a further read takes
/// none.
pub proof fn lemma_buffered_reads_cover_file(blocks: Seq<u32>, size: nat, c: nat)
    requires
        blocks.len() == blocks_for(size),
        size <= usize::MAX,
        size % (BUFFERED_IO_LIMIT as nat) != 0,
    ensures
        chunk_blocks(blocks.len(), blocks.len(), size) == 0,
        c * 64 < blocks.len() ==> ({
            let from = c * 64;
            let ops = chunk_ops(blocks, from, size);
            let whole = read_ops(blocks, size);
            &&& chunk_size(blocks.len(), from, size) == min(
                BUFFERED_IO_LIMIT as int,
                size - c * BUFFERED_IO_LIMIT,
            )
            &&& ops.len() == min(64, blocks.len() - from)
            &&& min(chunk_size(blocks.len(), from, size) as int, ops.len() * BLOCK_CAPACITY) == min(
                BUFFERED_IO_LIMIT as int,
                size - c * BUFFERED_IO_LIMIT,
            )
            &&& forall|i: int|
                0 <= i < ops.len() ==> {
                    &&& #[trigger] ops[i].offset == whole[from + i].offset
                    &&& ops[i].start == whole[from + i].start - c * BUFFERED_IO_LIMIT
                    &&& ops[i].len == whole[from + i].len
                }
        }),
{
    assert(BLOCK_CAPACITY == 8192);
    assert(BUFFERED_IO_LIMIT == 524288);
    let n = blocks.len();
    if c * 64 < n {
        let from = c * 64;
        let ops = chunk_ops(blocks, from, size);
        let whole = read_ops(blocks, size);
        assert(size > 0);
        lemma_blocks_for(size, from);
        assert(c * 524288 < size);
        if from + 64 >= n {
            lemma_blocks_for(size, from + 64);
            assert(size <= c * 524288 + 524288);
            assert(size < c * 524288 + 524288) by {
                if size == c * 524288 + 524288 {
                    vstd::arithmetic::div_mod::lemma_fundamental_div_mod_converse(
                        size as int,
                        524288,
                        (c + 1) as int,
                        0,
                    );
                }
            }
            vstd::arithmetic::div_mod::lemma_fundamental_div_mod_converse(
                size as int,
                524288,
                c as int,
                size - c * 524288,
            );
            let total = chunk_size(n, from, size);
            assert(total == size - c * 524288);
            lemma_blocks_for_shift(size, from);
            assert(blocks_for(total) == n - from);
            assert(ops.len() == n - from);
            assert forall|i: int| 0 <= i < ops.len() implies {
                &&& #[trigger] ops[i].offset == whole[from + i].offset
                &&& ops[i].start == whole[from + i].start - c * BUFFERED_IO_LIMIT
                &&& ops[i].len == whole[from + i].len
            } by {
                lemma_blocks_for(size, (from + i) as nat);
                assert((from + i) * 8192 < size);
                assert(ops[i].start == i * 8192);
                assert(whole[from + i].start == (from + i) * 8192);
            }
        } else {
            lemma_blocks_for(size, from + 64);
            assert(c * 524288 + 524288 < size);
            let total = chunk_size(n, from, size);
            assert(total == 524288);
            assert(blocks_for(524288) == 64);
            assert(ops.len() == 64);
            assert forall|i: int| 0 <= i < ops.len() implies {
                &&& #[trigger] ops[i].offset == whole[from + i].offset
                &&& ops[i].start == whole[from + i].start - c * BUFFERED_IO_LIMIT
                &&& ops[i].len == whole[from + i].len
            } by {
                lemma_blocks_for(size, (from + i + 1) as nat);
                assert((from + i + 1) * 8192 < size);
                assert(ops[i].start == i * 8192);
                assert(ops[i].len == 8192);
                assert(whole[from + i].start == (from + i) * 8192);
                assert(whole[from + i].len == 8192);
            }
        }
    }
}

impl BlockDevice {
    /// Plans reading the first `size` bytes of a file from its blocks, in
    /// order, each block giving up to a block of bytes.
    pub fn read(block_indices: &[u32], size: usize) -> (ops: Vec<ReadOp>)
        requires
            size <= block_indices@.len() * BLOCK_CAPACITY,
            block_indices@.len() > 0,
        ensures
            ops@ == read_ops(block_indices@, size as nat),
    {
        let ghost blocks = block_indices@;
        let mut ops: Vec<ReadOp> = Vec::new();
        let mut left_to_read = size;
        let mut i: usize = 0;
        let mut finished = false;
        proof {
            lemma_blocks_for(size as nat, blocks.len());
        }
        while i < block_indices.len() && !finished
            invariant
                blocks == block_indices@,
                size <= blocks.len() * BLOCK_CAPACITY,
                blocks.len() > 0,
                i <= blocks.len(),
                !finished ==> left_to_read == size - i * BLOCK_CAPACITY,
                finished ==> i > 0 && left_to_read == 0 && (i - 1) * BLOCK_CAPACITY < size || size == 0 && i == 1,
                finished ==> i == (if size == 0 { 1 } else { blocks_for(size as nat) }),
                !finished ==> i < (if size == 0 { 1 } else { blocks_for(size as nat) }) || i == 0,
                ops@ == read_ops(blocks, size as nat).subrange(0, i as int),
            decreases blocks.len() - i, (if finished { 0int } else { 1int }),
        {
            proof {
                assert(BLOCK_CAPACITY == 8192);
                lemma_blocks_for(size as nat, i as nat);
                lemma_blocks_for(size as nat, (i + 1) as nat);
            }
            let to_read = if left_to_read < BLOCK_CAPACITY { left_to_read } else { BLOCK_CAPACITY };
            let offset = Self::block_offset(block_indices[i]);
            ops.push(ReadOp { offset, start: i * BLOCK_CAPACITY, len: to_read });
            left_to_read = left_to_read - to_read;
            i = i + 1;
            if left_to_read == 0 {
                finished = true;
            }
            proof {
                assert(ops@ =~= read_ops(blocks, size as nat).subrange(0, i as int));
            }
        }
        proof {
            lemma_blocks_for(size as nat, i as nat);
        }
        assert(ops@ =~= read_ops(blocks, size as nat));
        ops
    }
}

impl BlockDevice {
    /// Plans the buffered read that follows block position `*from` of a file
    /// of `file_size` bytes, and moves `*from` past the blocks it reads; also
    /// gives the number of bytes the reads take.
    pub fn read_from(block_indices: &[u32], file_size: usize, from: &mut u32) -> (res: (
        Vec<ReadOp>,
        usize,
    ))
        requires
            *old(from) <= block_indices@.len(),
            block_indices@.len() > 0,
            *old(from) + chunk_blocks(block_indices@.len(), *old(from) as nat, file_size as nat)
                <= u32::MAX,
        ensures
            res.0@ == chunk_ops(block_indices@, *old(from) as nat, file_size as nat),
            *final(from) == *old(from) + chunk_blocks(
                block_indices@.len(),
                *old(from) as nat,
                file_size as nat,
            ),
            res.1 == min(
                chunk_size(block_indices@.len(), *old(from) as nat, file_size as nat) as int,
                chunk_blocks(block_indices@.len(), *old(from) as nat, file_size as nat)
                    * BLOCK_CAPACITY,
            ),
    {
        let ghost blocks = block_indices@;
        let ghost from0 = *from as nat;
        let len = block_indices.len();
        let max_future_blocks_read = BUFFERED_IO_LIMIT / BLOCK_CAPACITY;
        let total_to_read = if *from as usize >= len || len - (*from as usize)
            <= max_future_blocks_read {
            file_size % BUFFERED_IO_LIMIT
        } else {
            BUFFERED_IO_LIMIT
        };
        let ghost total = total_to_read as nat;
        assert(total == chunk_size(blocks.len(), from0, file_size as nat));
        let ghost kmax: nat = if total == 0 {
            1
        } else {
            blocks_for(total)
        };
        let mut ops: Vec<ReadOp> = Vec::new();
        let mut left_to_read = total_to_read;
        let mut start: usize = 0;
        let mut i: usize = *from as usize;
        let mut finished = false;
        proof {
            assert(BLOCK_CAPACITY == 8192);
            assert(BUFFERED_IO_LIMIT == 8192 * 64);
            lemma_blocks_for(total, 64);
        }
        while i < len && !finished
            invariant
                blocks == block_indices@,
                len == blocks.len(),
                from0 <= i <= len,
                *from == i,
                total == chunk_size(blocks.len(), from0, file_size as nat),
                total <= BUFFERED_IO_LIMIT,
                kmax == (if total == 0 { 1 } else { blocks_for(total) }),
                from0 + chunk_blocks(blocks.len(), from0, file_size as nat) <= u32::MAX,
                start == min(total as int, (i - from0) * BLOCK_CAPACITY),
                !finished ==> left_to_read == total - (i - from0) * BLOCK_CAPACITY && (i - from0)
                    < kmax,
                finished ==> i - from0 == kmax && left_to_read == 0,
                ops@ == chunk_ops(blocks, from0, file_size as nat).subrange(0, (i - from0) as int),
            decreases len - i, (if finished { 0int } else { 1int }),
        {
            let ghost k = (i - from0) as nat;
            proof {
                assert(BLOCK_CAPACITY == 8192);
                lemma_blocks_for(total, k);
                lemma_blocks_for(total, k + 1);
                assert(k < chunk_blocks(blocks.len(), from0, file_size as nat));
            }
            let to_read = if left_to_read < BLOCK_CAPACITY { left_to_read } else { BLOCK_CAPACITY };
            let offset = Self::block_offset(block_indices[i]);
            ops.push(ReadOp { offset, start, len: to_read });
            left_to_read = left_to_read - to_read;
            start = start + to_read;
            *from = *from + 1;
            i = i + 1;
            if left_to_read == 0 {
                finished = true;
            }
            proof {
                assert(ops@ =~= chunk_ops(blocks, from0, file_size as nat).subrange(0, (i - from0) as int));
            }
        }
        proof {
            lemma_blocks_for(total, (i - from0) as nat);
            assert(i - from0 == chunk_blocks(blocks.len(), from0, file_size as nat));
        }
        assert(ops@ =~= chunk_ops(blocks, from0, file_size as nat));
        (ops, start)
    }
}

impl BlockDevice {
    /// Plans appending `buffer_len` bytes to a file of `vfs_file_size` bytes:
    /// a write that starts at the position in the file's list of blocks that
    /// is the number of blocks its bytes fill.
    pub fn append(
        &mut self,
        buffer_len: usize,
        block_indices: &mut Vec<u32>,
        vfs_file_size: usize,
    ) -> (ops: Vec<WriteOp>)
        requires
            vfs_file_size % BLOCK_CAPACITY != 0 ==> buffer_len >= BLOCK_CAPACITY - vfs_file_size
                % BLOCK_CAPACITY,
            ({
                let w = write_layout(
                    buffer_len as nat,
                    old(block_indices)@,
                    blocks_for(vfs_file_size as nat) as u32 as nat,
                    vfs_file_size as nat,
                );
                w.tail_start < buffer_len ==> old(self)@.num_blocks + blocks_for(
                    (buffer_len - w.tail_start) as nat,
                ) <= u32::MAX
            }),
        ensures
            ({
                let w = write_layout(
                    buffer_len as nat,
                    old(block_indices)@,
                    blocks_for(vfs_file_size as nat) as u32 as nat,
                    vfs_file_size as nat,
                );
                let grown = if w.tail_start < buffer_len {
                    blocks_for((buffer_len - w.tail_start) as nat)
                } else {
                    0
                };
                &&& ops@ == write_ops(buffer_len as nat, old(block_indices)@, w)
                &&& final(block_indices)@ == old(block_indices)@ + block_run(old(self)@.num_blocks, grown)
                &&& final(self)@ == BlockDeviceView { num_blocks: (old(self)@.num_blocks + grown) as u32, ..old(self)@ }
            }),
    {
        let unfilled_block_index = Self::size_in_blocks(vfs_file_size);
        self.write_from(buffer_len, block_indices, unfilled_block_index as usize, vfs_file_size)
    }
}

impl BlockDevice {
    /// The text that the bytes of a block encode, where they are UTF-8.
    pub fn block_text(block: Vec<u8>) -> (res: Option<String>)
        ensures
            res is Some <==> valid_utf8(block@),
            res is Some ==> res->0@ == decode_utf8(block@),
    {
        match string_from_utf8(block) {
            Ok(text) => Some(text),
            Err(_) => None,
        }
    }
}

/// The number of new blocks that a write of `len` bytes over `blocks`, from
/// position `block_ind`, for a file of `file_size` bytes, adds.
pub open spec fn grown_by(len: nat, blocks: Seq<u32>, block_ind: nat, file_size: nat) -> nat {
    let w = write_layout(len, blocks, block_ind, file_size);
    if w.tail_start < len {
        blocks_for((len - w.tail_start) as nat)
    } else {
        0
    }
}

fn blocks_for_exec(x: u64) -> (res: u64)
    ensures
        res == blocks_for(x as nat),
{
    if x % 8192 == 0 {
        x / 8192
    } else {
        x / 8192 + 1
    }
}

impl BlockDevice {
    /// The number of new blocks that writing `buffer_len` bytes over the
    /// file's blocks `block_indices`, from position `block_ind`, for a file
    /// of `vfs_file_size` bytes, adds to the count: what `write` (from
    /// position 0 of an empty file) and `append` ask to fit in 32 bits.
    pub fn blocks_added(buffer_len: usize, block_indices: &[u32], block_ind: u32, vfs_file_size: usize) -> (res: u64)
        requires
            vfs_file_size % BLOCK_CAPACITY != 0 ==> buffer_len >= BLOCK_CAPACITY - vfs_file_size
                % BLOCK_CAPACITY,
        ensures
            res == grown_by(buffer_len as nat, block_indices@, block_ind as nat, vfs_file_size as nat),
    {
        let ghost w = write_layout(buffer_len as nat, block_indices@, block_ind as nat, vfs_file_size as nat);
        let len = buffer_len as u64;
        let from = (vfs_file_size % BLOCK_CAPACITY) as u64;
        let body_start: u64 = if from == 0 { 0 } else { 8192 - from };
        let first_block: u64 = if from == 0 { block_ind as u64 } else { block_ind as u64 + 1 };
        let count = block_indices.len() as u64;
        let avail: u64 = if first_block < count { count - first_block } else { 0 };
        let wanted = blocks_for_exec(len - body_start);
        let body_blocks = if avail <= wanted { avail } else { wanted };
        assert(body_blocks == w.body_blocks);
        let bb: u128 = body_blocks as u128;
        assert(bb * 8192 <= 0xffff_ffff_ffff_ffffu128 * 8192) by (nonlinear_arith)
            requires
                bb <= 0xffff_ffff_ffff_ffffu128,
        ;
        let end: u128 = body_start as u128 + bb * 8192;
        let tail_start: u64 = if end <= len as u128 { end as u64 } else { len };
        assert(tail_start == w.tail_start);
        if tail_start < len {
            blocks_for_exec(len - tail_start)
        } else {
            0
        }
    }
}

impl Default for BlockDevice {
    fn default() -> (res: Self)
        ensures
            res@ == (BlockDeviceView { free_blocks: Seq::empty(), num_blocks: 0 }),
    {
        Self::new()
    }
}

pub open spec fn device_preamble() -> Seq<u8> {
    BLOCK_DEVICE_PREAMBLE.spec_bytes()
}

impl Serde for BlockDevice {
    open spec fn serializable(v: BlockDeviceView) -> bool {
        v.free_blocks.len() <= u32::MAX
    }

    /// The preamble, the list of free blocks, then the number of blocks.
    open spec fn encode(v: BlockDeviceView) -> Seq<u8> {
        device_preamble() + encode_vec_u32(v.free_blocks) + be_bytes_u32(v.num_blocks)
    }

    /// Fails with `InvalidPreamble` on a missing preamble.
    open spec fn decode(bytes: Seq<u8>) -> Decoded<BlockDeviceView> {
        let p = device_preamble();
        if !(p.len() <= bytes.len() && bytes.subrange(0, p.len() as int) == p) {
            Decoded::Fails(ErrorKind::InvalidPreamble)
        } else {
            let b = bytes.skip(p.len() as int);
            match decode_vec_u32(b) {
                Decoded::Value(free_blocks, n) => if b.len() < n + 4 {
                    Decoded::Aborts
                } else {
                    Decoded::Value(
                        BlockDeviceView {
                            free_blocks,
                            num_blocks: u32_of_be(b.skip(n as int)),
                        },
                        p.len() + n + 4,
                    )
                },
                _ => Decoded::Aborts,
            }
        }
    }

    /// Everything is stored.
    open spec fn restored(v: BlockDeviceView) -> BlockDeviceView {
        v
    }

    fn serialize(&self) -> (res: Vec<u8>) {
        let mut res: Vec<u8> = Vec::new();
        push_bytes(&mut res, BLOCK_DEVICE_PREAMBLE.as_bytes());
        let f = ser_vec_u32(self.free_blocks.as_slice());
        push_bytes(&mut res, f.as_slice());
        push_u32(&mut res, self.num_blocks);
        res
    }

    /// A missing preamble is reported as "Did not find the preamble for
    /// block device", and leaves the buffer as it was.
    fn deserialize(buffer: &mut &[u8]) -> (res: Result<Self, Error>)
        ensures
            Self::decode(old(buffer)@) is Fails ==> res->Err_0.text()
                == "Did not find the preamble for block device"@ && final(buffer)@ == old(buffer)@,
    {
        let ghost start = buffer@;
        let pre = BLOCK_DEVICE_PREAMBLE.as_bytes();
        if !starts_with(*buffer, pre) {
            return Err(
                Error::InvalidPreamble("Did not find the preamble for block device".to_owned()),
            );
        }
        let b = *buffer;
        *buffer = &b[pre.len()..b.len()];
        let ghost after_pre = buffer@;
        let free_blocks = deser_vec_u32(buffer)?;
        let ghost mid = buffer@;
        let n_blocks = deser_u32(buffer)?;
        proof {
            let n = decode_vec_u32(after_pre)->Value_1;
            assert(mid == after_pre.skip(n as int));
            assert(buffer@ =~= start.skip((device_preamble().len() + n + 4) as int));
        }
        Ok(BlockDevice::from(free_blocks, n_blocks))
    }

    proof fn lemma_roundtrip(v: BlockDeviceView, rest: Seq<u8>) {
        let p = device_preamble();
        let f = encode_vec_u32(v.free_blocks);
        let c = be_bytes_u32(v.num_blocks);
        let b = Self::encode(v) + rest;
        assert(b =~= p + (f + (c + rest)));
        assert(b.subrange(0, p.len() as int) =~= p);
        assert(b.skip(p.len() as int) =~= f + (c + rest));
        lemma_vec_u32_roundtrip(v.free_blocks, c + rest);
        assert((f + (c + rest)).skip(f.len() as int) =~= c + rest);
        lemma_u32_roundtrip(v.num_blocks);
        lemma_prefix_decodes(c, rest);
    }
}

} // verus!
