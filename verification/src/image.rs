//! What the plans of the block device do to the bytes of an image, and the
//! guarantee that a file reads back what was written to it.
use vstd::prelude::*;
use crate::block_device::{
    ReadOp, WriteOp, block_run, block_start, blocks_for, lemma_blocks_for, lemma_blocks_for_shift,
    min, padding_for, read_ops, write_layout, write_ops,
};
use crate::fs_base::{BLOCK_CAPACITY, HEADER_SIZE};

verus! {

/// The image after `data` is written at `offset`; an image that ends before
/// `offset` is first extended with zero bytes.
pub open spec fn write_bytes(image: Seq<u8>, offset: nat, data: Seq<u8>) -> Seq<u8> {
    let n = if image.len() >= offset + data.len() {
        image.len()
    } else {
        offset + data.len()
    };
    Seq::new(
        n,
        |p: int|
            if offset <= p < offset + data.len() {
                data[p - offset]
            } else if p < image.len() {
                image[p]
            } else {
                0u8
            },
    )
}

/// The image after one write step, with `buf` the buffer being written.
pub open spec fn write_step(image: Seq<u8>, buf: Seq<u8>, op: WriteOp) -> Seq<u8> {
    match op {
        WriteOp::WriteAt { offset, start, end } => write_bytes(
            image,
            offset as nat,
            buf.subrange(start as int, end as int),
        ),
        WriteOp::Append { start, end } => image + buf.subrange(start as int, end as int),
        WriteOp::Fill { byte, count } => image + Seq::new(count as nat, |i: int| byte),
    }
}

/// The image after the write steps `ops`, in order.
pub open spec fn run_writes(image: Seq<u8>, buf: Seq<u8>, ops: Seq<WriteOp>) -> Seq<u8>
    decreases ops.len(),
{
    if ops.len() == 0 {
        image
    } else {
        write_step(run_writes(image, buf, ops.drop_last()), buf, ops.last())
    }
}

/// The bytes that the read steps `ops` take from `image`, one after another.
pub open spec fn run_reads(image: Seq<u8>, ops: Seq<ReadOp>) -> Seq<u8>
    decreases ops.len(),
{
    if ops.len() == 0 {
        Seq::empty()
    } else {
        run_reads(image, ops.drop_last()) + image.subrange(
            ops.last().offset as int,
            ops.last().offset + ops.last().len,
        )
    }
}

pub proof fn lemma_run_writes_concat(image: Seq<u8>, buf: Seq<u8>, a: Seq<WriteOp>, b: Seq<WriteOp>)
    ensures
        run_writes(image, buf, a + b) == run_writes(run_writes(image, buf, a), buf, b),
    decreases b.len(),
{
    if b.len() == 0 {
        assert(a + b =~= a);
    } else {
        lemma_run_writes_concat(image, buf, a, b.drop_last());
        assert((a + b).drop_last() =~= a + b.drop_last());
        assert((a + b).last() == b.last());
    }
}

/// Blocks with different numbers do not overlap.
pub proof fn lemma_blocks_apart(a: u32, b: u32)
    requires
        a < b,
    ensures
        block_start(a) + BLOCK_CAPACITY <= block_start(b),
        block_start(b) <= HEADER_SIZE + 4294967295 * 8192,
{
    assert(BLOCK_CAPACITY == 8192);
    assert(a * 8192 + 8192 <= b * 8192) by (nonlinear_arith)
        requires
            a < b,
    ;
    assert(b * 8192 <= 4294967295 * 8192) by (nonlinear_arith)
        requires
            b <= 4294967295,
    ;
}

/// The write steps into the existing blocks of a file whose list of
/// blocks is `blocks`, for a buffer of `len` bytes written from its start.
pub open spec fn body_ops(len: nat, blocks: Seq<u32>) -> Seq<WriteOp> {
    let w = write_layout(len, blocks, 0, 0);
    Seq::new(
        w.body_blocks,
        |i: int|
            WriteOp::WriteAt {
                offset: block_start(blocks[i]) as u64,
                start: (i * BLOCK_CAPACITY) as usize,
                end: min((i + 1) * BLOCK_CAPACITY, len as int) as usize,
            },
    )
}

/// The size of the `i`-th piece of `len` bytes cut into blocks.
pub open spec fn piece_len(len: nat, i: int) -> int {
    min(BLOCK_CAPACITY as int, len - i * BLOCK_CAPACITY)
}

/// Writing the first `t` pieces into distinct existing blocks leaves each of
/// them in its block, and the image as long as it was.
proof fn lemma_body_writes(image: Seq<u8>, buf: Seq<u8>, blocks: Seq<u32>, num: u32, t: nat)
    requires
        image.len() == block_start(num),
        forall|i: int| 0 <= i < blocks.len() ==> blocks[i] < num,
        blocks.no_duplicates(),
        buf.len() <= usize::MAX,
        t <= write_layout(buf.len(), blocks, 0, 0).body_blocks,
    ensures
        ({
            let img = run_writes(image, buf, body_ops(buf.len(), blocks).take(t as int));
            &&& img.len() == image.len()
            &&& forall|i: int, j: int|
                0 <= i < t && 0 <= j < piece_len(buf.len(), i) ==> #[trigger] img[block_start(
                    blocks[i],
                ) + j] == buf[i * BLOCK_CAPACITY + j]
        }),
    decreases t,
{
    let len = buf.len();
    let ops = body_ops(len, blocks);
    let w = write_layout(len, blocks, 0, 0);
    assert(BLOCK_CAPACITY == 8192);
    if t == 0 {
        assert(ops.take(0) =~= Seq::<WriteOp>::empty());
    } else {
        let s = (t - 1) as nat;
        lemma_body_writes(image, buf, blocks, num, s);
        let prev = run_writes(image, buf, ops.take(s as int));
        assert(ops.take(t as int).drop_last() =~= ops.take(s as int));
        let b = blocks[s as int];
        lemma_blocks_apart(b, num);
        lemma_blocks_for(len, s);
        assert(s * BLOCK_CAPACITY < len);
        let start = s * BLOCK_CAPACITY;
        let end = min((s + 1) * BLOCK_CAPACITY, len as int);
        let data = buf.subrange(start, end);
        assert(ops.take(t as int).last() == WriteOp::WriteAt {
            offset: block_start(b) as u64,
            start: start as usize,
            end: end as usize,
        });
        let img = write_bytes(prev, block_start(b), data);
        assert(run_writes(image, buf, ops.take(t as int)) == img);
        assert(img.len() == image.len());
        assert forall|i: int, j: int|
            0 <= i < t && 0 <= j < piece_len(len, i) implies #[trigger] img[block_start(blocks[i]) + j]
            == buf[i * BLOCK_CAPACITY + j] by {
            if i < s {
                assert(blocks[i] != b);
                if blocks[i] < b {
                    lemma_blocks_apart(blocks[i], b);
                } else {
                    lemma_blocks_apart(b, blocks[i]);
                }
                lemma_blocks_apart(blocks[i], num);
                assert(prev[block_start(blocks[i]) + j] == buf[i * BLOCK_CAPACITY + j]);
            } else {
                assert(i == s);
            }
        }
    }
}

pub open spec fn write_requirements(image: Seq<u8>, buf: Seq<u8>, blocks: Seq<u32>, num: u32) -> bool {
    &&& image.len() == block_start(num)
    &&& forall|i: int| 0 <= i < blocks.len() ==> blocks[i] < num
    &&& blocks.no_duplicates()
    &&& buf.len() <= usize::MAX
    &&& (buf.len() > 0 || blocks.len() > 0)
    &&& ({
        let w = write_layout(buf.len(), blocks, 0, 0);
        w.tail_start < buf.len() ==> num + blocks_for((buf.len() - w.tail_start) as nat)
            <= u32::MAX
    })
}

/// The blocks added by a write of `len` bytes over `blocks`.
pub open spec fn grown_blocks(len: nat, blocks: Seq<u32>) -> nat {
    let w = write_layout(len, blocks, 0, 0);
    if w.tail_start < len {
        blocks_for((len - w.tail_start) as nat)
    } else {
        0
    }
}

/// The image after the writes holds each piece written into an existing
/// block in that block, and the rest of the buffer after the old end.
proof fn lemma_final_image(image: Seq<u8>, buf: Seq<u8>, blocks: Seq<u32>, num: u32)
    requires
        write_requirements(image, buf, blocks, num),
        buf.len() > 0,
    ensures
        ({
            let len = buf.len();
            let w = write_layout(len, blocks, 0, 0);
            let img = run_writes(image, buf, write_ops(len, blocks, w));
            &&& img.len() >= image.len()
            &&& forall|i: int, j: int|
                0 <= i < w.body_blocks && 0 <= j < piece_len(len, i) ==> #[trigger] img[block_start(
                    blocks[i],
                ) + j] == buf[i * BLOCK_CAPACITY + j]
            &&& w.tail_start < len ==> w.tail_start == w.body_blocks * BLOCK_CAPACITY
            &&& w.tail_start < len ==> img.len() >= image.len() + (len - w.tail_start)
            &&& w.tail_start < len ==> forall|q: int|
                0 <= q < len - w.tail_start ==> #[trigger] img[image.len() + q] == buf[w.tail_start
                    + q]
        }),
{
    let len = buf.len();
    let w = write_layout(len, blocks, 0, 0);
    let k = w.body_blocks;
    assert(BLOCK_CAPACITY == 8192);
    lemma_blocks_for(len, k);
    let body = body_ops(len, blocks);
    let all = write_ops(len, blocks, w);
    let tail_ops: Seq<WriteOp> = if w.tail_start < len {
        seq![
            WriteOp::Append { start: w.tail_start as usize, end: len as usize },
            WriteOp::Fill { byte: 95u8, count: crate::block_device::padding_for((len - w.tail_start) as nat) as usize },
        ]
    } else {
        Seq::empty()
    };
    assert(all =~= body + tail_ops);
    lemma_body_writes(image, buf, blocks, num, k);
    assert(body.take(k as int) =~= body);
    let img_k = run_writes(image, buf, body);
    lemma_run_writes_concat(image, buf, body, tail_ops);
    let img = run_writes(img_k, buf, tail_ops);
    if w.tail_start < len {
        let a = img_k + buf.subrange(w.tail_start as int, len as int);
        let pad = crate::block_device::padding_for((len - w.tail_start) as nat) as usize;
        let f = a + Seq::new(pad as nat, |i: int| 95u8);
        assert(tail_ops.drop_last().drop_last() =~= Seq::<WriteOp>::empty());
        assert(tail_ops.drop_last() =~= seq![tail_ops[0]]);
        assert(run_writes(img_k, buf, tail_ops.drop_last().drop_last()) == img_k);
        assert(run_writes(img_k, buf, tail_ops.drop_last()) == a);
        assert(img == f);
        if k > 0 {
            lemma_blocks_for(len, (k - 1) as nat);
        }
        assert(w.tail_start == k * BLOCK_CAPACITY);
        assert forall|q: int| 0 <= q < len - w.tail_start implies #[trigger] img[image.len() + q]
            == buf[w.tail_start + q] by {
            assert(f[image.len() + q] == a[image.len() + q]);
        }
    } else {
        assert(tail_ops =~= Seq::<WriteOp>::empty());
        assert(img == img_k);
    }
    assert forall|i: int, j: int|
        0 <= i < k && 0 <= j < piece_len(len, i) implies #[trigger] img[block_start(blocks[i]) + j]
        == buf[i * BLOCK_CAPACITY + j] by {
        lemma_blocks_apart(blocks[i], num);
        assert(img_k[block_start(blocks[i]) + j] == buf[i * BLOCK_CAPACITY + j]);
    }
}

/// Block `a + d` starts `d` blocks after block `a`.
proof fn lemma_block_start_add(a: u32, d: int)
    requires
        0 <= d,
        a + d <= u32::MAX,
    ensures
        block_start((a + d) as u32) == block_start(a) + d * BLOCK_CAPACITY,
{
    assert(BLOCK_CAPACITY == 8192);
    assert((a + d) * 8192 == a * 8192 + d * 8192) by (nonlinear_arith);
}

/// Writing a buffer over a file's blocks and then reading the file's
/// blocks back gives the buffer: a write to a file whose blocks are distinct
/// blocks of the image, on an image that ends where its last block ends,
/// followed by a read of as many bytes as were written, yields the bytes
/// written. (A read needs a block to start from: an empty buffer is
/// written to a file that has one.)
pub proof fn lemma_write_then_read(image: Seq<u8>, buf: Seq<u8>, blocks: Seq<u32>, num: u32)
    requires
        write_requirements(image, buf, blocks, num),
    ensures
        run_reads(
            run_writes(image, buf, write_ops(buf.len(), blocks, write_layout(buf.len(), blocks, 0, 0))),
            read_ops(blocks + block_run(num, grown_blocks(buf.len(), blocks)), buf.len()),
        ) == buf,
{
    let len = buf.len();
    let w = write_layout(len, blocks, 0, 0);
    let k = w.body_blocks;
    let kk = blocks_for(len);
    let nb = blocks + block_run(num, grown_blocks(len, blocks));
    let img = run_writes(image, buf, write_ops(len, blocks, w));
    assert(BLOCK_CAPACITY == 8192);
    if len == 0 {
        lemma_empty_write_then_read(image, buf, blocks, num);
        return;
    }
    lemma_blocks_for(len, k);
    lemma_blocks_for(len, kk);
    lemma_final_image(image, buf, blocks, num);
    let reads = read_ops(nb, len);
    assert(reads.len() == kk);
    assert forall|i: int| 0 <= i < kk implies #[trigger] img.subrange(
        reads[i].offset as int,
        reads[i].offset + reads[i].len,
    ) == buf.subrange(i * BLOCK_CAPACITY, i * BLOCK_CAPACITY + piece_len(len, i)) by {
        lemma_read_piece(image, buf, blocks, num, i);
    }
    lemma_reads_join(img, buf, reads, kk);
    assert(reads.take(kk as int) =~= reads);
    assert(min((kk * BLOCK_CAPACITY) as int, len as int) == len);
    assert(buf.subrange(0, len as int) =~= buf);
}

/// An empty buffer writes nothing, and the read of no bytes from the file's
/// first block takes nothing.
proof fn lemma_empty_write_then_read(image: Seq<u8>, buf: Seq<u8>, blocks: Seq<u32>, num: u32)
    requires
        write_requirements(image, buf, blocks, num),
        buf.len() == 0,
    ensures
        run_reads(
            run_writes(image, buf, write_ops(0, blocks, write_layout(0, blocks, 0, 0))),
            read_ops(blocks + block_run(num, grown_blocks(0, blocks)), 0),
        ) == buf,
{
    assert(BLOCK_CAPACITY == 8192);
    let w = write_layout(0, blocks, 0, 0);
    assert(w.body_blocks == 0);
    assert(write_ops(0, blocks, w) =~= Seq::<WriteOp>::empty());
    let nb = blocks + block_run(num, grown_blocks(0, blocks));
    assert(nb =~= blocks);
    let reads = read_ops(nb, 0);
    assert(reads.len() == 1);
    assert(reads.drop_last() =~= Seq::<ReadOp>::empty());
    lemma_blocks_apart(blocks[0], num);
    let off = reads[0].offset as int;
    assert(off == block_start(blocks[0]));
    assert(off <= image.len());
    assert(image.subrange(off, off) =~= buf);
    assert(run_writes(image, buf, write_ops(0, blocks, w)) == image);
    assert(run_reads(image, reads.drop_last()) == Seq::<u8>::empty());
    assert(run_reads(image, reads) =~= buf);
}

/// The `i`-th read after the write takes the `i`-th piece of the buffer.
proof fn lemma_read_piece(image: Seq<u8>, buf: Seq<u8>, blocks: Seq<u32>, num: u32, i: int)
    requires
        write_requirements(image, buf, blocks, num),
        buf.len() > 0,
        0 <= i < blocks_for(buf.len()),
    ensures
        ({
            let len = buf.len();
            let img = run_writes(image, buf, write_ops(len, blocks, write_layout(len, blocks, 0, 0)));
            let reads = read_ops(blocks + block_run(num, grown_blocks(len, blocks)), len);
            img.subrange(reads[i].offset as int, reads[i].offset + reads[i].len) == buf.subrange(
                i * BLOCK_CAPACITY,
                i * BLOCK_CAPACITY + piece_len(len, i),
            )
        }),
{
    let len = buf.len();
    let w = write_layout(len, blocks, 0, 0);
    let k = w.body_blocks;
    let kk = blocks_for(len);
    let grown = grown_blocks(len, blocks);
    let nb = blocks + block_run(num, grown);
    let img = run_writes(image, buf, write_ops(len, blocks, w));
    let reads = read_ops(nb, len);
    assert(BLOCK_CAPACITY == 8192);
    lemma_blocks_for(len, i as nat);
    lemma_blocks_for(len, k);
    lemma_final_image(image, buf, blocks, num);
    let pl = piece_len(len, i);
    assert(0 < pl <= BLOCK_CAPACITY);
    if i < k {
        assert(nb[i] == blocks[i]);
        lemma_blocks_apart(blocks[i], num);
        lemma_blocks_apart(blocks[i], 4294967295u32);
        let off = block_start(blocks[i]) as int;
        assert(reads[i].offset == off);
        assert(reads[i].len == pl);
        assert(off + pl <= image.len());
        assert forall|j: int| 0 <= j < pl implies #[trigger] img.subrange(off, off + pl)[j]
            == buf.subrange(i * BLOCK_CAPACITY, i * BLOCK_CAPACITY + pl)[j] by {
            assert(img[block_start(blocks[i]) + j] == buf[i * BLOCK_CAPACITY + j]);
        }
        assert(img.subrange(off, off + pl) =~= buf.subrange(i * BLOCK_CAPACITY, i * BLOCK_CAPACITY + pl));
    } else {
        if k > 0 {
            lemma_blocks_for(len, (k - 1) as nat);
        }
        assert(w.tail_start < len);
        assert(w.tail_start == k * BLOCK_CAPACITY);
        let d = i - k;
        assert(k * 8192 + d * 8192 == i * 8192) by (nonlinear_arith)
            requires
                d == i - k,
        ;
        assert(i * BLOCK_CAPACITY < len);
        lemma_blocks_for((len - w.tail_start) as nat, d as nat);
        assert(d * BLOCK_CAPACITY < len - w.tail_start);
        assert(d < grown);
        assert(nb[i] == (num + d) as u32);
        lemma_block_start_add(num, d);
        lemma_blocks_apart(nb[i], 4294967295u32);
        let off = image.len() + d * BLOCK_CAPACITY;
        assert(reads[i].offset == off);
        assert(reads[i].len == pl);
        assert(w.tail_start + d * BLOCK_CAPACITY == i * BLOCK_CAPACITY);
        assert forall|j: int| 0 <= j < pl implies #[trigger] img.subrange(off, off + pl)[j]
            == buf.subrange(i * BLOCK_CAPACITY, i * BLOCK_CAPACITY + pl)[j] by {
            assert(img[image.len() + (d * BLOCK_CAPACITY + j)] == buf[w.tail_start + (d * BLOCK_CAPACITY + j)]);
        }
        assert(img.subrange(off, off + pl) =~= buf.subrange(i * BLOCK_CAPACITY, i * BLOCK_CAPACITY + pl));
    }
}

/// Reading pieces one after another joins them.
proof fn lemma_reads_join(img: Seq<u8>, buf: Seq<u8>, reads: Seq<ReadOp>, m: nat)
    requires
        m <= reads.len(),
        m <= blocks_for(buf.len()),
        forall|i: int|
            0 <= i < m ==> #[trigger] img.subrange(reads[i].offset as int, reads[i].offset + reads[i].len)
                == buf.subrange(i * BLOCK_CAPACITY, i * BLOCK_CAPACITY + piece_len(buf.len(), i)),
    ensures
        run_reads(img, reads.take(m as int)) == buf.subrange(
            0,
            min((m * BLOCK_CAPACITY) as int, buf.len() as int),
        ),
    decreases m,
{
    assert(BLOCK_CAPACITY == 8192);
    if m == 0 {
        assert(reads.take(0) =~= Seq::<ReadOp>::empty());
        assert(buf.subrange(0, 0) =~= Seq::<u8>::empty());
    } else {
        let s = (m - 1) as nat;
        lemma_reads_join(img, buf, reads, s);
        assert(reads.take(m as int).drop_last() =~= reads.take(s as int));
        assert(reads.take(m as int).last() == reads[s as int]);
        lemma_blocks_for(buf.len(), s);
        assert(s * BLOCK_CAPACITY < buf.len());
        assert(buf.subrange(0, s * BLOCK_CAPACITY) + buf.subrange(
            s * BLOCK_CAPACITY,
            s * BLOCK_CAPACITY + piece_len(buf.len(), s as int),
        ) =~= buf.subrange(0, min((m * BLOCK_CAPACITY) as int, buf.len() as int)));
    }
}

/// Reading steps one list after another reads what each list reads, in turn.
proof fn lemma_run_reads_concat(img: Seq<u8>, a: Seq<ReadOp>, b: Seq<ReadOp>)
    ensures
        run_reads(img, a + b) == run_reads(img, a) + run_reads(img, b),
    decreases b.len(),
{
    if b.len() == 0 {
        assert(a + b =~= a);
        assert(run_reads(img, a) + Seq::<u8>::empty() =~= run_reads(img, a));
    } else {
        lemma_run_reads_concat(img, a, b.drop_last());
        assert((a + b).drop_last() =~= a + b.drop_last());
        assert((a + b).last() == b.last());
        let l = b.last();
        assert(run_reads(img, a) + run_reads(img, b.drop_last()) + img.subrange(
            l.offset as int,
            l.offset + l.len,
        ) =~= run_reads(img, a) + (run_reads(img, b.drop_last()) + img.subrange(
            l.offset as int,
            l.offset + l.len,
        )));
    }
}

/// Reads that stay within an image read the same after more bytes are
/// added at its end.
proof fn lemma_run_reads_extended(image: Seq<u8>, ext: Seq<u8>, ops: Seq<ReadOp>)
    requires
        forall|i: int| 0 <= i < ops.len() ==> #[trigger] ops[i].offset + ops[i].len <= image.len(),
    ensures
        run_reads(image + ext, ops) == run_reads(image, ops),
    decreases ops.len(),
{
    if ops.len() > 0 {
        lemma_run_reads_extended(image, ext, ops.drop_last());
        let l = ops.last();
        assert(ops[ops.len() - 1] == l);
        assert((image + ext).subrange(l.offset as int, l.offset + l.len) =~= image.subrange(
            l.offset as int,
            l.offset + l.len,
        ));
    }
}

/// The blocks that an append of `len` bytes adds to a file of `size` bytes
/// over `blocks`.
pub open spec fn grown_by_append(len: nat, blocks: Seq<u32>, size: nat) -> nat {
    let w = write_layout(len, blocks, blocks_for(size) as u32 as nat, size);
    if w.tail_start < len {
        blocks_for((len - w.tail_start) as nat)
    } else {
        0
    }
}

/// An append to a file whose blocks are exactly those its bytes fill, and
/// whose size is a whole number of blocks, adds the whole chunk after the
/// end of the image, followed by padding.
proof fn lemma_append_image(image: Seq<u8>, chunk: Seq<u8>, blocks: Seq<u32>, size: nat)
    requires
        blocks.len() == blocks_for(size),
        blocks.len() <= u32::MAX,
        size % (BLOCK_CAPACITY as nat) == 0,
        chunk.len() <= usize::MAX,
    ensures
        ({
            let len = chunk.len();
            let w = write_layout(len, blocks, blocks_for(size) as u32 as nat, size);
            &&& w.tail_start == 0
            &&& grown_by_append(len, blocks, size) == (if len > 0 { blocks_for(len) } else { 0 })
            &&& run_writes(image, chunk, write_ops(len, blocks, w)) == (if len > 0 {
                image + chunk + Seq::new(padding_for(len) as nat, |i: int| 95u8)
            } else {
                image
            })
        }),
{
    let len = chunk.len();
    let w = write_layout(len, blocks, blocks_for(size) as u32 as nat, size);
    assert(BLOCK_CAPACITY == 8192);
    assert(w.body_blocks == 0);
    let ops = write_ops(len, blocks, w);
    if len > 0 {
        let a = WriteOp::Append { start: 0, end: len as usize };
        let f = WriteOp::Fill { byte: 95u8, count: padding_for(len) as usize };
        assert(ops =~= seq![a, f]);
        let o1 = ops.drop_last();
        assert(o1 =~= seq![a]);
        assert(o1.last() == a);
        assert(o1.drop_last() =~= Seq::<WriteOp>::empty());
        assert(run_writes(image, chunk, o1.drop_last()) == image);
        assert(chunk.subrange(0, len as int) =~= chunk);
        assert(run_writes(image, chunk, o1) == image + chunk);
    } else {
        assert(ops =~= Seq::<WriteOp>::empty());
    }
}

/// The reads of the blocks a file had before an append give its bytes.
proof fn lemma_append_old_part(image: Seq<u8>, ext: Seq<u8>, old: Seq<u8>, nb: Seq<u32>, blocks: Seq<u32>, num: u32, total: nat)
    requires
        image.len() == block_start(num),
        forall|i: int| 0 <= i < blocks.len() ==> blocks[i] < num,
        blocks.len() == blocks_for(old.len()),
        old.len() % (BLOCK_CAPACITY as nat) == 0,
        old.len() > 0 ==> run_reads(image, read_ops(blocks, old.len())) == old,
        total >= old.len(),
        total > 0,
        nb.len() >= blocks.len(),
        nb.subrange(0, blocks.len() as int) == blocks,
        read_ops(nb, total).len() >= blocks.len(),
    ensures
        run_reads(image + ext, read_ops(nb, total).take(blocks.len() as int)) == old,
{
    let size = old.len();
    let k0 = blocks.len();
    let first = read_ops(nb, total).take(k0 as int);
    assert(BLOCK_CAPACITY == 8192);
    if size > 0 {
        let olds = read_ops(blocks, size);
        assert(olds.len() == k0);
        assert forall|i: int| 0 <= i < k0 implies #[trigger] first[i] == olds[i] by {
            lemma_blocks_for(size, (i + 1) as nat);
            assert((i + 1) * 8192 <= size);
            assert(nb[i] == nb.subrange(0, k0 as int)[i]);
        }
        assert(first =~= olds);
        assert forall|i: int| 0 <= i < first.len() implies #[trigger] first[i].offset + first[i].len
            <= image.len() by {
            lemma_blocks_apart(blocks[i], num);
            lemma_blocks_apart(blocks[i], 4294967295u32);
        }
        lemma_run_reads_extended(image, ext, first);
    } else {
        assert(first =~= Seq::<ReadOp>::empty());
        assert(old =~= Seq::<u8>::empty());
    }
}

/// The reads of the blocks an append added give the chunk.
#[verifier::rlimit(40)]
proof fn lemma_append_new_part(image: Seq<u8>, chunk: Seq<u8>, pad: Seq<u8>, size: nat, nb: Seq<u32>, k0: nat, num: u32, g: nat)
    requires
        image.len() == block_start(num),
        chunk.len() > 0,
        g == blocks_for(chunk.len()),
        num + g <= u32::MAX,
        k0 * BLOCK_CAPACITY == size,
        size + chunk.len() <= usize::MAX,
        nb.len() == k0 + g,
        forall|d: int| 0 <= d < g ==> #[trigger] nb[k0 + d] == (num + d) as u32,
        read_ops(nb, size + chunk.len()).len() == k0 + g,
    ensures
        run_reads(image + (chunk + pad), read_ops(nb, size + chunk.len()).skip(k0 as int)) == chunk,
{
    let len = chunk.len();
    let img = image + (chunk + pad);
    let reads = read_ops(nb, size + len);
    let rest = reads.skip(k0 as int);
    assert(BLOCK_CAPACITY == 8192);
    assert(rest.len() == g);
    assert forall|d: int| 0 <= d < g implies #[trigger] img.subrange(
        rest[d].offset as int,
        rest[d].offset + rest[d].len,
    ) == chunk.subrange(d * BLOCK_CAPACITY, d * BLOCK_CAPACITY + piece_len(len, d)) by {
        lemma_blocks_for(len, d as nat);
        assert(d * 8192 < len);
        assert(nb[k0 + d] == (num + d) as u32);
        lemma_block_start_add(num, d);
        lemma_blocks_apart(nb[k0 + d], 4294967295u32);
        let off = image.len() + d * 8192;
        assert(rest[d] == reads[k0 + d]);
        assert(reads[k0 + d].offset == off);
        assert((k0 + d) * 8192 == size + d * 8192) by (nonlinear_arith)
            requires
                k0 * 8192 == size,
        ;
        assert(reads[k0 + d].len == piece_len(len, d));
        assert forall|j: int| 0 <= j < piece_len(len, d) implies #[trigger] img.subrange(
            off,
            off + piece_len(len, d),
        )[j] == chunk.subrange(d * 8192, d * 8192 + piece_len(len, d))[j] by {
            assert(img[image.len() + (d * 8192 + j)] == chunk[d * 8192 + j]);
        }
        assert(img.subrange(off, off + piece_len(len, d)) =~= chunk.subrange(
            d * 8192,
            d * 8192 + piece_len(len, d),
        ));
    }
    lemma_reads_join(img, chunk, rest, g);
    assert(rest.take(g as int) =~= rest);
    lemma_blocks_for(len, g);
    assert(chunk.subrange(0, min((g * BLOCK_CAPACITY) as int, len as int)) =~= chunk);
}

/// Appending a chunk to a file, and then reading the file back, gives its
/// bytes followed by the chunk: for a file whose blocks are blocks of the
/// image, exactly as many as its bytes fill, whose size is a whole number of
/// blocks, on an image that ends where its last block ends. (A read needs a
/// block to start from: the file and the chunk are not both empty.)
pub proof fn lemma_append_then_read(image: Seq<u8>, old: Seq<u8>, chunk: Seq<u8>, blocks: Seq<u32>, num: u32)
    requires
        image.len() == block_start(num),
        forall|i: int| 0 <= i < blocks.len() ==> blocks[i] < num,
        blocks.len() == blocks_for(old.len()),
        blocks.len() <= u32::MAX,
        old.len() % (BLOCK_CAPACITY as nat) == 0,
        old.len() > 0 ==> run_reads(image, read_ops(blocks, old.len())) == old,
        old.len() + chunk.len() > 0,
        old.len() + chunk.len() <= usize::MAX,
        num + blocks_for(chunk.len()) <= u32::MAX,
    ensures
        ({
            let size = old.len();
            let len = chunk.len();
            let w = write_layout(len, blocks, blocks_for(size) as u32 as nat, size);
            run_reads(
                run_writes(image, chunk, write_ops(len, blocks, w)),
                read_ops(blocks + block_run(num, grown_by_append(len, blocks, size)), size + len),
            ) == old + chunk
        }),
{
    let size = old.len();
    let len = chunk.len();
    let k0 = blocks.len();
    assert(BLOCK_CAPACITY == 8192);
    lemma_append_image(image, chunk, blocks, size);
    let g = grown_by_append(len, blocks, size);
    let nb = blocks + block_run(num, g);
    let w = write_layout(len, blocks, blocks_for(size) as u32 as nat, size);
    let img = run_writes(image, chunk, write_ops(len, blocks, w));
    let pad = Seq::new(padding_for(len) as nat, |i: int| 95u8);
    let ext: Seq<u8> = if len > 0 { chunk + pad } else { Seq::empty() };
    assert(img =~= image + ext);
    let total = size + len;
    let reads = read_ops(nb, total);
    if len > 0 {
        lemma_blocks_for(size, k0);
        assert(k0 * 8192 == size) by {
            vstd::arithmetic::div_mod::lemma_fundamental_div_mod(size as int, 8192);
        }
        lemma_blocks_for_shift(total, k0);
        assert((total - k0 * 8192) as nat == len);
        assert(reads.len() == k0 + g);
    } else {
        assert(reads.len() == k0);
    }
    assert(nb.subrange(0, k0 as int) =~= blocks);
    let first = reads.take(k0 as int);
    let rest = reads.skip(k0 as int);
    assert(reads =~= first + rest);
    lemma_run_reads_concat(img, first, rest);
    lemma_append_old_part(image, ext, old, nb, blocks, num, total);
    if len > 0 {
        assert forall|d: int| 0 <= d < g implies #[trigger] nb[k0 + d] == (num + d) as u32 by {}
        lemma_append_new_part(image, chunk, pad, size, nb, k0, num, g);
    } else {
        assert(rest =~= Seq::<ReadOp>::empty());
        assert(chunk =~= Seq::<u8>::empty());
    }
    assert(old + chunk =~= run_reads(img, first) + run_reads(img, rest));
}

} // verus!
