//! Big-endian encoding of integers and of lists of them, and the common model
//! that every decoder of the image is specified against.
use vstd::prelude::*;
use crate::fs_base::{Error, ErrorKind};
use crate::traits::Serde;
use crate::util::date_time::{Date, DateTime, Time};

verus! {

/// What a decoder does with a byte string: it yields a value and the number of
/// bytes that the value took, it fails with an error of the given kind, or it
/// reads past the end of its input, which aborts the program.
pub enum Decoded<T> {
    Value(T, nat),
    Fails(ErrorKind),
    Aborts,
}

impl<T> Decoded<T> {
    /// The decoder gave a value and took no more bytes than it was given.
    pub open spec fn took_at_most(self, len: nat) -> bool {
        match self {
            Decoded::Value(_, n) => n <= len,
            _ => true,
        }
    }
}

// ---------------------------------------------------------------------------
// Fixed-width integers, most significant byte first.

pub open spec fn be_bytes_u16(x: u16) -> Seq<u8> {
    seq![(x >> 8u16) as u8, (x & 0xffu16) as u8]
}

pub open spec fn be_bytes_u32(x: u32) -> Seq<u8> {
    seq![(x >> 24u32) as u8, ((x >> 16u32) & 0xffu32) as u8, ((x >> 8u32) & 0xffu32) as u8, (x & 0xffu32) as u8]
}

pub open spec fn be_bytes_u64(x: u64) -> Seq<u8> {
    seq![
        (x >> 56u64) as u8,
        ((x >> 48u64) & 0xffu64) as u8,
        ((x >> 40u64) & 0xffu64) as u8,
        ((x >> 32u64) & 0xffu64) as u8,
        ((x >> 24u64) & 0xffu64) as u8,
        ((x >> 16u64) & 0xffu64) as u8,
        ((x >> 8u64) & 0xffu64) as u8,
        (x & 0xffu64) as u8,
    ]
}

/// The bytes of a `usize` on this machine, `size_of::<usize>()`: eight on a
/// 64-bit target, four on a 32-bit one.
pub open spec fn usize_width() -> nat {
    if usize::BITS == 64 {
        8
    } else {
        4
    }
}

/// A `usize` is stored in the machine's width, most significant byte first.
pub open spec fn be_bytes_usize(x: usize) -> Seq<u8> {
    if usize::BITS == 64 {
        be_bytes_u64(x as u64)
    } else {
        be_bytes_u32(x as u32)
    }
}

pub open spec fn u16_of_be(b: Seq<u8>) -> u16 {
    ((b[0] as u16) << 8u16) | (b[1] as u16)
}

pub open spec fn u32_of_be(b: Seq<u8>) -> u32 {
    ((b[0] as u32) << 24u32) | ((b[1] as u32) << 16u32) | ((b[2] as u32) << 8u32) | (b[3] as u32)
}

pub open spec fn u64_of_be(b: Seq<u8>) -> u64 {
    ((b[0] as u64) << 56u64) | ((b[1] as u64) << 48u64) | ((b[2] as u64) << 40u64) | ((b[3] as u64)
        << 32u64) | ((b[4] as u64) << 24u64) | ((b[5] as u64) << 16u64) | ((b[6] as u64) << 8u64)
        | (b[7] as u64)
}

pub open spec fn usize_of_be(b: Seq<u8>) -> usize {
    if usize::BITS == 64 {
        u64_of_be(b) as usize
    } else {
        u32_of_be(b) as usize
    }
}

pub proof fn lemma_u16_roundtrip(x: u16)
    ensures
        be_bytes_u16(x).len() == 2,
        u16_of_be(be_bytes_u16(x)) == x,
{
    let b0 = (x >> 8u16) as u8;
    let b1 = (x & 0xffu16) as u8;
    assert(((b0 as u16) << 8u16) | (b1 as u16) == x) by (bit_vector)
        requires
            b0 == (x >> 8u16) as u8,
            b1 == (x & 0xffu16) as u8,
    ;
}

pub proof fn lemma_u32_roundtrip(x: u32)
    ensures
        be_bytes_u32(x).len() == 4,
        u32_of_be(be_bytes_u32(x)) == x,
{
    let b0 = (x >> 24u32) as u8;
    let b1 = ((x >> 16u32) & 0xffu32) as u8;
    let b2 = ((x >> 8u32) & 0xffu32) as u8;
    let b3 = (x & 0xffu32) as u8;
    assert(((b0 as u32) << 24u32) | ((b1 as u32) << 16u32) | ((b2 as u32) << 8u32) | (b3 as u32)
        == x) by (bit_vector)
        requires
            b0 == (x >> 24u32) as u8,
            b1 == ((x >> 16u32) & 0xffu32) as u8,
            b2 == ((x >> 8u32) & 0xffu32) as u8,
            b3 == (x & 0xffu32) as u8,
    ;
}

pub proof fn lemma_u64_roundtrip(x: u64)
    ensures
        be_bytes_u64(x).len() == 8,
        u64_of_be(be_bytes_u64(x)) == x,
{
    let b0 = (x >> 56u64) as u8;
    let b1 = ((x >> 48u64) & 0xffu64) as u8;
    let b2 = ((x >> 40u64) & 0xffu64) as u8;
    let b3 = ((x >> 32u64) & 0xffu64) as u8;
    let b4 = ((x >> 24u64) & 0xffu64) as u8;
    let b5 = ((x >> 16u64) & 0xffu64) as u8;
    let b6 = ((x >> 8u64) & 0xffu64) as u8;
    let b7 = (x & 0xffu64) as u8;
    assert(((b0 as u64) << 56u64) | ((b1 as u64) << 48u64) | ((b2 as u64) << 40u64) | ((b3 as u64)
        << 32u64) | ((b4 as u64) << 24u64) | ((b5 as u64) << 16u64) | ((b6 as u64) << 8u64) | (b7
        as u64) == x) by (bit_vector)
        requires
            b0 == (x >> 56u64) as u8,
            b1 == ((x >> 48u64) & 0xffu64) as u8,
            b2 == ((x >> 40u64) & 0xffu64) as u8,
            b3 == ((x >> 32u64) & 0xffu64) as u8,
            b4 == ((x >> 24u64) & 0xffu64) as u8,
            b5 == ((x >> 16u64) & 0xffu64) as u8,
            b6 == ((x >> 8u64) & 0xffu64) as u8,
            b7 == (x & 0xffu64) as u8,
    ;
}

pub proof fn lemma_usize_roundtrip(x: usize)
    ensures
        be_bytes_usize(x).len() == usize_width(),
        usize_of_be(be_bytes_usize(x)) == x,
{
    if usize::BITS == 64 {
        lemma_u64_roundtrip(x as u64);
    } else {
        lemma_u32_roundtrip(x as u32);
    }
}

/// Decoding a fixed-width integer looks only at its own bytes.
pub proof fn lemma_prefix_decodes(a: Seq<u8>, b: Seq<u8>)
    ensures
        a.len() >= 2 ==> u16_of_be(a + b) == u16_of_be(a),
        a.len() >= 4 ==> u32_of_be(a + b) == u32_of_be(a),
        a.len() >= 8 ==> u64_of_be(a + b) == u64_of_be(a),
        a.len() >= usize_width() ==> usize_of_be(a + b) == usize_of_be(a),
{
}

// ---------------------------------------------------------------------------
// Appending encodings to an output buffer.

pub fn push_u16(out: &mut Vec<u8>, x: u16)
    ensures
        final(out)@ == old(out)@ + be_bytes_u16(x),
{
    out.push((x >> 8u16) as u8);
    out.push((x & 0xffu16) as u8);
    assert(out@ =~= old(out)@ + be_bytes_u16(x));
}

pub fn push_u32(out: &mut Vec<u8>, x: u32)
    ensures
        final(out)@ == old(out)@ + be_bytes_u32(x),
{
    out.push((x >> 24u32) as u8);
    out.push(((x >> 16u32) & 0xffu32) as u8);
    out.push(((x >> 8u32) & 0xffu32) as u8);
    out.push((x & 0xffu32) as u8);
    assert(out@ =~= old(out)@ + be_bytes_u32(x));
}

pub fn push_u64(out: &mut Vec<u8>, x: u64)
    ensures
        final(out)@ == old(out)@ + be_bytes_u64(x),
{
    out.push((x >> 56u64) as u8);
    out.push(((x >> 48u64) & 0xffu64) as u8);
    out.push(((x >> 40u64) & 0xffu64) as u8);
    out.push(((x >> 32u64) & 0xffu64) as u8);
    out.push(((x >> 24u64) & 0xffu64) as u8);
    out.push(((x >> 16u64) & 0xffu64) as u8);
    out.push(((x >> 8u64) & 0xffu64) as u8);
    out.push((x & 0xffu64) as u8);
    assert(out@ =~= old(out)@ + be_bytes_u64(x));
}

/// Appends a `usize` in the machine's width.
pub fn push_usize(out: &mut Vec<u8>, x: usize)
    ensures
        final(out)@ == old(out)@ + be_bytes_usize(x),
{
    if usize::BITS == 64 {
        push_u64(out, x as u64);
    } else {
        push_u32(out, x as u32);
    }
}

/// Appends `bytes` to `out`.
pub fn push_bytes(out: &mut Vec<u8>, bytes: &[u8])
    ensures
        final(out)@ == old(out)@ + bytes@,
{
    let mut i: usize = 0;
    while i < bytes.len()
        invariant
            i <= bytes@.len(),
            out@ == old(out)@ + bytes@.subrange(0, i as int),
        decreases bytes@.len() - i,
    {
        out.push(bytes[i]);
        i = i + 1;
        assert(out@ =~= old(out)@ + bytes@.subrange(0, i as int));
    }
    assert(bytes@.subrange(0, bytes@.len() as int) =~= bytes@);
}

/// Whether `buffer` begins with the bytes of `prefix`.
pub fn starts_with(buffer: &[u8], prefix: &[u8]) -> (res: bool)
    ensures
        res == (prefix@.len() <= buffer@.len() && buffer@.subrange(0, prefix@.len() as int)
            == prefix@),
{
    if prefix.len() > buffer.len() {
        return false;
    }
    let mut i: usize = 0;
    while i < prefix.len()
        invariant
            prefix@.len() <= buffer@.len(),
            i <= prefix@.len(),
            buffer@.subrange(0, i as int) == prefix@.subrange(0, i as int),
        decreases prefix@.len() - i,
    {
        if buffer[i] != prefix[i] {
            assert(buffer@.subrange(0, prefix@.len() as int)[i as int] != prefix@[i as int]);
            return false;
        }
        i = i + 1;
        assert(buffer@.subrange(0, i as int) =~= prefix@.subrange(0, i as int));
    }
    assert(prefix@.subrange(0, i as int) =~= prefix@);
    true
}

// ---------------------------------------------------------------------------
// Reading integers from the front of a buffer.

pub fn deser_u8(buffer: &mut &[u8]) -> (res: Result<u8, Error>)
    requires
        old(buffer)@.len() >= 1,
    ensures
        res == Ok::<u8, Error>(old(buffer)@[0]),
        final(buffer)@ == old(buffer)@.skip(1),
{
    let b = *buffer;
    let v = b[0];
    *buffer = &b[1..b.len()];
    Ok(v)
}

pub fn deser_u16(buffer: &mut &[u8]) -> (res: Result<u16, Error>)
    requires
        old(buffer)@.len() >= 2,
    ensures
        res == Ok::<u16, Error>(u16_of_be(old(buffer)@)),
        final(buffer)@ == old(buffer)@.skip(2),
{
    let b = *buffer;
    let v: u16 = ((b[0] as u16) << 8u16) | (b[1] as u16);
    *buffer = &b[2..b.len()];
    Ok(v)
}

pub fn deser_u32(buffer: &mut &[u8]) -> (res: Result<u32, Error>)
    requires
        old(buffer)@.len() >= 4,
    ensures
        res == Ok::<u32, Error>(u32_of_be(old(buffer)@)),
        final(buffer)@ == old(buffer)@.skip(4),
{
    let b = *buffer;
    let v: u32 = ((b[0] as u32) << 24u32) | ((b[1] as u32) << 16u32) | ((b[2] as u32) << 8u32) | (
    b[3] as u32);
    *buffer = &b[4..b.len()];
    Ok(v)
}

/// Reads a `usize` stored in the machine's width.
pub fn deser_usize(buffer: &mut &[u8]) -> (res: Result<usize, Error>)
    requires
        old(buffer)@.len() >= usize_width(),
    ensures
        res == Ok::<usize, Error>(usize_of_be(old(buffer)@)),
        final(buffer)@ == old(buffer)@.skip(usize_width() as int),
{
    let b = *buffer;
    if usize::BITS != 64 {
        let v: u32 = ((b[0] as u32) << 24u32) | ((b[1] as u32) << 16u32) | ((b[2] as u32) << 8u32) | (
        b[3] as u32);
        *buffer = &b[4..b.len()];
        return Ok(v as usize);
    }
    let v: u64 = ((b[0] as u64) << 56u64) | ((b[1] as u64) << 48u64) | ((b[2] as u64) << 40u64) | ((
    b[3] as u64) << 32u64) | ((b[4] as u64) << 24u64) | ((b[5] as u64) << 16u64) | ((b[6] as u64)
        << 8u64) | (b[7] as u64);
    *buffer = &b[8..b.len()];
    #[verifier::truncate]
    let r = v as usize;
    Ok(r)
}


/// The result `res` of a decoder, and the buffer left `after` it read from
/// `before`, are what `d` describes: on a value, that value (by its view) and
/// the bytes after the ones it took; on a failure, an error of that kind.
pub open spec fn decodes_to<T: View>(
    res: Result<T, Error>,
    d: Decoded<T::V>,
    before: Seq<u8>,
    after: Seq<u8>,
) -> bool {
    match d {
        Decoded::Value(v, n) => res is Ok && res->Ok_0@ == v && n <= before.len() && after
            == before.skip(n as int),
        Decoded::Fails(k) => res is Err && res->Err_0.kind() == k,
        Decoded::Aborts => false,
    }
}

// ---------------------------------------------------------------------------
// Lists of u32: a u32 count, then each item.

pub open spec fn encode_u32s(s: Seq<u32>) -> Seq<u8>
    decreases s.len(),
{
    if s.len() == 0 {
        Seq::empty()
    } else {
        encode_u32s(s.drop_last()) + be_bytes_u32(s.last())
    }
}

/// The encoding of a list of u32: its length, cut to 32 bits, then the items.
pub open spec fn encode_vec_u32(s: Seq<u32>) -> Seq<u8> {
    be_bytes_u32(s.len() as u32) + encode_u32s(s)
}

pub open spec fn decode_vec_u32(bytes: Seq<u8>) -> Decoded<Seq<u32>> {
    if bytes.len() < 4 {
        Decoded::Aborts
    } else {
        let n = u32_of_be(bytes) as nat;
        if bytes.len() < 4 + 4 * n {
            Decoded::Aborts
        } else {
            Decoded::Value(
                Seq::new(n, |i: int| u32_of_be(bytes.subrange(4 + 4 * i, 8 + 4 * i))),
                4 + 4 * n,
            )
        }
    }
}

pub proof fn lemma_encode_u32s(s: Seq<u32>)
    ensures
        encode_u32s(s).len() == 4 * s.len(),
        forall|i: int|
            0 <= i < s.len() ==> #[trigger] encode_u32s(s).subrange(4 * i, 4 * i + 4)
                == be_bytes_u32(s[i]),
    decreases s.len(),
{
    if s.len() > 0 {
        let p = s.drop_last();
        lemma_encode_u32s(p);
        lemma_u32_roundtrip(s.last());
        assert forall|i: int| 0 <= i < s.len() implies #[trigger] encode_u32s(s).subrange(
            4 * i,
            4 * i + 4,
        ) == be_bytes_u32(s[i]) by {
            if i < s.len() - 1 {
                assert(encode_u32s(s).subrange(4 * i, 4 * i + 4) =~= encode_u32s(p).subrange(
                    4 * i,
                    4 * i + 4,
                ));
            } else {
                assert(encode_u32s(s).subrange(4 * i, 4 * i + 4) =~= be_bytes_u32(s.last()));
            }
        }
    }
}

/// Decoding an encoded list of u32 gives the list back and takes exactly its
/// bytes, whatever follows them.
pub proof fn lemma_vec_u32_roundtrip(s: Seq<u32>, rest: Seq<u8>)
    requires
        s.len() <= u32::MAX,
    ensures
        decode_vec_u32(encode_vec_u32(s) + rest) == Decoded::Value(s, encode_vec_u32(s).len()),
        encode_vec_u32(s).len() == 4 + 4 * s.len(),
{
    let e = encode_vec_u32(s);
    let b = e + rest;
    lemma_encode_u32s(s);
    lemma_u32_roundtrip(s.len() as u32);
    lemma_prefix_decodes(be_bytes_u32(s.len() as u32), encode_u32s(s) + rest);
    assert(b =~= be_bytes_u32(s.len() as u32) + (encode_u32s(s) + rest));
    assert(u32_of_be(b) == s.len());
    let d = Seq::new(s.len(), |i: int| u32_of_be(b.subrange(4 + 4 * i, 8 + 4 * i)));
    assert forall|i: int| 0 <= i < s.len() implies d[i] == s[i] by {
        assert(b.subrange(4 + 4 * i, 8 + 4 * i) =~= encode_u32s(s).subrange(4 * i, 4 * i + 4));
        lemma_u32_roundtrip(s[i]);
    }
    assert(d =~= s);
}

/// Encodes a list of u32: its length, then each item.
pub fn ser_vec_u32(vec: &[u32]) -> (res: Vec<u8>)
    ensures
        res@ == encode_vec_u32(vec@),
{
    let mut res: Vec<u8> = Vec::new();
    #[verifier::truncate]
    let len = vec.len() as u32;
    push_u32(&mut res, len);
    let mut i: usize = 0;
    while i < vec.len()
        invariant
            i <= vec@.len(),
            res@ == be_bytes_u32(vec@.len() as u32) + encode_u32s(vec@.subrange(0, i as int)),
        decreases vec@.len() - i,
    {
        proof {
            assert(vec@.subrange(0, i + 1).drop_last() =~= vec@.subrange(0, i as int));
        }
        push_u32(&mut res, vec[i]);
        i = i + 1;
        assert(res@ =~= be_bytes_u32(vec@.len() as u32) + encode_u32s(vec@.subrange(0, i as int)));
    }
    assert(vec@.subrange(0, vec@.len() as int) =~= vec@);
    res
}

/// Decodes a list of u32: a count, then that many items.
pub fn deser_vec_u32(buffer: &mut &[u8]) -> (res: Result<Vec<u32>, Error>)
    requires
        !(decode_vec_u32(old(buffer)@) is Aborts),
    ensures
        decodes_to(res, decode_vec_u32(old(buffer)@), old(buffer)@, final(buffer)@),
{
    let ghost start = buffer@;
    let capacity = deser_u32(buffer)?;
    let mut res: Vec<u32> = Vec::new();
    let mut i: u32 = 0;
    while i < capacity
        invariant
            start.len() >= 4 + 4 * (capacity as nat),
            capacity == u32_of_be(start),
            i <= capacity,
            buffer@ == start.skip(4 + 4 * i),
            res@ == Seq::new(i as nat, |j: int| u32_of_be(start.subrange(4 + 4 * j, 8 + 4 * j))),
        decreases capacity - i,
    {
        let ghost before = buffer@;
        let v = deser_u32(buffer)?;
        proof {
            assert(before.subrange(0, 4) =~= start.subrange(4 + 4 * i, 8 + 4 * i));
            lemma_prefix_decodes(before.subrange(0, 4), before.skip(4));
            assert(before =~= before.subrange(0, 4) + before.skip(4));
        }
        res.push(v);
        i = i + 1;
        assert(buffer@ =~= start.skip(4 + 4 * i));
        assert(res@ =~= Seq::new(i as nat, |j: int| u32_of_be(start.subrange(4 + 4 * j, 8 + 4 * j))));
    }
    Ok(res)
}


// ---------------------------------------------------------------------------
// Sequences of items of varying size, read one after another.

/// The items of `items`, each encoded by `enc`, one after another.
pub open spec fn encode_many<T>(items: Seq<T>, enc: spec_fn(T) -> Seq<u8>) -> Seq<u8>
    decreases items.len(),
{
    if items.len() == 0 {
        Seq::empty()
    } else {
        encode_many(items.drop_last(), enc) + enc(items.last())
    }
}

/// Reads `count` items one after another with `item`, stopping at the first
/// item that fails or aborts.
pub open spec fn decode_many<T>(
    bytes: Seq<u8>,
    count: nat,
    item: spec_fn(Seq<u8>) -> Decoded<T>,
) -> Decoded<Seq<T>>
    decreases count,
{
    if count == 0 {
        Decoded::Value(Seq::empty(), 0)
    } else {
        match decode_many(bytes, (count - 1) as nat, item) {
            Decoded::Value(items, n) => match item(bytes.skip(n as int)) {
                Decoded::Value(x, m) => Decoded::Value(items.push(x), n + m),
                Decoded::Fails(k) => Decoded::Fails(k),
                Decoded::Aborts => Decoded::Aborts,
            },
            Decoded::Fails(k) => Decoded::Fails(k),
            Decoded::Aborts => Decoded::Aborts,
        }
    }
}

/// Reading `count` items gives `count` of them, each one that `item` can
/// give; so a property of every item that `item` gives holds of each.
pub proof fn lemma_many_items<T>(
    bytes: Seq<u8>,
    count: nat,
    item: spec_fn(Seq<u8>) -> Decoded<T>,
    p: spec_fn(T) -> bool,
)
    requires
        forall|b: Seq<u8>| #[trigger] item(b) is Value ==> p(item(b)->Value_0),
    ensures
        decode_many(bytes, count, item) is Value ==> ({
            let list = decode_many(bytes, count, item)->Value_0;
            &&& list.len() == count
            &&& forall|i: int| 0 <= i < list.len() ==> #[trigger] p(list[i])
        }),
    decreases count,
{
    if count > 0 {
        lemma_many_items(bytes, (count - 1) as nat, item, p);
        if decode_many(bytes, count, item) is Value {
            let prev = decode_many(bytes, (count - 1) as nat, item);
            let b = bytes.skip(prev->Value_1 as int);
            assert(item(b) is Value);
            let list = decode_many(bytes, count, item)->Value_0;
            assert forall|i: int| 0 <= i < list.len() implies #[trigger] p(list[i]) by {
                if i < list.len() - 1 {
                    assert(list[i] == prev->Value_0[i]);
                }
            }
        }
    }
}

/// Once reading stops at an item, reading more items stops there too.
pub proof fn lemma_many_stops<T>(
    bytes: Seq<u8>,
    i: nat,
    j: nat,
    item: spec_fn(Seq<u8>) -> Decoded<T>,
)
    requires
        i <= j,
        !(decode_many(bytes, i, item) is Value),
    ensures
        decode_many(bytes, j, item) == decode_many(bytes, i, item),
    decreases j - i,
{
    if i < j {
        lemma_many_stops(bytes, i, (j - 1) as nat, item);
    }
}

/// Reading back items that were encoded one after another gives each item's
/// restored form, and takes exactly their bytes.
pub proof fn lemma_many_roundtrip<T>(
    items: Seq<T>,
    rest: Seq<u8>,
    enc: spec_fn(T) -> Seq<u8>,
    item: spec_fn(Seq<u8>) -> Decoded<T>,
    restore: spec_fn(T) -> T,
    good: spec_fn(T) -> bool,
)
    requires
        forall|i: int| 0 <= i < items.len() ==> #[trigger] good(items[i]),
        forall|x: T, r: Seq<u8>|
            #[trigger] good(x) ==> #[trigger] item(enc(x) + r) == Decoded::Value(
                restore(x),
                enc(x).len(),
            ),
    ensures
        decode_many(encode_many(items, enc) + rest, items.len(), item) == Decoded::Value(
            items.map_values(restore),
            encode_many(items, enc).len(),
        ),
    decreases items.len(),
{
    if items.len() == 0 {
        assert(items.map_values(restore) =~= Seq::<T>::empty());
    } else {
        let p = items.drop_last();
        let x = items.last();
        let tail = enc(x) + rest;
        assert(forall|i: int| 0 <= i < p.len() ==> p[i] == items[i]);
        lemma_many_roundtrip(p, tail, enc, item, restore, good);
        let whole = encode_many(items, enc) + rest;
        assert(whole =~= encode_many(p, enc) + tail);
        let n = encode_many(p, enc).len();
        assert(whole.skip(n as int) =~= tail);
        assert(good(items[items.len() - 1]));
        assert(item(tail) == Decoded::Value(restore(x), enc(x).len()));
        assert(p.map_values(restore).push(restore(x)) =~= items.map_values(restore));
        assert(decode_many(whole, (items.len() - 1) as nat, item) == Decoded::Value(
            p.map_values(restore),
            n,
        ));
    }
}


// ---------------------------------------------------------------------------
// Dates and times.

impl Serde for Date {
    open spec fn serializable(v: Date) -> bool {
        true
    }

    /// Day, month, then the year in two bytes.
    open spec fn encode(v: Date) -> Seq<u8> {
        seq![v.day, v.month] + be_bytes_u16(v.year)
    }

    open spec fn decode(bytes: Seq<u8>) -> Decoded<Date> {
        if bytes.len() < 4 {
            Decoded::Aborts
        } else {
            Decoded::Value(
                Date { day: bytes[0], month: bytes[1], year: u16_of_be(bytes.skip(2)) },
                4,
            )
        }
    }

    open spec fn restored(v: Date) -> Date {
        v
    }

    fn serialize(&self) -> (res: Vec<u8>) {
        let mut result: Vec<u8> = Vec::new();
        result.push(self.day);
        result.push(self.month);
        push_u16(&mut result, self.year);
        assert(result@ =~= seq![self.day, self.month] + be_bytes_u16(self.year));
        result
    }

    fn deserialize(buffer: &mut &[u8]) -> (res: Result<Self, Error>) {
        let ghost start = buffer@;
        let mut date = Date::new();
        date.day = deser_u8(buffer)?;
        date.month = deser_u8(buffer)?;
        date.year = deser_u16(buffer)?;
        assert(start.skip(2) =~= start.skip(1).skip(1));
        assert(buffer@ =~= start.skip(4));
        Ok(date)
    }

    proof fn lemma_roundtrip(v: Date, rest: Seq<u8>) {
        let b = Self::encode(v) + rest;
        lemma_u16_roundtrip(v.year);
        assert(b.skip(2) =~= be_bytes_u16(v.year) + rest);
        lemma_prefix_decodes(be_bytes_u16(v.year), rest);
    }
}

impl Serde for Time {
    open spec fn serializable(v: Time) -> bool {
        true
    }

    /// Hour, minute and second, one byte each.
    open spec fn encode(v: Time) -> Seq<u8> {
        seq![v.hour, v.minute, v.second]
    }

    open spec fn decode(bytes: Seq<u8>) -> Decoded<Time> {
        if bytes.len() < 3 {
            Decoded::Aborts
        } else {
            Decoded::Value(Time { hour: bytes[0], minute: bytes[1], second: bytes[2] }, 3)
        }
    }

    open spec fn restored(v: Time) -> Time {
        v
    }

    fn serialize(&self) -> (res: Vec<u8>) {
        let mut result: Vec<u8> = Vec::new();
        result.push(self.hour);
        result.push(self.minute);
        result.push(self.second);
        assert(result@ =~= seq![self.hour, self.minute, self.second]);
        result
    }

    fn deserialize(buffer: &mut &[u8]) -> (res: Result<Self, Error>) {
        let ghost start = buffer@;
        let mut time = Time::new();
        time.hour = deser_u8(buffer)?;
        time.minute = deser_u8(buffer)?;
        time.second = deser_u8(buffer)?;
        assert(buffer@ =~= start.skip(3));
        Ok(time)
    }

    proof fn lemma_roundtrip(v: Time, rest: Seq<u8>) {
    }
}

impl Serde for DateTime {
    open spec fn serializable(v: DateTime) -> bool {
        true
    }

    /// The date, then the time.
    open spec fn encode(v: DateTime) -> Seq<u8> {
        Date::encode(v.date) + Time::encode(v.time)
    }

    open spec fn decode(bytes: Seq<u8>) -> Decoded<DateTime> {
        if bytes.len() < 7 {
            Decoded::Aborts
        } else {
            Decoded::Value(
                DateTime {
                    date: Date { day: bytes[0], month: bytes[1], year: u16_of_be(bytes.skip(2)) },
                    time: Time { hour: bytes[4], minute: bytes[5], second: bytes[6] },
                },
                7,
            )
        }
    }

    open spec fn restored(v: DateTime) -> DateTime {
        v
    }

    fn serialize(&self) -> (res: Vec<u8>) {
        let mut result = self.date.serialize();
        let t = self.time.serialize();
        push_bytes(&mut result, t.as_slice());
        result
    }

    fn deserialize(buffer: &mut &[u8]) -> (res: Result<Self, Error>) {
        let ghost start = buffer@;
        let date = Date::deserialize(buffer)?;
        let ghost mid = buffer@;
        let time = Time::deserialize(buffer)?;
        assert(buffer@ =~= start.skip(7));
        assert(mid =~= start.skip(4));
        Ok(DateTime::from(date, time))
    }

    proof fn lemma_roundtrip(v: DateTime, rest: Seq<u8>) {
        let b = Self::encode(v) + rest;
        lemma_u16_roundtrip(v.date.year);
        assert(b.skip(2) =~= be_bytes_u16(v.date.year) + (Time::encode(v.time) + rest));
        lemma_prefix_decodes(be_bytes_u16(v.date.year), Time::encode(v.time) + rest);
    }
}

} // verus!
