//! Whether an image can be read without reading past its end: the decoders
//! of the image are specified to abort there, as slicing past the end does,
//! so a caller holding bytes of unknown origin asks these first.
use vstd::prelude::*;
use crate::block_device::{BlockDevice, device_preamble};
use crate::directory::DirectoryData;
use crate::file::FileData;
use crate::fs_base::BLOCK_DEVICE_PREAMBLE;
use crate::header::{Header, Node, decode_node_list, node_decoder};
use crate::inode::INode;
use crate::string_buffer::{
    STRING_BUFFER_PREAMBLE, StringBuffer, decode_name, name_decoder, preamble_bytes, string_from_utf8,
};
use vstd::hash_map::StringHashMap;
use vstd::utf8::{decode_utf8, valid_utf8};
use crate::serde::starts_with;
use crate::serde::{Decoded, decode_many, decode_vec_u32, deser_u32, lemma_many_stops, u32_of_be, usize_width};
use crate::traits::Serde;

verus! {

/// What a decoder would do with some bytes, without the value: take a
/// number of bytes, fail, or read past the end.
pub enum Probe {
    Takes(usize),
    Fails,
    Aborts,
}

impl Probe {
    /// The probe tells what `d` does.
    pub open spec fn tells<T>(self, d: Decoded<T>) -> bool {
        match d {
            Decoded::Value(_, n) => self == Probe::Takes(n as usize) && n <= usize::MAX,
            Decoded::Fails(_) => self is Fails,
            Decoded::Aborts => self is Aborts,
        }
    }
}

/// What reading a list of `u32` from the front of `b` does.
pub fn probe_vec_u32(b: &[u8]) -> (res: Probe)
    ensures
        res.tells(decode_vec_u32(b@)),
{
    if b.len() < 4 {
        return Probe::Aborts;
    }
    let mut s = b;
    let n = deser_u32(&mut s);
    let n: u32 = match n {
        Ok(n) => n,
        Err(_) => {
            return Probe::Aborts;
        },
    };
    let rest = b.len() - 4;
    if (rest as u64) < 4 * (n as u64) {
        Probe::Aborts
    } else {
        Probe::Takes(4 + 4 * n as usize)
    }
}

/// What reading an inode from the front of `b` does.
pub fn probe_inode(b: &[u8]) -> (res: Probe)
    ensures
        res.tells(INode::decode(b@)),
{
    let width: usize = if usize::BITS == 64 { 8 } else { 4 };
    if b.len() < 20 + width {
        Probe::Aborts
    } else {
        Probe::Takes(20 + width)
    }
}

/// What reading a directory, or equally a file, from the front of `b` does:
/// an inode, then a list of `u32`.
pub fn probe_entry(b: &[u8]) -> (res: Probe)
    ensures
        res.tells(DirectoryData::decode(b@)),
        res.tells(FileData::decode(b@)),
{
    match probe_inode(b) {
        Probe::Takes(n) => {
            let rest = &b[n..b.len()];
            assert(rest@ == b@.skip(n as int));
            match probe_vec_u32(rest) {
                Probe::Takes(m) => Probe::Takes(n + m),
                _ => Probe::Aborts,
            }
        },
        _ => Probe::Aborts,
    }
}

/// What reading a node from the front of `b` does.
pub fn probe_node(b: &[u8]) -> (res: Probe)
    ensures
        res.tells(Node::decode(b@)),
{
    if b.len() < 1 {
        return Probe::Aborts;
    }
    if b[0] != 0 && b[0] != 1 {
        return Probe::Fails;
    }
    let rest = &b[1..b.len()];
    assert(rest@ == b@.skip(1));
    match probe_entry(rest) {
        Probe::Takes(n) => Probe::Takes(n + 1),
        p => p,
    }
}

/// What reading the list of nodes from the front of `b` does.
pub fn probe_node_list(b: &[u8]) -> (res: Probe)
    ensures
        res.tells(decode_node_list(b@)),
        res matches Probe::Takes(n) ==> n <= b@.len(),
{
    reveal(decode_node_list);
    if b.len() < 4 {
        return Probe::Aborts;
    }
    let mut s = b;
    let count: u32 = match deser_u32(&mut s) {
        Ok(n) => n,
        Err(_) => {
            return Probe::Aborts;
        },
    };
    let body = &b[4..b.len()];
    assert(body@ == b@.skip(4));
    let mut consumed: usize = 0;
    let mut i: u32 = 0;
    while i < count
        invariant
            b@.len() >= 4,
            count == u32_of_be(b@),
            body@ == b@.skip(4),
            i <= count,
            consumed <= body@.len(),
            decode_many(body@, i as nat, node_decoder()) is Value,
            decode_many(body@, i as nat, node_decoder())->Value_1 == consumed,
        decreases count - i,
    {
        let here = &body[consumed..body.len()];
        assert(here@ == body@.skip(consumed as int));
        assert(node_decoder()(here@) == Node::decode(here@));
        match probe_node(here) {
            Probe::Takes(m) => {
                consumed = consumed + m;
                i = i + 1;
            },
            Probe::Fails => {
                proof {
                    reveal(decode_node_list);
                    lemma_many_stops(body@, (i + 1) as nat, count as nat, node_decoder());
                }
                return Probe::Fails;
            },
            Probe::Aborts => {
                proof {
                    reveal(decode_node_list);
                    lemma_many_stops(body@, (i + 1) as nat, count as nat, node_decoder());
                }
                return Probe::Aborts;
            },
        }
    }
    Probe::Takes(consumed + 4)
}

/// What reading the table of names from the front of `b` does.
#[verifier::rlimit(40)]
pub fn probe_string_buffer(b: &[u8]) -> (res: Probe)
    ensures
        res.tells(StringBuffer::decode(b@)),
        res matches Probe::Takes(n) ==> n <= b@.len(),
{
    let pre = STRING_BUFFER_PREAMBLE.as_bytes();
    if !starts_with(b, pre) {
        return Probe::Fails;
    }
    let after = &b[pre.len()..b.len()];
    assert(after@ == b@.skip(preamble_bytes().len() as int));
    if after.len() < 4 {
        return Probe::Aborts;
    }
    let mut s = after;
    let count: u32 = match deser_u32(&mut s) {
        Ok(n) => n,
        Err(_) => {
            return Probe::Aborts;
        },
    };
    let body = &after[4..after.len()];
    assert(body@ == after@.skip(4));
    let mut seen: StringHashMap<u32> = StringHashMap::new();
    let mut dup = false;
    let ghost mut list: Seq<Seq<char>> = Seq::empty();
    let mut consumed: usize = 0;
    let mut i: u32 = 0;
    while i < count
        invariant
            after@ == b@.skip(preamble_bytes().len() as int),
            preamble_bytes().len() <= b@.len(),
            b@.subrange(0, preamble_bytes().len() as int) == preamble_bytes(),
            after@.len() >= 4,
            count == u32_of_be(after@),
            body@ == after@.skip(4),
            i <= count,
            consumed <= body@.len(),
            decode_many(body@, i as nat, name_decoder()) == Decoded::Value(list, consumed as nat),
            forall|k: Seq<char>| seen@.contains_key(k) <==> list.contains(k),
            dup == !list.no_duplicates(),
        decreases count - i,
    {
        let here = &body[consumed..body.len()];
        assert(here@ == body@.skip(consumed as int));
        assert(name_decoder()(here@) == decode_name(here@));
        if here.len() < 4 {
            proof {
                lemma_many_stops(body@, (i + 1) as nat, count as nat, name_decoder());
            }
            return Probe::Aborts;
        }
        let mut t = here;
        let l: u32 = match deser_u32(&mut t) {
            Ok(n) => n,
            Err(_) => {
                return Probe::Aborts;
            },
        };
        if ((here.len() - 4) as u64) < l as u64 {
            proof {
                lemma_many_stops(body@, (i + 1) as nat, count as nat, name_decoder());
            }
            return Probe::Fails;
        }
        let lu = l as usize;
        let bytes = vstd::slice::slice_to_vec(&here[4..4 + lu]);
        assert(bytes@ == here@.subrange(4, 4 + l as int));
        match string_from_utf8(bytes) {
            Err(_) => {
                proof {
                    lemma_many_stops(body@, (i + 1) as nat, count as nat, name_decoder());
                }
                return Probe::Fails;
            },
            Ok(text) => {
                let ghost x = text@;
                let ghost old_list = list;
                proof {
                    assert(x == decode_utf8(here@.subrange(4, 4 + l as int)));
                }
                if seen.contains_key(text.as_str()) {
                    dup = true;
                } else {
                    seen.insert(text, 0);
                }
                proof {
                    list = list.push(x);
                    assert forall|k: Seq<char>| seen@.contains_key(k) <==> list.contains(k) by {
                        if list.contains(k) && k != x {
                            let j = choose|j: int| 0 <= j < list.len() && list[j] == k;
                            assert(old_list[j] == k);
                        }
                        if old_list.contains(k) {
                            let j = choose|j: int| 0 <= j < old_list.len() && old_list[j] == k;
                            assert(list[j] == k);
                        }
                        assert(list[list.len() - 1] == x);
                    }
                    if old_list.contains(x) {
                        let j = choose|j: int| 0 <= j < old_list.len() && old_list[j] == x;
                        assert(list[j] == list[list.len() - 1]);
                    }
                    if !old_list.no_duplicates() {
                        let (j1, j2) = choose|j1: int, j2: int|
                            0 <= j1 < old_list.len() && 0 <= j2 < old_list.len() && j1 != j2
                                && old_list[j1] == old_list[j2];
                        assert(list[j1] == list[j2]);
                    }
                    if old_list.no_duplicates() && !old_list.contains(x) {
                        assert forall|j1: int, j2: int|
                            0 <= j1 < list.len() && 0 <= j2 < list.len() && j1 != j2 implies list[j1]
                            != list[j2] by {
                            if j1 < old_list.len() && j2 < old_list.len() {
                                assert(list[j1] == old_list[j1]);
                                assert(list[j2] == old_list[j2]);
                            } else if j1 < old_list.len() {
                                assert(old_list.contains(list[j1]));
                            } else {
                                assert(old_list.contains(list[j2]));
                            }
                        }
                    }
                }
                consumed = consumed + 4 + lu;
                i = i + 1;
            },
        }
    }
    if dup {
        Probe::Aborts
    } else {
        Probe::Takes(pre.len() + 4 + consumed)
    }
}

/// What reading the record of the block device from the front of `b` does.
pub fn probe_block_device(b: &[u8]) -> (res: Probe)
    ensures
        res.tells(BlockDevice::decode(b@)),
        res matches Probe::Takes(n) ==> n <= b@.len(),
{
    let pre = BLOCK_DEVICE_PREAMBLE.as_bytes();
    if !starts_with(b, pre) {
        return Probe::Fails;
    }
    let after = &b[pre.len()..b.len()];
    assert(after@ == b@.skip(device_preamble().len() as int));
    match probe_vec_u32(after) {
        Probe::Takes(n) => {
            if after.len() - n < 4 {
                Probe::Aborts
            } else {
                Probe::Takes(pre.len() + n + 4)
            }
        },
        _ => Probe::Aborts,
    }
}

/// Whether `data` can be opened as an image without reading past its end:
/// exactly what `Vfs::open` asks of its bytes.
pub fn image_can_be_read(data: &[u8]) -> (res: bool)
    ensures
        res == (!(Header::decode(data@) is Aborts) && (Header::decode(data@) is Value
            ==> !(BlockDevice::decode(data@.skip(Header::decode(data@)->Value_1 as int)) is Aborts))),
{
    match probe_node_list(data) {
        Probe::Takes(n) => {
            let rest = &data[n..data.len()];
            assert(rest@ == data@.skip(n as int));
            match probe_string_buffer(rest) {
                Probe::Takes(m) => {
                    let tail = &rest[m..rest.len()];
                    assert(tail@ =~= data@.skip((n + m) as int));
                    match probe_block_device(tail) {
                        Probe::Aborts => false,
                        _ => true,
                    }
                },
                Probe::Fails => true,
                Probe::Aborts => false,
            }
        },
        Probe::Fails => true,
        Probe::Aborts => false,
    }
}

} // verus!
