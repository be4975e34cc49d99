use vstd::prelude::*;
use crate::fs_base::{Error, Permissions};
use crate::serde::{
    Decoded, be_bytes_u32, be_bytes_u16, be_bytes_usize, u32_of_be, u16_of_be, usize_of_be,
    usize_width, push_u32, push_u16, push_usize, push_bytes, deser_u32, deser_u16, deser_usize, lemma_u32_roundtrip,
    lemma_u16_roundtrip, lemma_usize_roundtrip, lemma_prefix_decodes,
};
use crate::traits::Serde;
use crate::util::date_time::{Date, DateTime, Time};

verus! {

/// What the tree records of every node: its name, permissions, times and size.
#[derive(PartialEq, Eq, Structural, Clone, Copy, Debug)]
pub struct INode {
    pub name_id: u32,
    pub permissions: Permissions,
    pub created_at: DateTime,
    pub last_modified: DateTime,
    pub size: usize,
}

impl View for INode {
    type V = INode;

    open spec fn view(&self) -> INode {
        *self
    }
}

impl INode {
    /// An empty node with no name, created now.
    pub fn new() -> (res: Self)
        ensures
            res.name_id == 0,
            res.permissions == 0,
            res.size == 0,
            res.created_at.in_calendar_range(),
            res.last_modified.in_calendar_range(),
    {
        Self {
            name_id: 0,
            permissions: 0,
            created_at: DateTime::now(),
            last_modified: DateTime::now(),
            size: 0,
        }
    }

    pub fn from(
        name_id: u32,
        perms: Permissions,
        created_at: DateTime,
        last_modified: DateTime,
        size: usize,
    ) -> (res: Self)
        ensures
            res == (INode { name_id, permissions: perms, created_at, last_modified, size }),
    {
        Self { name_id, permissions: perms, created_at, last_modified, size }
    }
}

impl Default for INode {
    fn default() -> (res: Self)
        ensures
            res.name_id == 0,
            res.permissions == 0,
            res.size == 0,
            res.created_at.in_calendar_range(),
            res.last_modified.in_calendar_range(),
    {
        Self::new()
    }
}

/// The date and time encoded in the seven bytes at the front of `b`.
pub open spec fn date_time_at(b: Seq<u8>) -> DateTime {
    DateTime {
        date: Date { day: b[0], month: b[1], year: u16_of_be(b.skip(2)) },
        time: Time { hour: b[4], minute: b[5], second: b[6] },
    }
}

impl Serde for INode {
    open spec fn serializable(v: INode) -> bool {
        true
    }

    /// Name id, permissions, creation time, modification time, then size.
    open spec fn encode(v: INode) -> Seq<u8> {
        be_bytes_u32(v.name_id) + be_bytes_u16(v.permissions) + DateTime::encode(v.created_at)
            + DateTime::encode(v.last_modified) + be_bytes_usize(v.size)
    }

    open spec fn decode(bytes: Seq<u8>) -> Decoded<INode> {
        if bytes.len() < 20 + usize_width() {
            Decoded::Aborts
        } else {
            Decoded::Value(
                INode {
                    name_id: u32_of_be(bytes),
                    permissions: u16_of_be(bytes.skip(4)),
                    created_at: date_time_at(bytes.skip(6)),
                    last_modified: date_time_at(bytes.skip(13)),
                    size: usize_of_be(bytes.skip(20)),
                },
                20 + usize_width(),
            )
        }
    }

    open spec fn restored(v: INode) -> INode {
        v
    }

    fn serialize(&self) -> (res: Vec<u8>) {
        let mut result: Vec<u8> = Vec::new();
        push_u32(&mut result, self.name_id);
        push_u16(&mut result, self.permissions);
        let c = self.created_at.serialize();
        push_bytes(&mut result, c.as_slice());
        let m = self.last_modified.serialize();
        push_bytes(&mut result, m.as_slice());
        push_usize(&mut result, self.size);
        result
    }

    fn deserialize(buffer: &mut &[u8]) -> (res: Result<Self, Error>) {
        let ghost start = buffer@;
        let name_id = deser_u32(buffer)?;
        let permissions = deser_u16(buffer)?;
        let created_at = DateTime::deserialize(buffer)?;
        let last_modified = DateTime::deserialize(buffer)?;
        let size = deser_usize(buffer)?;
        assert(start.skip(4).skip(2) =~= start.skip(6));
        assert(start.skip(6).skip(7) =~= start.skip(13));
        assert(start.skip(13).skip(7) =~= start.skip(20));
        assert(start.skip(20).skip(usize_width() as int) =~= start.skip(20 + usize_width() as int));
        assert(start.skip(6).skip(2) =~= start.skip(8));
        assert(start.skip(13).skip(2) =~= start.skip(15));
        Ok(INode::from(name_id, permissions, created_at, last_modified, size))
    }

    proof fn lemma_roundtrip(v: INode, rest: Seq<u8>) {
        let b = Self::encode(v) + rest;
        let c = DateTime::encode(v.created_at);
        let m = DateTime::encode(v.last_modified);
        let z = be_bytes_usize(v.size);
        lemma_u32_roundtrip(v.name_id);
        lemma_u16_roundtrip(v.permissions);
        lemma_usize_roundtrip(v.size);
        lemma_u16_roundtrip(v.created_at.date.year);
        lemma_u16_roundtrip(v.last_modified.date.year);
        assert(b =~= be_bytes_u32(v.name_id) + (be_bytes_u16(v.permissions) + c + m + z + rest));
        lemma_prefix_decodes(be_bytes_u32(v.name_id), be_bytes_u16(v.permissions) + c + m + z + rest);
        assert(b.skip(4) =~= be_bytes_u16(v.permissions) + (c + m + z + rest));
        lemma_prefix_decodes(be_bytes_u16(v.permissions), c + m + z + rest);
        assert(b.skip(6) =~= c + (m + z + rest));
        assert(b.skip(8) =~= be_bytes_u16(v.created_at.date.year) + (Time::encode(v.created_at.time) + m + z + rest));
        lemma_prefix_decodes(be_bytes_u16(v.created_at.date.year), Time::encode(v.created_at.time) + m + z + rest);
        assert(b.skip(13) =~= m + (z + rest));
        assert(b.skip(15) =~= be_bytes_u16(v.last_modified.date.year) + (Time::encode(v.last_modified.time) + z + rest));
        lemma_prefix_decodes(be_bytes_u16(v.last_modified.date.year), Time::encode(v.last_modified.time) + z + rest);
        assert(b.skip(20) =~= z + rest);
        lemma_prefix_decodes(z, rest);
        assert(b.skip(6).skip(2) =~= b.skip(8));
        assert(b.skip(13).skip(2) =~= b.skip(15));
    }
}

/// Reading back the encoding of an inode gives that very inode, every field
/// as it was, its two times included, and takes exactly its bytes.
pub proof fn lemma_inode_reads_back(v: INode, rest: Seq<u8>)
    ensures
        INode::decode(INode::encode(v) + rest) == Decoded::Value(v, INode::encode(v).len()),
        INode::decode(INode::encode(v) + rest)->Value_0.created_at == v.created_at,
        INode::decode(INode::encode(v) + rest)->Value_0.last_modified == v.last_modified,
        INode::decode(INode::encode(v) + rest)->Value_0.size == v.size,
{
    INode::lemma_roundtrip(v, rest);
}

} // verus!
