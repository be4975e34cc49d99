use vstd::prelude::*;
use crate::fs_base::Error;
use crate::serde::{Decoded, decodes_to};
use crate::string_buffer::StringBuffer;

verus! {

/// A value with a binary encoding that can be written to the image and read
/// back from it.
pub trait Serde: Sized + View {
    /// The values that `serialize` accepts.
    spec fn serializable(v: Self::V) -> bool;

    /// The bytes that `serialize` produces for a value.
    spec fn encode(v: Self::V) -> Seq<u8>;

    /// What `deserialize` does with the bytes at the front of its buffer.
    spec fn decode(bytes: Seq<u8>) -> Decoded<Self::V>;

    /// The value that reading back an encoding gives: the parts of a value
    /// that the encoding does not hold come back in their initial state.
    spec fn restored(v: Self::V) -> Self::V;

    fn serialize(&self) -> (res: Vec<u8>)
        requires
            Self::serializable(self@),
        ensures
            res@ == Self::encode(self@),
    ;

    /// Reads a value from the front of `buffer` and moves `buffer` past it.
    fn deserialize(buffer: &mut &[u8]) -> (res: Result<Self, Error>)
        requires
            !(Self::decode(old(buffer)@) is Aborts),
        ensures
            decodes_to(res, Self::decode(old(buffer)@), old(buffer)@, final(buffer)@),
    ;

    /// Reading back the encoding of a value gives its restored form and takes
    /// exactly the bytes of the encoding, whatever follows them.
    proof fn lemma_roundtrip(v: Self::V, rest: Seq<u8>)
        requires
            Self::serializable(v),
        ensures
            Self::decode(Self::encode(v) + rest) == Decoded::Value(
                Self::restored(v),
                Self::encode(v).len(),
            ),
    ;
}

/// A node of the directory tree that can be asked for its children by name.
pub trait Directive {
    /// The node has a child under the name with this id.
    spec fn names_child(&self, id: u32) -> bool;

    fn has_child(&self, str_buf: &StringBuffer, s: &String) -> (res: bool)
        ensures
            res == (str_buf@.names.contains_key(s@) && self.names_child(str_buf@.names[s@])),
    ;

    fn has_child_by_id(&self, id: u32) -> (res: bool)
        ensures
            res == self.names_child(id),
    ;
}

} // verus!
