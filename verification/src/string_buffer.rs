//! The table of names: each distinct name is stored once and known by its id,
//! its position in the order in which the names were added.
use vstd::prelude::*;
use vstd::hash_map::StringHashMap;
use vstd::string::StringSliceAdditionalSpecFns;
use vstd::utf8::{valid_utf8, decode_utf8, encode_utf8};
use crate::fs_base::{Error, ErrorKind};
use crate::serde::{
    Decoded, be_bytes_u32, u32_of_be, decode_many, encode_many, lemma_many_roundtrip, lemma_many_stops,
    lemma_u32_roundtrip, lemma_prefix_decodes, push_u32, push_bytes, starts_with, deser_u32, decodes_to,
};
use crate::traits::Serde;
use crate::util::string_helper::texts;

verus! {

broadcast use vstd::hash_map::group_hash_map_axioms;

pub const STRING_BUFFER_PREAMBLE: &'static str = "STRING_BUFFER";

pub struct StringBuffer {
    pub(crate) name_map: StringHashMap<u32>,
    pub(crate) serialization_size: u32,
    pub(crate) next_index: u32,
    pub string_list: Vec<String>,
}

/// The contents of a `StringBuffer`.
pub struct StringBufferView {
    /// The id of each name.
    pub names: Map<Seq<char>, u32>,
    pub serialization_size: u32,
    /// The id that the next new name gets.
    pub next_index: u32,
    /// The names, by id.
    pub strings: Seq<Seq<char>>,
}

impl View for StringBuffer {
    type V = StringBufferView;

    closed spec fn view(&self) -> StringBufferView {
        StringBufferView {
            names: self.name_map@,
            serialization_size: self.serialization_size,
            next_index: self.next_index,
            strings: texts(self.string_list@),
        }
    }
}

/// The ids that adding the names of `list` in order gives them; a name that
/// occurs twice keeps the id of its last occurrence.
pub open spec fn ids_in_order(list: Seq<Seq<char>>) -> Map<Seq<char>, u32>
    decreases list.len(),
{
    if list.len() == 0 {
        Map::empty()
    } else {
        ids_in_order(list.drop_last()).insert(list.last(), (list.len() - 1) as u32)
    }
}

/// The table that holds exactly the names of `list`, each with its position as id.
pub open spec fn table_of(list: Seq<Seq<char>>) -> StringBufferView {
    StringBufferView {
        names: ids_in_order(list),
        serialization_size: 0,
        next_index: list.len() as u32,
        strings: list,
    }
}

/// The table of names after `name` is added to it.
pub open spec fn with_name(s: StringBufferView, name: Seq<char>) -> StringBufferView {
    if s.names.contains_key(name) {
        s
    } else {
        StringBufferView {
            names: s.names.insert(name, s.next_index),
            next_index: (s.next_index + 1) as u32,
            strings: s.strings.push(name),
            ..s
        }
    }
}

/// Adding a name keeps a table well formed.
pub proof fn lemma_with_name_wf(s: StringBufferView, name: Seq<char>)
    requires
        s.wf(),
        s.next_index < u32::MAX,
    ensures
        with_name(s, name).wf(),
        with_name(s, name).names.contains_key(name),
{
    if !s.names.contains_key(name) {
        let t = with_name(s, name);
        assert forall|i: int| 0 <= i < t.strings.len() implies #[trigger] t.names.contains_key(
            t.strings[i],
        ) && t.names[t.strings[i]] == i by {
            if i < s.strings.len() {
                assert(s.names.contains_key(s.strings[i]));
            }
        }
        assert forall|k: Seq<char>| #[trigger] t.names.contains_key(k) implies t.names[k] < t.strings.len()
            && t.strings[t.names[k] as int] == k by {
            if k != name {
                assert(s.names.contains_key(k));
            }
        }
    }
}

/// Adding a name gives it an id that asking for it then finds; a new name
/// gets the next id, which is the number of names before it, and goes last
/// in the list of names; the names already there keep theirs; and the table
/// stays well formed.
pub proof fn lemma_add_then_get(s: StringBufferView, name: Seq<char>, other: Seq<char>)
    requires
        s.wf(),
        !s.names.contains_key(name) ==> s.next_index < u32::MAX,
    ensures
        with_name(s, name).names.contains_key(name),
        with_name(s, name).wf(),
        s.names.contains_key(name) ==> with_name(s, name) == s,
        !s.names.contains_key(name) ==> with_name(s, name).names[name] == s.strings.len()
            && with_name(s, name).strings == s.strings.push(name)
            && with_name(s, name).next_index == s.next_index + 1,
        s.names.contains_key(other) ==> with_name(s, name).names.contains_key(other) && with_name(
            s,
            name,
        ).names[other] == s.names[other],
        other != name ==> (with_name(s, name).names.contains_key(other) == s.names.contains_key(other)),
{
    if !s.names.contains_key(name) {
        lemma_with_name_wf(s, name);
    }
}

impl StringBufferView {
    /// Each name is stored once, under the id that is its position in
    /// `strings`, and the next id is the number of names.
    pub open spec fn wf(self) -> bool {
        &&& self.strings.len() == self.next_index
        &&& forall|i: int|
            0 <= i < self.strings.len() ==> #[trigger] self.names.contains_key(self.strings[i])
                && self.names[self.strings[i]] == i
        &&& forall|k: Seq<char>| #[trigger]
            self.names.contains_key(k) ==> self.names[k] < self.strings.len()
                && self.strings[self.names[k] as int] == k
    }
}

/// The bytes that a name takes in the encoding.
pub open spec fn name_bytes(s: Seq<char>) -> Seq<u8> {
    encode_utf8(s)
}

/// One name in the encoding: the length of its UTF-8 bytes, then the bytes.
pub open spec fn encode_name(s: Seq<char>) -> Seq<u8> {
    be_bytes_u32(name_bytes(s).len() as u32) + name_bytes(s)
}

pub open spec fn decode_name(b: Seq<u8>) -> Decoded<Seq<char>> {
    if b.len() < 4 {
        Decoded::Aborts
    } else {
        let l = u32_of_be(b) as nat;
        if b.len() < 4 + l {
            Decoded::Fails(ErrorKind::InvalidStringBuffer)
        } else if !valid_utf8(b.subrange(4, 4 + l as int)) {
            Decoded::Fails(ErrorKind::InvalidStringBuffer)
        } else {
            Decoded::Value(decode_utf8(b.subrange(4, 4 + l as int)), 4 + l)
        }
    }
}

pub open spec fn preamble_bytes() -> Seq<u8> {
    STRING_BUFFER_PREAMBLE.spec_bytes()
}

/// The total bytes of the names.
pub open spec fn names_len(list: Seq<Seq<char>>) -> nat
    decreases list.len(),
{
    if list.len() == 0 {
        0
    } else {
        names_len(list.drop_last()) + name_bytes(list.last()).len()
    }
}

pub proof fn lemma_ids_in_order(list: Seq<Seq<char>>)
    requires
        list.no_duplicates(),
        list.len() <= u32::MAX,
    ensures
        forall|i: int|
            0 <= i < list.len() ==> #[trigger] ids_in_order(list).contains_key(list[i])
                && ids_in_order(list)[list[i]] == i,
        forall|k: Seq<char>| #[trigger]
            ids_in_order(list).contains_key(k) ==> ids_in_order(list)[k] < list.len()
                && list[ids_in_order(list)[k] as int] == k,
        table_of(list).wf(),
    decreases list.len(),
{
    if list.len() > 0 {
        let p = list.drop_last();
        let x = list.last();
        assert(p.no_duplicates());
        lemma_ids_in_order(p);
        let m = ids_in_order(list);
        let mp = ids_in_order(p);
        assert(m == mp.insert(x, (list.len() - 1) as u32));
        assert forall|i: int| 0 <= i < list.len() implies #[trigger] m.contains_key(list[i])
            && m[list[i]] == i by {
            if i < list.len() - 1 {
                assert(p[i] == list[i]);
                assert(mp.contains_key(p[i]));
                assert(list[i] != x);
            }
        }
        assert forall|k: Seq<char>| #[trigger] m.contains_key(k) implies m[k] < list.len()
            && list[m[k] as int] == k by {
            if k != x {
                assert(mp.contains_key(k));
                assert(p[mp[k] as int] == k);
            }
        }
    }
}

/// A well-formed table is determined by its names: its ids are the ones
/// that adding the names in order gives.
pub proof fn lemma_wf_ids(v: StringBufferView)
    requires
        v.wf(),
    ensures
        v.names == ids_in_order(v.strings),
        v.strings.no_duplicates(),
{
    assert forall|i: int, j: int|
        0 <= i < v.strings.len() && 0 <= j < v.strings.len() && i != j implies v.strings[i]
        != v.strings[j] by {
        assert(v.names.contains_key(v.strings[i]));
        assert(v.names.contains_key(v.strings[j]));
    }
    lemma_ids_in_order(v.strings);
    let m = ids_in_order(v.strings);
    assert forall|k: Seq<char>| v.names.contains_key(k) <==> m.contains_key(k) by {
        if v.names.contains_key(k) {
            let i = v.names[k] as int;
            assert(m.contains_key(v.strings[i]));
        }
        if m.contains_key(k) {
            let i = m[k] as int;
            assert(v.names.contains_key(v.strings[i]));
        }
    }
    assert forall|k: Seq<char>| v.names.contains_key(k) implies v.names[k] == m[k] by {
        let i = v.names[k] as int;
        assert(m.contains_key(v.strings[i]));
    }
    assert(v.names =~= m);
}

impl StringBuffer {
    /// The names of the table are the texts of `string_list`.
    pub(crate) broadcast proof fn lemma_strings_are_list(&self)
        ensures
            #[trigger] self@.strings == texts(self.string_list@),
    {
    }

    pub fn new() -> (res: Self)
        ensures
            res@.names == Map::<Seq<char>, u32>::empty(),
            res@.serialization_size == 0,
            res@.next_index == 0,
            res@.strings == Seq::<Seq<char>>::empty(),
            res@.wf(),
    {
        let res = Self {
            name_map: StringHashMap::new(),
            serialization_size: 0,
            next_index: 0,
            string_list: Vec::new(),
        };
        assert(res@.strings =~= Seq::<Seq<char>>::empty());
        res
    }

    /// Builds a table from its parts. The other operations ask of it that the
    /// parts describe one well-formed table (`wf`).
    pub fn from(
        name_map0: StringHashMap<u32>,
        serialization_size0: u32,
        next_index0: u32,
        string_list: Vec<String>,
    ) -> (res: Self)
        ensures
            res@.names == name_map0@,
            res@.serialization_size == serialization_size0,
            res@.next_index == next_index0,
            res@.strings == texts(string_list@),
    {
        Self {
            name_map: name_map0,
            serialization_size: serialization_size0,
            next_index: next_index0,
            string_list: string_list,
        }
    }

    /// Whether two well-formed tables are the same table: the same names
    /// under the same ids, the same next id and the same size field.
    pub fn same_table(&self, other: &Self) -> (res: bool)
        requires
            self@.wf(),
            other@.wf(),
        ensures
            res == (self@ == other@),
    {
        proof {
            lemma_wf_ids(self@);
            lemma_wf_ids(other@);
        }
        if self.serialization_size != other.serialization_size || self.next_index != other.next_index
            || self.string_list.len() != other.string_list.len() {
            return false;
        }
        let mut i: usize = 0;
        while i < self.string_list.len()
            invariant
                self@.wf(),
                other@.wf(),
                self.string_list@.len() == other.string_list@.len(),
                i <= self.string_list@.len(),
                forall|j: int| 0 <= j < i ==> self@.strings[j] == other@.strings[j],
            decreases self.string_list@.len() - i,
        {
            proof {
                broadcast use StringBuffer::lemma_strings_are_list;
            }
            if self.string_list[i] != other.string_list[i] {
                assert(self@.strings[i as int] != other@.strings[i as int]);
                return false;
            }
            i = i + 1;
        }
        proof {
            broadcast use StringBuffer::lemma_strings_are_list;
            assert(self@.strings =~= other@.strings);
        }
        true
    }

    /// The id of a name, or an `InvalidDirective` error that names it.
    pub fn get(&self, s: &String) -> (res: Result<u32, Error>)
        ensures
            self@.names.contains_key(s@) ==> res == Ok::<u32, Error>(self@.names[s@]),
            !self@.names.contains_key(s@) ==> res is Err && res->Err_0.kind()
                == ErrorKind::InvalidDirective && res->Err_0.text() == "Bad string: "@ + s@
                + " "@,
    {
        match self.name_map.get(s.as_str()) {
            Some(num) => Ok(*num),
            None => {
                let msg = "Bad string: ".to_owned().concat(s.as_str()).concat(" ");
                Err(Error::InvalidDirective(msg))
            },
        }
    }

    /// The id of `name`; a name not yet in the table is added with the next id.
    pub fn add(&mut self, name: &str) -> (res: u32)
        requires
            !old(self)@.names.contains_key(name@) ==> old(self)@.next_index < u32::MAX,
        ensures
            final(self)@ == with_name(old(self)@, name@),
            res == final(self)@.names[name@],
            old(self)@.wf() ==> final(self)@.wf(),
    {
        match self.name_map.get(name) {
            Some(id) => *id,
            None => {
                let ghost pre = self@;
                self.string_list.push(name.to_owned());
                self.name_map.insert(name.to_owned(), self.next_index);
                let copy = self.next_index;
                self.next_index = self.next_index + 1;
                proof {
                    assert(self@.strings =~= pre.strings.push(name@));
                    assert(self@ == with_name(pre, name@));
                    if pre.wf() {
                        lemma_with_name_wf(pre, name@);
                    }
                }
                copy
            },
        }
    }

    /// The bytes the names take in an encoding besides the preamble and count:
    /// four for each name's length, and the name's bytes.
    fn serialization_size(&self) -> (res: usize)
        requires
            self@.wf(),
            4 * self@.strings.len() + names_len(self@.strings) <= usize::MAX,
        ensures
            res == 4 * self@.strings.len() + names_len(self@.strings),
    {
        let ghost list = self@.strings;
        let mut size: usize = 0;
        let mut i: usize = 0;
        while i < self.string_list.len()
            invariant
                list == self@.strings,
                4 * list.len() + names_len(list) <= usize::MAX,
                i <= list.len(),
                size == 4 * i + names_len(list.subrange(0, i as int)),
            decreases list.len() - i,
        {
            proof {
                lemma_names_len_prefix(list, i + 1);
                lemma_names_len_grows(list, i + 1);
                broadcast use StringBuffer::lemma_strings_are_list;
            }
            let l = self.string_list[i].as_str().len();
            size = size + 4 + l;
            i = i + 1;
        }
        assert(list.subrange(0, list.len() as int) =~= list);
        size
    }

    /// The names ordered by their ids.
    fn map_as_vec(&self) -> (res: Vec<String>)
        requires
            self@.wf(),
        ensures
            texts(res@) == self@.strings,
    {
        let mut result: Vec<String> = Vec::new();
        let mut i: usize = 0;
        while i < self.string_list.len()
            invariant
                i <= self.string_list@.len(),
                result@.len() == i,
                self@.strings.len() == self.string_list@.len(),
                texts(result@) == self@.strings.subrange(0, i as int),
            decreases self.string_list@.len() - i,
        {
            let item = self.string_list[i].clone();
            assert(item@ == self@.strings[i as int]);
            let ghost before = result@;
            result.push(item);
            i = i + 1;
            assert(result@ == before.push(item));
            assert(texts(result@) =~= self@.strings.subrange(0, i as int));
        }
        assert(self@.strings.subrange(0, i as int) =~= self@.strings);
        result
    }

    /// Reads a name of `length` bytes from the front of `buffer`.
    fn deser_str(buffer: &[u8], length: usize) -> (res: Result<String, Error>)
        ensures
            length > buffer@.len() ==> res is Err && res->Err_0.kind()
                == ErrorKind::InvalidStringBuffer && res->Err_0.text()
                == "Did no provide the correct number of bytes for the string"@,
            length <= buffer@.len() && valid_utf8(buffer@.subrange(0, length as int)) ==> res is Ok
                && res->Ok_0@ == decode_utf8(buffer@.subrange(0, length as int)),
            length <= buffer@.len() && !valid_utf8(buffer@.subrange(0, length as int)) ==> res is Err
                && res->Err_0.kind() == ErrorKind::InvalidStringBuffer,
    {
        if length > buffer.len() {
            return Err(
                Error::InvalidStringBuffer(
                    "Did no provide the correct number of bytes for the string".to_owned(),
                ),
            );
        }
        let bytes = vstd::slice::slice_to_vec(&buffer[0..length]);
        match string_from_utf8(bytes) {
            Ok(res) => Ok(res),
            Err(err) => Err(Error::InvalidStringBuffer(err.to_string())),
        }
    }
}

/// The bytes of the first names are no more than the bytes of all of them.
pub proof fn lemma_names_len_grows(list: Seq<Seq<char>>, i: int)
    requires
        0 <= i <= list.len(),
    ensures
        names_len(list.subrange(0, i)) <= names_len(list),
    decreases list.len() - i,
{
    if i < list.len() {
        lemma_names_len_grows(list, i + 1);
        lemma_names_len_prefix(list, i + 1);
    } else {
        assert(list.subrange(0, i) =~= list);
    }
}

pub proof fn lemma_names_len_prefix(list: Seq<Seq<char>>, i: int)
    requires
        0 < i <= list.len(),
    ensures
        names_len(list.subrange(0, i)) == names_len(list.subrange(0, i - 1)) + name_bytes(
            list[i - 1],
        ).len(),
{
    assert(list.subrange(0, i).drop_last() =~= list.subrange(0, i - 1));
}

pub open spec fn name_encoder() -> spec_fn(Seq<char>) -> Seq<u8> {
    |s: Seq<char>| encode_name(s)
}

pub open spec fn name_decoder() -> spec_fn(Seq<u8>) -> Decoded<Seq<char>> {
    |b: Seq<u8>| decode_name(b)
}

pub open spec fn short_name() -> spec_fn(Seq<char>) -> bool {
    |s: Seq<char>| name_bytes(s).len() <= u32::MAX
}

pub open spec fn unchanged_name() -> spec_fn(Seq<char>) -> Seq<char> {
    |s: Seq<char>| s
}

pub proof fn lemma_name_roundtrip(s: Seq<char>, rest: Seq<u8>)
    requires
        name_bytes(s).len() <= u32::MAX,
    ensures
        decode_name(encode_name(s) + rest) == Decoded::Value(s, encode_name(s).len()),
{
    broadcast use vstd::utf8::encode_utf8_valid_utf8, vstd::utf8::encode_utf8_decode_utf8;

    let e = name_bytes(s);
    let b = encode_name(s) + rest;
    lemma_u32_roundtrip(e.len() as u32);
    lemma_prefix_decodes(be_bytes_u32(e.len() as u32), e + rest);
    assert(b =~= be_bytes_u32(e.len() as u32) + (e + rest));
    assert(b.subrange(4, 4 + e.len() as int) =~= e);
}

impl Serde for StringBuffer {
    /// A well-formed table whose names each take at most `u32::MAX` bytes,
    /// and whose encoding fits in memory.
    open spec fn serializable(v: StringBufferView) -> bool {
        &&& v.wf()
        &&& forall|i: int| 0 <= i < v.strings.len() ==> #[trigger] name_bytes(v.strings[i]).len() <= u32::MAX
        &&& preamble_bytes().len() + 4 * v.strings.len() + names_len(v.strings) <= usize::MAX
    }

    /// The preamble, the number of names, then each name by id: its byte
    /// length and its UTF-8 bytes.
    open spec fn encode(v: StringBufferView) -> Seq<u8> {
        preamble_bytes() + be_bytes_u32(v.strings.len() as u32) + encode_many(v.strings, name_encoder())
    }

    /// Fails on a missing preamble or on a name whose bytes are missing or
    /// not UTF-8; aborts where a length is cut off or a name repeats.
    open spec fn decode(bytes: Seq<u8>) -> Decoded<StringBufferView> {
        let p = preamble_bytes();
        if !(p.len() <= bytes.len() && bytes.subrange(0, p.len() as int) == p) {
            Decoded::Fails(ErrorKind::InvalidPreamble)
        } else {
            let b = bytes.skip(p.len() as int);
            if b.len() < 4 {
                Decoded::Aborts
            } else {
                match decode_many(b.skip(4), u32_of_be(b) as nat, name_decoder()) {
                    Decoded::Value(list, n) => if list.no_duplicates() {
                        Decoded::Value(table_of(list), p.len() + 4 + n)
                    } else {
                        Decoded::Aborts
                    },
                    Decoded::Fails(k) => Decoded::Fails(k),
                    Decoded::Aborts => Decoded::Aborts,
                }
            }
        }
    }

    /// The table read back has the same names and ids, and a size field of 0.
    open spec fn restored(v: StringBufferView) -> StringBufferView {
        StringBufferView { serialization_size: 0, ..v }
    }

    fn serialize(&self) -> (res: Vec<u8>) {
        let ghost v = self@;
        let pre = STRING_BUFFER_PREAMBLE.as_bytes();
        proof {
            lemma_names_len_grows(v.strings, 0);
        }
        let size = self.serialization_size();
        let mut buffer: Vec<u8> = Vec::with_capacity(size + pre.len());
        push_bytes(&mut buffer, pre);
        let sorted_map = self.map_as_vec();
        #[verifier::truncate]
        let count = sorted_map.len() as u32;
        push_u32(&mut buffer, count);
        let mut i: usize = 0;
        while i < sorted_map.len()
            invariant
                texts(sorted_map@) == v.strings,
                Self::serializable(v),
                i <= sorted_map@.len(),
                buffer@ == preamble_bytes() + be_bytes_u32(v.strings.len() as u32) + encode_many(
                    v.strings.subrange(0, i as int),
                    name_encoder(),
                ),
            decreases sorted_map@.len() - i,
        {
            let item = &sorted_map[i];
            let bytes = item.as_str().as_bytes();
            assert(bytes@ == name_bytes(v.strings[i as int]));
            assert(name_bytes(v.strings[i as int]).len() <= u32::MAX);
            let l = bytes.len() as u32;
            push_u32(&mut buffer, l);
            push_bytes(&mut buffer, bytes);
            i = i + 1;
            proof {
                let sub = v.strings.subrange(0, i as int);
                assert(sub.drop_last() =~= v.strings.subrange(0, i - 1));
                assert(buffer@ =~= preamble_bytes() + be_bytes_u32(v.strings.len() as u32)
                    + encode_many(sub, name_encoder()));
            }
        }
        assert(v.strings.subrange(0, i as int) =~= v.strings);
        buffer
    }

    /// A missing preamble is reported as "Did not find the preamble specific
    /// to the string buffer", and leaves the buffer as it was.
    fn deserialize(buffer: &mut &[u8]) -> (res: Result<Self, Error>)
        ensures
            Self::decode(old(buffer)@) == Decoded::<StringBufferView>::Fails(ErrorKind::InvalidPreamble)
                ==> res->Err_0.text() == "Did not find the preamble specific to the string buffer"@
                && final(buffer)@ == old(buffer)@,
    {
        let ghost start = buffer@;
        let mut name_map: StringHashMap<u32> = StringHashMap::new();
        let serialization_size: u32 = 0;
        let mut next_index: u32 = 0;
        let pre = STRING_BUFFER_PREAMBLE.as_bytes();
        if !starts_with(*buffer, pre) {
            return Err(
                Error::InvalidPreamble(
                    "Did not find the preamble specific to the string buffer".to_owned(),
                ),
            );
        }
        let b = *buffer;
        *buffer = &b[pre.len()..b.len()];
        let ghost after_pre = buffer@;
        let str_list_size = deser_u32(buffer)?;
        let ghost body = buffer@;
        let ghost count = str_list_size as nat;
        let mut string_list: Vec<String> = Vec::new();
        let ghost mut consumed: nat = 0;
        let mut i: u32 = 0;
        assert(texts(string_list@) =~= Seq::<Seq<char>>::empty());
        assert(name_map@ =~= ids_in_order(Seq::empty()));
        while i < str_list_size
            invariant
                start == old(buffer)@,
                start.skip(preamble_bytes().len() as int) == after_pre,
                after_pre.len() >= 4,
                str_list_size == u32_of_be(after_pre),
                body == after_pre.skip(4),
                count == str_list_size,
                !(Self::decode(start) is Aborts),
                Self::decode(start) == match decode_many(body, count, name_decoder()) {
                    Decoded::Value(list, n) => if list.no_duplicates() {
                        Decoded::Value(table_of(list), preamble_bytes().len() + 4 + n)
                    } else {
                        Decoded::<StringBufferView>::Aborts
                    },
                    Decoded::Fails(k) => Decoded::Fails(k),
                    Decoded::Aborts => Decoded::Aborts,
                },
                i <= str_list_size,
                next_index == i,
                string_list@.len() == i,
                decode_many(body, i as nat, name_decoder()) == Decoded::Value(texts(string_list@), consumed),
                buffer@ == body.skip(consumed as int),
                consumed <= body.len(),
                name_map@ == ids_in_order(texts(string_list@)),
            decreases str_list_size - i,
        {
            let ghost here = buffer@;
            let ghost consumed_before = consumed;
            proof {
                assert(here == body.skip(consumed as int));
                assert(name_decoder()(here) == decode_name(here));
                if decode_name(here) is Aborts {
                    lemma_many_stops(body, (i + 1) as nat, count, name_decoder());
                }
            }
            let str_size = deser_u32(buffer)?;
            let parsed_str = match Self::deser_str(*buffer, str_size as usize) {
                Ok(s) => s,
                Err(e) => {
                    proof {
                        assert(here.skip(4) == buffer@);
                        if (str_size as nat) <= buffer@.len() {
                            assert(here.subrange(4, 4 + str_size as int) =~= buffer@.subrange(0, str_size as int));
                        }
                        assert(decode_name(here) == Decoded::<Seq<char>>::Fails(ErrorKind::InvalidStringBuffer));
                        assert(decode_many(body, (i + 1) as nat, name_decoder()) == Decoded::<Seq<Seq<char>>>::Fails(ErrorKind::InvalidStringBuffer));
                        lemma_many_stops(body, (i + 1) as nat, count, name_decoder());
                        assert(e.kind() == ErrorKind::InvalidStringBuffer);
                        assert(decode_many(body, count, name_decoder()) == Decoded::<Seq<Seq<char>>>::Fails(ErrorKind::InvalidStringBuffer));
                        assert(Self::decode(start) == Decoded::<StringBufferView>::Fails(ErrorKind::InvalidStringBuffer));
                    }
                    return Err(e);
                },
            };
            proof {
                assert(here.subrange(4, 4 + str_size as int) =~= buffer@.subrange(0, str_size as int));
            }
            let rest = *buffer;
            *buffer = &rest[str_size as usize..rest.len()];
            name_map.insert(parsed_str.clone(), next_index);
            let ghost before_list = texts(string_list@);
            string_list.push(parsed_str);
            next_index = next_index + 1;
            i = i + 1;
            proof {
                assert(texts(string_list@) =~= before_list.push(parsed_str@));
                assert(texts(string_list@).drop_last() =~= before_list);
                consumed = consumed + 4 + str_size as nat;
                assert(name_decoder()(here) == Decoded::Value(parsed_str@, 4 + str_size as nat));
                assert(consumed <= body.len());
                assert(buffer@ =~= body.skip(consumed as int));
            }
        }
        proof {
            assert(decode_many(body, count, name_decoder()) == Decoded::Value(texts(string_list@), consumed));
            lemma_ids_in_order(texts(string_list@));
            assert(start =~= start.subrange(0, preamble_bytes().len() as int) + after_pre);
            assert(buffer@ =~= start.skip((preamble_bytes().len() + 4 + consumed) as int));
        }
        Ok(StringBuffer::from(name_map, serialization_size, next_index, string_list))
    }

    proof fn lemma_roundtrip(v: StringBufferView, rest: Seq<u8>) {
        let p = preamble_bytes();
        let e = Self::encode(v);
        let bytes = e + rest;
        let items = encode_many(v.strings, name_encoder());
        lemma_wf_ids(v);
        assert forall|x: Seq<char>, r: Seq<u8>| #[trigger] short_name()(x) implies #[trigger] name_decoder()(
            name_encoder()(x) + r,
        ) == Decoded::Value(unchanged_name()(x), name_encoder()(x).len()) by {
            lemma_name_roundtrip(x, r);
        }
        lemma_many_roundtrip(v.strings, rest, name_encoder(), name_decoder(), unchanged_name(), short_name());
        assert(v.strings.map_values(unchanged_name()) =~= v.strings);
        assert(bytes =~= p + (be_bytes_u32(v.strings.len() as u32) + (items + rest)));
        assert(bytes.subrange(0, p.len() as int) =~= p);
        let b = bytes.skip(p.len() as int);
        assert(b =~= be_bytes_u32(v.strings.len() as u32) + (items + rest));
        lemma_u32_roundtrip(v.strings.len() as u32);
        lemma_prefix_decodes(be_bytes_u32(v.strings.len() as u32), items + rest);
        assert(b.skip(4) =~= items + rest);
        assert(table_of(v.strings) =~= Self::restored(v));
    }
}

#[verifier::external_type_specification]
#[verifier::external_body]
pub struct ExFromUtf8Error(std::string::FromUtf8Error);

/// `String::from_utf8`: it gives a string exactly when the bytes are valid
/// UTF-8, and the string is then the text that the bytes encode.
#[verifier::external_body]
pub(crate) fn string_from_utf8(bytes: Vec<u8>) -> (res: Result<String, std::string::FromUtf8Error>)
    ensures
        res is Ok <==> valid_utf8(bytes@),
        res is Ok ==> res->Ok_0@ == decode_utf8(bytes@),
{
    String::from_utf8(bytes)
}

} // verus!
