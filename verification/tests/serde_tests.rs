use lib::directory::DirectoryData;
use lib::file::FileData;
use lib::fs_base::Error;
use lib::header::{Header, Node};
use lib::inode::INode;
use lib::serde::{deser_u16, deser_u32, deser_u8, deser_usize, deser_vec_u32, ser_vec_u32};
use lib::string_buffer::StringBuffer;
use lib::block_device::BlockDevice;
use lib::traits::Serde;
use lib::util::date_time::{Date, DateTime, Time};

fn sample_time() -> DateTime {
    DateTime::from(Date::from(2024, 5, 17), Time::from(13, 45, 9))
}

#[test]
fn deser_integers_read_big_endian_and_advance() {
    let data = [0x01u8, 0x02, 0x03, 0x04, 0x05, 0x06, 0x07, 0x08, 0x09, 0x0a, 0x0b, 0x0c, 0x0d, 0x0e, 0x0f];
    let mut s: &[u8] = &data;
    assert_eq!(deser_u8(&mut s).unwrap(), 0x01);
    assert_eq!(deser_u16(&mut s).unwrap(), 0x0203);
    assert_eq!(deser_u32(&mut s).unwrap(), 0x0405_0607);
    assert_eq!(deser_usize(&mut s).unwrap(), 0x0809_0a0b_0c0d_0e0f);
    assert!(s.is_empty());
}

#[test]
fn ser_vec_u32_writes_count_then_items() {
    let bytes = ser_vec_u32(&[1, 0x0102_0304]);
    assert_eq!(bytes, vec![0, 0, 0, 2, 0, 0, 0, 1, 1, 2, 3, 4]);
    assert_eq!(ser_vec_u32(&[]), vec![0, 0, 0, 0]);
}

#[test]
fn vec_u32_roundtrip_leaves_the_rest() {
    let v = vec![10u32, 23, 11, 14];
    let mut bytes = ser_vec_u32(&v);
    bytes.push(99);
    let mut s: &[u8] = &bytes;
    assert_eq!(deser_vec_u32(&mut s).unwrap(), v);
    assert_eq!(s, &[99u8][..]);
}

#[test]
fn date_time_encoding_is_exact() {
    let dt = sample_time();
    assert_eq!(dt.date.serialize(), vec![17, 5, 0x07, 0xe8]);
    assert_eq!(dt.time.serialize(), vec![13, 45, 9]);
    let bytes = dt.serialize();
    assert_eq!(bytes, vec![17, 5, 0x07, 0xe8, 13, 45, 9]);
    let mut s: &[u8] = &bytes;
    assert_eq!(DateTime::deserialize(&mut s).unwrap(), dt);
    assert!(s.is_empty());
}

#[test]
fn inode_roundtrip() {
    let n = INode::from(3, 10, sample_time(), sample_time(), 100);
    let bytes = n.serialize();
    assert_eq!(bytes.len(), 28);
    assert_eq!(&bytes[0..6], &[0, 0, 0, 3, 0, 10]);
    assert_eq!(&bytes[20..28], &[0, 0, 0, 0, 0, 0, 0, 100]);
    let mut s: &[u8] = &bytes;
    assert!(INode::deserialize(&mut s).unwrap() == n);
}

#[test]
fn directory_serde() {
    let children = vec![10, 23, 11, 14];
    let dir = DirectoryData::from(INode::from(3, 10, DateTime::now(), DateTime::now(), 100), children);
    let data = dir.serialize();
    match DirectoryData::deserialize(&mut data.as_slice()) {
        Ok(dir2) => assert!(dir == dir2),
        Err(err) => panic!("{}", err.message()),
    }
}

#[test]
fn directory_roundtrip_forgets_child_names() {
    let mut dir = DirectoryData::from(INode::from(1, 0, sample_time(), sample_time(), 0), vec![]);
    dir.add_child(7, 2);
    let data = dir.serialize();
    let back = DirectoryData::deserialize(&mut data.as_slice()).unwrap();
    assert_eq!(back.children, vec![2]);
    assert!(back.name_child_map.is_empty());
}

#[test]
fn file_data_roundtrip_and_capacity() {
    let f = FileData::from(INode::from(4, 0, sample_time(), sample_time(), 9000), vec![3, 8]);
    assert_eq!(f.capacity(), 2 * 8192);
    let data = f.serialize();
    let back = FileData::deserialize(&mut data.as_slice()).unwrap();
    assert_eq!(back.block_indices, vec![3, 8]);
    assert!(back.inode == f.inode);
}

fn names(sb: &StringBuffer) -> Vec<String> {
    sb.string_list.clone()
}

#[test]
fn string_buffer_serde() {
    let mut str_buf = StringBuffer::new();
    str_buf.add("etc");
    str_buf.add("bin");
    str_buf.add("run");
    str_buf.add("conf");
    str_buf.add("home");
    let data = str_buf.serialize();
    let str_buf2 = StringBuffer::deserialize(&mut data.as_slice()).unwrap();
    assert!(str_buf.same_table(&str_buf2));
    assert_eq!(names(&str_buf), names(&str_buf2));
    for (i, n) in names(&str_buf).iter().enumerate() {
        assert_eq!(str_buf2.get(n).unwrap(), i as u32);
    }
}

#[test]
fn string_buffer_encoding_is_exact() {
    let mut sb = StringBuffer::new();
    sb.add("ab");
    sb.add("é");
    let data = sb.serialize();
    let mut expected = b"STRING_BUFFER".to_vec();
    expected.extend_from_slice(&[0, 0, 0, 2, 0, 0, 0, 2, b'a', b'b', 0, 0, 0, 2, 0xc3, 0xa9]);
    assert_eq!(data, expected);
}

#[test]
fn string_buffer_add_and_get() {
    let mut sb = StringBuffer::new();
    assert_eq!(sb.add("a"), 0);
    assert_eq!(sb.add("b"), 1);
    assert_eq!(sb.add("a"), 0);
    assert_eq!(sb.string_list, vec!["a".to_string(), "b".to_string()]);
    assert_eq!(sb.get(&"b".to_string()).unwrap(), 1);
    match sb.get(&"zz".to_string()) {
        Err(Error::InvalidDirective(m)) => assert_eq!(m, "Bad string: zz "),
        _ => panic!("expected an error"),
    }
}

#[test]
fn string_buffer_errors() {
    let mut s: &[u8] = b"NOT_A_BUFFER";
    assert!(matches!(StringBuffer::deserialize(&mut s), Err(Error::InvalidPreamble(_))));
    assert_eq!(s, b"NOT_A_BUFFER");
    let mut bad = b"STRING_BUFFER".to_vec();
    bad.extend_from_slice(&[0, 0, 0, 1, 0, 0, 0, 5, b'a']);
    let mut s: &[u8] = &bad;
    match StringBuffer::deserialize(&mut s) {
        Err(Error::InvalidStringBuffer(m)) => {
            assert_eq!(m, "Did no provide the correct number of bytes for the string")
        }
        _ => panic!("expected an error"),
    }
    let mut bad = b"STRING_BUFFER".to_vec();
    bad.extend_from_slice(&[0, 0, 0, 1, 0, 0, 0, 1, 0xff]);
    let mut s: &[u8] = &bad;
    assert!(matches!(StringBuffer::deserialize(&mut s), Err(Error::InvalidStringBuffer(_))));
}

#[test]
fn node_with_unknown_tag_is_refused() {
    let mut s: &[u8] = &[7u8, 0, 0];
    match Node::deserialize(&mut s) {
        Err(Error::BadDeser(m)) => assert_eq!(m, "Unrecognized node type"),
        _ => panic!("expected an error"),
    }
}

#[test]
fn header_roundtrip() {
    let mut h = Header::new();
    let id = h.str_buffer.add("etc");
    let dir = DirectoryData::from(INode::from(id, 0, sample_time(), sample_time(), 0), vec![]);
    assert!(h.add_node("@", id, Node::Directory(dir)).is_none());
    let data = h.serialize();
    let back = Header::deserialize(&mut data.as_slice()).unwrap();
    assert_eq!(back.node_buffer.len(), 2);
    assert_eq!(back.str_buffer.string_list, h.str_buffer.string_list);
    match &back.node_buffer[0] {
        Node::Directory(d) => {
            assert_eq!(d.children, vec![1]);
            assert!(d.name_child_map.is_empty());
        }
        Node::File(_) => panic!("root must be a directory"),
    }
}

#[test]
fn block_device_roundtrip_and_preamble() {
    let bd = BlockDevice::from(vec![4, 5], 9);
    let data = bd.serialize();
    assert_eq!(&data[0..21], b"BLOCK_DEVICE_PREAMBLE");
    assert_eq!(&data[21..], &[0, 0, 0, 2, 0, 0, 0, 4, 0, 0, 0, 5, 0, 0, 0, 9]);
    let back = BlockDevice::deserialize(&mut data.as_slice()).unwrap();
    assert_eq!(back.num_blocks(), 9);
    let mut s: &[u8] = b"BLOCK_DEVICE_PREAMBL";
    match BlockDevice::deserialize(&mut s) {
        Err(Error::InvalidPreamble(m)) => assert_eq!(m, "Did not find the preamble for block device"),
        _ => panic!("expected an error"),
    }
    assert_eq!(s, b"BLOCK_DEVICE_PREAMBL");
    let mut with_rest = data.clone();
    with_rest.extend_from_slice(&[1, 2, 3]);
    let mut s: &[u8] = &with_rest;
    let back = BlockDevice::deserialize(&mut s).unwrap();
    assert_eq!(back.num_blocks(), 9);
    assert_eq!(s, &[1, 2, 3]);
}

#[test]
fn different_tables_differ() {
    let mut a = StringBuffer::new();
    a.add("x");
    a.add("y");
    let mut b = StringBuffer::new();
    b.add("y");
    b.add("x");
    assert!(!a.same_table(&b));
    let mut c = StringBuffer::new();
    c.add("x");
    assert!(!a.same_table(&c));
    c.add("y");
    assert!(a.same_table(&c));
}
