use lib::block_device::{BlockDevice, ReadOp, WriteOp};
use lib::fs_base::Error;
use lib::header::{Header, Node};
use lib::printer::tab;
use lib::util::date_time::DateTime;
use lib::util::string_helper::split_path;
use lib::vfs::Vfs;

/// Carries out write steps on an in-memory image.
fn apply_writes(image: &mut Vec<u8>, buffer: &[u8], ops: &[WriteOp]) {
    for op in ops {
        match *op {
            WriteOp::WriteAt { offset, start, end } => {
                let off = offset as usize;
                if image.len() < off + (end - start) {
                    image.resize(off + (end - start), 0);
                }
                image[off..off + (end - start)].copy_from_slice(&buffer[start..end]);
            }
            WriteOp::Append { start, end } => image.extend_from_slice(&buffer[start..end]),
            WriteOp::Fill { byte, count } => image.extend(std::iter::repeat(byte).take(count)),
        }
    }
}

fn apply_reads(image: &[u8], ops: &[ReadOp]) -> Vec<u8> {
    let mut out = Vec::new();
    for op in ops {
        let off = op.offset as usize;
        out.extend_from_slice(&image[off..off + op.len]);
    }
    out
}

#[test]
fn split_path_pieces() {
    assert_eq!(split_path("@/etc/tmp"), vec!["@", "etc", "tmp"]);
    assert_eq!(split_path(""), vec![""]);
    assert_eq!(split_path("a//b/"), vec!["a", "", "b", ""]);
    assert_eq!(split_path("über/ß"), vec!["über", "ß"]);
}

#[test]
fn tab_levels() {
    assert_eq!(tab(0), "");
    assert_eq!(tab(1), "|-");
    assert_eq!(tab(2), "|-> ");
    assert_eq!(tab(4), "|-----> ");
}

#[test]
fn error_messages() {
    assert_eq!(Error::InvalidPath("x".to_string()).message(), "Invalid path: x");
    assert_eq!(Error::BadDeser("y".to_string()).message(), "Deserialization error: y");
    assert_eq!(Error::FileOps("z".to_string()).message(), "File operation error: z");
}

#[test]
fn unix_seconds_to_calendar() {
    let t = DateTime::from_unix_seconds(0);
    assert_eq!((t.date.year, t.date.month, t.date.day), (1970, 1, 1));
    assert_eq!((t.time.hour, t.time.minute, t.time.second), (0, 0, 0));
    let t = DateTime::from_unix_seconds(951_782_400);
    assert_eq!((t.date.year, t.date.month, t.date.day), (2000, 2, 29));
    let t = DateTime::from_unix_seconds(1_700_000_000);
    assert_eq!((t.date.year, t.date.month, t.date.day), (2023, 11, 14));
    assert_eq!((t.time.hour, t.time.minute, t.time.second), (22, 13, 20));
    let t = DateTime::from_unix_seconds(4_102_444_799);
    assert_eq!((t.date.year, t.date.month, t.date.day), (2099, 12, 31));
    assert_eq!((t.time.hour, t.time.minute, t.time.second), (23, 59, 59));
}

#[test]
fn block_arithmetic() {
    assert_eq!(BlockDevice::size_in_blocks(0), 0);
    assert_eq!(BlockDevice::size_in_blocks(1), 1);
    assert_eq!(BlockDevice::size_in_blocks(8192), 1);
    assert_eq!(BlockDevice::size_in_blocks(8193), 2);
    assert_eq!(BlockDevice::buffer_in_blocks(&[0u8; 10]), 1);
    assert_eq!(BlockDevice::block_offset(0), 1024);
    assert_eq!(BlockDevice::block_offset(3), 1024 + 3 * 8192);
    assert_eq!(BlockDevice::block_padding(100), 8092);
    assert_eq!(BlockDevice::block_padding(8192), 8192);
    assert_eq!(BlockDevice::header_filler_len(1000), 14);
}

#[test]
fn write_to_new_file_appends_blocks() {
    let mut bd = BlockDevice::new();
    let mut blocks = Vec::new();
    let ops = bd.write(100, &mut blocks);
    assert_eq!(ops, vec![WriteOp::Append { start: 0, end: 100 }, WriteOp::Fill { byte: b'_', count: 8092 }]);
    assert_eq!(blocks, vec![0]);
    assert_eq!(bd.num_blocks(), 1);
    let mut blocks2 = Vec::new();
    let ops = bd.write(8192 * 2 + 5, &mut blocks2);
    assert_eq!(ops, vec![WriteOp::Append { start: 0, end: 16389 }, WriteOp::Fill { byte: b'_', count: 8187 }]);
    assert_eq!(blocks2, vec![1, 2, 3]);
    assert_eq!(bd.num_blocks(), 4);
}

#[test]
fn whole_block_gets_a_whole_block_of_padding() {
    let mut bd = BlockDevice::new();
    let mut blocks = Vec::new();
    let ops = bd.write(8192, &mut blocks);
    assert_eq!(ops, vec![WriteOp::Append { start: 0, end: 8192 }, WriteOp::Fill { byte: b'_', count: 8192 }]);
    assert_eq!(blocks, vec![0]);
}

#[test]
fn overwrite_uses_existing_blocks_first() {
    let mut bd = BlockDevice::from(vec![], 5);
    let mut blocks = vec![4, 2];
    let ops = bd.write(8192 + 10, &mut blocks);
    assert_eq!(
        ops,
        vec![
            WriteOp::WriteAt { offset: 1024 + 4 * 8192, start: 0, end: 8192 },
            WriteOp::WriteAt { offset: 1024 + 2 * 8192, start: 8192, end: 8202 },
        ]
    );
    assert_eq!(blocks, vec![4, 2]);
    assert_eq!(bd.num_blocks(), 5);
    let ops = bd.write(3 * 8192, &mut blocks);
    assert_eq!(ops.len(), 4);
    assert_eq!(ops[2], WriteOp::Append { start: 16384, end: 24576 });
    assert_eq!(blocks, vec![4, 2, 5]);
}

#[test]
fn append_completes_the_last_block_first() {
    let mut bd = BlockDevice::from(vec![], 3);
    let mut blocks = vec![0, 1, 2];
    let ops = bd.append(9000, &mut blocks, 100);
    assert_eq!(ops[0], WriteOp::WriteAt { offset: 1024 + 100 + 8192, start: 0, end: 8092 });
    assert_eq!(ops[1], WriteOp::WriteAt { offset: 1024 + 2 * 8192, start: 8092, end: 9000 });
    assert_eq!(ops.len(), 2);
}

#[test]
fn read_plans() {
    let ops = BlockDevice::read(&[7, 3], 8200);
    assert_eq!(
        ops,
        vec![
            ReadOp { offset: 1024 + 7 * 8192, start: 0, len: 8192 },
            ReadOp { offset: 1024 + 3 * 8192, start: 8192, len: 8 },
        ]
    );
    let ops = BlockDevice::read(&[7], 0);
    assert_eq!(ops, vec![ReadOp { offset: 1024 + 7 * 8192, start: 0, len: 0 }]);
}

#[test]
fn buffered_read_plans() {
    let blocks: Vec<u32> = (0..70).collect();
    let mut from = 0u32;
    let (ops, n) = BlockDevice::read_from(&blocks, 70 * 8192 - 1, &mut from);
    assert_eq!(ops.len(), 64);
    assert_eq!(n, 64 * 8192);
    assert_eq!(from, 64);
    let (ops, n) = BlockDevice::read_from(&blocks, 70 * 8192 - 1, &mut from);
    assert_eq!(ops.len(), 6);
    assert_eq!(n, 6 * 8192 - 1);
    assert_eq!(ops[5], ReadOp { offset: 1024 + 69 * 8192, start: 5 * 8192, len: 8191 });
    assert_eq!(from, 70);
    let (ops, n) = BlockDevice::read_from(&blocks, 70 * 8192 - 1, &mut from);
    assert!(ops.is_empty());
    assert_eq!(n, 0);
}

#[test]
fn buffered_reads_match_whole_read() {
    let size: usize = 600000;
    let blocks: Vec<u32> = (0..74).rev().collect();
    let whole = BlockDevice::read(&blocks, size);
    let mut from = 0u32;
    let mut seen = 0usize;
    let mut chunk = 0usize;
    loop {
        let (ops, n) = BlockDevice::read_from(&blocks, size, &mut from);
        if n == 0 {
            assert!(ops.is_empty());
            break;
        }
        for op in ops.iter() {
            let w = whole[seen];
            assert_eq!(op.offset, w.offset);
            assert_eq!(op.start + chunk * 64 * 8192, w.start);
            assert_eq!(op.len, w.len);
            seen += 1;
        }
        assert_eq!(n, std::cmp::min(64 * 8192, size - chunk * 64 * 8192));
        chunk += 1;
    }
    assert_eq!(seen, whole.len());
    assert_eq!(chunk, 2);
}

#[test]
fn navigate_tree() {
    let mut h = Header::new();
    let etc = h.str_buffer.add("etc");
    let d = lib::directory::DirectoryData::new();
    assert!(h.add_node("@", etc, Node::Directory(d)).is_none());
    let tmp = h.str_buffer.add("tmp");
    assert!(h.add_node("@/etc", tmp, Node::Directory(lib::directory::DirectoryData::new())).is_none());
    assert_eq!(h.navigate("@").unwrap(), 0);
    assert_eq!(h.navigate("@/etc").unwrap(), 1);
    assert_eq!(h.navigate("@/etc/tmp").unwrap(), 2);
    match h.navigate("@/nope/etc") {
        Err(Error::InvalidDirective(m)) => assert_eq!(m, "Bad string: nope "),
        _ => panic!("expected an unknown name"),
    }
    match h.navigate("@/tmp/zzz") {
        Err(Error::InvalidPath(m)) => assert_eq!(m, "Provided an invalid path."),
        _ => panic!("expected a missing child"),
    }
}

#[test]
fn adding_under_a_file_keeps_the_node_unlinked() {
    let mut h = Header::new();
    let f = h.str_buffer.add("f");
    let file = lib::file::FileData::from(lib::inode::INode::new(), vec![]);
    assert!(h.add_node("@", f, Node::File(file)).is_none());
    let g = h.str_buffer.add("g");
    let res = h.add_node("@/f", g, Node::Directory(lib::directory::DirectoryData::new()));
    match res {
        Some(Error::InvalidPath(m)) => assert_eq!(m, "Cannot add to a file a file."),
        _ => panic!("expected an error"),
    }
    assert_eq!(h.node_buffer.len(), 3);
}

#[test]
fn split_from_cwd_and_engine_path() {
    assert_eq!(Vfs::to_engine_path("rs/abc.txt"), "@/rs/abc.txt");
    assert_eq!(Vfs::split_from_cwd("@/rs/abc.txt"), ("abc.txt", "@/rs"));
    assert_eq!(Vfs::split_from_cwd("@/rs"), ("rs", "@"));
    assert_eq!(Vfs::split_from_cwd("/x"), ("/x", "/x"));
    assert_eq!(Vfs::split_from_cwd("plain"), ("plain", "plain"));
}

#[test]
fn lab_example() {
    let mut vfs = Vfs::new();
    let mut image = vec![0u8; 1024];
    vfs.create_dir("rs").ok().unwrap();
    let mut f1 = vfs.create("rs/abc.txt").ok().unwrap();
    let mut f2 = vfs.create("rs/def.txt").ok().unwrap();
    let ops = f1.write_all(&mut vfs, b"hello");
    apply_writes(&mut image, b"hello", &ops);
    let ops = f2.write_all(&mut vfs, b"world");
    apply_writes(&mut image, b"world", &ops);
    let mut texts = Vec::new();
    for entry in vfs.read_dir("rs").ok().unwrap() {
        let mut file = vfs.open_entry(entry).ok().unwrap();
        let ops = file.read_to_string(&vfs).ok().unwrap();
        texts.push(String::from_utf8(apply_reads(&image, &ops)).unwrap());
    }
    assert_eq!(texts, vec!["hello", "world"]);
}

#[test]
fn create_then_open_gives_the_same_file() {
    let mut vfs = Vfs::new();
    let f = vfs.create("a.txt").ok().unwrap();
    let g = vfs.open_file("a.txt").ok().unwrap();
    assert_eq!(f.file_id(), g.file_id());
    let h = vfs.create("a.txt").ok().unwrap();
    assert_eq!(h.file_id(), f.file_id());
    assert!(matches!(vfs.open_file("b.txt"), Err(Error::InvalidDirective(_))));
    vfs.create_dir("d").ok().unwrap();
    assert!(matches!(vfs.open_file("d"), Err(Error::BadCall(_))));
    assert!(matches!(vfs.read_dir("a.txt"), Err(Error::BadCall(_))));
    assert!(matches!(vfs.create("a.txt/x"), Err(Error::InvalidPath(_))));
}

#[test]
fn image_reopens() {
    let mut vfs = Vfs::new();
    vfs.create_dir("etc").ok().unwrap();
    let mut f = vfs.create("etc/x").ok().unwrap();
    let _ = f.write_all(&mut vfs, &[1u8; 20000]);
    let image = vfs.image();
    let back = Vfs::open(&image).ok().unwrap();
    assert_eq!(back.header.node_buffer.len(), 3);
    assert_eq!(back.block_device.num_blocks(), 3);
    assert_eq!(back.header.str_buffer.string_list, vec!["@", "etc", "x"]);
    // The names of children are not stored, so paths below the root no longer resolve.
    assert!(matches!(back.header.navigate("@/etc"), Err(Error::InvalidPath(_))));
}

#[test]
fn write_then_read_back() {
    let mut vfs = Vfs::new();
    let mut image = vec![0u8; 1024];
    let mut f = vfs.create("big").ok().unwrap();
    let data: Vec<u8> = (0..20000u32).map(|i| (i % 251) as u8).collect();
    let ops = f.write_all(&mut vfs, &data);
    apply_writes(&mut image, &data, &ops);
    let ops = f.read(&vfs);
    assert_eq!(apply_reads(&image, &ops), data);
    let shorter = vec![7u8; 9000];
    let ops = f.write_all(&mut vfs, &shorter);
    apply_writes(&mut image, &shorter, &ops);
    let ops = f.read(&vfs);
    assert_eq!(apply_reads(&image, &ops), shorter);
    assert!(matches!(f.read_to_string(&vfs), Ok(_)));
    let empty: Vec<u8> = Vec::new();
    let ops = f.write_all(&mut vfs, &empty);
    assert!(ops.is_empty());
    apply_writes(&mut image, &empty, &ops);
    let ops = f.read(&vfs);
    assert_eq!(ops.len(), 1);
    assert_eq!(apply_reads(&image, &ops), empty);
}

#[test]
fn read_to_string_refuses_big_files() {
    let mut vfs = Vfs::new();
    let mut f = vfs.create("big").ok().unwrap();
    let _ = f.write_all(&mut vfs, &[b'a'; 16 * 1024]);
    match f.read_to_string(&vfs) {
        Err(Error::FileOps(m)) => assert_eq!(m, "File too big to read into a string. Try buffered reading"),
        _ => panic!("expected an error"),
    }
}

#[test]
fn append_then_read_back() {
    let mut vfs = Vfs::new();
    let mut image = vec![0u8; 1024];
    let mut f = vfs.create("imp").ok().unwrap();
    f.start_import(&mut vfs).ok().unwrap();
    let a: Vec<u8> = (0..10000u32).map(|i| (i % 7) as u8).collect();
    let ops = f.import_chunk(&mut vfs, &a, 0);
    apply_writes(&mut image, &a, &ops);
    f.finish_import(&mut vfs, a.len()).ok().unwrap();
    assert_eq!(apply_reads(&image, &f.read(&vfs)), a);
}

#[test]
fn chunked_import_and_read() {
    let mut vfs = Vfs::new();
    let mut image = vec![0u8; 1024];
    let mut f = vfs.create("imp").ok().unwrap();
    f.start_import(&mut vfs).ok().unwrap();
    let a = vec![1u8; 8192];
    let b = vec![2u8; 100];
    let ops = f.import_chunk(&mut vfs, &a, 0);
    apply_writes(&mut image, &a, &ops);
    let ops = f.import_chunk(&mut vfs, &b, 8192);
    apply_writes(&mut image, &b, &ops);
    f.finish_import(&mut vfs, 8292).ok().unwrap();
    let whole = f.read(&vfs);
    // A chunk that fills whole blocks is still followed by a whole block of
    // padding, so the next chunk lands a block past the one its number names,
    // and reading that block finds the padding.
    let mut expected = a.clone();
    expected.extend_from_slice(&[b'_'; 100]);
    assert_eq!(image.len(), 1024 + 3 * 8192);
    assert_eq!(apply_reads(&image, &whole), expected);
    let (ops, n) = f.read_chunk(&vfs).ok().unwrap();
    assert_eq!(n, 8292);
    assert_eq!(ops.len(), 2);
    let mut d = vfs.create_dir("dir");
    assert!(d.is_ok());
    let _ = &mut d;
}

#[test]
fn new_header_has_root_named_at() {
    let h = Header::new();
    assert_eq!(h.node_buffer.len(), 1);
    match &h.node_buffer[0] {
        Node::Directory(d) => {
            assert_eq!(d.inode.name_id, 0);
            assert!(d.children.is_empty());
        }
        Node::File(_) => panic!("the root must be a directory"),
    }
    assert_eq!(h.str_buffer.string_list, vec!["@"]);
    assert_eq!(h.str_buffer.get(&"@".to_string()).ok(), Some(0));
    assert_eq!(h.navigate("@").ok(), Some(0));
    assert!(h.path_stays_in_list("@/x/y"));
}

#[test]
fn split_path_rejoins() {
    for p in ["", "/", "a", "@/etc/tmp", "a//b/", "über/ß"] {
        let pieces = split_path(p);
        assert_eq!(pieces.len(), p.matches('/').count() + 1);
        assert_eq!(pieces.join("/"), p);
        assert!(pieces.iter().all(|x| !x.contains('/')));
    }
}

#[test]
fn paths_leading_past_the_list_are_caught() {
    let mut h = Header::new();
    let etc = h.str_buffer.add("etc");
    assert!(h.add_node("@", etc, Node::Directory(lib::directory::DirectoryData::new())).is_none());
    assert!(h.path_stays_in_list("@/etc"));
    h.node_buffer.pop();
    assert!(!h.path_stays_in_list("@/etc"));
    assert!(h.path_stays_in_list("@/nope/etc"));
    assert!(h.path_stays_in_list("@/etc/x"));
    assert!(!h.path_stays_in_list("@/etc/etc"));
}

#[test]
fn cut_off_images_are_caught() {
    let mut vfs = Vfs::new();
    let _ = vfs.create("a");
    let _ = vfs.create_dir("d");
    let image = vfs.image();
    assert!(lib::probe::image_can_be_read(&image));
    for cut in 0..image.len() {
        let part = &image[..cut];
        if lib::probe::image_can_be_read(part) {
            // Where the probe allows it, opening gives a result instead of reading past the end.
            let _ = Vfs::open(part);
        }
    }
    assert!(!lib::probe::image_can_be_read(&image[..3]));
    let mut bad = image.clone();
    bad[4] = 7;
    assert!(lib::probe::image_can_be_read(&bad));
    assert!(matches!(Vfs::open(&bad), Err(Error::BadDeser(_))));
}

#[test]
fn blocks_added_by_writes() {
    assert_eq!(BlockDevice::blocks_added(10000, &[5], 0, 0), 1);
    assert_eq!(BlockDevice::blocks_added(100, &[5], 0, 0), 0);
    assert_eq!(BlockDevice::blocks_added(8192, &[], 0, 0), 1);
    assert_eq!(BlockDevice::blocks_added(9000, &[0], 1, 100), 1);
    assert_eq!(BlockDevice::blocks_added(8092, &[0], 1, 100), 0);
}

#[test]
fn tree_entries_in_order() {
    let mut vfs = Vfs::new();
    let _ = vfs.create_dir("etc");
    let _ = vfs.create("a");
    let _ = vfs.create("etc/x");
    let _ = vfs.create_dir("etc/d");
    let _ = vfs.create("etc/d/y");
    assert!(lib::printer::children_point_forward(&vfs.header));
    let lines = lib::printer::tree_entries(&vfs.header, 0, 0);
    assert_eq!(lines, vec![(0, 0), (1, 1), (3, 2), (4, 2), (5, 3), (2, 1)]);
    let mut h = Header::new();
    let etc = h.str_buffer.add("etc");
    assert!(h.add_node("@", etc, Node::Directory(lib::directory::DirectoryData::new())).is_none());
    if let Node::Directory(d) = &mut h.node_buffer[1] {
        d.children.push(0);
    }
    assert!(!lib::printer::children_point_forward(&h));
}
