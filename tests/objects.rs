use git_objects::commands::{cat_blob, cat_file, list_tree, ls_tree};
use git_objects::digest::{compute_hash, hash_to_hex};
use git_objects::error::ObjectError;
use git_objects::framing::{frame_object, parse_decimal, push_decimal};
use git_objects::objects::{get_object_path, locate_object, Object, ObjectKind, ObjectMode};
use git_objects::reader::{ByteReader, LimitReader};
use git_objects::tree::{decode_entries, parse_tree_entry, TreeEntry, TreeEntryIter};

use std::io::Write;

fn sha1_hex(data: &[u8]) -> String {
    hex::encode(<sha1::Sha1 as sha1::Digest>::digest(data))
}

fn zlib(data: &[u8]) -> Vec<u8> {
    let mut e = flate2::write::ZlibEncoder::new(Vec::new(), flate2::Compression::default());
    e.write_all(data).unwrap();
    e.finish().unwrap()
}

fn tree_body(entries: &[(&str, &str, [u8; 20])]) -> Vec<u8> {
    let mut body = Vec::new();
    for (mode, name, id) in entries {
        body.extend_from_slice(mode.as_bytes());
        body.push(b' ');
        body.extend_from_slice(name.as_bytes());
        body.push(0);
        body.extend_from_slice(id);
    }
    body
}

fn with_header(tag: &str, declared: usize, body: &[u8]) -> Vec<u8> {
    let mut raw = format!("{tag} {declared}\0").into_bytes();
    raw.extend_from_slice(body);
    raw
}

#[test]
fn hello_blob_identifier() {
    let hash = compute_hash(ObjectKind::Blob, b"hello");
    assert_eq!(hash.len(), 20);
    let hex = hash_to_hex(&hash);
    assert_eq!(hex, "b6fc4c620b67d95f953a5c1c1230aaab5db5a1b0");
    assert_eq!(hex, sha1_hex(b"blob 5\0hello"));
}

#[test]
fn hello_blob_round_trip() {
    let encoded = Object::encode(ObjectKind::Blob, b"hello");
    assert_eq!(encoded.hex, "b6fc4c620b67d95f953a5c1c1230aaab5db5a1b0");
    assert_eq!(encoded.path, ".git/objects/b6/fc4c620b67d95f953a5c1c1230aaab5db5a1b0");
    assert_ne!(encoded.data, b"blob 5\0hello".to_vec());
    assert_eq!(encoded.data[0], 0x78);
    let object = Object::open(&encoded.data).unwrap();
    assert_eq!(object.kind, ObjectKind::Blob);
    assert_eq!(object.expected_size, 5);
    assert_eq!(object.read_body().unwrap(), b"hello".to_vec());
    assert_eq!(cat_file(&encoded.data).unwrap(), b"hello".to_vec());
}

#[test]
fn empty_blob_identifier() {
    let hash = compute_hash(ObjectKind::Blob, b"");
    assert_eq!(hash_to_hex(&hash), "e69de29bb2d1d6434b8b29ae775ad8c2e48c5391");
}

#[test]
fn tree_identifier_uses_tree_tag() {
    let body = tree_body(&[("100644", "a.txt", [1; 20])]);
    let hash = compute_hash(ObjectKind::Tree, &body);
    let expected = sha1_hex(&with_header("tree", body.len(), &body));
    assert_eq!(hash_to_hex(&hash), expected);
    assert_ne!(hash, compute_hash(ObjectKind::Blob, &body));
}

#[test]
fn identifier_is_stable() {
    let payload = vec![7u8; 1000];
    let a = compute_hash(ObjectKind::Blob, &payload);
    let b = compute_hash(ObjectKind::Blob, &payload);
    assert_eq!(a, b);
}

#[test]
fn same_length_payloads_differ() {
    let a = compute_hash(ObjectKind::Blob, b"hello");
    let b = compute_hash(ObjectKind::Blob, b"hellp");
    let c = compute_hash(ObjectKind::Blob, b"jello");
    assert_ne!(a, b);
    assert_ne!(a, c);
    assert_ne!(b, c);
}

#[test]
fn round_trip_various_payloads() {
    let payloads: Vec<Vec<u8>> = vec![
        vec![],
        b"x".to_vec(),
        (0..=255u8).collect(),
        vec![0u8; 20000],
        b"line one\nline two\n".to_vec(),
    ];
    for payload in payloads {
        for kind in [ObjectKind::Blob, ObjectKind::Tree] {
            let encoded = Object::encode(kind, &payload);
            let object = Object::open(&encoded.data).unwrap();
            assert_eq!(object.kind, kind);
            assert_eq!(object.expected_size, payload.len());
            assert_eq!(object.read_body().unwrap(), payload);
            assert_eq!(hash_to_hex(&compute_hash(kind, &payload)), encoded.hex);
        }
    }
}

#[test]
fn framing_bytes() {
    assert_eq!(frame_object(ObjectKind::Blob, b"hello"), b"blob 5\0hello".to_vec());
    assert_eq!(frame_object(ObjectKind::Tree, b""), b"tree 0\0".to_vec());
    let payload = vec![1u8; 12345];
    let framed = frame_object(ObjectKind::Blob, &payload);
    assert_eq!(&framed[..11], b"blob 12345\0");
    assert_eq!(framed.len(), 11 + 12345);
}

#[test]
fn decimal_spelling() {
    let mut out = Vec::new();
    push_decimal(&mut out, 0);
    assert_eq!(out, b"0".to_vec());
    out.clear();
    push_decimal(&mut out, 40000);
    assert_eq!(out, b"40000".to_vec());
    out.clear();
    push_decimal(&mut out, usize::MAX);
    assert_eq!(out, usize::MAX.to_string().into_bytes());
}

#[test]
fn decimal_parsing() {
    assert_eq!(parse_decimal(b"100644", 0, 6, u32::MAX as usize), Some(100644));
    assert_eq!(parse_decimal(b"+17", 0, 3, 100), Some(17));
    assert_eq!(parse_decimal(b"007", 0, 3, 100), Some(7));
    assert_eq!(parse_decimal(b"", 0, 0, 100), None);
    assert_eq!(parse_decimal(b"+", 0, 1, 100), None);
    assert_eq!(parse_decimal(b"-1", 0, 2, 100), None);
    assert_eq!(parse_decimal(b"12a", 0, 3, 1000), None);
    assert_eq!(parse_decimal(b"4294967295", 0, 10, u32::MAX as usize), Some(4294967295));
    assert_eq!(parse_decimal(b"4294967296", 0, 10, u32::MAX as usize), None);
    assert_eq!(parse_decimal(b"x42y", 1, 3, 100), Some(42));
}

#[test]
fn hex_spelling() {
    assert_eq!(hash_to_hex(&[0x00, 0xff, 0x1a, 0xb0]), "00ff1ab0");
    assert_eq!(hash_to_hex(&[]), "");
}

#[test]
fn object_paths() {
    assert_eq!(
        get_object_path("b6fc4c620b67d95f953a5c1c1230aaab5db5a1b0"),
        Some(".git/objects/b6/fc4c620b67d95f953a5c1c1230aaab5db5a1b0".to_string())
    );
    assert_eq!(get_object_path("B6FC4C620B67D95F953A5C1C1230AAAB5DB5A1B0"), None);
    assert_eq!(get_object_path("b6fc"), None);
    assert_eq!(get_object_path(""), None);
    assert_eq!(get_object_path("b6fc4c620b67d95f953a5c1c1230aaab5db5a1b0aa"), None);
    assert_eq!(get_object_path("../c4c620b67d95f953a5c1c1230aaab5db5a1b0"), None);
}

#[test]
fn malformed_identifier_is_not_found() {
    assert_eq!(locate_object("nope").err(), Some(ObjectError::NotFound));
    assert_eq!(locate_object("").err(), Some(ObjectError::NotFound));
    assert_eq!(
        locate_object("0123456789abcdef0123456789abcdef01234567").unwrap(),
        ".git/objects/01/23456789abcdef0123456789abcdef01234567"
    );
}

#[test]
fn trailing_byte_is_rejected() {
    let raw = with_header("blob", 5, b"hello!");
    assert_eq!(Object::decode(raw.clone()).err(), Some(ObjectError::TrailingData));
    assert_eq!(cat_file(&zlib(&raw)).err(), Some(ObjectError::TrailingData));
}

#[test]
fn missing_byte_is_truncated() {
    let raw = with_header("blob", 5, b"hell");
    assert_eq!(Object::decode(raw.clone()).err(), Some(ObjectError::Truncated));
    assert_eq!(cat_file(&zlib(&raw)).err(), Some(ObjectError::Truncated));
}

#[test]
fn exact_body_decodes() {
    let raw = with_header("blob", 5, b"hello");
    assert_eq!(Object::decode(raw).unwrap(), (ObjectKind::Blob, b"hello".to_vec()));
    let large = vec![9u8; 30000];
    let raw = with_header("blob", large.len(), &large);
    assert_eq!(cat_blob(raw).unwrap(), large);
}

#[test]
fn header_errors() {
    assert_eq!(Object::decode(b"blob5\0hello".to_vec()).err(), Some(ObjectError::CorruptHeader));
    assert_eq!(Object::decode(b"blob abc\0".to_vec()).err(), Some(ObjectError::CorruptHeader));
    assert_eq!(Object::decode(b"blob \0".to_vec()).err(), Some(ObjectError::CorruptHeader));
    assert_eq!(Object::decode(b"blob 5".to_vec()).err(), Some(ObjectError::CorruptHeader));
    assert_eq!(Object::decode(b"".to_vec()).err(), Some(ObjectError::CorruptHeader));
    assert_eq!(
        Object::decode(b"blob 5\xff\0hello".to_vec()).err(),
        Some(ObjectError::CorruptHeader)
    );
    assert_eq!(
        Object::decode(b"commit 3\0abc".to_vec()).err(),
        Some(ObjectError::UnsupportedType)
    );
    assert_eq!(Object::decode(b"blo\xff 3\0abc".to_vec()).err(), Some(ObjectError::CorruptHeader));
    assert_eq!(
        Object::decode(b"blob 99999999999999999999999\0".to_vec()).err(),
        Some(ObjectError::CorruptHeader)
    );
    assert_eq!(Object::decode(b"blob +3\0abc".to_vec()).unwrap().1, b"abc".to_vec());
}

#[test]
fn corrupt_stream_is_io_failure() {
    assert_eq!(cat_file(b"not zlib at all").err(), Some(ObjectError::Io));
    assert_eq!(Object::open(b"").err().unwrap(), ObjectError::Io);
    let data = zlib(b"blob 5\0hello");
    assert_eq!(cat_file(&data[..data.len() - 6]).err(), Some(ObjectError::Io));
}

#[test]
fn cat_refuses_tree() {
    let body = tree_body(&[("100644", "a.txt", [1; 20])]);
    let raw = with_header("tree", body.len(), &body);
    assert_eq!(cat_blob(raw).err(), Some(ObjectError::UnsupportedType));
}

#[test]
fn limit_reader_budget() {
    let mut reader = LimitReader::new(ByteReader::new(b"abcdef".to_vec()), 4);
    assert_eq!(reader.read(3).unwrap(), b"abc".to_vec());
    assert_eq!(reader.limit(), 1);
    assert_eq!(reader.read(10).err(), Some(ObjectError::TrailingData));

    let mut reader = LimitReader::new(ByteReader::new(b"abc".to_vec()), 3);
    assert_eq!(reader.read(8192).unwrap(), b"abc".to_vec());
    assert_eq!(reader.limit(), 0);
    assert_eq!(reader.read(8192).unwrap(), Vec::<u8>::new());

    let mut reader = LimitReader::new(ByteReader::new(b"ab".to_vec()), 5);
    assert_eq!(reader.read(8192).unwrap(), b"ab".to_vec());
    assert_eq!(reader.limit(), 3);
    assert_eq!(reader.into_inner().remaining(), 0);
}

#[test]
fn byte_reader_reads() {
    let mut reader = ByteReader::new(b"ab\0cd".to_vec());
    assert_eq!(reader.read_until(0), b"ab\0".to_vec());
    assert_eq!(reader.remaining(), 2);
    assert_eq!(reader.read_until(0), b"cd".to_vec());
    assert_eq!(reader.read(4), Vec::<u8>::new());
}

#[test]
fn two_tree_entries_in_order() {
    let id1 = [0x11u8; 20];
    let id2 = [0x22u8; 20];
    let body = tree_body(&[("100644", "a.txt", id1), ("40000", "sub", id2)]);
    let entries = decode_entries(ByteReader::new(body.clone()), body.len()).unwrap();
    assert_eq!(entries.len(), 2);
    assert_eq!(entries[0].mode, ObjectMode::RegularFile);
    assert_eq!(entries[0].name, "a.txt");
    assert_eq!(entries[0].sha, id1.to_vec());
    assert_eq!(entries[1].mode, ObjectMode::Directory);
    assert_eq!(entries[1].name, "sub");
    assert_eq!(entries[1].sha, id2.to_vec());

    let mut iter = TreeEntryIter::new(ByteReader::new(body.clone()), body.len());
    assert_eq!(iter.next().unwrap().unwrap().name, "a.txt");
    assert_eq!(iter.next().unwrap().unwrap().name, "sub");
    assert!(iter.next().is_none());
    assert!(iter.next().is_none());
}

#[test]
fn unknown_mode_is_rejected() {
    let body = tree_body(&[("999999", "a.txt", [3; 20])]);
    assert_eq!(
        decode_entries(ByteReader::new(body.clone()), body.len()).err(),
        Some(ObjectError::InvalidMode)
    );
    let mut iter = TreeEntryIter::new(ByteReader::new(body.clone()), body.len());
    assert_eq!(iter.next().unwrap().err(), Some(ObjectError::InvalidMode));
    assert!(iter.next().is_none());
    let body = tree_body(&[("10x644", "a.txt", [3; 20])]);
    assert_eq!(
        decode_entries(ByteReader::new(body.clone()), body.len()).err(),
        Some(ObjectError::InvalidMode)
    );
    let body = tree_body(&[("99999999999", "a.txt", [3; 20])]);
    assert_eq!(
        decode_entries(ByteReader::new(body.clone()), body.len()).err(),
        Some(ObjectError::InvalidMode)
    );
}

#[test]
fn tree_entry_errors() {
    let id = [5u8; 20];
    let body = tree_body(&[("100644", "a.txt", id)]);
    // declared length ends inside the entry
    assert_eq!(
        decode_entries(ByteReader::new(body.clone()), body.len() - 1).err(),
        Some(ObjectError::Truncated)
    );
    // stream ends inside the identifier
    assert_eq!(
        decode_entries(ByteReader::new(body[..body.len() - 1].to_vec()), body.len()).err(),
        Some(ObjectError::Truncated)
    );
    // stream ends inside the entry header
    assert_eq!(
        decode_entries(ByteReader::new(b"100644 a.t".to_vec()), 40).err(),
        Some(ObjectError::Truncated)
    );
    // bytes after the declared length
    let mut longer = body.clone();
    longer.push(b'x');
    assert_eq!(
        decode_entries(ByteReader::new(longer), body.len()).err(),
        Some(ObjectError::TrailingData)
    );
    // no space in the entry header
    let mut bad = b"100644a.txt\0".to_vec();
    bad.extend_from_slice(&id);
    assert_eq!(
        decode_entries(ByteReader::new(bad.clone()), bad.len()).err(),
        Some(ObjectError::CorruptHeader)
    );
    // a name that is not UTF-8
    let mut bad = b"100644 a\xff\0".to_vec();
    bad.extend_from_slice(&id);
    assert_eq!(
        decode_entries(ByteReader::new(bad.clone()), bad.len()).err(),
        Some(ObjectError::CorruptHeader)
    );
    // an empty tree
    assert_eq!(decode_entries(ByteReader::new(Vec::new()), 0).unwrap().len(), 0);
}

#[test]
fn single_entry_parse() {
    let body = tree_body(&[("120000", "link", [9; 20])]);
    let mut reader = ByteReader::new(body.clone());
    let (entry, n) = parse_tree_entry(&mut reader, body.len()).unwrap();
    assert_eq!(n, body.len());
    assert_eq!(entry.mode, ObjectMode::SymbolicLink);
    assert_eq!(entry.name, "link");
    assert_eq!(reader.remaining(), 0);
}

#[test]
fn entry_names_with_spaces_and_unicode() {
    let body = tree_body(&[("100755", "run me.sh", [1; 20]), ("100644", "é.txt", [2; 20])]);
    let entries = decode_entries(ByteReader::new(body.clone()), body.len()).unwrap();
    assert_eq!(entries[0].mode, ObjectMode::ExecutableFile);
    assert_eq!(entries[0].name, "run me.sh");
    assert_eq!(entries[1].name, "é.txt");
}

#[test]
fn listing_lines() {
    let id1 = [0x11u8; 20];
    let id2 = [0xabu8; 20];
    let body = tree_body(&[("100644", "a.txt", id1), ("40000", "sub", id2)]);
    let raw = with_header("tree", body.len(), &body);
    let full = String::from_utf8(list_tree(raw.clone(), false).unwrap()).unwrap();
    assert_eq!(
        full,
        format!(
            "100644 blob {}\ta.txt\n040000 tree {}\tsub\n",
            "11".repeat(20),
            "ab".repeat(20)
        )
    );
    let names = String::from_utf8(list_tree(raw.clone(), true).unwrap()).unwrap();
    assert_eq!(names, "a.txt\nsub\n");
    assert_eq!(ls_tree(&zlib(&raw), true).unwrap(), names.into_bytes());
}

#[test]
fn listing_refuses_blob() {
    let raw = with_header("blob", 5, b"hello");
    assert_eq!(list_tree(raw, false).err(), Some(ObjectError::UnsupportedType));
}

#[test]
fn entry_display() {
    let entry = TreeEntry::new(ObjectMode::SymbolicLink, "l", vec![0u8; 20]);
    assert_eq!(
        String::from_utf8(entry.display(false)).unwrap(),
        format!("120000 blob {}\tl\n", "0".repeat(40))
    );
    assert_eq!(entry.display(true), b"l\n".to_vec());
}

#[test]
fn mode_codes() {
    for (n, mode, ty) in [
        (100644u32, ObjectMode::RegularFile, "blob"),
        (100755, ObjectMode::ExecutableFile, "blob"),
        (120000, ObjectMode::SymbolicLink, "blob"),
        (40000, ObjectMode::Directory, "tree"),
    ] {
        assert_eq!(ObjectMode::from_number(n), Some(mode));
        assert_eq!(mode.to_number(), n);
        assert_eq!(mode.to_object_type(), ty);
    }
    assert_eq!(ObjectMode::from_number(999999), None);
    assert_eq!(ObjectMode::from_number(0), None);
    assert_eq!(ObjectKind::Blob.as_str(), "blob");
    assert_eq!(ObjectKind::Tree.tag_bytes(), b"tree".to_vec());
    assert_eq!(ObjectError::Truncated.message(), "truncated object");
}
