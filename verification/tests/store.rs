use instagrep::index::{build, index_chunk, FileMeta, FileState, Index};
use instagrep::store::{load, save, LoadError};
use instagrep::wire::{from_bits, push_le, push_u32, push_u64, read_u32, read_u64, to_bits};

fn empty_index() -> Index {
    build(Vec::new(), &Vec::new(), 9)
}

#[test]
fn an_empty_index_has_a_fixed_form() {
    let mut expected = b"IGRUST\0\x03".to_vec();
    expected.extend_from_slice(&[0, 0, 0, 0]); // files
    expected.extend_from_slice(&[0, 0, 0, 0]); // trigrams
    expected.extend_from_slice(&[9, 0, 0, 0, 0, 0, 0, 0]); // build time
    expected.extend_from_slice(&[0x3a, 0x30, 0, 0, 0, 0, 0, 0]); // no removed ids
    assert_eq!(save(&empty_index()), expected);
}

fn small_index() -> Index {
    let state = FileState { meta: Some(FileMeta { mtime_secs: -2, size: 3 }), bytes: Some(b"abc".to_vec()) };
    build(vec![b"x".to_vec()], &vec![index_chunk(&[state], 0)], 1 << 70)
}

#[test]
fn files_and_postings_have_a_fixed_form() {
    let mut expected = b"IGRUST\0\x03".to_vec();
    expected.extend_from_slice(&[1, 0, 0, 0]);
    expected.extend_from_slice(&[1, 0, 0, 0]);
    expected.extend_from_slice(&[0xff; 8]); // the build time is cut off
    expected.extend_from_slice(&[1, 0, 0, 0, b'x']);
    expected.extend_from_slice(&[0xfe, 0xff, 0xff, 0xff, 0xff, 0xff, 0xff, 0xff]);
    expected.extend_from_slice(&[3, 0, 0, 0, 0, 0, 0, 0]);
    expected.extend_from_slice(&[b'c', b'b', b'a', 0]);
    let mut bitmap = Vec::new();
    [0u32].into_iter().collect::<roaring::RoaringBitmap>().serialize_into(&mut bitmap).unwrap();
    expected.extend_from_slice(&bitmap);
    expected.extend_from_slice(&[0x3a, 0x30, 0, 0, 0, 0, 0, 0]);
    assert_eq!(save(&small_index()), expected);
}

#[test]
fn a_stored_index_is_read_back() {
    let mut index = small_index();
    index.removed_ids.insert(5);
    let loaded = load(&save(&index)).unwrap().unwrap();
    assert_eq!(loaded.files, index.files);
    assert_eq!(loaded.metas, index.metas);
    assert_eq!(loaded.postings, index.postings);
    assert_eq!(loaded.removed_ids, index.removed_ids);
    assert_eq!(loaded.build_time_us, u64::MAX as u128);
}

#[test]
fn another_format_is_no_index() {
    let mut data = save(&small_index());
    data[7] = 2;
    assert!(load(&data).unwrap().is_none());
    assert!(load(b"something else entirely").unwrap().is_none());
}

#[test]
fn a_cut_off_index_is_an_error() {
    let data = save(&small_index());
    let fixed = 24 + 21 + 4;
    for n in 8..fixed {
        assert_eq!(load(&data[..n]).err(), Some(LoadError::Truncated), "{n} bytes");
    }
    assert_eq!(load(&data[..fixed + 1]).err(), Some(LoadError::InvalidBitmap));
}

#[test]
fn a_damaged_bitmap_is_an_error() {
    let mut data = save(&small_index());
    data[24 + 21 + 4] ^= 0xff;
    assert_eq!(load(&data).err(), Some(LoadError::InvalidBitmap));
}

#[test]
fn numbers_are_little_endian() {
    let mut out = Vec::new();
    push_u32(&mut out, 0x01020304);
    push_u64(&mut out, 0x0102030405060708);
    push_le(&mut out, 0x0a0b, 2);
    assert_eq!(out, vec![4, 3, 2, 1, 8, 7, 6, 5, 4, 3, 2, 1, 0x0b, 0x0a]);
    assert_eq!(read_u32(&out, 0), Some(0x01020304));
    assert_eq!(read_u64(&out, 4), Some(0x0102030405060708));
    assert_eq!(read_u32(&out, 11), None);
    assert_eq!(read_u64(&out, 7), None);
}

#[test]
fn signed_numbers_keep_their_bits() {
    for x in [0, 1, -1, i64::MIN, i64::MAX] {
        assert_eq!(to_bits(x), x as u64);
        assert_eq!(from_bits(x as u64), x);
    }
}

#[test]
fn a_missing_tail_means_that_nothing_was_removed() {
    let mut index = small_index();
    index.removed_ids.insert(0);
    let mut tail = Vec::new();
    index.removed_ids.serialize_into(&mut tail).unwrap();
    let data = save(&index);
    let loaded = load(&data[..data.len() - tail.len()]).unwrap().unwrap();
    assert!(loaded.removed_ids.is_empty());
    assert_eq!(loaded.files, index.files);
}

#[test]
fn a_full_container_is_read_back() {
    // 4096 ids are the most that a container lists one by one.
    let mut index = small_index();
    for n in [4095u32, 4096, 4097, 65536] {
        index.removed_ids = (0..2 * n).step_by(2).collect();
        let loaded = load(&save(&index)).unwrap().unwrap();
        assert_eq!(loaded.removed_ids, index.removed_ids, "{n} ids");
    }
}

#[test]
fn paths_are_stored_as_text() {
    let state = || FileState { meta: None, bytes: Some(b"abc".to_vec()) };
    let index = build(vec!["é/x".as_bytes().to_vec()], &vec![index_chunk(&[state()], 0)], 0);
    assert_eq!(load(&save(&index)).unwrap().unwrap().files, index.files);
    let index = build(vec![b"a\xffb".to_vec()], &vec![index_chunk(&[state()], 0)], 0);
    assert_eq!(load(&save(&index)).unwrap().unwrap().files, vec!["a\u{fffd}b".as_bytes().to_vec()]);
}
