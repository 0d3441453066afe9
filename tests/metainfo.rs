use bittorrent::bencode::DecodeError;
use bittorrent::torrent::{Keys, Torrent};
use sha1::{Digest, Sha1};

fn single_file(info_first: &[u8], rest: &[u8]) -> Vec<u8> {
    let mut v = b"d8:announce19:http://t.example/an4:info".to_vec();
    v.extend_from_slice(info_first);
    v.extend_from_slice(rest);
    v.push(b'e');
    v
}

fn pieces_field(n: usize) -> Vec<u8> {
    let mut v = format!("6:pieces{}:", 20 * n).into_bytes();
    for i in 0..20 * n {
        v.push(i as u8);
    }
    v
}

fn info_sorted() -> Vec<u8> {
    let mut v = b"d6:lengthi500000e4:name4:file12:piece lengthi262144e".to_vec();
    v.extend_from_slice(&pieces_field(2));
    v.push(b'e');
    v
}

#[test]
fn parses_single_file_torrent() {
    let t = Torrent::parse(&single_file(&info_sorted(), b"")).unwrap();
    assert_eq!(t.announce, "http://t.example/an");
    assert_eq!(t.info.name, "file");
    assert_eq!(t.info.plength, 262144);
    assert_eq!(t.info.pieces.0.len(), 2);
    assert_eq!(t.info.pieces.0[1][0], 20);
    assert_eq!(t.info.pieces.0[1][19], 39);
    match t.info.keys {
        Keys::SingleFile { length } => assert_eq!(length, 500000),
        Keys::MultiFile { .. } => panic!("expected a single file"),
    }
}

#[test]
fn info_hash_is_sha1_of_sorted_info() {
    let t = Torrent::parse(&single_file(&info_sorted(), b"")).unwrap();
    let expected: [u8; 20] = Sha1::digest(info_sorted()).into();
    assert_eq!(t.info_hash(), expected);
    assert_eq!(t.info_hash(), t.info_hash());
}

#[test]
fn info_hash_ignores_entry_order() {
    let mut shuffled = b"d4:name4:file".to_vec();
    shuffled.extend_from_slice(&pieces_field(2));
    shuffled.extend_from_slice(b"12:piece lengthi262144e6:lengthi500000ee");
    let a = Torrent::parse(&single_file(&info_sorted(), b"")).unwrap();
    let b = Torrent::parse(&single_file(&shuffled, b"")).unwrap();
    assert_eq!(a.info_hash(), b.info_hash());
}

#[test]
fn parses_multi_file_torrent() {
    let mut info = b"d5:filesld6:lengthi3e4:pathl1:a1:beed6:lengthi4e4:pathl1:ceee4:name3:dir12:piece lengthi16e".to_vec();
    info.extend_from_slice(&pieces_field(1));
    info.push(b'e');
    let t = Torrent::parse(&single_file(&info, b"")).unwrap();
    match &t.info.keys {
        Keys::MultiFile { files } => {
            assert_eq!(files.len(), 2);
            assert_eq!(files[0].length, 3);
            assert_eq!(files[0].path, vec!["a".to_string(), "b".to_string()]);
            assert_eq!(files[1].path, vec!["c".to_string()]);
        }
        Keys::SingleFile { .. } => panic!("expected several files"),
    }
    let expected: [u8; 20] = Sha1::digest(&info).into();
    assert_eq!(t.info_hash(), expected);
}

#[test]
fn rejects_malformed_metadata() {
    let mut odd = b"d6:lengthi5e4:name1:x12:piece lengthi4e6:pieces3:abce".to_vec();
    assert_eq!(Torrent::parse(&single_file(&odd, b"")).err(), Some(DecodeError::Malformed));
    odd = b"d6:lengthi5e5:filesle4:name1:x12:piece lengthi4e6:pieces0:e".to_vec();
    assert_eq!(Torrent::parse(&single_file(&odd, b"")).err(), Some(DecodeError::Malformed));
    odd = b"d4:name1:x12:piece lengthi4e6:pieces0:e".to_vec();
    assert_eq!(Torrent::parse(&single_file(&odd, b"")).err(), Some(DecodeError::Malformed));
    odd = b"d6:lengthi5e12:piece lengthi4e6:pieces0:e".to_vec();
    assert_eq!(Torrent::parse(&single_file(&odd, b"")).err(), Some(DecodeError::Malformed));
    assert_eq!(Torrent::parse(b"li1ee").err(), Some(DecodeError::Malformed));
    assert_eq!(Torrent::parse(b"d4:infoi1ee").err(), Some(DecodeError::Malformed));
    assert_eq!(Torrent::parse(b"di1ei1ee").err(), Some(DecodeError::KeyNotString));
}
