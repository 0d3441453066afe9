use bittorrent::download::{verify_piece, Download, Phase, Step};
use bittorrent::peer::{Frame, Message, MessageTag, PeerError};
use bittorrent::piece::{block_count, piece_size, BLOCK_MAX};
use sha1::{Digest, Sha1};

fn msg(tag: MessageTag, payload: Vec<u8>) -> Frame {
    Frame::Message(Message { tag, payload })
}

fn piece_msg(index: u32, begin: u32, block: &[u8]) -> Frame {
    let mut p = index.to_be_bytes().to_vec();
    p.extend_from_slice(&begin.to_be_bytes());
    p.extend_from_slice(block);
    msg(MessageTag::Piece, p)
}

fn expect_request(step: Result<Step, PeerError>, index: u32, begin: u32, len: u32) {
    match step {
        Ok(Step::Send(m)) => {
            assert_eq!(m.tag, MessageTag::Request);
            let mut want = index.to_be_bytes().to_vec();
            want.extend_from_slice(&begin.to_be_bytes());
            want.extend_from_slice(&len.to_be_bytes());
            assert_eq!(m.payload, want);
        }
        _ => panic!("expected a request"),
    }
}

fn started(data: &[u8], hash: [u8; 20]) -> Download {
    let mut d = Download::new(3, data.len(), 4, hash);
    match d.on_frame(msg(MessageTag::Bitfield, vec![0xff])) {
        Ok(Step::Send(m)) => {
            assert_eq!(m.tag, MessageTag::Interested);
            assert!(m.payload.is_empty());
        }
        _ => panic!("expected interest"),
    }
    assert!(matches!(d.on_frame(Frame::KeepAlive), Ok(Step::Wait)));
    assert!(matches!(d.on_frame(msg(MessageTag::Have, vec![0, 0, 0, 1])), Ok(Step::Wait)));
    expect_request(d.on_frame(msg(MessageTag::Unchoke, vec![])), 3, 0, 4);
    d
}

#[test]
fn downloads_and_verifies_piece() {
    let data = b"0123456789";
    let hash: [u8; 20] = Sha1::digest(data).into();
    let mut d = started(data, hash);
    expect_request(d.on_frame(piece_msg(3, 0, &data[0..4])), 3, 4, 4);
    expect_request(d.on_frame(piece_msg(3, 4, &data[4..8])), 3, 8, 2);
    match d.on_frame(piece_msg(3, 8, &data[8..10])) {
        Ok(Step::Complete(bytes)) => assert_eq!(bytes, data.to_vec()),
        _ => panic!("expected the piece"),
    }
    assert_eq!(d.phase, Phase::Done);
}

#[test]
fn wrong_hash_is_corrupt_piece() {
    let data = b"abcdef";
    let mut d = started(data, [0u8; 20]);
    expect_request(d.on_frame(piece_msg(3, 0, &data[0..4])), 3, 4, 2);
    assert!(matches!(d.on_frame(piece_msg(3, 4, &data[4..6])), Err(PeerError::CorruptPiece)));
    assert!(d.buffer.is_empty());
}

#[test]
fn mismatched_block_is_refused_and_not_kept() {
    let data = b"abcdefgh";
    let hash: [u8; 20] = Sha1::digest(data).into();
    let mut d = started(data, hash);
    expect_request(d.on_frame(piece_msg(3, 0, &data[0..4])), 3, 4, 4);
    assert!(matches!(d.on_frame(piece_msg(2, 4, b"efgh")), Err(PeerError::ProtocolViolation)));
    assert!(matches!(d.on_frame(piece_msg(3, 0, b"efgh")), Err(PeerError::ProtocolViolation)));
    assert!(matches!(d.on_frame(piece_msg(3, 4, b"efg")), Err(PeerError::ProtocolViolation)));
    assert_eq!(d.buffer, b"abcd".to_vec());
    assert_eq!(d.next_block, 1);
}

#[test]
fn first_message_must_be_bitfield() {
    let mut d = Download::new(0, 10, 4, [0u8; 20]);
    assert!(matches!(d.on_frame(msg(MessageTag::Unchoke, vec![])), Err(PeerError::ProtocolViolation)));
    assert_eq!(d.phase, Phase::AwaitBitfield);
}

#[test]
fn choke_before_unchoke_is_fatal() {
    let mut d = Download::new(0, 10, 4, [0u8; 20]);
    assert!(d.on_frame(msg(MessageTag::Bitfield, vec![])).is_ok());
    assert!(matches!(d.on_frame(msg(MessageTag::Choke, vec![])), Err(PeerError::ProtocolViolation)));
    assert!(matches!(d.on_frame(msg(MessageTag::Unchoke, vec![1])), Err(PeerError::ProtocolViolation)));
}

#[test]
fn second_piece_of_single_file_in_fifteen_blocks() {
    let size = piece_size(500000, 262144, 1);
    assert_eq!(size, 237856);
    assert_eq!(block_count(size, BLOCK_MAX), 15);
    let data: Vec<u8> = (0..size).map(|i| (i % 251) as u8).collect();
    let hash: [u8; 20] = Sha1::digest(&data).into();
    let mut d = Download::new(1, size, BLOCK_MAX, hash);
    assert!(d.on_frame(msg(MessageTag::Bitfield, vec![0xc0])).is_ok());
    expect_request(d.on_frame(msg(MessageTag::Unchoke, vec![])), 1, 0, 16384);
    let mut requests = 1;
    let mut done = None;
    for b in 0..15usize {
        let begin = b * BLOCK_MAX;
        let end = usize::min(begin + BLOCK_MAX, size);
        match d.on_frame(piece_msg(1, begin as u32, &data[begin..end])) {
            Ok(Step::Send(_)) => requests += 1,
            Ok(Step::Complete(bytes)) => done = Some(bytes),
            _ => panic!("unexpected step"),
        }
    }
    assert_eq!(requests, 15);
    assert_eq!(done, Some(data));
}

#[test]
fn piece_verdict_on_given_digest() {
    let data = vec![1u8, 2, 3];
    assert_eq!(verify_piece(&[5u8; 20], &[5u8; 20], data.clone()), Ok(data.clone()));
    let mut other = [5u8; 20];
    other[19] = 6;
    assert_eq!(verify_piece(&other, &[5u8; 20], data), Err(PeerError::CorruptPiece));
}
