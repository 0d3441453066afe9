use bittorrent::peer::{Frame, Handshake, Message, MessageTag, PeerError, Piece, Request};

#[test]
fn handshake_layout() {
    let h = Handshake::new([7u8; 20], *b"00112233445566778899");
    let b = h.to_bytes();
    assert_eq!(b.len(), 68);
    assert_eq!(b[0], 19);
    assert_eq!(&b[1..20], b"BitTorrent protocol");
    assert_eq!(&b[20..28], &[0u8; 8]);
    assert_eq!(&b[28..48], &[7u8; 20]);
    assert_eq!(&b[48..68], b"00112233445566778899");
}

#[test]
fn handshake_reply_is_checked() {
    let mut b = Handshake::new([1u8; 20], [2u8; 20]).to_bytes();
    b[48] = 9;
    let h = Handshake::from_bytes(&b).unwrap();
    assert_eq!(h.peer_id[0], 9);
    assert_eq!(h.info_hash, [1u8; 20]);
    b[3] = b'X';
    assert_eq!(Handshake::from_bytes(&b).err(), Some(PeerError::ProtocolMismatch));
    b[3] = b't';
    b[0] = 18;
    assert_eq!(Handshake::from_bytes(&b).err(), Some(PeerError::ProtocolMismatch));
    assert_eq!(Handshake::from_bytes(&b[..67]).err(), Some(PeerError::Truncated));
}

#[test]
fn message_frame_round_trip() {
    let m = Message { tag: MessageTag::Have, payload: vec![0, 0, 0, 5] };
    let mut wire = m.encode();
    assert_eq!(wire, vec![0, 0, 0, 5, 4, 0, 0, 0, 5]);
    wire.push(99);
    match Frame::decode(&wire) {
        Ok(Some((Frame::Message(back), 9))) => {
            assert_eq!(back.tag, MessageTag::Have);
            assert_eq!(back.payload, vec![0, 0, 0, 5]);
        }
        _ => panic!("expected a message"),
    }
}

#[test]
fn keep_alive_has_no_tag() {
    let wire = Frame::KeepAlive.encode();
    assert_eq!(wire, vec![0, 0, 0, 0]);
    assert!(matches!(Frame::decode(&wire), Ok(Some((Frame::KeepAlive, 4)))));
}

#[test]
fn incomplete_and_unknown_frames() {
    assert!(matches!(Frame::decode(&[0, 0, 0]), Ok(None)));
    assert!(matches!(Frame::decode(&[0, 0, 0, 3, 1, 2]), Ok(None)));
    assert!(matches!(Frame::decode(&[0, 0, 0, 1, 9]), Err(PeerError::ProtocolViolation)));
    assert!(matches!(Frame::decode(&[0, 0, 1, 0, 7]), Ok(None)));
}

#[test]
fn request_and_piece_payloads() {
    assert_eq!(
        Request::new(1, 16384, 3616).to_bytes(),
        vec![0, 0, 0, 1, 0, 0, 0x40, 0, 0, 0, 0x0e, 0x20]
    );
    let p = Piece::parse(&[0, 0, 0, 2, 0, 1, 0, 0, 9, 8]).unwrap();
    assert_eq!(p.index, 2);
    assert_eq!(p.begin, 65536);
    assert_eq!(p.block, vec![9, 8]);
    assert!(matches!(Piece::parse(&[0, 0, 0]), Err(PeerError::ProtocolViolation)));
}
