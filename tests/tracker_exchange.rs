use bittorrent::bencode::DecodeError;
use bittorrent::tracker::{decode_peers, urlencode, TrackerRequest, TrackerResponse};

#[test]
fn urlencode_every_byte() {
    let mut h = [0u8; 20];
    h[0] = 0xab;
    h[1] = 0x0f;
    h[19] = 0x7e;
    let e = String::from_utf8(urlencode(&h)).unwrap();
    assert_eq!(e.len(), 60);
    assert!(e.starts_with("%ab%0f%00"));
    assert!(e.ends_with("%7e"));
}

#[test]
fn announce_query() {
    let r = TrackerRequest {
        peer_id: *b"00112233445566778899",
        port: 6881,
        uploaded: 0,
        downloaded: 0,
        left: 500000,
        compact: 1,
    };
    let q = String::from_utf8(r.query(&[0xffu8; 20])).unwrap();
    let id = "%30%30%31%31%32%32%33%33%34%34%35%35%36%36%37%37%38%38%39%39";
    let hash = "%ff".repeat(20);
    assert_eq!(
        q,
        format!("peer_id={id}&port=6881&uploaded=0&downloaded=0&left=500000&compact=1&info_hash={hash}")
    );
}

#[test]
fn compact_peers() {
    let peers = decode_peers(&[127, 0, 0, 1, 0x1a, 0xe1, 10, 1, 2, 3, 0, 80]).unwrap();
    assert_eq!(peers.len(), 2);
    assert_eq!(peers[0].ip, [127, 0, 0, 1]);
    assert_eq!(peers[0].port, 6881);
    assert_eq!(peers[1].ip, [10, 1, 2, 3]);
    assert_eq!(peers[1].port, 80);
    assert!(decode_peers(&[1, 2, 3, 4, 5]).is_none());
}

#[test]
fn tracker_response() {
    let mut body = b"d8:intervali60e5:peers6:".to_vec();
    body.extend_from_slice(&[1, 2, 3, 4, 0, 1]);
    body.push(b'e');
    let r = TrackerResponse::parse(&body).unwrap();
    assert_eq!(r.interval, 60);
    assert_eq!(r.peers.len(), 1);
    assert_eq!(r.peers[0].port, 1);
    assert_eq!(
        TrackerResponse::parse(b"d8:intervali60e5:peers5:abcdee").err(),
        Some(DecodeError::Malformed)
    );
    assert_eq!(TrackerResponse::parse(b"d5:peers0:e").err(), Some(DecodeError::Malformed));
}
