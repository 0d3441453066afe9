use vstd::prelude::*;

verus! {

/// Why an exchange with a peer failed.
#[derive(Debug, Clone, Copy, PartialEq, Eq, Structural)]
pub enum PeerError {
    /// The handshake names another protocol.
    ProtocolMismatch,
    /// A message came out of order or with fields other than those asked for.
    ProtocolViolation,
    /// The bytes end before the declared length.
    Truncated,
    /// The assembled piece does not have the expected hash.
    CorruptPiece,
}

/// The protocol string `BitTorrent protocol`.
pub open spec fn protocol_name() -> Seq<u8> {
    seq![66u8, 105, 116, 84, 111, 114, 114, 101, 110, 116, 32, 112, 114, 111, 116, 111, 99, 111, 108]
}

/// The length of a handshake on the wire.
pub const HANDSHAKE_LEN: usize = 68;

/// The handshake that opens a connection.
pub struct Handshake {
    pub length: u8,
    pub bittorrent: [u8; 19],
    pub reserved: [u8; 8],
    pub info_hash: [u8; 20],
    pub peer_id: [u8; 20],
}

/// A handshake's bytes: its fields in order.
pub open spec fn handshake_wire(h: Handshake) -> Seq<u8> {
    seq![h.length] + h.bittorrent@ + h.reserved@ + h.info_hash@ + h.peer_id@
}

impl Handshake {
    /// A handshake for `info_hash` from `peer_id`, with the fixed protocol name and
    /// zero reserved bytes.
    pub fn new(info_hash: [u8; 20], peer_id: [u8; 20]) -> (r: Handshake)
        ensures
            r.length == 19,
            r.bittorrent@ == protocol_name(),
            r.reserved@ == seq![0u8, 0, 0, 0, 0, 0, 0, 0],
            r.info_hash == info_hash,
            r.peer_id == peer_id,
    {
        let bittorrent: [u8; 19] = [66, 105, 116, 84, 111, 114, 114, 101, 110, 116, 32, 112, 114, 111, 116, 111, 99, 111, 108];
        let reserved: [u8; 8] = [0u8; 8];
        assert(bittorrent@ =~= protocol_name());
        assert(reserved@ =~= seq![0u8, 0, 0, 0, 0, 0, 0, 0]);
        Handshake { length: 19, bittorrent, reserved, info_hash, peer_id }
    }

    /// The 68 bytes sent on the wire.
    pub fn to_bytes(&self) -> (r: Vec<u8>)
        ensures
            r@ == handshake_wire(*self),
            r@.len() == 68,
    {
        let mut out: Vec<u8> = Vec::new();
        out.push(self.length);
        let mut i: usize = 0;
        while i < 19
            invariant
                i <= 19,
                out@ == seq![self.length] + self.bittorrent@.take(i as int),
            decreases 19 - i,
        {
            out.push(self.bittorrent[i]);
            i = i + 1;
            assert(out@ =~= seq![self.length] + self.bittorrent@.take(i as int));
        }
        assert(self.bittorrent@.take(19) =~= self.bittorrent@);
        let ghost a = out@;
        i = 0;
        while i < 8
            invariant
                i <= 8,
                out@ == a + self.reserved@.take(i as int),
            decreases 8 - i,
        {
            out.push(self.reserved[i]);
            i = i + 1;
            assert(out@ =~= a + self.reserved@.take(i as int));
        }
        assert(self.reserved@.take(8) =~= self.reserved@);
        let ghost b = out@;
        i = 0;
        while i < 20
            invariant
                i <= 20,
                out@ == b + self.info_hash@.take(i as int),
            decreases 20 - i,
        {
            out.push(self.info_hash[i]);
            i = i + 1;
            assert(out@ =~= b + self.info_hash@.take(i as int));
        }
        assert(self.info_hash@.take(20) =~= self.info_hash@);
        let ghost c = out@;
        i = 0;
        while i < 20
            invariant
                i <= 20,
                out@ == c + self.peer_id@.take(i as int),
            decreases 20 - i,
        {
            out.push(self.peer_id[i]);
            i = i + 1;
            assert(out@ =~= c + self.peer_id@.take(i as int));
        }
        assert(self.peer_id@.take(20) =~= self.peer_id@);
        assert(out@ =~= handshake_wire(*self));
        out
    }

    /// Reads a handshake from the 68 bytes a peer sent back. It fails with `Truncated`
    /// where there are not 68 bytes, and with `ProtocolMismatch` where the first byte is
    /// not 19 or the next 19 are not the protocol name.
    pub fn from_bytes(b: &[u8]) -> (r: Result<Handshake, PeerError>)
        ensures
            match r {
                Ok(h) => b@.len() == 68 && handshake_wire(h) == b@,
                Err(e) => if b@.len() != 68 {
                    e == PeerError::Truncated
                } else {
                    e == PeerError::ProtocolMismatch && (b@[0] != 19 || b@.subrange(1, 20)
                        != protocol_name())
                },
            },
            r is Ok <==> (b@.len() == 68 && b@[0] == 19 && b@.subrange(1, 20) == protocol_name()),
    {
        if b.len() != 68 {
            return Err(PeerError::Truncated);
        }
        let mut h = Handshake::new([0u8; 20], [0u8; 20]);
        if b[0] != 19 {
            return Err(PeerError::ProtocolMismatch);
        }
        let mut i: usize = 0;
        while i < 19
            invariant
                b@.len() == 68,
                i <= 19,
                h.bittorrent@ == protocol_name(),
                forall|j: int| 0 <= j < i ==> b@[1 + j] == protocol_name()[j],
            decreases 19 - i,
        {
            if b[1 + i] != h.bittorrent[i] {
                assert(b@.subrange(1, 20)[i as int] != protocol_name()[i as int]);
                return Err(PeerError::ProtocolMismatch);
            }
            i = i + 1;
        }
        assert(b@.subrange(1, 20) =~= protocol_name());
        i = 0;
        while i < 8
            invariant
                b@.len() == 68,
                i <= 8,
                forall|j: int| 0 <= j < i ==> h.reserved@[j] == b@[20 + j],
                h.length == 19 && b@[0] == 19,
                h.bittorrent@ == protocol_name() && b@.subrange(1, 20) == protocol_name(),
            decreases 8 - i,
        {
            h.reserved[i] = b[20 + i];
            i = i + 1;
        }
        i = 0;
        while i < 20
            invariant
                b@.len() == 68,
                i <= 20,
                forall|j: int| 0 <= j < i ==> h.info_hash@[j] == b@[28 + j],
                forall|j: int| 0 <= j < i ==> h.peer_id@[j] == b@[48 + j],
                forall|j: int| 0 <= j < 8 ==> h.reserved@[j] == b@[20 + j],
                h.length == 19 && b@[0] == 19,
                h.bittorrent@ == protocol_name() && b@.subrange(1, 20) == protocol_name(),
            decreases 20 - i,
        {
            h.info_hash[i] = b[28 + i];
            h.peer_id[i] = b[48 + i];
            i = i + 1;
        }
        assert forall|j: int| 1 <= j < 20 implies b@[j] == protocol_name()[j - 1] by {
            assert(b@[j] == b@.subrange(1, 20)[j - 1]);
        }
        assert(handshake_wire(h) =~= b@);
        Ok(h)
    }
}

/// A constructed handshake is 68 bytes: the byte 19, the protocol name, eight zero
/// bytes, the info hash and the peer id.
pub proof fn lemma_handshake_layout(info_hash: [u8; 20], peer_id: [u8; 20], h: Handshake)
    requires
        h.length == 19,
        h.bittorrent@ == protocol_name(),
        h.reserved@ == seq![0u8, 0, 0, 0, 0, 0, 0, 0],
        h.info_hash == info_hash,
        h.peer_id == peer_id,
    ensures
        handshake_wire(h).len() == 68,
        handshake_wire(h)[0] == 19,
        handshake_wire(h).subrange(1, 20) == protocol_name(),
        handshake_wire(h).subrange(20, 28) == seq![0u8, 0, 0, 0, 0, 0, 0, 0],
        handshake_wire(h).subrange(28, 48) == info_hash@,
        handshake_wire(h).subrange(48, 68) == peer_id@,
{
    let w = handshake_wire(h);
    assert(w.subrange(1, 20) =~= protocol_name());
    assert(w.subrange(20, 28) =~= seq![0u8, 0, 0, 0, 0, 0, 0, 0]);
    assert(w.subrange(28, 48) =~= info_hash@);
    assert(w.subrange(48, 68) =~= peer_id@);
}


/// The type of a tagged message.
#[derive(Debug, Clone, Copy, PartialEq, Eq, Structural)]
pub enum MessageTag {
    Choke,
    Unchoke,
    Interested,
    NotInterested,
    Have,
    Bitfield,
    Request,
    Piece,
    Cancel,
}

/// The byte that stands for a tag on the wire.
pub open spec fn tag_byte(t: MessageTag) -> u8 {
    match t {
        MessageTag::Choke => 0,
        MessageTag::Unchoke => 1,
        MessageTag::Interested => 2,
        MessageTag::NotInterested => 3,
        MessageTag::Have => 4,
        MessageTag::Bitfield => 5,
        MessageTag::Request => 6,
        MessageTag::Piece => 7,
        MessageTag::Cancel => 8,
    }
}

/// The tag a byte stands for, if any.
pub open spec fn tag_of(b: u8) -> Option<MessageTag> {
    if b == 0 {
        Some(MessageTag::Choke)
    } else if b == 1 {
        Some(MessageTag::Unchoke)
    } else if b == 2 {
        Some(MessageTag::Interested)
    } else if b == 3 {
        Some(MessageTag::NotInterested)
    } else if b == 4 {
        Some(MessageTag::Have)
    } else if b == 5 {
        Some(MessageTag::Bitfield)
    } else if b == 6 {
        Some(MessageTag::Request)
    } else if b == 7 {
        Some(MessageTag::Piece)
    } else if b == 8 {
        Some(MessageTag::Cancel)
    } else {
        None
    }
}

impl MessageTag {
    /// The byte that stands for this tag.
    pub fn to_byte(self) -> (r: u8)
        ensures
            r == tag_byte(self),
            tag_of(r) == Some(self),
    {
        match self {
            MessageTag::Choke => 0,
            MessageTag::Unchoke => 1,
            MessageTag::Interested => 2,
            MessageTag::NotInterested => 3,
            MessageTag::Have => 4,
            MessageTag::Bitfield => 5,
            MessageTag::Request => 6,
            MessageTag::Piece => 7,
            MessageTag::Cancel => 8,
        }
    }

    /// The tag a byte stands for, if any.
    pub fn from_byte(b: u8) -> (r: Option<MessageTag>)
        ensures
            r == tag_of(b),
    {
        if b == 0 {
            Some(MessageTag::Choke)
        } else if b == 1 {
            Some(MessageTag::Unchoke)
        } else if b == 2 {
            Some(MessageTag::Interested)
        } else if b == 3 {
            Some(MessageTag::NotInterested)
        } else if b == 4 {
            Some(MessageTag::Have)
        } else if b == 5 {
            Some(MessageTag::Bitfield)
        } else if b == 6 {
            Some(MessageTag::Request)
        } else if b == 7 {
            Some(MessageTag::Piece)
        } else if b == 8 {
            Some(MessageTag::Cancel)
        } else {
            None
        }
    }
}

/// A tagged message.
pub struct Message {
    pub tag: MessageTag,
    pub payload: Vec<u8>,
}

/// One frame of the stream: a keep-alive, which has no tag, or a tagged message.
pub enum Frame {
    KeepAlive,
    Message(Message),
}

/// The model of a frame: `None` for a keep-alive, else its tag and payload.
pub open spec fn frame_model(f: Frame) -> Option<(MessageTag, Seq<u8>)> {
    match f {
        Frame::KeepAlive => None,
        Frame::Message(m) => Some((m.tag, m.payload@)),
    }
}

/// Four bytes read as a big-endian number.
pub open spec fn be32(s: Seq<u8>) -> int {
    s[0] * 16777216 + s[1] * 65536 + s[2] * 256 + s[3]
}

/// A number below 2^32 as four big-endian bytes.
pub open spec fn be32_bytes(n: int) -> Seq<u8> {
    seq![(n / 16777216) as u8, ((n / 65536) % 256) as u8, ((n / 256) % 256) as u8, (n % 256) as u8]
}

/// The bytes of a frame: the big-endian length of what follows, then the tag byte and
/// the payload; a keep-alive is a zero length alone.
pub open spec fn frame_wire(f: Option<(MessageTag, Seq<u8>)>) -> Seq<u8> {
    match f {
        None => be32_bytes(0),
        Some((t, p)) => be32_bytes(p.len() as int + 1) + seq![tag_byte(t)] + p,
    }
}

/// Reads the frame at the start of `s`: `Ok(None)` while the bytes end before the frame
/// does; else the frame and its length on the wire. A tag byte that stands for no tag
/// is a protocol violation.
pub open spec fn parse_frame(s: Seq<u8>) -> Result<Option<(Option<(MessageTag, Seq<u8>)>, int)>, PeerError> {
    if s.len() < 4 {
        Ok(None)
    } else if be32(s) == 0 {
        Ok(Some((None, 4)))
    } else if s.len() < 4 + be32(s) {
        Ok(None)
    } else {
        match tag_of(s[4]) {
            Some(t) => Ok(Some((Some((t, s.subrange(5, 4 + be32(s)))), 4 + be32(s)))),
            None => Err(PeerError::ProtocolViolation),
        }
    }
}

fn read_be32(s: &[u8], at: usize) -> (r: u32)
    requires
        at + 4 <= s.len(),
    ensures
        r == be32(s@.subrange(at as int, at + 4)),
{
    let r = (s[at] as u32) * 16777216 + (s[at + 1] as u32) * 65536 + (s[at + 2] as u32) * 256 + (s[at + 3] as u32);
    r
}

fn push_be32(out: &mut Vec<u8>, n: u32)
    ensures
        final(out)@ == old(out)@ + be32_bytes(n as int),
{
    out.push((n / 16777216) as u8);
    out.push(((n / 65536) % 256) as u8);
    out.push(((n / 256) % 256) as u8);
    out.push((n % 256) as u8);
    assert(final(out)@ =~= old(out)@ + be32_bytes(n as int));
}

proof fn lemma_be32(n: int)
    requires
        0 <= n < 0x1_0000_0000,
    ensures
        be32(be32_bytes(n)) == n,
{
    let b = be32_bytes(n);
    assert(b[0] == n / 16777216);
    assert(b[1] == (n / 65536) % 256);
    assert(b[2] == (n / 256) % 256);
    assert(b[3] == n % 256);
    assert((n / 16777216) * 16777216 + ((n / 65536) % 256) * 65536 + ((n / 256) % 256) * 256 + n % 256 == n) by (nonlinear_arith)
        requires 0 <= n < 0x1_0000_0000;
}

impl Message {
    /// This message framed for the wire.
    pub fn encode(&self) -> (r: Vec<u8>)
        requires
            self.payload@.len() + 1 < 0x1_0000_0000,
        ensures
            r@ == frame_wire(Some((self.tag, self.payload@))),
    {
        let mut out: Vec<u8> = Vec::new();
        push_be32(&mut out, (self.payload.len() + 1) as u32);
        out.push(self.tag.to_byte());
        let ghost a = out@;
        let mut i: usize = 0;
        while i < self.payload.len()
            invariant
                i <= self.payload.len(),
                out@ == a + self.payload@.take(i as int),
            decreases self.payload.len() - i,
        {
            out.push(self.payload[i]);
            i = i + 1;
            assert(out@ =~= a + self.payload@.take(i as int));
        }
        assert(self.payload@.take(self.payload.len() as int) =~= self.payload@);
        assert(out@ =~= frame_wire(Some((self.tag, self.payload@))));
        out
    }
}

impl Frame {
    /// This frame's bytes on the wire.
    pub fn encode(&self) -> (r: Vec<u8>)
        requires
            match self {
                Frame::KeepAlive => true,
                Frame::Message(m) => m.payload@.len() + 1 < 0x1_0000_0000,
            },
        ensures
            r@ == frame_wire(frame_model(*self)),
    {
        match self {
            Frame::KeepAlive => {
                let mut out: Vec<u8> = Vec::new();
                push_be32(&mut out, 0);
                assert(out@ =~= frame_wire(frame_model(*self)));
                out
            },
            Frame::Message(m) => m.encode(),
        }
    }

    /// Reads the frame at the start of `buf`: `Ok(None)` while more bytes are needed,
    /// else the frame and how many bytes it took.
    pub fn decode(buf: &[u8]) -> (r: Result<Option<(Frame, usize)>, PeerError>)
        ensures
            match r {
                Ok(None) => parse_frame(buf@) == Ok::<Option<(Option<(MessageTag, Seq<u8>)>, int)>, PeerError>(None),
                Ok(Some((f, n))) => parse_frame(buf@) == Ok::<Option<(Option<(MessageTag, Seq<u8>)>, int)>, PeerError>(Some((frame_model(f), n as int))),
                Err(e) => parse_frame(buf@) == Err::<Option<(Option<(MessageTag, Seq<u8>)>, int)>, PeerError>(e),
            },
    {
        if buf.len() < 4 {
            return Ok(None);
        }
        let n = read_be32(buf, 0);
        assert(buf@.subrange(0, 4)[0] == buf@[0] && buf@.subrange(0, 4)[1] == buf@[1]);
        assert(buf@.subrange(0, 4)[2] == buf@[2] && buf@.subrange(0, 4)[3] == buf@[3]);
        if n == 0 {
            return Ok(Some((Frame::KeepAlive, 4)));
        }
        if buf.len() - 4 < n as usize {
            return Ok(None);
        }
        let end = 4 + n as usize;
        match MessageTag::from_byte(buf[4]) {
            Some(tag) => {
                let mut payload: Vec<u8> = Vec::new();
                let mut i: usize = 5;
                while i < end
                    invariant
                        5 <= i <= end <= buf.len(),
                        payload@ == buf@.subrange(5, i as int),
                    decreases end - i,
                {
                    payload.push(buf[i]);
                    i = i + 1;
                    assert(payload@ =~= buf@.subrange(5, i as int));
                }
                Ok(Some((Frame::Message(Message { tag, payload }), end)))
            },
            None => Err(PeerError::ProtocolViolation),
        }
    }
}

/// Framing round trip: the bytes of a frame, whatever follows them, read back as the
/// same frame, tag and payload alike, taking exactly its bytes; a keep-alive reads back
/// as a keep-alive.
pub proof fn lemma_frame_round_trip(f: Option<(MessageTag, Seq<u8>)>, rest: Seq<u8>)
    requires
        match f {
            None => true,
            Some((_, p)) => p.len() + 1 < 0x1_0000_0000,
        },
    ensures
        parse_frame(frame_wire(f) + rest) == Ok::<Option<(Option<(MessageTag, Seq<u8>)>, int)>, PeerError>(Some((f, frame_wire(f).len() as int))),
{
    let s = frame_wire(f) + rest;
    match f {
        None => {
            lemma_be32(0);
            assert(s.subrange(0, 4) =~= be32_bytes(0));
            assert(be32(s) == be32(be32_bytes(0)));
        },
        Some((t, p)) => {
            let n = p.len() as int + 1;
            lemma_be32(n);
            assert(be32(s) == be32(be32_bytes(n)));
            assert(s[4] == tag_byte(t));
            assert(s.subrange(5, 4 + n) =~= p);
        },
    }
}


/// A request for `length` bytes of piece `index`, starting at byte `begin`.
pub struct Request {
    pub index: u32,
    pub begin: u32,
    pub length: u32,
}

/// The 12-byte payload of a request: three big-endian numbers.
pub open spec fn request_wire(index: int, begin: int, length: int) -> Seq<u8> {
    be32_bytes(index) + be32_bytes(begin) + be32_bytes(length)
}

impl Request {
    pub fn new(index: u32, begin: u32, length: u32) -> (r: Request)
        ensures
            r.index == index && r.begin == begin && r.length == length,
    {
        Request { index, begin, length }
    }

    /// The payload of a request message.
    pub fn to_bytes(&self) -> (r: Vec<u8>)
        ensures
            r@ == request_wire(self.index as int, self.begin as int, self.length as int),
            r@.len() == 12,
    {
        let mut out: Vec<u8> = Vec::new();
        push_be32(&mut out, self.index);
        push_be32(&mut out, self.begin);
        push_be32(&mut out, self.length);
        assert(out@ =~= request_wire(self.index as int, self.begin as int, self.length as int));
        out
    }
}

/// The payload of a piece message: a block of piece `index` that starts at byte `begin`.
pub struct Piece {
    pub index: u32,
    pub begin: u32,
    pub block: Vec<u8>,
}

impl Piece {
    /// Reads a piece payload: two big-endian numbers, then the block. Fewer than eight
    /// bytes is a protocol violation.
    pub fn parse(payload: &[u8]) -> (r: Result<Piece, PeerError>)
        ensures
            match r {
                Ok(p) => payload@.len() >= 8 && p.index == be32(payload@.subrange(0, 4))
                    && p.begin == be32(payload@.subrange(4, 8)) && p.block@ == payload@.subrange(
                    8,
                    payload@.len() as int,
                ),
                Err(e) => payload@.len() < 8 && e == PeerError::ProtocolViolation,
            },
    {
        if payload.len() < 8 {
            return Err(PeerError::ProtocolViolation);
        }
        let index = read_be32(payload, 0);
        let begin = read_be32(payload, 4);
        let mut block: Vec<u8> = Vec::new();
        let mut i: usize = 8;
        while i < payload.len()
            invariant
                8 <= i <= payload.len(),
                block@ == payload@.subrange(8, i as int),
            decreases payload.len() - i,
        {
            block.push(payload[i]);
            i = i + 1;
            assert(block@ =~= payload@.subrange(8, i as int));
        }
        Ok(Piece { index, begin, block })
    }
}

} // verus!
