use vstd::prelude::*;

use crate::peer::{
    be32, frame_model, request_wire, Frame, Message, MessageTag, Piece, PeerError, Request,
};
use crate::piece::{
    block_count, block_size, chunk_count, chunk_size, lemma_chunk_count_bounds, lemma_chunks_tile,
};
use crate::torrent::{sha1_digest, sha1_of};

verus! {

/// Where the download of one piece stands.
#[derive(Debug, Clone, Copy, PartialEq, Eq, Structural)]
pub enum Phase {
    /// The peer's first message must be its bitfield.
    AwaitBitfield,
    /// Interest was declared; requests wait for an unchoke.
    AwaitUnchoke,
    /// A block was requested; its piece message is awaited.
    AwaitBlock,
    /// The piece was handed out, or found corrupt.
    Done,
}

/// The download of one piece over one connection, one block request at a time.
pub struct Download {
    pub piece_index: u32,
    pub piece_size: usize,
    pub block_max: usize,
    pub expected_hash: [u8; 20],
    /// The block requested last, while a block is awaited.
    pub next_block: usize,
    /// The blocks received so far, in offset order.
    pub buffer: Vec<u8>,
    pub phase: Phase,
}

pub struct DownloadModel {
    pub piece_index: int,
    pub piece_size: int,
    pub block_max: int,
    pub expected_hash: Seq<u8>,
    pub next_block: int,
    pub buffer: Seq<u8>,
    pub phase: Phase,
}

impl View for Download {
    type V = DownloadModel;

    open spec fn view(&self) -> DownloadModel {
        DownloadModel {
            piece_index: self.piece_index as int,
            piece_size: self.piece_size as int,
            block_max: self.block_max as int,
            expected_hash: self.expected_hash@,
            next_block: self.next_block as int,
            buffer: self.buffer@,
            phase: self.phase,
        }
    }
}

/// What the connection should do next.
pub enum Step {
    /// Send this message, then read the next frame.
    Send(Message),
    /// Read the next frame.
    Wait,
    /// The verified piece.
    Complete(Vec<u8>),
}

pub enum StepModel {
    Send(MessageTag, Seq<u8>),
    Wait,
    Complete(Seq<u8>),
}

pub open spec fn step_model(s: Step) -> StepModel {
    match s {
        Step::Send(m) => StepModel::Send(m.tag, m.payload@),
        Step::Wait => StepModel::Wait,
        Step::Complete(b) => StepModel::Complete(b@),
    }
}

pub open spec fn outcome_model(r: Result<Step, PeerError>) -> Result<StepModel, PeerError> {
    match r {
        Ok(s) => Ok(step_model(s)),
        Err(e) => Err(e),
    }
}

/// The payload of the request for block `k`.
pub open spec fn request_for(d: DownloadModel, k: int) -> Seq<u8> {
    request_wire(d.piece_index, k * d.block_max, chunk_size(d.piece_size, d.block_max, k))
}

/// Whether a piece payload carries exactly the block that was requested last.
pub open spec fn is_expected_block(d: DownloadModel, p: Seq<u8>) -> bool {
    &&& p.len() >= 8
    &&& be32(p.subrange(0, 4)) == d.piece_index
    &&& be32(p.subrange(4, 8)) == d.next_block * d.block_max
    &&& p.len() - 8 == chunk_size(d.piece_size, d.block_max, d.next_block)
}

/// The next state and step after frame `f` (`None` for a keep-alive).
pub open spec fn transition(d: DownloadModel, f: Option<(MessageTag, Seq<u8>)>) -> (DownloadModel, Result<StepModel, PeerError>) {
    match f {
        None => (d, Ok(StepModel::Wait)),
        Some((t, p)) => match d.phase {
            Phase::AwaitBitfield => if t == MessageTag::Bitfield {
                (
                    DownloadModel { phase: Phase::AwaitUnchoke, ..d },
                    Ok(StepModel::Send(MessageTag::Interested, Seq::empty())),
                )
            } else {
                (d, Err(PeerError::ProtocolViolation))
            },
            Phase::AwaitUnchoke => if t == MessageTag::Unchoke && p.len() == 0 {
                (
                    DownloadModel { phase: Phase::AwaitBlock, next_block: 0, ..d },
                    Ok(StepModel::Send(MessageTag::Request, request_for(d, 0))),
                )
            } else if t == MessageTag::Unchoke || t == MessageTag::Choke {
                (d, Err(PeerError::ProtocolViolation))
            } else {
                (d, Ok(StepModel::Wait))
            },
            Phase::AwaitBlock => if t == MessageTag::Piece && is_expected_block(d, p) {
                let buf = d.buffer + p.subrange(8, p.len() as int);
                let k = d.next_block + 1;
                if k == chunk_count(d.piece_size, d.block_max) {
                    let done = DownloadModel {
                        phase: Phase::Done,
                        next_block: k,
                        buffer: Seq::empty(),
                        ..d
                    };
                    if sha1_of(buf) == d.expected_hash {
                        (done, Ok(StepModel::Complete(buf)))
                    } else {
                        (done, Err(PeerError::CorruptPiece))
                    }
                } else {
                    (
                        DownloadModel { next_block: k, buffer: buf, ..d },
                        Ok(StepModel::Send(MessageTag::Request, request_for(d, k))),
                    )
                }
            } else {
                (d, Err(PeerError::ProtocolViolation))
            },
            Phase::Done => (d, Err(PeerError::ProtocolViolation)),
        },
    }
}

fn append_bytes(buf: &mut Vec<u8>, more: &Vec<u8>)
    ensures
        final(buf)@ == old(buf)@ + more@,
{
    let mut i: usize = 0;
    while i < more.len()
        invariant
            i <= more.len(),
            buf@ == old(buf)@ + more@.take(i as int),
        decreases more.len() - i,
    {
        buf.push(more[i]);
        i = i + 1;
        assert(buf@ =~= old(buf)@ + more@.take(i as int));
    }
    assert(more@.take(more.len() as int) =~= more@);
}

fn same_hash(a: &[u8; 20], b: &[u8; 20]) -> (r: bool)
    ensures
        r == (a@ == b@),
{
    let mut i: usize = 0;
    while i < 20
        invariant
            i <= 20,
            forall|j: int| 0 <= j < i ==> a@[j] == b@[j],
        decreases 20 - i,
    {
        if a[i] != b[i] {
            return false;
        }
        i = i + 1;
    }
    assert(a@ =~= b@);
    true
}

/// The verdict on an assembled piece, given its digest: the piece itself where the
/// digest is the expected hash, else `CorruptPiece`.
pub fn verify_piece(digest: &[u8; 20], expected: &[u8; 20], data: Vec<u8>) -> (r: Result<Vec<u8>, PeerError>)
    ensures
        digest@ == expected@ ==> r == Ok::<Vec<u8>, PeerError>(data),
        digest@ != expected@ ==> r == Err::<Vec<u8>, PeerError>(PeerError::CorruptPiece),
{
    if same_hash(digest, expected) {
        Ok(data)
    } else {
        Err(PeerError::CorruptPiece)
    }
}

/// A piece message whose piece index or offset is not the one requested is refused with
/// `ProtocolViolation`, and the state, its buffer included, stays as it was.
pub proof fn lemma_mismatched_block_refused(d: DownloadModel, p: Seq<u8>)
    requires
        d.phase == Phase::AwaitBlock,
        p.len() >= 8,
        be32(p.subrange(0, 4)) != d.piece_index || be32(p.subrange(4, 8)) != d.next_block * d.block_max,
    ensures
        transition(d, Some((MessageTag::Piece, p))) == (d, Err::<StepModel, PeerError>(PeerError::ProtocolViolation)),
{
}

impl Download {
    /// Sizes fit the wire and the state agrees with the phase.
    pub open spec fn well_formed(&self) -> bool {
        &&& 0 < self.piece_size < 0x1_0000_0000
        &&& self.block_max > 0
        &&& match self.phase {
            Phase::AwaitBitfield | Phase::AwaitUnchoke => self.next_block == 0 && self.buffer@.len()
                == 0,
            Phase::AwaitBlock => self.next_block < chunk_count(
                self.piece_size as int,
                self.block_max as int,
            ) && self.buffer@.len() == self.next_block * self.block_max,
            Phase::Done => true,
        }
    }

    /// Starts the download of piece `piece_index`, of `piece_size` bytes, in blocks of
    /// at most `block_max` bytes, to be checked against `expected_hash`.
    pub fn new(piece_index: u32, piece_size: usize, block_max: usize, expected_hash: [u8; 20]) -> (r: Download)
        requires
            0 < piece_size < 0x1_0000_0000,
            block_max > 0,
        ensures
            r.well_formed(),
            r@ == (DownloadModel {
                piece_index: piece_index as int,
                piece_size: piece_size as int,
                block_max: block_max as int,
                expected_hash: expected_hash@,
                next_block: 0,
                buffer: Seq::empty(),
                phase: Phase::AwaitBitfield,
            }),
    {
        let r = Download {
            piece_index,
            piece_size,
            block_max,
            expected_hash,
            next_block: 0,
            buffer: Vec::new(),
            phase: Phase::AwaitBitfield,
        };
        assert(r.buffer@ =~= Seq::<u8>::empty());
        r
    }

    fn request(&self, k: usize) -> (r: Message)
        requires
            0 < self.piece_size < 0x1_0000_0000,
            self.block_max > 0,
            k < chunk_count(self.piece_size as int, self.block_max as int),
        ensures
            r.tag == MessageTag::Request,
            r.payload@ == request_for(self@, k as int),
    {
        proof {
            lemma_chunks_tile(self.piece_size as int, self.block_max as int, k as int);
        }
        let size = block_size(self.piece_size, self.block_max, k);
        let begin = k * self.block_max;
        let req = Request::new(self.piece_index, begin as u32, size as u32);
        Message { tag: MessageTag::Request, payload: req.to_bytes() }
    }

    /// Takes the next frame from the peer: the state moves on and the step says what to
    /// send, or hands out the verified piece. A block that is not the one requested is
    /// refused and leaves the state as it was.
    pub fn on_frame(&mut self, f: Frame) -> (r: Result<Step, PeerError>)
        requires
            old(self).well_formed(),
        ensures
            final(self).well_formed(),
            (final(self)@, outcome_model(r)) == transition(old(self)@, frame_model(f)),
    {
        let m = match f {
            Frame::KeepAlive => {
                return Ok(Step::Wait);
            },
            Frame::Message(m) => m,
        };
        match self.phase {
            Phase::AwaitBitfield => {
                if m.tag == MessageTag::Bitfield {
                    self.phase = Phase::AwaitUnchoke;
                    let r = Ok(Step::Send(Message { tag: MessageTag::Interested, payload: Vec::new() }));
                    assert(outcome_model(r) == Ok::<StepModel, PeerError>(StepModel::Send(MessageTag::Interested, Seq::empty())));
                    r
                } else {
                    Err(PeerError::ProtocolViolation)
                }
            },
            Phase::AwaitUnchoke => {
                if m.tag == MessageTag::Unchoke && m.payload.len() == 0 {
                    proof {
                        lemma_chunk_count_bounds(self.piece_size as int, self.block_max as int);
                    }
                    let msg = self.request(0);
                    self.phase = Phase::AwaitBlock;
                    self.next_block = 0;
                    Ok(Step::Send(msg))
                } else if m.tag == MessageTag::Unchoke || m.tag == MessageTag::Choke {
                    Err(PeerError::ProtocolViolation)
                } else {
                    Ok(Step::Wait)
                }
            },
            Phase::AwaitBlock => self.on_block(m),
            Phase::Done => Err(PeerError::ProtocolViolation),
        }
    }

    fn on_block(&mut self, m: Message) -> (r: Result<Step, PeerError>)
        requires
            old(self).well_formed(),
            old(self).phase == Phase::AwaitBlock,
        ensures
            final(self).well_formed(),
            (final(self)@, outcome_model(r)) == transition(old(self)@, Some((m.tag, m.payload@))),
    {
        if m.tag != MessageTag::Piece {
            return Err(PeerError::ProtocolViolation);
        }
        let piece = match Piece::parse(m.payload.as_slice()) {
            Ok(p) => p,
            Err(e) => {
                return Err(e);
            },
        };
        let size = block_size(self.piece_size, self.block_max, self.next_block);
        proof {
            lemma_chunk_count_bounds(self.piece_size as int, self.block_max as int);
            lemma_chunks_tile(self.piece_size as int, self.block_max as int, self.next_block as int);
        }
        let begin = self.next_block * self.block_max;
        if piece.index != self.piece_index || piece.begin as usize != begin || piece.block.len() != size {
            return Err(PeerError::ProtocolViolation);
        }
        append_bytes(&mut self.buffer, &piece.block);
        let k = self.next_block + 1;
        let n = block_count(self.piece_size, self.block_max);
        if k == n {
            let digest = sha1_digest(self.buffer.as_slice());
            let mut out: Vec<u8> = Vec::new();
            std::mem::swap(&mut self.buffer, &mut out);
            self.next_block = k;
            self.phase = Phase::Done;
            match verify_piece(&digest, &self.expected_hash, out) {
                Ok(data) => Ok(Step::Complete(data)),
                Err(e) => Err(e),
            }
        } else {
            proof {
                assert(size == self.block_max);
                assert(k * self.block_max == self.next_block * self.block_max + self.block_max) by (nonlinear_arith)
                    requires k == self.next_block + 1;
            }
            self.next_block = k;
            let msg = self.request(k);
            Ok(Step::Send(msg))
        }
    }
}

} // verus!
