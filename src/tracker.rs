use vstd::prelude::*;

use crate::bencode::{
    dec, dict_get, nat_text, write_nat, entries_model, lookup, Bencode, BencodeValue, DecodeError,
    decode_bencoded_value,
};
use crate::keys::{interval_key, key_interval, key_peers, peers_key};

verus! {

/// The lowercase hexadecimal digit for a value below 16.
pub open spec fn hex_digit(d: int) -> u8 {
    if d < 10 {
        (48 + d) as u8
    } else {
        (87 + d) as u8
    }
}

/// `%` and two lowercase hexadecimal digits for each byte.
pub open spec fn percent_encoded(b: Seq<u8>) -> Seq<u8>
    decreases b.len(),
{
    if b.len() == 0 {
        Seq::empty()
    } else {
        percent_encoded(b.drop_last()) + seq![37u8, hex_digit(b.last() as int / 16), hex_digit(b.last() as int % 16)]
    }
}

/// Relies on `hex::encode`: two lowercase hexadecimal digits for a byte, high half first.
#[verifier::external_body]
fn hex_byte(b: u8) -> (r: Vec<u8>)
    ensures
        r@ == seq![hex_digit(b as int / 16), hex_digit(b as int % 16)],
{
    hex::encode([b]).into_bytes()
}

/// Percent-encodes every byte of the info hash, for the tracker's query string.
pub fn urlencode(t: &[u8; 20]) -> (r: Vec<u8>)
    ensures
        r@ == percent_encoded(t@),
        r@.len() == 60,
{
    let mut out: Vec<u8> = Vec::new();
    let mut i: usize = 0;
    while i < 20
        invariant
            i <= 20,
            out@ == percent_encoded(t@.take(i as int)),
            out@.len() == 3 * i,
        decreases 20 - i,
    {
        let h = hex_byte(t[i]);
        out.push(37);
        out.push(h[0]);
        out.push(h[1]);
        assert(t@.take(i + 1).drop_last() =~= t@.take(i as int));
        i = i + 1;
        assert(out@ =~= percent_encoded(t@.take(i as int)));
    }
    assert(t@.take(20) =~= t@);
    out
}

/// A peer's IPv4 address and port.
#[derive(Debug, Clone, Copy, PartialEq, Eq)]
pub struct PeerAddress {
    pub ip: [u8; 4],
    pub port: u16,
}

/// What a tracker answered.
pub struct TrackerResponse {
    /// Seconds to wait before announcing again.
    pub interval: usize,
    pub peers: Vec<PeerAddress>,
}

/// Peers packed six bytes each: four address bytes, then a big-endian port.
pub open spec fn compact_peers(b: Seq<u8>) -> Seq<(Seq<u8>, int)> {
    Seq::new(
        (b.len() / 6) as nat,
        |i: int| (b.subrange(6 * i, 6 * i + 4), b[6 * i + 4] * 256 + b[6 * i + 5]),
    )
}

pub open spec fn peers_model(p: Seq<PeerAddress>) -> Seq<(Seq<u8>, int)> {
    p.map_values(|a: PeerAddress| (a.ip@, a.port as int))
}

/// The interval and the peers of a tracker's answer: a dictionary with an integer
/// `interval` that fits `usize` and a byte string `peers` whose length is a multiple of six.
pub open spec fn response_model(v: Bencode) -> Option<(int, Seq<(Seq<u8>, int)>)> {
    match v {
        Bencode::Dict(es) => match (lookup(es, key_interval()), lookup(es, key_peers())) {
            (Some(Bencode::Int(n)), Some(Bencode::Str(p))) => if 0 <= n <= usize::MAX && p.len()
                % 6 == 0 {
                Some((n, compact_peers(p)))
            } else {
                None
            },
            _ => None,
        },
        _ => None,
    }
}

/// Splits a compact peer list; its length must be a multiple of six.
pub fn decode_peers(b: &[u8]) -> (r: Option<Vec<PeerAddress>>)
    ensures
        match r {
            Some(p) => b@.len() % 6 == 0 && peers_model(p@) == compact_peers(b@),
            None => b@.len() % 6 != 0,
        },
{
    if b.len() % 6 != 0 {
        return None;
    }
    let n = b.len() / 6;
    let mut out: Vec<PeerAddress> = Vec::new();
    let mut i: usize = 0;
    while i < n
        invariant
            n == b.len() / 6,
            b@.len() % 6 == 0,
            i <= n,
            out@.len() == i,
            forall|j: int| 0 <= j < i ==> (#[trigger] out@[j]).ip@ == b@.subrange(6 * j, 6 * j + 4)
                && out@[j].port == b@[6 * j + 4] * 256 + b@[6 * j + 5],
        decreases n - i,
    {
        let at = 6 * i;
        let ip: [u8; 4] = [b[at], b[at + 1], b[at + 2], b[at + 3]];
        let port: u16 = (b[at + 4] as u16) * 256 + (b[at + 5] as u16);
        assert(ip@ =~= b@.subrange(6 * i as int, 6 * i as int + 4));
        out.push(PeerAddress { ip, port });
        i = i + 1;
    }
    assert(peers_model(out@) =~= compact_peers(b@));
    Some(out)
}

impl TrackerResponse {
    /// Reads a tracker's bencoded answer.
    pub fn parse(bytes: &[u8]) -> (r: Result<TrackerResponse, DecodeError>)
        ensures
            match dec(bytes@, 0) {
                Err(e) => r == Err::<TrackerResponse, DecodeError>(e),
                Ok((v, _)) => match r {
                    Ok(t) => response_model(v) == Some((t.interval as int, peers_model(t.peers@))),
                    Err(e) => response_model(v) is None && e == DecodeError::Malformed,
                },
            },
    {
        let v = match decode_bencoded_value(bytes) {
            Ok((v, _)) => v,
            Err(e) => {
                return Err(e);
            },
        };
        match &v {
            BencodeValue::Dict(es) => {
                let interval = dict_get(es, interval_key().as_slice());
                let peers = dict_get(es, peers_key().as_slice());
                match (interval, peers) {
                    (Some(BencodeValue::Integer(n)), Some(BencodeValue::Bytes(p))) => {
                        if *n < 0 || (*n as u64) > (usize::MAX as u64) {
                            return Err(DecodeError::Malformed);
                        }
                        match decode_peers(p.as_slice()) {
                            Some(list) => Ok(TrackerResponse { interval: *n as usize, peers: list }),
                            None => Err(DecodeError::Malformed),
                        }
                    },
                    _ => Err(DecodeError::Malformed),
                }
            },
            _ => Err(DecodeError::Malformed),
        }
    }
}


fn append(out: &mut Vec<u8>, more: &Vec<u8>)
    ensures
        final(out)@ == old(out)@ + more@,
{
    let mut i: usize = 0;
    while i < more.len()
        invariant
            i <= more.len(),
            out@ == old(out)@ + more@.take(i as int),
        decreases more.len() - i,
    {
        out.push(more[i]);
        i = i + 1;
        assert(out@ =~= old(out)@ + more@.take(i as int));
    }
    assert(more@.take(more.len() as int) =~= more@);
}

pub open spec fn field_peer_id() -> Seq<u8> {
    seq![112u8, 101, 101, 114, 95, 105, 100, 61]
}

fn push_field_peer_id(out: &mut Vec<u8>)
    ensures
        final(out)@ == old(out)@ + field_peer_id(),
{
    let lit: Vec<u8> = vec![112u8, 101, 101, 114, 95, 105, 100, 61];
    append(out, &lit);
    assert(lit@ =~= field_peer_id());
}

pub open spec fn field_port() -> Seq<u8> {
    seq![38u8, 112, 111, 114, 116, 61]
}

fn push_field_port(out: &mut Vec<u8>)
    ensures
        final(out)@ == old(out)@ + field_port(),
{
    let lit: Vec<u8> = vec![38u8, 112, 111, 114, 116, 61];
    append(out, &lit);
    assert(lit@ =~= field_port());
}

pub open spec fn field_uploaded() -> Seq<u8> {
    seq![38u8, 117, 112, 108, 111, 97, 100, 101, 100, 61]
}

fn push_field_uploaded(out: &mut Vec<u8>)
    ensures
        final(out)@ == old(out)@ + field_uploaded(),
{
    let lit: Vec<u8> = vec![38u8, 117, 112, 108, 111, 97, 100, 101, 100, 61];
    append(out, &lit);
    assert(lit@ =~= field_uploaded());
}

pub open spec fn field_downloaded() -> Seq<u8> {
    seq![38u8, 100, 111, 119, 110, 108, 111, 97, 100, 101, 100, 61]
}

fn push_field_downloaded(out: &mut Vec<u8>)
    ensures
        final(out)@ == old(out)@ + field_downloaded(),
{
    let lit: Vec<u8> = vec![38u8, 100, 111, 119, 110, 108, 111, 97, 100, 101, 100, 61];
    append(out, &lit);
    assert(lit@ =~= field_downloaded());
}

pub open spec fn field_left() -> Seq<u8> {
    seq![38u8, 108, 101, 102, 116, 61]
}

fn push_field_left(out: &mut Vec<u8>)
    ensures
        final(out)@ == old(out)@ + field_left(),
{
    let lit: Vec<u8> = vec![38u8, 108, 101, 102, 116, 61];
    append(out, &lit);
    assert(lit@ =~= field_left());
}

pub open spec fn field_compact() -> Seq<u8> {
    seq![38u8, 99, 111, 109, 112, 97, 99, 116, 61]
}

fn push_field_compact(out: &mut Vec<u8>)
    ensures
        final(out)@ == old(out)@ + field_compact(),
{
    let lit: Vec<u8> = vec![38u8, 99, 111, 109, 112, 97, 99, 116, 61];
    append(out, &lit);
    assert(lit@ =~= field_compact());
}

pub open spec fn field_info_hash() -> Seq<u8> {
    seq![38u8, 105, 110, 102, 111, 95, 104, 97, 115, 104, 61]
}

fn push_field_info_hash(out: &mut Vec<u8>)
    ensures
        final(out)@ == old(out)@ + field_info_hash(),
{
    let lit: Vec<u8> = vec![38u8, 105, 110, 102, 111, 95, 104, 97, 115, 104, 61];
    append(out, &lit);
    assert(lit@ =~= field_info_hash());
}

/// Percent-encodes every byte of `b` after what `out` holds.
fn push_percent_encoded(out: &mut Vec<u8>, b: &[u8; 20])
    ensures
        final(out)@ == old(out)@ + percent_encoded(b@),
{
    let e = urlencode(b);
    append(out, &e);
}

/// The fields of an announce to the tracker.
pub struct TrackerRequest {
    /// The client's 20-byte identifier.
    pub peer_id: [u8; 20],
    /// The port the client listens on.
    pub port: u16,
    pub uploaded: usize,
    pub downloaded: usize,
    /// Bytes still to download.
    pub left: usize,
    /// 1 asks for the compact peer list.
    pub compact: u8,
}

/// The query string of an announce: each field as `name=value`, joined by `&`, with
/// numbers in decimal and the peer id and info hash percent-encoded byte by byte.
pub open spec fn query_text(r: TrackerRequest, info_hash: Seq<u8>) -> Seq<u8> {
    field_peer_id() + percent_encoded(r.peer_id@) + field_port() + nat_text(r.port as nat)
        + field_uploaded() + nat_text(r.uploaded as nat) + field_downloaded() + nat_text(
        r.downloaded as nat,
    ) + field_left() + nat_text(r.left as nat) + field_compact() + nat_text(r.compact as nat)
        + field_info_hash() + percent_encoded(info_hash)
}

impl TrackerRequest {
    /// The query string that announces this request for the torrent `info_hash`.
    pub fn query(&self, info_hash: &[u8; 20]) -> (r: Vec<u8>)
        ensures
            r@ == query_text(*self, info_hash@),
    {
        let mut out: Vec<u8> = Vec::new();
        push_field_peer_id(&mut out);
        push_percent_encoded(&mut out, &self.peer_id);
        push_field_port(&mut out);
        write_nat(&mut out, self.port as u64);
        push_field_uploaded(&mut out);
        write_nat(&mut out, self.uploaded as u64);
        push_field_downloaded(&mut out);
        write_nat(&mut out, self.downloaded as u64);
        push_field_left(&mut out);
        write_nat(&mut out, self.left as u64);
        push_field_compact(&mut out);
        write_nat(&mut out, self.compact as u64);
        push_field_info_hash(&mut out);
        push_percent_encoded(&mut out, info_hash);
        assert(out@ =~= query_text(*self, info_hash@));
        out
    }
}

} // verus!
