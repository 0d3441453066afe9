use vstd::prelude::*;

verus! {

pub open spec fn key_announce() -> Seq<u8> {
    seq![97u8, 110, 110, 111, 117, 110, 99, 101]
}

/// The key `announce`.
pub fn announce_key() -> (r: Vec<u8>)
    ensures
        r@ == key_announce(),
{
    let r = vec![97u8, 110, 110, 111, 117, 110, 99, 101];
    assert(r@ =~= key_announce());
    r
}

pub open spec fn key_info() -> Seq<u8> {
    seq![105u8, 110, 102, 111]
}

/// The key `info`.
pub fn info_key() -> (r: Vec<u8>)
    ensures
        r@ == key_info(),
{
    let r = vec![105u8, 110, 102, 111];
    assert(r@ =~= key_info());
    r
}

pub open spec fn key_name() -> Seq<u8> {
    seq![110u8, 97, 109, 101]
}

/// The key `name`.
pub fn name_key() -> (r: Vec<u8>)
    ensures
        r@ == key_name(),
{
    let r = vec![110u8, 97, 109, 101];
    assert(r@ =~= key_name());
    r
}

pub open spec fn key_piece_length() -> Seq<u8> {
    seq![112u8, 105, 101, 99, 101, 32, 108, 101, 110, 103, 116, 104]
}

/// The key `piece length`.
pub fn piece_length_key() -> (r: Vec<u8>)
    ensures
        r@ == key_piece_length(),
{
    let r = vec![112u8, 105, 101, 99, 101, 32, 108, 101, 110, 103, 116, 104];
    assert(r@ =~= key_piece_length());
    r
}

pub open spec fn key_pieces() -> Seq<u8> {
    seq![112u8, 105, 101, 99, 101, 115]
}

/// The key `pieces`.
pub fn pieces_key() -> (r: Vec<u8>)
    ensures
        r@ == key_pieces(),
{
    let r = vec![112u8, 105, 101, 99, 101, 115];
    assert(r@ =~= key_pieces());
    r
}

pub open spec fn key_length() -> Seq<u8> {
    seq![108u8, 101, 110, 103, 116, 104]
}

/// The key `length`.
pub fn length_key() -> (r: Vec<u8>)
    ensures
        r@ == key_length(),
{
    let r = vec![108u8, 101, 110, 103, 116, 104];
    assert(r@ =~= key_length());
    r
}

pub open spec fn key_files() -> Seq<u8> {
    seq![102u8, 105, 108, 101, 115]
}

/// The key `files`.
pub fn files_key() -> (r: Vec<u8>)
    ensures
        r@ == key_files(),
{
    let r = vec![102u8, 105, 108, 101, 115];
    assert(r@ =~= key_files());
    r
}

pub open spec fn key_path() -> Seq<u8> {
    seq![112u8, 97, 116, 104]
}

/// The key `path`.
pub fn path_key() -> (r: Vec<u8>)
    ensures
        r@ == key_path(),
{
    let r = vec![112u8, 97, 116, 104];
    assert(r@ =~= key_path());
    r
}

pub open spec fn key_interval() -> Seq<u8> {
    seq![105u8, 110, 116, 101, 114, 118, 97, 108]
}

/// The key `interval`.
pub fn interval_key() -> (r: Vec<u8>)
    ensures
        r@ == key_interval(),
{
    let r = vec![105u8, 110, 116, 101, 114, 118, 97, 108];
    assert(r@ =~= key_interval());
    r
}

pub open spec fn key_peers() -> Seq<u8> {
    seq![112u8, 101, 101, 114, 115]
}

/// The key `peers`.
pub fn peers_key() -> (r: Vec<u8>)
    ensures
        r@ == key_peers(),
{
    let r = vec![112u8, 101, 101, 114, 115];
    assert(r@ =~= key_peers());
    r
}

} // verus!
