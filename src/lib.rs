use vstd::prelude::*;

pub mod bencode;
pub mod download;
pub mod keys;
pub mod peer;
pub mod piece;
pub mod text;
pub mod torrent;
pub mod tracker;

verus! {

} // verus!
