use vstd::prelude::*;
use crate::tile::Tile;

verus! {

/// The SipHash-2-4 value (keys zero) of a list of tiles: of the number of
/// tiles as eight little-endian bytes, then one byte per tile.
pub uninterp spec fn tiles_sip_hash(tiles: Seq<Tile>) -> u64;

/// Feeds to a `siphasher::sip::SipHasher24` made by `new` the number of tiles
/// (`write_u64`) and the byte of each tile (`write`), and returns `finish`.
/// Claimed of it: the result is a function of the list. Nothing in what is
/// fed depends on the width of `usize`, so the value is the same on every
/// machine.
#[verifier::external_body]
pub(crate) fn hash_tiles(tiles: &Vec<Tile>) -> (r: u64)
    ensures
        r == tiles_sip_hash(tiles@),
{
    let bytes: Vec<u8> = tiles.iter().map(|t| t.0).collect();
    let mut hasher = siphasher::sip::SipHasher24::new();
    std::hash::Hasher::write_u64(&mut hasher, bytes.len() as u64);
    std::hash::Hasher::write(&mut hasher, &bytes);
    std::hash::Hasher::finish(&hasher)
}

} // verus!
