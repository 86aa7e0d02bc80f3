use vstd::prelude::*;

verus! {

/// The contents of one cell of a level, as a set of flags.
#[derive(Clone, Copy, PartialEq, Eq, PartialOrd, Ord, Hash, Debug, Structural)]
pub struct Tile(pub u8);

/// Whether tile `t` holds flag `f`.
pub open spec fn has_flag(t: Tile, f: u8) -> bool {
    t.0 & f != 0
}

pub const VOID: u8 = 1;
pub const FLOOR: u8 = 2;
pub const WALL: u8 = 4;
pub const CRATE: u8 = 8;
pub const TARGET: u8 = 16;
pub const PLAYER: u8 = 32;
pub const DEADLOCK: u8 = 64;
pub const TUNNEL: u8 = 128;

/// Setting a flag adds that flag and keeps the others.
pub proof fn lemma_insert_flag(t: u8, f: u8, g: u8)
    by (bit_vector)
    requires
        f == 1 || f == 2 || f == 4 || f == 8 || f == 16 || f == 32 || f == 64 || f == 128,
        g == 1 || g == 2 || g == 4 || g == 8 || g == 16 || g == 32 || g == 64 || g == 128,
    ensures
        ((t | f) & g != 0) == (f == g || t & g != 0),
{
}

/// Clearing a flag removes that flag and keeps the others.
pub proof fn lemma_remove_flag(t: u8, f: u8, g: u8)
    by (bit_vector)
    requires
        f == 1 || f == 2 || f == 4 || f == 8 || f == 16 || f == 32 || f == 64 || f == 128,
        g == 1 || g == 2 || g == 4 || g == 8 || g == 16 || g == 32 || g == 64 || g == 128,
    ensures
        ((t & !f) & g != 0) == (f != g && t & g != 0),
{
}

/// Clearing a flag that is set and setting it again gives the tile back.
pub proof fn lemma_remove_then_insert(t: u8, f: u8)
    by (bit_vector)
    requires
        f == 1 || f == 2 || f == 4 || f == 8 || f == 16 || f == 32 || f == 64 || f == 128,
        t & f != 0,
    ensures
        ((t & !f) | f) == t,
{
}

/// Setting a flag that is clear and clearing it again gives the tile back.
pub proof fn lemma_insert_then_remove(t: u8, f: u8)
    by (bit_vector)
    requires
        t & f == 0,
    ensures
        ((t | f) & !f) == t,
{
}

impl Tile {
    /// No flag.
    pub fn empty() -> (r: Tile)
        ensures
            r.0 == 0,
    {
        Tile(0)
    }

    /// The single flag with bits `f`.
    pub fn flag(f: u8) -> (r: Tile)
        ensures
            r.0 == f,
    {
        Tile(f)
    }

    /// The raw bits.
    pub fn bits(&self) -> (r: u8)
        ensures
            r == self.0,
    {
        self.0
    }

    /// Whether no flag is set.
    pub fn is_empty(&self) -> (r: bool)
        ensures
            r == (self.0 == 0),
    {
        self.0 == 0
    }

    /// Whether every flag of `other` is set.
    pub fn contains(&self, other: Tile) -> (r: bool)
        ensures
            r == (self.0 & other.0 == other.0),
    {
        self.0 & other.0 == other.0
    }

    /// Whether some flag of `other` is set.
    pub fn intersects(&self, other: Tile) -> (r: bool)
        ensures
            r == (self.0 & other.0 != 0),
    {
        self.0 & other.0 != 0
    }

    /// The flags of both tiles.
    pub fn union(&self, other: Tile) -> (r: Tile)
        ensures
            r.0 == self.0 | other.0,
    {
        Tile(self.0 | other.0)
    }

    /// Sets the flags of `other`.
    pub fn insert(&mut self, other: Tile)
        ensures
            final(self).0 == old(self).0 | other.0,
    {
        self.0 = self.0 | other.0;
    }

    /// Clears the flags of `other`.
    pub fn remove(&mut self, other: Tile)
        ensures
            final(self).0 == old(self).0 & !other.0,
    {
        self.0 = self.0 & !other.0;
    }
}

} // verus!
