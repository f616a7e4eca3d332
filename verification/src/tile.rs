//! The packed one-byte state of a tile.

use crate::grid::Direction;
use crate::random::random_u8;
use turborand::rng::AtomicRng;
use vstd::prelude::*;

verus! {

/// A tile: the low four bits are the wall flags of the left, bottom, right and
/// top side (a set bit is a standing wall); the high four bits pick a
/// decoration variant.
#[derive(Debug, Clone, Copy, PartialEq, Eq, Structural)]
pub struct Tile(pub u8);

/// The wall flag of `side` in a tile's byte.
pub open spec fn wall_bit(side: Direction) -> u8 {
    match side {
        Direction::Top => 0b1000u8,
        Direction::Right => 0b0100u8,
        Direction::Bottom => 0b0010u8,
        Direction::Left => 0b0001u8,
    }
}

impl Tile {
    /// Fully closed stone tile.
    pub fn fully_closed() -> (r: Tile)
        ensures
            r == Tile(0b1111_1111),
    {
        Tile(0b1111_1111)
    }

    /// Fully open stone tile.
    pub fn fully_open() -> (r: Tile)
        ensures
            r == Tile(0),
    {
        Tile(0)
    }

    /// Grass: all four wall flags set, but not the fully closed byte.
    pub open spec fn grassy(self) -> bool {
        self.0 & 0b1111 == 0b1111 && self.0 != 0b1111_1111
    }

    /// The wall on `side` is down.
    pub open spec fn has_open(self, side: Direction) -> bool {
        !self.grassy() && self.0 & wall_bit(side) == 0
    }

    /// This tile with the wall on `side` taken down.
    pub open spec fn opened(self, side: Direction) -> Tile {
        Tile(self.0 & !wall_bit(side))
    }

    /// The grass tile with the given decoration variant.
    pub fn grass_variant(variant: u8) -> (r: Tile)
        requires
            variant < 15,
        ensures
            r == Tile(variant << 4 | 0b1111),
            r.grassy(),
            r.0 >> 4 == variant,
    {
        assert((variant << 4 | 0b1111) & 0b1111 == 0b1111 && (variant << 4 | 0b1111) != 0b1111_1111
            && (variant << 4 | 0b1111u8) >> 4 == variant) by (bit_vector)
            requires
                variant < 15,
        ;
        Tile(variant << 4 | 0b1111)
    }

    /// A grass tile with a random decoration variant.
    pub fn grass(rng: &AtomicRng) -> (r: Tile)
        ensures
            r.grassy(),
            r.0 >> 4 < 15,
            r == Tile((r.0 >> 4) << 4 | 0b1111),
    {
        Tile::grass_variant(random_u8(rng, 0, 0xf))
    }

    /// Open the given `side` of this tile.
    pub fn open(&mut self, side: Direction) -> (r: &mut Tile)
        ensures
            *r == old(self).opened(side),
            *final(self) == *final(r),
    {
        match side {
            Direction::Top => self.0 &= 0b1111_0111,
            Direction::Right => self.0 &= 0b1111_1011,
            Direction::Bottom => self.0 &= 0b1111_1101,
            Direction::Left => self.0 &= 0b1111_1110,
        }
        proof {
            let b = old(self).0;
            assert(b & 0b1111_0111u8 == b & !0b1000u8) by (bit_vector);
            assert(b & 0b1111_1011u8 == b & !0b0100u8) by (bit_vector);
            assert(b & 0b1111_1101u8 == b & !0b0010u8) by (bit_vector);
            assert(b & 0b1111_1110u8 == b & !0b0001u8) by (bit_vector);
        }
        self
    }

    /// Whether the given `side` of this tile is open.
    #[verifier::when_used_as_spec(has_open)]
    pub fn is_open(self, side: Direction) -> (r: bool)
        ensures
            r == self.has_open(side),
    {
        !self.is_grass() && match side {
            Direction::Top => self.0 & 0b1000 == 0,
            Direction::Right => self.0 & 0b0100 == 0,
            Direction::Bottom => self.0 & 0b0010 == 0,
            Direction::Left => self.0 & 0b0001 == 0,
        }
    }

    /// Whether the given `side` of this tile is closed.
    pub fn is_closed(self, side: Direction) -> (r: bool)
        ensures
            r == !self.has_open(side),
    {
        !self.is_open(side)
    }

    /// Whether this tile is grass.
    #[verifier::when_used_as_spec(grassy)]
    pub fn is_grass(self) -> (r: bool)
        ensures
            r == self.grassy(),
    {
        self.0 & 0b1111 == 0b1111 && self.0 != 0b1111_1111
    }
}

impl Default for Tile {
    /// The fully closed tile.
    fn default() -> (r: Tile)
        ensures
            r == Tile(0b1111_1111),
    {
        Tile(0b1111_1111)
    }
}

/// A side is open exactly when its wall flag is clear: a tile with a clear
/// flag is never grass.
pub proof fn lemma_open_is_clear_flag(tile: Tile, side: Direction)
    ensures
        tile.has_open(side) <==> tile.0 & wall_bit(side) == 0,
{
    let b = tile.0;
    let m = wall_bit(side);
    assert((m == 1 || m == 2 || m == 4 || m == 8) && b & m == 0 ==> b & 0b1111 != 0b1111)
        by (bit_vector);
}

/// The fully closed tile has no open side, and the fully open tile no closed
/// one.
pub proof fn lemma_closed_and_open(side: Direction)
    ensures
        !Tile(0b1111_1111).has_open(side),
        Tile(0).has_open(side),
{
    let m = wall_bit(side);
    lemma_open_is_clear_flag(Tile(0b1111_1111), side);
    lemma_open_is_clear_flag(Tile(0), side);
    assert((m == 1 || m == 2 || m == 4 || m == 8) ==> 0b1111_1111u8 & m != 0 && 0u8 & m == 0)
        by (bit_vector);
}

/// Taking a wall down opens that side, leaves the other three sides as they
/// were, and keeps the decoration bits.
pub proof fn lemma_opened(tile: Tile, side: Direction, other: Direction)
    ensures
        tile.opened(side).has_open(other) <==> (other == side || tile.has_open(other)),
        tile.opened(side).0 & 0b1111_0000 == tile.0 & 0b1111_0000,
{
    let b = tile.0;
    let m = wall_bit(side);
    let n = wall_bit(other);
    lemma_open_is_clear_flag(tile, other);
    lemma_open_is_clear_flag(tile.opened(side), other);
    assert((m == 1 || m == 2 || m == 4 || m == 8) && (n == 1 || n == 2 || n == 4 || n == 8) ==> ((b
        & !m) & n == 0 <==> (n == m || b & n == 0))) by (bit_vector);
    assert((m == 1 || m == 2 || m == 4 || m == 8) ==> (b & !m) & 0b1111_0000 == b & 0b1111_0000)
        by (bit_vector);
}

} // verus!
