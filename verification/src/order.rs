//! The order by which tree nodes are sorted and searched.

use crate::grid::TilePos;
use core::cmp::Ordering;
use vstd::prelude::*;
use vstd::std_specs::cmp::PartialEqSpec;
use vstd::std_specs::cmp::PartialOrdSpec;
use vstd::std_specs::cmp::PartialOrdSpecImpl;

verus! {

/// `a` comes strictly before `b`.
pub open spec fn precedes<T: PartialOrd>(a: T, b: T) -> bool {
    a.partial_cmp_spec(&b) == Some(Ordering::Less)
}

/// The comparison of `T` is a strict total order on its values: of two
/// distinct values exactly one precedes the other, no value precedes itself,
/// and the relation is transitive.
pub open spec fn strict_total_order<T: PartialOrd>() -> bool {
    &&& T::obeys_partial_cmp_spec()
    &&& forall|a: T, b: T| #[trigger] precedes(a, b) ==> a != b && !precedes(b, a)
    &&& forall|a: T, b: T| a != b ==> #[trigger] precedes(a, b) || precedes(b, a)
    &&& forall|a: T, b: T, c: T|
        #[trigger] precedes(a, b) && #[trigger] precedes(b, c) ==> precedes(a, c)
}

/// Whether `a` comes strictly before `b`.
pub fn less<T: Ord>(a: &T, b: &T) -> (r: bool)
    ensures
        T::obeys_partial_cmp_spec() ==> r == precedes(*a, *b),
{
    *a < *b
}

impl PartialEq for TilePos {
    /// Two positions are equal when both coordinates are.
    fn eq(&self, other: &TilePos) -> (r: bool) {
        self.x == other.x && self.y == other.y
    }
}

impl vstd::std_specs::cmp::PartialEqSpecImpl for TilePos {
    open spec fn obeys_eq_spec() -> bool {
        true
    }

    open spec fn eq_spec(&self, other: &TilePos) -> bool {
        self.x == other.x && self.y == other.y
    }
}

/// Two positions compare equal exactly when they are the same position.
pub proof fn lemma_tile_pos_eq()
    ensures
        TilePos::obeys_eq_spec(),
        forall|a: TilePos, b: TilePos| #[trigger] a.eq_spec(&b) <==> a == b,
{
}

impl PartialOrd for TilePos {
    /// Orders positions by column, then by row.
    fn partial_cmp(&self, other: &TilePos) -> (r: Option<Ordering>) {
        if self.x < other.x {
            Some(Ordering::Less)
        } else if self.x > other.x {
            Some(Ordering::Greater)
        } else if self.y < other.y {
            Some(Ordering::Less)
        } else if self.y > other.y {
            Some(Ordering::Greater)
        } else {
            Some(Ordering::Equal)
        }
    }
}

impl PartialOrdSpecImpl for TilePos {
    open spec fn obeys_partial_cmp_spec() -> bool {
        true
    }

    open spec fn partial_cmp_spec(&self, other: &TilePos) -> Option<Ordering> {
        if self.x < other.x {
            Some(Ordering::Less)
        } else if self.x > other.x {
            Some(Ordering::Greater)
        } else if self.y < other.y {
            Some(Ordering::Less)
        } else if self.y > other.y {
            Some(Ordering::Greater)
        } else {
            Some(Ordering::Equal)
        }
    }
}

/// One position precedes another when its column is smaller, or the columns
/// are equal and its row is smaller.
pub proof fn lemma_tile_pos_precedes(a: TilePos, b: TilePos)
    ensures
        precedes(a, b) <==> (a.x < b.x || (a.x == b.x && a.y < b.y)),
{
}

/// Positions are strictly and totally ordered.
pub proof fn lemma_tile_pos_order()
    ensures
        strict_total_order::<TilePos>(),
{
    assert forall|a: TilePos, b: TilePos| #[trigger] precedes(a, b) implies a != b && !precedes(
        b,
        a,
    ) by {
        lemma_tile_pos_precedes(a, b);
        lemma_tile_pos_precedes(b, a);
    }
    assert forall|a: TilePos, b: TilePos| a != b implies #[trigger] precedes(a, b) || precedes(
        b,
        a,
    ) by {
        lemma_tile_pos_precedes(a, b);
        lemma_tile_pos_precedes(b, a);
    }
    assert forall|a: TilePos, b: TilePos, c: TilePos|
        #[trigger] precedes(a, b) && #[trigger] precedes(b, c) implies precedes(a, c) by {
        lemma_tile_pos_precedes(a, b);
        lemma_tile_pos_precedes(b, c);
        lemma_tile_pos_precedes(a, c);
    }
}

} // verus!
