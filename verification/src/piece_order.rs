//! Pieces compare by the difference to their right neighbour alone.

use vstd::prelude::*;

use core::cmp::Ordering;

use crate::piece::Piece;
use vstd::std_specs::cmp::{PartialEqSpec, PartialOrdSpec};

verus! {

impl PartialEq for Piece {
    fn eq(&self, other: &Self) -> (r: bool) {
        self.right_neighbor_diff == other.right_neighbor_diff
    }
}

impl vstd::std_specs::cmp::PartialEqSpecImpl for Piece {
    open spec fn obeys_eq_spec() -> bool {
        true
    }

    open spec fn eq_spec(&self, other: &Piece) -> bool {
        self.right_neighbor_diff == other.right_neighbor_diff
    }
}

impl Eq for Piece {
}

impl PartialOrd for Piece {
    fn partial_cmp(&self, other: &Self) -> (r: Option<Ordering>) {
        if self.right_neighbor_diff < other.right_neighbor_diff {
            Some(Ordering::Less)
        } else if self.right_neighbor_diff == other.right_neighbor_diff {
            Some(Ordering::Equal)
        } else {
            Some(Ordering::Greater)
        }
    }
}

impl vstd::std_specs::cmp::PartialOrdSpecImpl for Piece {
    open spec fn obeys_partial_cmp_spec() -> bool {
        true
    }

    open spec fn partial_cmp_spec(&self, other: &Piece) -> Option<Ordering> {
        if self.right_neighbor_diff < other.right_neighbor_diff {
            Some(Ordering::Less)
        } else if self.right_neighbor_diff == other.right_neighbor_diff {
            Some(Ordering::Equal)
        } else {
            Some(Ordering::Greater)
        }
    }
}

/// Two pieces are equal exactly when the ordering places neither before the other.
pub proof fn lemma_eq_agrees_with_order(a: Piece, b: Piece)
    ensures
        a.eq_spec(&b) <==> a.partial_cmp_spec(&b) == Some(Ordering::Equal),
        a.partial_cmp_spec(&b) is Some,
{
}

} // verus!
