//! The per-digit view of the board.
//!
//! A `Layer` belongs to one digit value 1..=9. It records the positions where
//! that digit has been confirmed (`indices`, in discovery order) and a mask of
//! the positions the digit can no longer occupy (`mask`). Confirming a
//! placement blocks the whole row, column and 3x3 block of the placed
//! position, the position itself included.

use crate::mask::{cell_shape_bit, cell_start, col_of, col_shape_bit, peers, row_shape_bit, row_start, Mask};
use vstd::prelude::*;

verus! {

/// Fault: a constraint group saw two or more confirmed placements of the
/// same digit. This never happens when the initial grid is consistent.
#[derive(Debug)]
pub struct CorruptLayerError {
    /// The digit whose layer is corrupt.
    pub value: u32,
}

/// One digit's confirmed placements and blocked positions.
pub struct Layer {
    /// Positions where this digit is confirmed, in discovery order.
    pub indices: Vec<u32>,
    /// Positions this digit can no longer occupy.
    pub mask: Mask,
    /// The digit value, 1..=9.
    pub value: u32,
}

impl Layer {
    /// Validity: positions are on the board, and every confirmed placement
    /// has blocked its full row, column and block.
    pub open spec fn wf(&self) -> bool {
        &&& self.mask.wf()
        &&& 1 <= self.value <= 9
        &&& forall|k: int| 0 <= k < self.indices@.len() ==> #[trigger] self.indices@[k] < 81
        &&& forall|k: int, j: int|
            0 <= k < self.indices@.len() && 0 <= j < 81 && #[trigger] peers(
                self.indices@[k] as int,
                j,
            ) ==> self.mask@[j]
    }

    /// An empty layer for one digit: nothing placed, nothing blocked.
    pub fn new(value: u32) -> (l: Layer)
        requires
            1 <= value <= 9,
        ensures
            l.wf(),
            l.value == value,
            l.indices@.len() == 0,
            forall|j: int| 0 <= j < 81 ==> !l.mask@[j],
    {
        Layer { indices: Vec::new(), mask: Mask::new(), value }
    }

    /// Marks one position alone as blocked for this digit (some other digit
    /// occupies it).
    pub fn blot(&mut self, index: u32)
        requires
            old(self).wf(),
            index < 81,
        ensures
            final(self).wf(),
            final(self).value == old(self).value,
            final(self).indices == old(self).indices,
            final(self).mask@ == old(self).mask@.update(index as int, true),
    {
        self.mask.set_bit(index as usize);
    }

    /// Confirms this digit at `index`: blocks the row, column and block that
    /// hold `index`, and appends `index` to the confirmed placements.
    pub fn occupy(&mut self, index: u32)
        requires
            old(self).wf(),
            index < 81,
        ensures
            final(self).wf(),
            final(self).value == old(self).value,
            final(self).indices@ == old(self).indices@.push(index),
            forall|j: int|
                0 <= j < 81 ==> #[trigger] final(self).mask@[j] == (old(self).mask@[j] || peers(
                    index as int,
                    j,
                )),
    {
        let block_top: u32 = 27 * (index / 27) + 3 * ((index % 9) / 3);
        assert(block_top as int == cell_start(index as int));
        assert(block_top % 9 < 7) by {
            assert(block_top as int == 27 * ((index as int) / 27) + 3 * (((index as int) % 9)
                / 3));
        }
        let ghost m0 = self.mask@;
        let m = Mask::cell(block_top);
        self.mask.union(&m);
        let ghost m1 = self.mask@;
        let m = Mask::row(9 * (index / 9));
        self.mask.union(&m);
        let ghost m2 = self.mask@;
        let m = Mask::column(index % 9);
        self.mask.union(&m);
        self.indices.push(index);
        assert forall|j: int| 0 <= j < 81 implies self.mask@[j] == (old(self).mask@[j] || peers(
            index as int,
            j,
        )) by {
            assert(9 * ((index as int) / 9) == row_start(index as int));
            assert(m1[j] == (m0[j] || cell_shape_bit(cell_start(index as int), j)));
            assert(m2[j] == (m1[j] || row_shape_bit(row_start(index as int), j)));
            assert(self.mask@[j] == (m2[j] || col_shape_bit(col_of(index as int), j)));
        }
    }

    /// Whether all nine placements of this digit have been found.
    pub fn is_solved(&self) -> (r: bool)
        ensures
            r == (self.indices@.len() == 9),
    {
        self.indices.len() == 9
    }
}

} // verus!
