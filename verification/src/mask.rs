//! An 81-bit set over board positions, stored in a `bitvec` bit-array.
//!
//! The board has 81 positions, indexed 0..80 row-major. A `Mask` answers,
//! for each position, a single yes/no question (is this position inside a
//! given row/column/block, or is it blocked for a given digit). The bits are
//! held in a `bitvec::array::BitArray` of three `u32` words; only the first
//! 81 bits are ever observed. Verus sees the mask through `mask_bits`, the
//! sequence of its first 81 bits, and through the contracts of the small
//! methods below, each of which performs one `bitvec` operation.

use vstd::prelude::*;

verus! {

/// A fixed 81-bit set over board positions.
#[verifier::external_body]
pub struct Mask {
    bits: bitvec::array::BitArray<[u32; 3], bitvec::order::Lsb0>,
}

/// The first 81 bits that a mask holds, in ascending position order.
pub uninterp spec fn mask_bits(m: Mask) -> Seq<bool>;

/// Start of the row that holds position `q`.
pub open spec fn row_start(q: int) -> int {
    9 * (q / 9)
}

/// Column (0..8) that holds position `q`.
pub open spec fn col_of(q: int) -> int {
    q % 9
}

/// Top-left position of the 3x3 block that holds position `q`.
pub open spec fn cell_start(q: int) -> int {
    27 * (q / 27) + 3 * ((q % 9) / 3)
}

/// Whether position `j` lies in the row that starts at `start`.
pub open spec fn row_shape_bit(start: int, j: int) -> bool {
    start <= j < start + 9
}

/// Whether position `j` lies in column `c`.
pub open spec fn col_shape_bit(c: int, j: int) -> bool {
    j % 9 == c
}

/// Whether position `j` lies in the 3-wide, 3-deep window whose top-left
/// position is `t`.
pub open spec fn cell_shape_bit(t: int, j: int) -> bool {
    t <= j && (j - t) % 9 < 3 && (j - t) / 9 < 3
}

/// Whether positions `q` and `j` share a row, a column, or a 3x3 block:
/// exactly the positions that a placement at `q` excludes for its digit.
pub open spec fn peers(q: int, j: int) -> bool {
    row_shape_bit(row_start(q), j) || col_shape_bit(col_of(q), j) || cell_shape_bit(
        cell_start(q),
        j,
    )
}

/// Number of `true` entries among `s[0]`, ..., `s[n - 1]`.
pub open spec fn count_true(s: Seq<bool>, n: int) -> int
    decreases n,
{
    if n <= 0 {
        0
    } else {
        count_true(s, n - 1) + if s[n - 1] { 1int } else { 0int }
    }
}

proof fn lemma_count_const_false(s: Seq<bool>, a: int, b: int)
    requires
        0 <= a <= b,
        forall|j: int| a <= j < b ==> !s[j],
    ensures
        count_true(s, b) == count_true(s, a),
    decreases b - a,
{
    if a < b {
        lemma_count_const_false(s, a, b - 1);
    }
}

proof fn lemma_count_const_true(s: Seq<bool>, a: int, b: int)
    requires
        0 <= a <= b,
        forall|j: int| a <= j < b ==> s[j],
    ensures
        count_true(s, b) == count_true(s, a) + (b - a),
    decreases b - a,
{
    if a < b {
        lemma_count_const_true(s, a, b - 1);
    }
}

proof fn lemma_count_single_true(s: Seq<bool>, a: int, b: int, p: int)
    requires
        0 <= a <= p < b,
        s[p],
        forall|j: int| a <= j < b && j != p ==> !s[j],
    ensures
        count_true(s, b) == count_true(s, a) + 1,
{
    lemma_count_const_false(s, a, p);
    lemma_count_const_false(s, p + 1, b);
}

/// A row shape sets exactly nine bits.
pub proof fn lemma_row_shape_count(s: Seq<bool>, start: int)
    requires
        0 <= start < 81,
        start % 9 == 0,
        forall|j: int| 0 <= j < 81 ==> s[j] == row_shape_bit(start, j),
    ensures
        count_true(s, 81) == 9,
{
    lemma_count_const_false(s, 0, start);
    lemma_count_const_true(s, start, start + 9);
    lemma_count_const_false(s, start + 9, 81);
}

/// A column shape sets exactly nine bits.
pub proof fn lemma_column_shape_count(s: Seq<bool>, c: int)
    requires
        0 <= c < 9,
        forall|j: int| 0 <= j < 81 ==> s[j] == col_shape_bit(c, j),
    ensures
        count_true(s, 81) == 9,
{
    lemma_column_shape_blocks(s, c, 9);
}

proof fn lemma_column_shape_blocks(s: Seq<bool>, c: int, k: int)
    requires
        0 <= c < 9,
        0 <= k <= 9,
        forall|j: int| 0 <= j < 81 ==> s[j] == col_shape_bit(c, j),
    ensures
        count_true(s, 9 * k) == k,
    decreases k,
{
    if k > 0 {
        lemma_column_shape_blocks(s, c, k - 1);
        assert forall|j: int| 9 * (k - 1) <= j < 9 * k implies s[j] == (j == 9 * (k - 1)
            + c) by {
            assert(j % 9 == j - 9 * (k - 1)) by (nonlinear_arith)
                requires
                    9 * (k - 1) <= j < 9 * k,
            ;
        }
        lemma_count_single_true(s, 9 * (k - 1), 9 * k, 9 * (k - 1) + c);
    }
}

/// A block shape sets exactly nine bits.
pub proof fn lemma_cell_shape_count(s: Seq<bool>, t: int)
    requires
        0 <= t <= 60,
        t % 9 < 7,
        forall|j: int| 0 <= j < 81 ==> s[j] == cell_shape_bit(t, j),
    ensures
        count_true(s, 81) == 9,
{
    assert forall|j: int| 0 <= j < 81 implies s[j] == (j - t == 0 || j - t == 1 || j - t == 2
        || j - t == 9 || j - t == 10 || j - t == 11 || j - t == 18 || j - t == 19 || j - t
        == 20) by {
        if t <= j {
            assert((j - t) == 9 * ((j - t) / 9) + (j - t) % 9) by (nonlinear_arith);
            assert(0 <= (j - t) % 9 < 9) by (nonlinear_arith)
                requires
                    j - t >= 0,
            ;
            assert((j - t) / 9 >= 0) by (nonlinear_arith)
                requires
                    j - t >= 0,
            ;
        }
    }
    lemma_count_const_false(s, 0, t);
    lemma_count_const_true(s, t, t + 3);
    lemma_count_const_false(s, t + 3, t + 9);
    lemma_count_const_true(s, t + 9, t + 12);
    lemma_count_const_false(s, t + 12, t + 18);
    lemma_count_const_true(s, t + 18, t + 21);
    lemma_count_const_false(s, t + 21, 81);
}

impl Mask {
    /// The bits of the mask, ascending by board position.
    pub open spec fn view(&self) -> Seq<bool> {
        mask_bits(*self)
    }

    /// The mask always exposes exactly the 81 board positions.
    pub open spec fn wf(&self) -> bool {
        self@.len() == 81
    }

    /// The all-zero mask. Relies on `bitvec::array::BitArray::ZERO`: a
    /// bit-array with every bit zero.
    #[verifier::external_body]
    pub fn new() -> (m: Mask)
        ensures
            mask_bits(m).len() == 81,
            forall|j: int| 0 <= j < 81 ==> !(#[trigger] mask_bits(m)[j]),
    {
        Mask { bits: bitvec::array::BitArray::ZERO }
    }

    /// Reads the bit for one board position. Relies on the index operator of
    /// `bitvec::slice::BitSlice`.
    #[verifier::external_body]
    pub fn bit(&self, i: usize) -> (r: bool)
        requires
            self.wf(),
            i < 81,
        ensures
            r == self@[i as int],
    {
        self.bits.as_bitslice()[i]
    }

    /// Sets the bit for one board position. Relies on
    /// `bitvec::slice::BitSlice::set`, which writes one bit.
    #[verifier::external_body]
    pub fn set_bit(&mut self, i: usize)
        requires
            old(self).wf(),
            i < 81,
        ensures
            final(self)@ == old(self)@.update(i as int, true),
    {
        self.bits.set(i, true);
    }

    /// In-place set union. Relies on `BitOrAssign` for
    /// `bitvec::slice::BitSlice`: bitwise OR, index by index.
    #[verifier::external_body]
    pub fn union(&mut self, other: &Mask)
        requires
            old(self).wf(),
            other.wf(),
        ensures
            final(self).wf(),
            forall|j: int| 0 <= j < 81 ==> #[trigger] final(self)@[j] == (old(self)@[j] || other@[j]),
    {
        *self.bits.as_mut_bitslice() |= other.bits.as_bitslice();
    }

    /// In-place set intersection. Relies on `BitAndAssign` for
    /// `bitvec::slice::BitSlice`: bitwise AND, index by index.
    #[verifier::external_body]
    pub fn intersect(&mut self, other: &Mask)
        requires
            old(self).wf(),
            other.wf(),
        ensures
            final(self).wf(),
            forall|j: int| 0 <= j < 81 ==> #[trigger] final(self)@[j] == (old(self)@[j] && other@[j]),
    {
        *self.bits.as_mut_bitslice() &= other.bits.as_bitslice();
    }

    /// The mask of the 3x3 block whose top-left position is `index`.
    pub fn cell(index: u32) -> (m: Mask)
        requires
            index < 81,
            index % 9 < 7,
        ensures
            m.wf(),
            forall|j: int| 0 <= j < 81 ==> #[trigger] m@[j] == cell_shape_bit(index as int, j),
    {
        let mut m = Mask::new();
        let mut j: u32 = 0;
        while j < 81
            invariant
                m.wf(),
                j <= 81,
                forall|p: int|
                    0 <= p < 81 ==> #[trigger] m@[p] == (p < j as int && cell_shape_bit(
                        index as int,
                        p,
                    )),
            decreases 81 - j,
        {
            if index <= j && (j - index) % 9 < 3 && (j - index) / 9 < 3 {
                m.set_bit(j as usize);
            }
            j = j + 1;
        }
        m
    }

    /// The mask of the row that starts at `index`.
    pub fn row(index: u32) -> (m: Mask)
        requires
            index < 81,
            index % 9 == 0,
        ensures
            m.wf(),
            forall|j: int| 0 <= j < 81 ==> #[trigger] m@[j] == row_shape_bit(index as int, j),
    {
        let mut m = Mask::new();
        let mut j: u32 = 0;
        while j < 81
            invariant
                m.wf(),
                j <= 81,
                forall|p: int|
                    0 <= p < 81 ==> #[trigger] m@[p] == (p < j as int && row_shape_bit(
                        index as int,
                        p,
                    )),
            decreases 81 - j,
        {
            if index <= j && j < index + 9 {
                m.set_bit(j as usize);
            }
            j = j + 1;
        }
        m
    }

    /// The mask of column `index`.
    pub fn column(index: u32) -> (m: Mask)
        requires
            index < 9,
        ensures
            m.wf(),
            forall|j: int| 0 <= j < 81 ==> #[trigger] m@[j] == col_shape_bit(index as int, j),
    {
        let mut m = Mask::new();
        let mut j: u32 = 0;
        while j < 81
            invariant
                m.wf(),
                j <= 81,
                forall|p: int|
                    0 <= p < 81 ==> #[trigger] m@[p] == (p < j as int && col_shape_bit(
                        index as int,
                        p,
                    )),
            decreases 81 - j,
        {
            if j % 9 == index {
                m.set_bit(j as usize);
            }
            j = j + 1;
        }
        m
    }

    /// Number of set bits among the 81 board positions. Relies on
    /// `bitvec::slice::BitSlice::count_ones`.
    #[verifier::external_body]
    pub fn count_ones(&self) -> (r: usize)
        requires
            self.wf(),
        ensures
            r == count_true(self@, 81),
    {
        self.bits.as_bitslice()[..81].count_ones()
    }
}

} // verus!
