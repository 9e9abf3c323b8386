//! The 27 constraint groups: 9 rows, 9 columns, 9 blocks.
//!
//! A segment is identified by one board index: the start of a row, a column
//! number, or the top-left position of a 3x3 block. For a given layer it can
//! count the confirmed placements that fall inside it, decide whether the
//! digit is already settled here, and — when exactly eight of its nine
//! positions are blocked for a digit — locate the one position left.

use crate::layer::{CorruptLayerError, Layer};
use crate::mask::{cell_shape_bit, cell_start, col_shape_bit, peers, row_shape_bit, Mask};
use crate::puzzle::Puzzle;
use vstd::prelude::*;

verus! {

/// One of the 27 constraint groups.
#[derive(Clone, Copy)]
pub enum Segment {
    /// The row that starts at board index `start` (a multiple of 9).
    Row { start: u32 },
    /// The column `col`, 0..=8.
    Column { col: u32 },
    /// The 3x3 block whose top-left board index is `top`.
    Cell { top: u32 },
}

impl Segment {
    /// Validity of the identifying index.
    pub open spec fn wf(self) -> bool {
        match self {
            Segment::Row { start } => start < 81 && start % 9 == 0,
            Segment::Column { col } => col < 9,
            Segment::Cell { top } => top < 81 && (top % 9) % 3 == 0 && ((top / 9) % 3) == 0,
        }
    }

    /// Whether board position `j` lies in this segment.
    pub open spec fn contains(self, j: int) -> bool {
        match self {
            Segment::Row { start } => row_shape_bit(start as int, j),
            Segment::Column { col } => col_shape_bit(col as int, j),
            Segment::Cell { top } => cell_shape_bit(top as int, j),
        }
    }

    /// The `k`-th position of this segment, in ascending board order.
    pub open spec fn pos(self, k: int) -> int {
        match self {
            Segment::Row { start } => start + k,
            Segment::Column { col } => col + 9 * k,
            Segment::Cell { top } => top + 9 * (k / 3) + k % 3,
        }
    }

    /// The row segment number `r`, 1..=9.
    pub fn row(r: u32) -> (s: Segment)
        requires
            1 <= r <= 9,
        ensures
            s == (Segment::Row { start: (9 * (r - 1)) as u32 }),
            s.wf(),
    {
        Segment::Row { start: 9 * (r - 1) }
    }

    /// The column segment number `c`, 1..=9.
    pub fn column(c: u32) -> (s: Segment)
        requires
            1 <= c <= 9,
        ensures
            s == (Segment::Column { col: (c - 1) as u32 }),
            s.wf(),
    {
        Segment::Column { col: c - 1 }
    }

    /// The block segment in block row `i` and block column `j`, each 1..=3.
    pub fn cell(i: u32, j: u32) -> (s: Segment)
        requires
            1 <= i <= 3,
            1 <= j <= 3,
        ensures
            s == (Segment::Cell { top: (27 * (i - 1) + 3 * (j - 1)) as u32 }),
            s.wf(),
    {
        Segment::Cell { top: 27 * (i - 1) + 3 * (j - 1) }
    }
}

/// Number of entries among `s[0]`, ..., `s[n - 1]` that lie in `seg`.
pub open spec fn count_in(seg: Segment, s: Seq<u32>, n: int) -> int
    decreases n,
{
    if n <= 0 {
        0
    } else {
        count_in(seg, s, n - 1) + if seg.contains(s[n - 1] as int) {
            1int
        } else {
            0int
        }
    }
}

/// Number of confirmed placements of `s` that lie in `seg`.
pub open spec fn count_positions(seg: Segment, s: Seq<u32>) -> int {
    count_in(seg, s, s.len() as int)
}

/// A count of placements is never negative.
pub proof fn lemma_count_in_nonneg(seg: Segment, s: Seq<u32>, n: int)
    ensures
        count_in(seg, s, n) >= 0,
    decreases n,
{
    if n > 0 {
        lemma_count_in_nonneg(seg, s, n - 1);
    }
}

proof fn lemma_count_in_monotone(seg: Segment, s: Seq<u32>, n1: int, n2: int)
    requires
        0 <= n1 <= n2,
    ensures
        count_in(seg, s, n1) <= count_in(seg, s, n2),
    decreases n2,
{
    if n1 < n2 {
        lemma_count_in_monotone(seg, s, n1, n2 - 1);
    }
}

/// Appending placements can only raise a segment's count.
pub proof fn lemma_count_prefix_monotone(seg: Segment, s1: Seq<u32>, s2: Seq<u32>)
    requires
        s1.is_prefix_of(s2),
    ensures
        count_positions(seg, s1) <= count_positions(seg, s2),
{
    lemma_count_in_congruent(seg, s1, s2, s1.len() as int);
    lemma_count_in_monotone(seg, s2, s1.len() as int, s2.len() as int);
}

/// A placement inside the segment makes its count positive.
pub proof fn lemma_count_contains_ge_one(seg: Segment, s: Seq<u32>, k: int)
    requires
        0 <= k < s.len(),
        seg.contains(s[k] as int),
    ensures
        count_positions(seg, s) >= 1,
{
    lemma_count_in_nonneg(seg, s, k);
    lemma_count_in_monotone(seg, s, k + 1, s.len() as int);
}

/// A positive count names a placement inside the segment.
pub proof fn lemma_count_ge_one_exists(seg: Segment, s: Seq<u32>, n: int)
    requires
        0 <= n <= s.len(),
        count_in(seg, s, n) >= 1,
    ensures
        exists|k: int| 0 <= k < n && seg.contains(#[trigger] s[k] as int),
    decreases n,
{
    if n > 0 && !seg.contains(s[n - 1] as int) {
        lemma_count_ge_one_exists(seg, s, n - 1);
    }
}

/// A count of two or more names two placements inside the segment.
pub proof fn lemma_count_ge_two_exists(seg: Segment, s: Seq<u32>, n: int)
    requires
        0 <= n <= s.len(),
        count_in(seg, s, n) >= 2,
    ensures
        exists|k1: int, k2: int|
            0 <= k1 < k2 < n && seg.contains(#[trigger] s[k1] as int) && seg.contains(
                #[trigger] s[k2] as int,
            ),
    decreases n,
{
    if n > 0 {
        if seg.contains(s[n - 1] as int) {
            lemma_count_ge_one_exists(seg, s, n - 1);
        } else {
            lemma_count_ge_two_exists(seg, s, n - 1);
        }
    }
}

/// Two positions of one segment are peers: they share the row, column or
/// block that the segment is.
pub proof fn lemma_same_segment_peers(s: Segment, j1: int, j2: int)
    requires
        s.wf(),
        0 <= j1 < 81,
        0 <= j2 < 81,
        s.contains(j1),
        s.contains(j2),
    ensures
        peers(j1, j2),
{
    match s {
        Segment::Row { start } => {
            assert(9 * (j1 / 9) == start as int) by (nonlinear_arith)
                requires
                    start as int <= j1 < start as int + 9,
                    (start as int) % 9 == 0,
                    start as int == 9 * ((start as int) / 9) + (start as int) % 9,
            ;
            assert((start as int) == 9 * ((start as int) / 9) + (start as int) % 9) by (nonlinear_arith);
        },
        Segment::Column { col } => {},
        Segment::Cell { top } => {
            let t = top as int;
            let c = (t / 9) / 3;
            let b = (t % 9) / 3;
            assert(t == 27 * c + 3 * b) by (nonlinear_arith)
                requires
                    0 <= t < 81,
                    (t % 9) % 3 == 0,
                    (t / 9) % 3 == 0,
                    c == (t / 9) / 3,
                    b == (t % 9) / 3,
            ;
            assert(0 <= c < 3 && 0 <= b < 3) by (nonlinear_arith)
                requires
                    0 <= t < 81,
                    t == 27 * c + 3 * b,
                    c == (t / 9) / 3,
                    b == (t % 9) / 3,
            ;
            let d = j1 - t;
            assert(cell_start(j1) == t) by (nonlinear_arith)
                requires
                    t == 27 * c + 3 * b,
                    0 <= c < 3,
                    0 <= b < 3,
                    0 <= d,
                    d % 9 < 3,
                    d / 9 < 3,
                    j1 == t + d,
                    d == 9 * (d / 9) + d % 9,
                    cell_start(j1) == 27 * (j1 / 27) + 3 * ((j1 % 9) / 3),
            ;
        },
    }
}

proof fn lemma_solved_count_le(seg: Segment, p: Puzzle, n: int)
    requires
        0 <= n,
    ensures
        solved_count(seg, p, n) <= n,
    decreases n,
{
    if n > 0 {
        lemma_solved_count_le(seg, p, n - 1);
    }
}

/// A segment with nothing open has every digit settled in it exactly once.
pub proof fn lemma_count_open_zero(seg: Segment, p: Puzzle, n: int)
    requires
        0 <= n <= 9,
        solved_count(seg, p, n) == n,
    ensures
        forall|v: int|
            0 <= v < n ==> count_positions(seg, (#[trigger] p.layers@[v]).indices@) == 1,
    decreases n,
{
    if n > 0 {
        lemma_solved_count_le(seg, p, n - 1);
        lemma_count_open_zero(seg, p, n - 1);
    }
}

/// A deduction depends only on the placements and the blocked bits.
pub proof fn lemma_spec_find_congruent(s: Segment, p1: Puzzle, p2: Puzzle, v: int)
    requires
        p1.layers@[v].indices@ == p2.layers@[v].indices@,
        p1.layers@[v].mask@ == p2.layers@[v].mask@,
    ensures
        spec_find(s, p1, v) == spec_find(s, p2, v),
{
}

/// Number of layers among the first `n` whose digit is settled in `seg`.
pub open spec fn solved_count(seg: Segment, p: Puzzle, n: int) -> int
    decreases n,
{
    if n <= 0 {
        0
    } else {
        solved_count(seg, p, n - 1) + if count_positions(seg, p.layers@[n - 1].indices@) == 1 {
            1int
        } else {
            0int
        }
    }
}

/// How many digits still lack a confirmed position inside `seg`.
pub open spec fn spec_count_open(seg: Segment, p: Puzzle) -> int {
    9 - solved_count(seg, p, 9)
}

/// Number of the segment's first `n` positions that are blocked in `m`.
pub open spec fn seg_blocked_count(seg: Segment, m: Seq<bool>, n: int) -> int
    decreases n,
{
    if n <= 0 {
        0
    } else {
        seg_blocked_count(seg, m, n - 1) + if m[seg.pos(n - 1)] {
            1int
        } else {
            0int
        }
    }
}

/// The first `k' >= k` (both below 9) whose segment position is open in `m`,
/// or 9 when every remaining position is blocked.
pub open spec fn first_open_from(seg: Segment, m: Seq<bool>, k: int) -> int
    decreases 9 - k,
{
    if k < 0 || k >= 9 {
        9
    } else if !m[seg.pos(k)] {
        k
    } else {
        first_open_from(seg, m, k + 1)
    }
}

/// What `locate` deduces from a blocked mask: the one open position of the
/// segment when exactly eight of its nine positions are blocked, else nothing.
pub open spec fn spec_locate(seg: Segment, m: Seq<bool>) -> Option<int> {
    if seg_blocked_count(seg, m, 9) == 8 {
        Some(seg.pos(first_open_from(seg, m, 0)))
    } else {
        None
    }
}

/// What one pass of `iterate` deduces for the layer of digit `v + 1`, judged
/// on the state the pass started from: a location is sought only for a digit
/// not yet settled in the segment.
pub open spec fn spec_find(seg: Segment, p: Puzzle, v: int) -> Option<int> {
    if count_positions(seg, p.layers@[v].indices@) == 0 {
        spec_locate(seg, p.layers@[v].mask@)
    } else {
        None
    }
}

/// The deductions one pass of `iterate` collects over the first `n` layers,
/// as (digit, position) pairs in digit order.
pub open spec fn spec_finds(seg: Segment, p: Puzzle, n: int) -> Seq<(u32, u32)>
    decreases n,
{
    if n <= 0 {
        Seq::empty()
    } else {
        spec_finds(seg, p, n - 1) + (match spec_find(seg, p, n - 1) {
            Some(q) => seq![(n as u32, q as u32)],
            None => Seq::empty(),
        })
    }
}

proof fn lemma_spec_finds_props(seg: Segment, p: Puzzle, n: int)
    requires
        seg.wf(),
        p.wf(),
        0 <= n <= 9,
    ensures
        forall|i: int|
            0 <= i < spec_finds(seg, p, n).len() ==> 1 <= (#[trigger] spec_finds(seg, p, n)[i]).0
                <= n,
        forall|i: int|
            0 <= i < spec_finds(seg, p, n).len() ==> (#[trigger] spec_finds(seg, p, n)[i]).1 < 81,
        forall|i: int|
            0 <= i < spec_finds(seg, p, n).len() ==> spec_find(
                seg,
                p,
                (#[trigger] spec_finds(seg, p, n)[i]).0 - 1,
            ) == Some(spec_finds(seg, p, n)[i].1 as int),
        forall|i: int|
            0 <= i < spec_finds(seg, p, n).len() ==> !p.layers@[(#[trigger] spec_finds(
                seg,
                p,
                n,
            )[i]).0 - 1].mask@[spec_finds(seg, p, n)[i].1 as int],
        forall|i1: int, i2: int|
            0 <= i1 < i2 < spec_finds(seg, p, n).len() ==> (#[trigger] spec_finds(seg, p, n)[i1]).0
                < (#[trigger] spec_finds(seg, p, n)[i2]).0,
        forall|v: int|
            0 <= v < n && (#[trigger] spec_find(seg, p, v)) is Some ==> exists|i: int|
                0 <= i < spec_finds(seg, p, n).len() && #[trigger] spec_finds(seg, p, n)[i] == ((v
                    + 1) as u32, spec_find(seg, p, v)->Some_0 as u32),
        forall|v: int|
            0 <= v < n && (#[trigger] spec_find(seg, p, v)) is None ==> forall|i: int|
                0 <= i < spec_finds(seg, p, n).len() ==> (#[trigger] spec_finds(seg, p, n)[i]).0
                    != v + 1,
    decreases n,
{
    if n > 0 {
        lemma_spec_finds_props(seg, p, n - 1);
        if spec_find(seg, p, n - 1) is Some {
            let q = spec_find(seg, p, n - 1)->Some_0;
            lemma_locate_some(seg, p.layers@[n - 1].mask@, q);
        }
        assert forall|v: int|
            0 <= v < n && (#[trigger] spec_find(seg, p, v)) is Some implies exists|i: int|
            0 <= i < spec_finds(seg, p, n).len() && #[trigger] spec_finds(seg, p, n)[i] == ((v
                + 1) as u32, spec_find(seg, p, v)->Some_0 as u32) by {
            if v < n - 1 {
                let i = choose|i: int|
                    0 <= i < spec_finds(seg, p, n - 1).len() && #[trigger] spec_finds(
                        seg,
                        p,
                        n - 1,
                    )[i] == ((v + 1) as u32, spec_find(seg, p, v)->Some_0 as u32);
                assert(spec_finds(seg, p, n)[i] == ((v + 1) as u32, spec_find(
                    seg,
                    p,
                    v,
                )->Some_0 as u32));
            } else {
                let i = spec_finds(seg, p, n - 1).len() as int;
                assert(spec_finds(seg, p, n)[i] == (n as u32, spec_find(
                    seg,
                    p,
                    n - 1,
                )->Some_0 as u32));
            }
        }
    }
}

/// Each of the segment's nine positions is on the board, lies in the
/// segment, and differs from the other eight.
pub proof fn lemma_pos_in_segment(seg: Segment, k: int)
    requires
        seg.wf(),
        0 <= k < 9,
    ensures
        0 <= seg.pos(k) < 81,
        seg.contains(seg.pos(k)),
        forall|k2: int| 0 <= k2 < 9 && k2 != k ==> seg.pos(k2) != seg.pos(k),
{
    match seg {
        Segment::Row { start } => {},
        Segment::Column { col } => {
            assert((col + 9 * k) % 9 == col as int) by (nonlinear_arith)
                requires
                    0 <= col < 9 && 0 <= k,
            ;
            assert forall|k2: int| 0 <= k2 < 9 && k2 != k implies seg.pos(k2) != seg.pos(k) by {}
        },
        Segment::Cell { top } => {
            assert(top as int == 9 * ((top as int) / 9) + (top as int) % 9) by (nonlinear_arith);
            let q = k / 3;
            let r = k % 3;
            assert(k == 3 * q + r && 0 <= r < 3 && 0 <= q < 3) by (nonlinear_arith)
                requires
                    0 <= k < 9 && q == k / 3 && r == k % 3,
            ;
            let d = 9 * q + r;
            assert((d % 9 == r && d / 9 == q) && d >= 0) by (nonlinear_arith)
                requires
                    0 <= r < 3 && 0 <= q < 3 && d == 9 * q + r,
            ;
            assert(cell_shape_bit(top as int, top + d));
            assert forall|k2: int| 0 <= k2 < 9 && k2 != k implies seg.pos(k2) != seg.pos(k) by {
                let q2 = k2 / 3;
                let r2 = k2 % 3;
                assert(k2 == 3 * q2 + r2 && 0 <= r2 < 3 && 0 <= q2 < 3) by (nonlinear_arith)
                    requires
                        0 <= k2 < 9 && q2 == k2 / 3 && r2 == k2 % 3,
                ;
            }
        },
    }
}

/// Every board position of the segment is one of its nine positions.
pub proof fn lemma_contains_pos(seg: Segment, j: int)
    requires
        seg.wf(),
        0 <= j < 81,
        seg.contains(j),
    ensures
        exists|k: int| 0 <= k < 9 && #[trigger] seg.pos(k) == j,
{
    match seg {
        Segment::Row { start } => {
            assert(seg.pos(j - start) == j);
        },
        Segment::Column { col } => {
            let k = j / 9;
            assert(j == 9 * (j / 9) + j % 9 && 0 <= j / 9 < 9) by (nonlinear_arith)
                requires
                    0 <= j < 81,
            ;
            assert(seg.pos(k) == j);
        },
        Segment::Cell { top } => {
            let d = j - top;
            let k = 3 * (d / 9) + d % 9;
            assert(d == 9 * (d / 9) + d % 9 && 0 <= d % 9 && 0 <= d / 9) by (nonlinear_arith)
                requires
                    d >= 0,
            ;
            assert(k / 3 == d / 9 && k % 3 == d % 9) by (nonlinear_arith)
                requires
                    0 <= d % 9 < 3 && 0 <= d / 9 < 3 && k == 3 * (d / 9) + d % 9,
            ;
            assert(seg.pos(k) == j);
        },
    }
}

proof fn lemma_blocked_missing_one(seg: Segment, m: Seq<bool>, n: int, k1: int)
    requires
        0 <= k1 < n,
        !m[seg.pos(k1)],
    ensures
        seg_blocked_count(seg, m, n) <= n - 1,
    decreases n,
{
    lemma_blocked_count_le(seg, m, n - 1);
    if k1 < n - 1 {
        lemma_blocked_missing_one(seg, m, n - 1, k1);
    }
}

proof fn lemma_blocked_missing_two(seg: Segment, m: Seq<bool>, n: int, k1: int, k2: int)
    requires
        0 <= k1 < k2 < n,
        !m[seg.pos(k1)],
        !m[seg.pos(k2)],
    ensures
        seg_blocked_count(seg, m, n) <= n - 2,
    decreases n,
{
    if k2 < n - 1 {
        lemma_blocked_missing_two(seg, m, n - 1, k1, k2);
    } else {
        lemma_blocked_missing_one(seg, m, n - 1, k1);
    }
}

proof fn lemma_blocked_count_le(seg: Segment, m: Seq<bool>, n: int)
    requires
        0 <= n,
    ensures
        seg_blocked_count(seg, m, n) <= n,
    decreases n,
{
    if n > 0 {
        lemma_blocked_count_le(seg, m, n - 1);
    }
}

proof fn lemma_blocked_all(seg: Segment, m: Seq<bool>, n: int)
    requires
        0 <= n <= 9,
        forall|k: int| 0 <= k < n ==> m[#[trigger] seg.pos(k)],
    ensures
        seg_blocked_count(seg, m, n) == n,
    decreases n,
{
    if n > 0 {
        lemma_blocked_all(seg, m, n - 1);
    }
}

proof fn lemma_first_open_props(seg: Segment, m: Seq<bool>, k: int)
    requires
        0 <= k <= 9,
    ensures
        k <= first_open_from(seg, m, k) <= 9,
        first_open_from(seg, m, k) < 9 ==> !m[seg.pos(first_open_from(seg, m, k))],
        forall|u: int| k <= u < first_open_from(seg, m, k) ==> m[#[trigger] seg.pos(u)],
    decreases 9 - k,
{
    if k < 9 && m[seg.pos(k)] {
        lemma_first_open_props(seg, m, k + 1);
    }
}

/// What a successful `locate` means: the returned position is the one open
/// position of the segment, and every other position of the segment is
/// blocked.
pub proof fn lemma_locate_some(seg: Segment, m: Seq<bool>, p: int)
    requires
        seg.wf(),
        m.len() == 81,
        spec_locate(seg, m) == Some(p),
    ensures
        0 <= p < 81,
        seg.contains(p),
        !m[p],
        forall|j: int| 0 <= j < 81 && seg.contains(j) && j != p ==> m[j],
{
    let fo = first_open_from(seg, m, 0);
    lemma_first_open_props(seg, m, 0);
    if fo == 9 {
        lemma_blocked_all(seg, m, 9);
    }
    lemma_pos_in_segment(seg, fo);
    assert forall|j: int| 0 <= j < 81 && seg.contains(j) && j != p implies m[j] by {
        lemma_contains_pos(seg, j);
        let k2 = choose|k2: int| 0 <= k2 < 9 && #[trigger] seg.pos(k2) == j;
        if !m[j] {
            if k2 < fo {
                lemma_blocked_missing_two(seg, m, 9, k2, fo);
            } else {
                lemma_blocked_missing_two(seg, m, 9, fo, k2);
            }
        }
    }
}

impl Segment {
    /// The `k`-th position of this segment, in ascending board order.
    pub fn position(&self, k: u32) -> (p: u32)
        requires
            self.wf(),
            k < 9,
        ensures
            p as int == self.pos(k as int),
            p < 81,
    {
        proof {
            lemma_pos_in_segment(*self, k as int);
        }
        match self {
            Segment::Row { start } => *start + k,
            Segment::Column { col } => *col + 9 * k,
            Segment::Cell { top } => *top + 9 * (k / 3) + k % 3,
        }
    }

    /// The mask of this segment's nine positions.
    fn shape_mask(&self) -> (m: Mask)
        requires
            self.wf(),
        ensures
            m.wf(),
            forall|j: int| 0 <= j < 81 ==> #[trigger] m@[j] == self.contains(j),
    {
        match self {
            Segment::Row { start } => Mask::row(*start),
            Segment::Column { col } => Mask::column(*col),
            Segment::Cell { top } => Mask::cell(*top),
        }
    }

    /// When exactly eight of this segment's nine positions are blocked for
    /// the layer's digit, the one open position; otherwise no deduction.
    pub fn locate(&self, layer: &Layer) -> (r: Option<u32>)
        requires
            self.wf(),
            layer.wf(),
        ensures
            match r {
                Some(p) => spec_locate(*self, layer.mask@) == Some(p as int),
                None => spec_locate(*self, layer.mask@) is None,
            },
    {
        let mut work = self.shape_mask();
        work.intersect(&layer.mask);
        let ghost m = layer.mask@;
        let mut blocked: u32 = 0;
        let mut open: u32 = 0;
        let mut found = false;
        let mut k: u32 = 0;
        proof {
            lemma_first_open_props(*self, m, 0);
        }
        while k < 9
            invariant
                self.wf(),
                layer.wf(),
                m == layer.mask@,
                work.wf(),
                forall|j: int| 0 <= j < 81 ==> #[trigger] work@[j] == (self.contains(j) && m[j]),
                k <= 9,
                blocked <= k,
                blocked as int == seg_blocked_count(*self, m, k as int),
                found == (first_open_from(*self, m, 0) < k),
                found ==> open as int == self.pos(first_open_from(*self, m, 0)),
                !found ==> first_open_from(*self, m, 0) == first_open_from(*self, m, k as int),
            decreases 9 - k,
        {
            let p = self.position(k);
            proof {
                lemma_pos_in_segment(*self, k as int);
            }
            let bit = work.bit(p as usize);
            proof {
                lemma_first_open_props(*self, m, k as int + 1);
                if !found {
                    if m[self.pos(k as int)] {
                        assert(first_open_from(*self, m, k as int) == first_open_from(
                            *self,
                            m,
                            k as int + 1,
                        ));
                    } else {
                        assert(first_open_from(*self, m, k as int) == k as int);
                    }
                }
            }
            if bit {
                blocked = blocked + 1;
            } else if !found {
                found = true;
                open = p;
            }
            k = k + 1;
        }
        if blocked == 8 {
            proof {
                if !found {
                    lemma_first_open_props(*self, m, 0);
                    lemma_blocked_all(*self, m, 9);
                }
            }
            Some(open)
        } else {
            None
        }
    }
}

proof fn lemma_count_in_congruent(seg: Segment, s1: Seq<u32>, s2: Seq<u32>, n: int)
    requires
        forall|k: int| 0 <= k < n ==> s1[k] == s2[k],
    ensures
        count_in(seg, s1, n) == count_in(seg, s2, n),
    decreases n,
{
    if n > 0 {
        lemma_count_in_congruent(seg, s1, s2, n - 1);
    }
}

/// Appending a placement raises the segment's count exactly when the new
/// position lies in the segment.
pub proof fn lemma_count_push(seg: Segment, s: Seq<u32>, x: u32)
    ensures
        count_positions(seg, s.push(x)) == count_positions(seg, s) + (if seg.contains(x as int) {
            1int
        } else {
            0int
        }),
{
    lemma_count_in_congruent(seg, s.push(x), s, s.len() as int);
    assert(s.push(x)[s.len() as int] == x);
}

proof fn lemma_solved_count_change(seg: Segment, p1: Puzzle, p2: Puzzle, w: int, n: int)
    requires
        0 <= w < 9,
        0 <= n <= 9,
        forall|v: int|
            0 <= v < 9 && v != w ==> count_positions(seg, (#[trigger] p2.layers@[v]).indices@)
                == count_positions(seg, p1.layers@[v].indices@),
        count_positions(seg, p1.layers@[w].indices@) != 1,
        count_positions(seg, p2.layers@[w].indices@) == 1,
    ensures
        solved_count(seg, p2, n) == solved_count(seg, p1, n) + (if w < n {
            1int
        } else {
            0int
        }),
    decreases n,
{
    if n > 0 {
        lemma_solved_count_change(seg, p1, p2, w, n - 1);
    }
}

/// Progress of one committed deduction: when `locate` finds the open position
/// for a digit not yet settled in this segment, confirming that digit there
/// through `update` lowers the segment's open count by exactly one.
pub proof fn lemma_locate_update_progress(
    seg: Segment,
    p1: Puzzle,
    p2: Puzzle,
    value: u32,
    q: u32,
)
    requires
        seg.wf(),
        p1.wf(),
        1 <= value <= 9,
        q < 81,
        spec_find(seg, p1, value - 1) == Some(q as int),
        forall|v: int|
            0 <= v < 9 ==> (#[trigger] p2.layers@[v]).indices@ == (if v == value - 1 {
                p1.layers@[v].indices@.push(q)
            } else {
                p1.layers@[v].indices@
            }),
    ensures
        spec_count_open(seg, p2) == spec_count_open(seg, p1) - 1,
{
    let w = value - 1;
    lemma_locate_some(seg, p1.layers@[w].mask@, q as int);
    lemma_count_push(seg, p1.layers@[w].indices@, q);
    assert(count_positions(seg, p2.layers@[w].indices@) == 1);
    lemma_solved_count_change(seg, p1, p2, w, 9);
}

proof fn lemma_prefix_push(s: Seq<u32>, x: u32)
    ensures
        s.is_prefix_of(s.push(x)),
        s.is_prefix_of(s),
{
    assert(s =~= s.push(x).subrange(0, s.len() as int));
    assert(s =~= s.subrange(0, s.len() as int));
}

impl Segment {
    /// One deduction pass over this segment: for every digit not yet settled
    /// here, seek its one open position; then confirm all the positions found,
    /// each through `Puzzle::update`. All deductions are judged on the state
    /// the pass started from, and applied only afterwards. The corrupt-layer
    /// fault reports a digit already placed twice in this segment, or two
    /// digits whose found positions collide.
    pub fn iterate(&self, puzzle: &mut Puzzle) -> (r: Result<(), CorruptLayerError>)
        requires
            self.wf(),
            old(puzzle).wf(),
        ensures
            final(puzzle).wf(),
            forall|v: int|
                0 <= v < 9 ==> old(puzzle).layers@[v].indices@.is_prefix_of(
                    (#[trigger] final(puzzle).layers@[v]).indices@,
                ),
            r is Ok ==> forall|v: int|
                0 <= v < 9 ==> count_positions(*self, (#[trigger] old(puzzle).layers@[v]).indices@)
                    <= 1,
            r is Ok ==> forall|v: int|
                0 <= v < 9 ==> (#[trigger] final(puzzle).layers@[v]).indices@ == (match spec_find(
                    *self,
                    *old(puzzle),
                    v,
                ) {
                    Some(q) => old(puzzle).layers@[v].indices@.push(q as u32),
                    None => old(puzzle).layers@[v].indices@,
                }),
            r is Ok ==> forall|v: int, j: int|
                0 <= v < 9 && 0 <= j < 81 ==> (#[trigger] final(puzzle).layers@[v].mask@[j]) == (
                old(puzzle).layers@[v].mask@[j] || (spec_find(*self, *old(puzzle), v) matches Some(
                    q,
                ) && peers(q, j)) || (exists|v2: int|
                    0 <= v2 < 9 && v2 != v && #[trigger] spec_find(*self, *old(puzzle), v2)
                        == Some(j))),
            (exists|v: int|
                0 <= v < 9 && count_positions(*self, (#[trigger] old(puzzle).layers@[v]).indices@)
                    >= 2) ==> *final(puzzle) == *old(puzzle),
            r is Err ==> (exists|v: int|
                0 <= v < 9 && count_positions(*self, (#[trigger] old(puzzle).layers@[v]).indices@)
                    >= 2) || (exists|v1: int, v2: int|
                0 <= v1 < v2 < 9 && #[trigger] spec_find(*self, *old(puzzle), v1) is Some
                    && #[trigger] spec_find(*self, *old(puzzle), v2) is Some && spec_find(
                    *self,
                    *old(puzzle),
                    v1,
                ) == spec_find(*self, *old(puzzle), v2)),
    {
        let ghost p0 = *old(puzzle);
        let mut finds: Vec<(u32, u32)> = Vec::new();
        let mut v: usize = 0;
        while v < 9
            invariant
                self.wf(),
                p0.wf(),
                p0 == *old(puzzle),
                *puzzle == p0,
                v <= 9,
                finds@ == spec_finds(*self, p0, v as int),
                forall|u: int|
                    0 <= u < v ==> count_positions(
                        *self,
                        (#[trigger] p0.layers@[u]).indices@,
                    ) <= 1,
            decreases 9 - v,
        {
            let layer = &puzzle.layers[v];
            let settled = match self.is_layer_solved(layer) {
                Ok(b) => b,
                Err(e) => {
                    proof {
                        assert forall|u: int|
                            0 <= u < 9 implies old(puzzle).layers@[u].indices@.is_prefix_of(
                            (#[trigger] puzzle.layers@[u]).indices@,
                        ) by {
                            lemma_prefix_push(old(puzzle).layers@[u].indices@, 0);
                        }
                    }
                    return Err(e);
                },
            };
            if !settled {
                match self.locate(layer) {
                    Some(q) => {
                        finds.push((layer.value, q));
                        proof {
                            assert(*layer == p0.layers@[v as int]);
                            lemma_count_in_nonneg(
                                *self,
                                p0.layers@[v as int].indices@,
                                p0.layers@[v as int].indices@.len() as int,
                            );
                            assert(count_positions(*self, p0.layers@[v as int].indices@) == 0);
                            assert(spec_locate(*self, p0.layers@[v as int].mask@) == Some(
                                q as int,
                            ));
                            assert(finds@ =~= spec_finds(*self, p0, v as int + 1));
                        }
                    },
                    None => {
                        proof {
                            assert(spec_find(*self, p0, v as int) is None);
                            assert(finds@ =~= spec_finds(*self, p0, v as int + 1));
                        }
                    },
                }
            } else {
                proof {
                    assert(spec_find(*self, p0, v as int) is None);
                    assert(finds@ =~= spec_finds(*self, p0, v as int + 1));
                }
            }
            v = v + 1;
        }
        proof {
            lemma_spec_finds_props(*self, p0, 9);
        }
        let ghost fseq = finds@;
        let mut k: usize = 0;
        while k < finds.len()
            invariant
                self.wf(),
                p0.wf(),
                p0 == *old(puzzle),
                puzzle.wf(),
                finds@ == fseq,
                fseq == spec_finds(*self, p0, 9),
                forall|u: int|
                    0 <= u < 9 ==> count_positions(
                        *self,
                        (#[trigger] p0.layers@[u]).indices@,
                    ) <= 1,
                k <= fseq.len(),
                forall|i: int|
                    0 <= i < fseq.len() ==> (#[trigger] puzzle.layers@[fseq[i].0 - 1]).indices@
                        == (if i < k {
                        p0.layers@[fseq[i].0 - 1].indices@.push(fseq[i].1)
                    } else {
                        p0.layers@[fseq[i].0 - 1].indices@
                    }),
                forall|u: int|
                    0 <= u < 9 && (forall|i: int|
                        0 <= i < fseq.len() ==> (#[trigger] fseq[i]).0 != u + 1) ==> (
                    #[trigger] puzzle.layers@[u]).indices@ == p0.layers@[u].indices@,
                forall|u: int, j: int|
                    0 <= u < 9 && 0 <= j < 81 ==> (#[trigger] puzzle.layers@[u].mask@[j] == (
                    p0.layers@[u].mask@[j] || exists|i: int|
                        0 <= i < k && ((#[trigger] fseq[i]).0 == u + 1 && peers(
                            fseq[i].1 as int,
                            j,
                        ) || fseq[i].0 != u + 1 && fseq[i].1 == j))),
                forall|u: int|
                    0 <= u < 9 ==> (#[trigger] puzzle.layers@[u]).indices@ == p0.layers@[u].indices@
                        || exists|i: int|
                        0 <= i < k && (#[trigger] fseq[i]).0 == u + 1 && puzzle.layers@[u].indices@
                            == p0.layers@[u].indices@.push(fseq[i].1),
            decreases fseq.len() - k,
        {
            proof {
                lemma_spec_finds_props(*self, p0, 9);
            }
            let (value, q) = finds[k];
            let layer = &puzzle.layers[(value - 1) as usize];
            if layer.mask.bit(q as usize) {
                proof {
                    assert(!p0.layers@[value - 1].mask@[q as int]);
                    let i = choose|i: int|
                        0 <= i < k && ((#[trigger] fseq[i]).0 == value && peers(
                            fseq[i].1 as int,
                            q as int,
                        ) || fseq[i].0 != value && fseq[i].1 == q);
                    assert(fseq[i].0 < fseq[k as int].0);
                    let v1 = fseq[i].0 - 1;
                    let v2 = value - 1;
                    assert(fseq[i] == spec_finds(*self, p0, 9)[i]);
                    assert(fseq[k as int] == spec_finds(*self, p0, 9)[k as int]);
                    assert(spec_find(*self, p0, v1) == Some(fseq[i].1 as int));
                    assert(spec_find(*self, p0, v2) == Some(fseq[k as int].1 as int));
                    assert(fseq[i].1 == q);
                    assert(p0 == *old(puzzle));
                    assert(spec_find(*self, *old(puzzle), v1) == Some(q as int) && spec_find(
                        *self,
                        *old(puzzle),
                        v2,
                    ) == Some(q as int));
                    assert forall|u: int|
                        0 <= u < 9 implies old(puzzle).layers@[u].indices@.is_prefix_of(
                        (#[trigger] puzzle.layers@[u]).indices@,
                    ) by {
                        lemma_prefix_push(old(puzzle).layers@[u].indices@, 0);
                        if puzzle.layers@[u].indices@ != p0.layers@[u].indices@ {
                            let i2 = choose|i2: int|
                                0 <= i2 < k && (#[trigger] fseq[i2]).0 == u + 1
                                    && puzzle.layers@[u].indices@
                                    == p0.layers@[u].indices@.push(fseq[i2].1);
                            lemma_prefix_push(old(puzzle).layers@[u].indices@, fseq[i2].1);
                        }
                    }
                }
                return Err(CorruptLayerError { value });
            }
            proof {
                crate::puzzle::lemma_unblocked_unplaced(puzzle, value - 1, q as int);
            }
            let ghost pprev = *puzzle;
            puzzle.update(value, q);
            proof {
                assert forall|i: int|
                    0 <= i < fseq.len() implies (#[trigger] puzzle.layers@[fseq[i].0 - 1]).indices@
                    == (if i < k + 1 {
                    p0.layers@[fseq[i].0 - 1].indices@.push(fseq[i].1)
                } else {
                    p0.layers@[fseq[i].0 - 1].indices@
                }) by {
                    if fseq[i].0 != value {
                        assert(puzzle.layers@[fseq[i].0 - 1].indices@ == pprev.layers@[fseq[i].0
                            - 1].indices@);
                    } else {
                        assert(i == k);
                        assert(puzzle.layers@[value - 1].indices@ == pprev.layers@[value
                            - 1].indices@.push(q));
                    }
                }
                assert forall|u: int, j: int|
                    0 <= u < 9 && 0 <= j < 81 implies (#[trigger] puzzle.layers@[u].mask@[j] == (
                p0.layers@[u].mask@[j] || exists|i: int|
                    0 <= i < k + 1 && ((#[trigger] fseq[i]).0 == u + 1 && peers(
                        fseq[i].1 as int,
                        j,
                    ) || fseq[i].0 != u + 1 && fseq[i].1 == j))) by {
                    let effect_k = if u == value - 1 {
                        peers(q as int, j)
                    } else {
                        j == q as int
                    };
                    assert(puzzle.layers@[u].mask@[j] == (pprev.layers@[u].mask@[j] || effect_k));
                    if puzzle.layers@[u].mask@[j] {
                        if pprev.layers@[u].mask@[j] && !p0.layers@[u].mask@[j] {
                            let i = choose|i: int|
                                0 <= i < k && ((#[trigger] fseq[i]).0 == u + 1 && peers(
                                    fseq[i].1 as int,
                                    j,
                                ) || fseq[i].0 != u + 1 && fseq[i].1 == j);
                            assert(0 <= i < k + 1 && ((fseq[i]).0 == u + 1 && peers(
                                fseq[i].1 as int,
                                j,
                            ) || fseq[i].0 != u + 1 && fseq[i].1 == j));
                        } else if !pprev.layers@[u].mask@[j] {
                            assert(fseq[k as int].0 == value && fseq[k as int].1 == q);
                            assert(0 <= k < k + 1 && ((fseq[k as int]).0 == u + 1 && peers(
                                fseq[k as int].1 as int,
                                j,
                            ) || fseq[k as int].0 != u + 1 && fseq[k as int].1 == j));
                        }
                    } else {
                        if exists|i: int|
                            0 <= i < k + 1 && ((#[trigger] fseq[i]).0 == u + 1 && peers(
                                fseq[i].1 as int,
                                j,
                            ) || fseq[i].0 != u + 1 && fseq[i].1 == j) {
                            let i = choose|i: int|
                                0 <= i < k + 1 && ((#[trigger] fseq[i]).0 == u + 1 && peers(
                                    fseq[i].1 as int,
                                    j,
                                ) || fseq[i].0 != u + 1 && fseq[i].1 == j);
                            if i < k {
                                assert(pprev.layers@[u].mask@[j]);
                            } else {
                                assert(effect_k);
                            }
                            assert(false);
                        }
                    }
                }
            }
            k = k + 1;
        }
        proof {
            assert forall|u: int|
                0 <= u < 9 implies (#[trigger] puzzle.layers@[u]).indices@ == (match spec_find(
                *self,
                p0,
                u,
            ) {
                Some(q) => p0.layers@[u].indices@.push(q as u32),
                None => p0.layers@[u].indices@,
            }) by {
                if spec_find(*self, p0, u) is Some {
                    let i = choose|i: int|
                        0 <= i < fseq.len() && #[trigger] fseq[i] == ((u + 1) as u32, spec_find(
                            *self,
                            p0,
                            u,
                        )->Some_0 as u32);
                    assert(puzzle.layers@[u].indices@ == p0.layers@[u].indices@.push(fseq[i].1));
                }
            }
            assert forall|u: int|
                0 <= u < 9 implies old(puzzle).layers@[u].indices@.is_prefix_of(
                (#[trigger] puzzle.layers@[u]).indices@,
            ) by {
                lemma_prefix_push(old(puzzle).layers@[u].indices@, 0);
                if spec_find(*self, p0, u) is Some {
                    lemma_prefix_push(
                        old(puzzle).layers@[u].indices@,
                        spec_find(*self, p0, u)->Some_0 as u32,
                    );
                }
            }
            assert forall|u: int, j: int|
                0 <= u < 9 && 0 <= j < 81 implies (#[trigger] puzzle.layers@[u].mask@[j]) == (old(
                puzzle,
            ).layers@[u].mask@[j] || (spec_find(*self, *old(puzzle), u) matches Some(q) && peers(
                q,
                j,
            )) || (exists|v2: int|
                0 <= v2 < 9 && v2 != u && #[trigger] spec_find(*self, *old(puzzle), v2) == Some(
                    j,
                ))) by {
                let kk = fseq.len() as int;
                if puzzle.layers@[u].mask@[j] && !p0.layers@[u].mask@[j] {
                    let i = choose|i: int|
                        0 <= i < kk && ((#[trigger] fseq[i]).0 == u + 1 && peers(
                            fseq[i].1 as int,
                            j,
                        ) || fseq[i].0 != u + 1 && fseq[i].1 == j);
                    if fseq[i].0 == u + 1 && peers(fseq[i].1 as int, j) {
                        assert(spec_find(*self, p0, u) == Some(fseq[i].1 as int));
                    } else {
                        let v2 = fseq[i].0 - 1;
                        assert(spec_find(*self, p0, v2) == Some(fseq[i].1 as int));
                        assert(0 <= v2 < 9 && v2 != u && spec_find(*self, *old(puzzle), v2)
                            == Some(j));
                    }
                }
                if !puzzle.layers@[u].mask@[j] {
                    if spec_find(*self, p0, u) matches Some(q) && peers(q, j) {
                        let q = spec_find(*self, p0, u)->Some_0;
                        let i = choose|i: int|
                            0 <= i < fseq.len() && #[trigger] fseq[i] == ((u + 1) as u32, q as u32);
                        assert(fseq[i].0 == u + 1 && peers(fseq[i].1 as int, j));
                        assert(false);
                    }
                    if exists|v2: int|
                        0 <= v2 < 9 && v2 != u && #[trigger] spec_find(*self, *old(puzzle), v2)
                            == Some(j) {
                        let v2 = choose|v2: int|
                            0 <= v2 < 9 && v2 != u && #[trigger] spec_find(*self, *old(puzzle), v2)
                                == Some(j);
                        let i = choose|i: int|
                            0 <= i < fseq.len() && #[trigger] fseq[i] == ((v2 + 1) as u32,
                            spec_find(*self, p0, v2)->Some_0 as u32);
                        assert(fseq[i].0 != u + 1 && fseq[i].1 == j);
                        assert(false);
                    }
                }
            }
        }
        Ok(())
    }
}

impl Segment {
    /// Whether board position `i` lies in this segment.
    pub fn contains_index(&self, i: u32) -> (r: bool)
        requires
            self.wf(),
            i < 81,
        ensures
            r == self.contains(i as int),
    {
        match self {
            Segment::Row { start } => *start <= i && i < *start + 9,
            Segment::Column { col } => i % 9 == *col,
            Segment::Cell { top } => *top <= i && (i - *top) % 9 < 3 && (i - *top) / 9 < 3,
        }
    }

    /// How many of the layer's confirmed placements fall inside this segment.
    pub fn count_layer_positions(&self, layer: &Layer) -> (r: usize)
        requires
            self.wf(),
            layer.wf(),
        ensures
            r as int == count_positions(*self, layer.indices@),
    {
        let mut n: usize = 0;
        let mut k: usize = 0;
        while k < layer.indices.len()
            invariant
                self.wf(),
                layer.wf(),
                k <= layer.indices@.len(),
                n <= k,
                n as int == count_in(*self, layer.indices@, k as int),
            decreases layer.indices@.len() - k,
        {
            let i = layer.indices[k];
            if self.contains_index(i) {
                n = n + 1;
            }
            k = k + 1;
        }
        n
    }

    /// Whether the layer's digit is settled inside this segment: `Ok(false)`
    /// for no placement here, `Ok(true)` for exactly one, and the
    /// corrupt-layer fault for two or more.
    pub fn is_layer_solved(&self, layer: &Layer) -> (r: Result<bool, CorruptLayerError>)
        requires
            self.wf(),
            layer.wf(),
        ensures
            ({
                let c = count_positions(*self, layer.indices@);
                match r {
                    Ok(b) => c <= 1 && b == (c == 1),
                    Err(e) => c >= 2 && e.value == layer.value,
                }
            }),
    {
        let c = self.count_layer_positions(layer);
        if c == 0 {
            Ok(false)
        } else if c == 1 {
            Ok(true)
        } else {
            Err(CorruptLayerError { value: layer.value })
        }
    }

    /// How many digits still lack a confirmed position inside this segment;
    /// the corrupt-layer fault names the first digit placed here twice.
    pub fn count_open(&self, puzzle: &Puzzle) -> (r: Result<usize, CorruptLayerError>)
        requires
            self.wf(),
            puzzle.wf(),
        ensures
            match r {
                Ok(n) => n as int == spec_count_open(*self, *puzzle) && forall|v: int|
                    0 <= v < 9 ==> count_positions(
                        *self,
                        (#[trigger] puzzle.layers@[v]).indices@,
                    ) <= 1,
                Err(e) => exists|v: int|
                    0 <= v < 9 && count_positions(*self, (#[trigger] puzzle.layers@[v]).indices@)
                        >= 2 && e.value == v + 1 && (forall|u: int|
                        0 <= u < v ==> count_positions(
                            *self,
                            (#[trigger] puzzle.layers@[u]).indices@,
                        ) <= 1),
            },
    {
        let mut solved: usize = 0;
        let mut v: usize = 0;
        while v < 9
            invariant
                self.wf(),
                puzzle.wf(),
                v <= 9,
                solved <= v,
                solved as int == solved_count(*self, *puzzle, v as int),
                forall|u: int|
                    0 <= u < v ==> count_positions(
                        *self,
                        (#[trigger] puzzle.layers@[u]).indices@,
                    ) <= 1,
            decreases 9 - v,
        {
            match self.is_layer_solved(&puzzle.layers[v]) {
                Ok(b) => {
                    if b {
                        solved = solved + 1;
                    }
                },
                Err(e) => {
                    return Err(e);
                },
            }
            v = v + 1;
        }
        Ok(9 - solved)
    }
}

} // verus!
