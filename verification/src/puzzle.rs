//! The whole board: nine layers, one per digit.
//!
//! A `Puzzle` owns one `Layer` per digit 1..=9. All mutation goes through
//! `update`, which confirms a digit at a position: the digit's own layer
//! records the placement and blocks the position's row, column and block,
//! and every other layer is told the position is taken. This keeps the
//! cross-layer invariant: no position is ever confirmed for two digits.

use crate::layer::{CorruptLayerError, Layer};
use crate::mask::peers;
use crate::segment::{
    count_positions, lemma_count_contains_ge_one, lemma_count_ge_one_exists, lemma_count_ge_two_exists,
    lemma_count_in_nonneg, lemma_count_open_zero, lemma_count_prefix_monotone, lemma_count_push,
    lemma_locate_some, lemma_pos_in_segment, lemma_same_segment_peers, lemma_spec_find_congruent,
    spec_find, Segment,
};
use vstd::prelude::*;

verus! {

/// The board state: one layer per digit 1..=9, in value order.
pub struct Puzzle {
    /// The layer for digit `v` is `layers[v - 1]`.
    pub layers: Vec<Layer>,
}

impl Puzzle {
    /// Validity: nine well-formed layers in value order; no position is
    /// confirmed twice; every confirmed position is blocked in every layer.
    pub open spec fn wf(&self) -> bool {
        &&& self.layers@.len() == 9
        &&& forall|v: int| 0 <= v < 9 ==> (#[trigger] self.layers@[v]).wf()
        &&& forall|v: int| 0 <= v < 9 ==> (#[trigger] self.layers@[v]).value == v + 1
        &&& forall|v1: int, k1: int, v2: int, k2: int|
            0 <= v1 < 9 && 0 <= k1 < self.layers@[v1].indices@.len() && 0 <= v2 < 9 && 0 <= k2
                < self.layers@[v2].indices@.len() && #[trigger] self.layers@[v1].indices@[k1]
                == #[trigger] self.layers@[v2].indices@[k2] ==> v1 == v2 && k1 == k2
        &&& forall|v1: int, k1: int, v2: int|
            0 <= v1 < 9 && 0 <= k1 < self.layers@[v1].indices@.len() && 0 <= v2 < 9
                ==> #[trigger] self.layers@[v2].mask@[#[trigger] self.layers@[v1].indices@[k1] as int]
    }

    /// Whether some digit is already confirmed at position `j`.
    pub open spec fn placed(&self, j: int) -> bool {
        exists|v: int, k: int|
            0 <= v < 9 && 0 <= k < self.layers@[v].indices@.len()
                && #[trigger] self.layers@[v].indices@[k] as int == j
    }

    /// Whether every digit has all nine placements.
    pub open spec fn spec_solved(&self) -> bool {
        forall|v: int| 0 <= v < 9 ==> (#[trigger] self.layers@[v]).indices@.len() == 9
    }

    /// A board with nothing confirmed and nothing blocked.
    pub fn new() -> (p: Puzzle)
        ensures
            p.wf(),
            forall|v: int| 0 <= v < 9 ==> (#[trigger] p.layers@[v]).indices@.len() == 0,
            forall|v: int, j: int| 0 <= v < 9 && 0 <= j < 81 ==> !(#[trigger] p.layers@[v].mask@[j]),
    {
        let mut layers: Vec<Layer> = Vec::new();
        let mut v: u32 = 1;
        while v <= 9
            invariant
                1 <= v <= 10,
                layers@.len() == v - 1,
                forall|u: int|
                    0 <= u < v - 1 ==> (#[trigger] layers@[u]).wf() && layers@[u].value == u + 1
                        && layers@[u].indices@.len() == 0,
                forall|u: int, j: int| 0 <= u < v - 1 && 0 <= j < 81 ==> !(#[trigger] layers@[u].mask@[j]),
            decreases 10 - v,
        {
            layers.push(Layer::new(v));
            v = v + 1;
        }
        Puzzle { layers }
    }

    /// Confirms digit `value` at position `index`: the matching layer records
    /// the placement and blocks its peers; every other layer blocks `index`.
    pub fn update(&mut self, value: u32, index: u32)
        requires
            old(self).wf(),
            1 <= value <= 9,
            index < 81,
            !old(self).placed(index as int),
        ensures
            final(self).wf(),
            forall|v: int|
                0 <= v < 9 ==> (#[trigger] final(self).layers@[v]).indices@ == (if v == value - 1 {
                    old(self).layers@[v].indices@.push(index)
                } else {
                    old(self).layers@[v].indices@
                }),
            forall|v: int, j: int|
                0 <= v < 9 && 0 <= j < 81 ==> #[trigger] final(self).layers@[v].mask@[j] == (old(
                    self,
                ).layers@[v].mask@[j] || (if v == value - 1 {
                    peers(index as int, j)
                } else {
                    j == index
                })),
    {
        let mut v: usize = 0;
        while v < 9
            invariant
                old(self).wf(),
                1 <= value <= 9,
                index < 81,
                v <= 9,
                self.layers@.len() == 9,
                forall|u: int| v <= u < 9 ==> self.layers@[u] == old(self).layers@[u],
                forall|u: int| 0 <= u < v ==> (#[trigger] self.layers@[u]).wf(),
                forall|u: int|
                    0 <= u < v ==> (#[trigger] self.layers@[u]).value == old(self).layers@[u].value,
                forall|u: int|
                    0 <= u < v ==> (#[trigger] self.layers@[u]).indices@ == (if u == value - 1 {
                        old(self).layers@[u].indices@.push(index)
                    } else {
                        old(self).layers@[u].indices@
                    }),
                forall|u: int, j: int|
                    0 <= u < v && 0 <= j < 81 ==> #[trigger] self.layers@[u].mask@[j] == (old(
                        self,
                    ).layers@[u].mask@[j] || (if u == value - 1 {
                        peers(index as int, j)
                    } else {
                        j == index
                    })),
            decreases 9 - v,
        {
            let layer = &mut self.layers[v];
            if value == layer.value {
                layer.occupy(index);
            } else {
                layer.blot(index);
            }
            proof {
                assert forall|j: int| 0 <= j < 81 implies #[trigger] self.layers@[v as int].mask@[j]
                    == (old(self).layers@[v as int].mask@[j] || (if v as int == value - 1 {
                    peers(index as int, j)
                } else {
                    j == index
                })) by {
                    if v as int != value - 1 {
                        assert(self.layers@[v as int].mask@ == old(self).layers@[v
                            as int].mask@.update(index as int, true));
                    }
                }
            }
            v = v + 1;
        }
        proof {
            lemma_peers_reflexive(index as int);
            assert forall|v1: int, k1: int, v2: int, k2: int|
                0 <= v1 < 9 && 0 <= k1 < self.layers@[v1].indices@.len() && 0 <= v2 < 9 && 0 <= k2
                    < self.layers@[v2].indices@.len() && #[trigger] self.layers@[v1].indices@[k1]
                    == #[trigger] self.layers@[v2].indices@[k2] implies v1 == v2 && k1 == k2 by {
                let w = value - 1;
                if v1 == w && k1 == self.layers@[w].indices@.len() - 1 {
                    if !(v2 == w && k2 == k1) {
                        assert(old(self).layers@[v2].indices@[k2] as int == index as int);
                        assert(old(self).placed(index as int));
                    }
                } else if v2 == w && k2 == self.layers@[w].indices@.len() - 1 {
                    assert(old(self).layers@[v1].indices@[k1] as int == index as int);
                    assert(old(self).placed(index as int));
                } else {
                    assert(old(self).layers@[v1].indices@[k1] == old(
                        self,
                    ).layers@[v2].indices@[k2]);
                }
            }
        }
    }

    /// Reads an 81-character grid, row-major, `'0'` for an empty cell: every
    /// nonzero digit is confirmed at its position, exactly as `update` would
    /// confirm it. Text of the wrong length or with a character that is no
    /// digit is rejected, and no puzzle is produced.
    pub fn parse(feed: &str) -> (r: Result<Puzzle, ParseError>)
        ensures
            match r {
                Ok(p) => {
                    &&& feed@.len() == 81
                    &&& forall|q: int| 0 <= q < 81 ==> digit_of(#[trigger] feed@[q]) >= 0
                    &&& p.wf()
                    &&& forall|v: int|
                        0 <= v < 9 ==> (#[trigger] p.layers@[v]).indices@ == digit_positions(
                            feed@,
                            v + 1,
                            81,
                        )
                    &&& forall|v: int, j: int|
                        0 <= v < 9 && 0 <= j < 81 ==> (#[trigger] p.layers@[v].mask@[j])
                            == parse_blocked(feed@, v + 1, j, 81)
                },
                Err(ParseError::WrongLength) => feed@.len() != 81,
                Err(ParseError::InvalidCharacter) => feed@.len() == 81 && exists|q: int|
                    0 <= q < 81 && digit_of(#[trigger] feed@[q]) < 0,
            },
    {
        let n = feed.unicode_len();
        if n != 81 {
            return Err(ParseError::WrongLength);
        }
        let mut p = Puzzle::new();
        let mut i: usize = 0;
        while i < 81
            invariant
                feed@.len() == 81,
                i <= 81,
                p.wf(),
                forall|q: int| 0 <= q < i ==> digit_of(#[trigger] feed@[q]) >= 0,
                forall|v: int|
                    0 <= v < 9 ==> (#[trigger] p.layers@[v]).indices@ == digit_positions(
                        feed@,
                        v + 1,
                        i as int,
                    ),
                forall|v: int, j: int|
                    0 <= v < 9 && 0 <= j < 81 ==> (#[trigger] p.layers@[v].mask@[j])
                        == parse_blocked(feed@, v + 1, j, i as int),
            decreases 81 - i,
        {
            let c = feed.get_char(i);
            let d: u32 = if c == '0' {
                0
            } else if c == '1' {
                1
            } else if c == '2' {
                2
            } else if c == '3' {
                3
            } else if c == '4' {
                4
            } else if c == '5' {
                5
            } else if c == '6' {
                6
            } else if c == '7' {
                7
            } else if c == '8' {
                8
            } else if c == '9' {
                9
            } else {
                return Err(ParseError::InvalidCharacter);
            };
            assert(d == digit_of(feed@[i as int]));
            let ghost pbefore = p;
            if d != 0 {
                proof {
                    if p.placed(i as int) {
                        let (v1, k1) = choose|v1: int, k1: int|
                            0 <= v1 < 9 && 0 <= k1 < p.layers@[v1].indices@.len()
                                && #[trigger] p.layers@[v1].indices@[k1] as int == i as int;
                        lemma_digit_positions_range(feed@, v1 + 1, i as int);
                    }
                }
                p.update(d, i as u32);
            }
            proof {
                assert forall|v: int|
                    0 <= v < 9 implies (#[trigger] p.layers@[v]).indices@ == digit_positions(
                    feed@,
                    v + 1,
                    i as int + 1,
                ) by {
                    assert(pbefore.layers@[v].indices@ == digit_positions(feed@, v + 1, i as int));
                    if d != 0 && v == d - 1 {
                        assert(p.layers@[v].indices@ =~= digit_positions(feed@, v + 1, i as int)
                            + seq![i as u32]);
                    } else {
                        assert(p.layers@[v].indices@ =~= digit_positions(feed@, v + 1, i as int));
                    }
                }
                assert forall|v: int, j: int|
                    0 <= v < 9 && 0 <= j < 81 implies (#[trigger] p.layers@[v].mask@[j])
                    == parse_blocked(feed@, v + 1, j, i as int + 1) by {
                    if parse_blocked(feed@, v + 1, j, i as int) {
                        assert(parse_blocked(feed@, v + 1, j, i as int + 1));
                    }
                    if parse_blocked(feed@, v + 1, j, i as int + 1) && !parse_blocked(
                        feed@,
                        v + 1,
                        j,
                        i as int,
                    ) {
                        assert((digit_of(feed@[i as int]) == v + 1 && peers(i as int, j)) || (j
                            == i as int && digit_of(feed@[j]) >= 1 && digit_of(feed@[j]) != v
                            + 1));
                    }
                }
            }
            i = i + 1;
        }
        Ok(p)
    }

    /// Renders the board as 81 characters, row-major: the confirmed digit of
    /// each cell, `'0'` where no digit is confirmed yet.
    pub fn readout(&self) -> (r: String)
        requires
            self.wf(),
        ensures
            r@ == spec_readout(*self),
    {
        let mut grid: Vec<u32> = Vec::new();
        let mut i: usize = 0;
        while i < 81
            invariant
                i <= 81,
                grid@.len() == i,
                forall|j: int| 0 <= j < i ==> (#[trigger] grid@[j]) == 0,
            decreases 81 - i,
        {
            grid.push(0);
            i = i + 1;
        }
        let mut v: usize = 0;
        while v < 9
            invariant
                self.wf(),
                v <= 9,
                grid@.len() == 81,
                forall|j: int|
                    0 <= j < 81 ==> ((#[trigger] grid@[j]) == 0 && (forall|v2: int, k2: int|
                        0 <= v2 < v && 0 <= k2 < self.layers@[v2].indices@.len()
                            ==> #[trigger] self.layers@[v2].indices@[k2] as int != j)) || (
                    exists|v2: int, k2: int|
                        0 <= v2 < v && 0 <= k2 < self.layers@[v2].indices@.len()
                            && #[trigger] self.layers@[v2].indices@[k2] as int == j && grid@[j]
                            == v2 + 1),
            decreases 9 - v,
        {
            let mut k: usize = 0;
            while k < self.layers[v].indices.len()
                invariant
                    self.wf(),
                    v < 9,
                    k <= self.layers@[v as int].indices@.len(),
                    grid@.len() == 81,
                    forall|j: int|
                        0 <= j < 81 ==> ((#[trigger] grid@[j]) == 0 && (forall|v2: int, k2: int|
                            0 <= v2 < 9 && 0 <= k2 < self.layers@[v2].indices@.len() && (v2 < v || (
                            v2 == v && k2 < k)) ==> #[trigger] self.layers@[v2].indices@[k2] as int
                                != j)) || (exists|v2: int, k2: int|
                            0 <= v2 < 9 && 0 <= k2 < self.layers@[v2].indices@.len() && (v2 < v || (
                            v2 == v && k2 < k)) && #[trigger] self.layers@[v2].indices@[k2] as int
                                == j && grid@[j] == v2 + 1),
                decreases self.layers@[v as int].indices@.len() - k,
            {
                let idx = self.layers[v].indices[k];
                let value = self.layers[v].value;
                grid.set(idx as usize, value);
                k = k + 1;
            }
            v = v + 1;
        }
        proof {
            reveal_strlit("0");
            reveal_strlit("1");
            reveal_strlit("2");
            reveal_strlit("3");
            reveal_strlit("4");
            reveal_strlit("5");
            reveal_strlit("6");
            reveal_strlit("7");
            reveal_strlit("8");
            reveal_strlit("9");
            assert forall|j: int| 0 <= j < 81 implies (#[trigger] grid@[j]) == placed_digit(
                *self,
                j,
            ) by {
                if self.placed(j) {
                    let (v2, k2) = choose|v2: int, k2: int|
                        0 <= v2 < 9 && 0 <= k2 < self.layers@[v2].indices@.len()
                            && #[trigger] self.layers@[v2].indices@[k2] as int == j;
                    assert(grid@[j] == v2 + 1);
                }
            }
        }
        let mut out = String::new();
        let mut i: usize = 0;
        while i < 81
            invariant
                grid@.len() == 81,
                forall|j: int| 0 <= j < 81 ==> (#[trigger] grid@[j]) == placed_digit(*self, j),
                i <= 81,
                out@.len() == i,
                forall|j: int| 0 <= j < i ==> (#[trigger] out@[j]) == digit_char(grid@[j] as int),
            decreases 81 - i,
        {
            proof {
                reveal_strlit("0");
                reveal_strlit("1");
                reveal_strlit("2");
                reveal_strlit("3");
                reveal_strlit("4");
                reveal_strlit("5");
                reveal_strlit("6");
                reveal_strlit("7");
                reveal_strlit("8");
                reveal_strlit("9");
            }
            let d = grid[i];
            if d == 1 {
                out.append("1");
            } else if d == 2 {
                out.append("2");
            } else if d == 3 {
                out.append("3");
            } else if d == 4 {
                out.append("4");
            } else if d == 5 {
                out.append("5");
            } else if d == 6 {
                out.append("6");
            } else if d == 7 {
                out.append("7");
            } else if d == 8 {
                out.append("8");
            } else if d == 9 {
                out.append("9");
            } else {
                out.append("0");
            }
            i = i + 1;
        }
        proof {
            assert(out@ =~= spec_readout(*self));
        }
        out
    }

    /// Total number of confirmed placements on the board.
    fn count_placed(&self) -> (r: usize)
        requires
            self.wf(),
        ensures
            r as int == total_placed(*self, 9),
            r <= 729,
    {
        let mut sum: usize = 0;
        let mut v: usize = 0;
        while v < 9
            invariant
                self.wf(),
                v <= 9,
                sum as int == total_placed(*self, v as int),
                sum <= 81 * v,
            decreases 9 - v,
        {
            proof {
                lemma_layer_len_bound(*self, v as int);
            }
            sum = sum + self.layers[v].indices.len();
            v = v + 1;
        }
        sum
    }

    /// Runs elimination rounds until the grid is filled or no deduction is
    /// left anywhere. Each round orders the 27 constraint groups so that
    /// those with the most unsettled digits come first, lets each group
    /// commit its forced placements, and drops groups with nothing left to
    /// settle. Placements only accumulate; a consistent board stays
    /// consistent; `Stalled` reports a grid at the fixed point of pure
    /// elimination, which a round with no new placement has reached.
    pub fn solve(&mut self) -> (r: Result<SolveOutcome, CorruptLayerError>)
        requires
            old(self).wf(),
        ensures
            final(self).wf(),
            forall|v: int|
                0 <= v < 9 ==> old(self).layers@[v].indices@.is_prefix_of(
                    (#[trigger] final(self).layers@[v]).indices@,
                ),
            (r matches Ok(SolveOutcome::Solved)) ==> final(self).spec_solved(),
            (r matches Ok(SolveOutcome::Stalled)) ==> !final(self).spec_solved(),
            (r matches Ok(SolveOutcome::Stalled)) ==> spec_no_deduction(*final(self)),
            r is Ok && spec_consistent(*old(self)) ==> spec_consistent(*final(self)),
            r is Ok ==> forall|g: spec_fn(int) -> int|
                #[trigger] valid_grid(g) && grid_extends(*old(self), g) && masks_sound(
                    *old(self),
                    g,
                ) ==> grid_extends(*final(self), g) && masks_sound(*final(self), g),
            r is Err ==> !(spec_consistent(*old(self)) && (exists|g: spec_fn(int) -> int|
                #[trigger] valid_grid(g) && grid_extends(*old(self), g) && masks_sound(
                    *old(self),
                    g,
                ))),
    {
        let mut segments: Vec<Segment> = Vec::new();
        let mut i: u32 = 1;
        while i <= 9
            invariant
                1 <= i <= 10,
                segments@.len() == 3 * (i - 1),
                forall|k: int| 0 <= k < segments@.len() ==> (#[trigger] segments@[k]).wf(),
                forall|k: int|
                    0 <= k < segments@.len() ==> #[trigger] segments@[k] == seg_of_index(k),
            decreases 10 - i,
        {
            segments.push(Segment::row(i));
            segments.push(Segment::column(i));
            segments.push(Segment::cell((i - 1) / 3 + 1, (i - 1) % 3 + 1));
            proof {
                let m = i as int - 1;
                assert((3 * m) % 3 == 0 && (3 * m) / 3 == m && (3 * m + 1) % 3 == 1 && (3 * m + 1)
                    / 3 == m && (3 * m + 2) % 3 == 2 && (3 * m + 2) / 3 == m) by (nonlinear_arith)
                    requires
                        m >= 0,
                ;
            }
            i = i + 1;
        }
        proof {
            assert forall|s: Segment| #[trigger] s.wf() implies seg_listed(s, segments@) by {
                match s {
                    Segment::Row { start } => {
                        let rr = (start as int) / 9;
                        assert(start as int == 9 * rr && 0 <= rr < 9) by (nonlinear_arith)
                            requires
                                (start as int) % 9 == 0,
                                0 <= (start as int) < 81,
                                rr == (start as int) / 9,
                                start as int == 9 * ((start as int) / 9) + (start as int) % 9,
                        ;
                        assert((3 * rr) % 3 == 0 && (3 * rr) / 3 == rr) by (nonlinear_arith)
                            requires
                                rr >= 0,
                        ;
                        assert(segments@[3 * rr] == s);
                    },
                    Segment::Column { col } => {
                        let cc = col as int;
                        assert((3 * cc + 1) % 3 == 1 && (3 * cc + 1) / 3 == cc) by (nonlinear_arith)
                            requires
                                cc >= 0,
                        ;
                        assert(segments@[3 * cc + 1] == s);
                    },
                    Segment::Cell { top } => {
                        let t = top as int;
                        let c = (t / 9) / 3;
                        let b = (t % 9) / 3;
                        assert(t == 27 * c + 3 * b && 0 <= c < 3 && 0 <= b < 3) by (nonlinear_arith)
                            requires
                                0 <= t < 81,
                                (t % 9) % 3 == 0,
                                (t / 9) % 3 == 0,
                                c == (t / 9) / 3,
                                b == (t % 9) / 3,
                        ;
                        let m = 3 * c + b;
                        assert((3 * m + 2) % 3 == 2 && (3 * m + 2) / 3 == m && m / 3 == c && m % 3
                            == b) by (nonlinear_arith)
                            requires
                                0 <= c < 3,
                                0 <= b < 3,
                                m == 3 * c + b,
                        ;
                        assert(segments@[3 * m + 2] == s);
                    },
                }
            }
            assert forall|v: int|
                0 <= v < 9 implies old(self).layers@[v].indices@.is_prefix_of(
                (#[trigger] self.layers@[v]).indices@,
            ) by {
                assert(self.layers@[v].indices@ =~= self.layers@[v].indices@.subrange(
                    0,
                    self.layers@[v].indices@.len() as int,
                ));
            }
        }
        loop
            invariant
                self.wf(),
                forall|k: int| 0 <= k < segments@.len() ==> (#[trigger] segments@[k]).wf(),
                forall|v: int|
                    0 <= v < 9 ==> old(self).layers@[v].indices@.is_prefix_of(
                        (#[trigger] self.layers@[v]).indices@,
                    ),
                spec_consistent(*old(self)) ==> spec_consistent(*self),
                forall|g: spec_fn(int) -> int|
                    #[trigger] valid_grid(g) && grid_extends(*old(self), g) && masks_sound(
                        *old(self),
                        g,
                    ) ==> grid_extends(*self, g) && masks_sound(*self, g),
                forall|s: Segment|
                    #[trigger] s.wf() ==> seg_listed(s, segments@) || all_digits_present(s, *self),
            decreases 730 - total_placed(*self, 9),
        {
            proof {
                lemma_total_bound(*self, 9);
            }
            if self.is_solved() {
                return Ok(SolveOutcome::Solved);
            }
            let ghost round_start = *self;
            let ghost segs0 = segments@;
            let before = self.count_placed();
            // order the groups: the most unsettled digits first
            let mut keyed: Vec<(usize, Segment)> = Vec::new();
            let mut k: usize = 0;
            while k < segments.len()
                invariant
                    self.wf(),
                    *self == round_start,
                    round_start.wf(),
                    segments@ == segs0,
                    forall|v: int|
                        0 <= v < 9 ==> old(self).layers@[v].indices@.is_prefix_of(
                            (#[trigger] self.layers@[v]).indices@,
                        ),
                    spec_consistent(*old(self)) ==> spec_consistent(*self),
                    forall|g: spec_fn(int) -> int|
                    #[trigger] valid_grid(g) && grid_extends(*old(self), g) && masks_sound(
                        *old(self),
                        g,
                    ) ==> grid_extends(*self, g) && masks_sound(*self, g),
                    forall|s: Segment|
                        #[trigger] s.wf() ==> seg_listed(s, segments@) || all_digits_present(
                            s,
                            *self,
                        ),
                    forall|u: int| 0 <= u < segments@.len() ==> (#[trigger] segments@[u]).wf(),
                    k <= segments@.len(),
                    keyed@.len() == k,
                    forall|u: int| 0 <= u < k ==> (#[trigger] keyed@[u]).1 == segments@[u],
                decreases segments@.len() - k,
            {
                let seg = segments[k];
                match seg.count_open(self) {
                    Ok(n) => {
                        keyed.push((n, seg));
                    },
                    Err(e) => {
                        proof {
                            if spec_consistent(*old(self)) {
                                let v = choose|v: int|
                                    0 <= v < 9 && count_positions(
                                        seg,
                                        (#[trigger] self.layers@[v]).indices@,
                                    ) >= 2;
                                assert(count_positions(seg, self.layers@[v].indices@) <= 1);
                            }
                        }
                        return Err(e);
                    },
                }
                k = k + 1;
            }
            let mut ordered: Vec<Segment> = Vec::new();
            proof {
                assert forall|u: int|
                    0 <= u < segs0.len() implies (exists|j: int|
                    0 <= j < keyed@.len() && (#[trigger] keyed@[j]).1 == segs0[u]) || seg_listed(
                    #[trigger] segs0[u],
                    ordered@,
                ) by {
                    assert(keyed@[u].1 == segs0[u]);
                }
            }
            while keyed.len() > 0
                invariant
                    forall|u: int| 0 <= u < keyed@.len() ==> (#[trigger] keyed@[u]).1.wf(),
                    forall|u: int| 0 <= u < ordered@.len() ==> (#[trigger] ordered@[u]).wf(),
                    forall|u: int|
                        0 <= u < segs0.len() ==> (exists|j: int|
                            0 <= j < keyed@.len() && (#[trigger] keyed@[j]).1 == segs0[u])
                            || seg_listed(#[trigger] segs0[u], ordered@),
                decreases keyed@.len(),
            {
                let mut best: usize = 0;
                let mut j: usize = 1;
                while j < keyed.len()
                    invariant
                        keyed@.len() > 0,
                        best < keyed@.len(),
                        j <= keyed@.len(),
                    decreases keyed@.len() - j,
                {
                    if keyed[j].0 > keyed[best].0 {
                        best = j;
                    }
                    j = j + 1;
                }
                let ghost kprev = keyed@;
                let ghost oprev = ordered@;
                let (_, seg) = keyed.remove(best);
                ordered.push(seg);
                proof {
                    assert forall|u: int|
                        0 <= u < segs0.len() implies (exists|j2: int|
                        0 <= j2 < keyed@.len() && (#[trigger] keyed@[j2]).1 == segs0[u])
                        || seg_listed(#[trigger] segs0[u], ordered@) by {
                        if !seg_listed(segs0[u], oprev) {
                            let j2 = choose|j2: int|
                                0 <= j2 < kprev.len() && (#[trigger] kprev[j2]).1 == segs0[u];
                            if j2 == best as int {
                                assert(ordered@[ordered@.len() - 1] == segs0[u]);
                            } else if j2 < best as int {
                                assert(keyed@[j2].1 == kprev[j2].1);
                            } else {
                                assert(keyed@[j2 - 1].1 == kprev[j2].1);
                            }
                        } else {
                            let j3 = choose|j3: int|
                                0 <= j3 < oprev.len() && #[trigger] oprev[j3] == segs0[u];
                            assert(ordered@[j3] == segs0[u]);
                        }
                    }
                }
            }
            // let every group commit the placements it can force
            let mut k: usize = 0;
            while k < ordered.len()
                invariant
                    self.wf(),
                    round_start.wf(),
                    k <= ordered@.len(),
                    segments@ == segs0,
                    forall|u: int| 0 <= u < ordered@.len() ==> (#[trigger] ordered@[u]).wf(),
                    forall|u: int| 0 <= u < segments@.len() ==> (#[trigger] segments@[u]).wf(),
                    forall|u: int|
                        0 <= u < segs0.len() ==> seg_listed(#[trigger] segs0[u], ordered@),
                    forall|v: int|
                        0 <= v < 9 ==> round_start.layers@[v].indices@.is_prefix_of(
                            (#[trigger] self.layers@[v]).indices@,
                        ),
                    forall|v: int|
                        0 <= v < 9 ==> old(self).layers@[v].indices@.is_prefix_of(
                            (#[trigger] round_start.layers@[v]).indices@,
                        ),
                    spec_consistent(*old(self)) ==> spec_consistent(*self),
                    forall|g: spec_fn(int) -> int|
                    #[trigger] valid_grid(g) && grid_extends(*old(self), g) && masks_sound(
                        *old(self),
                        g,
                    ) ==> grid_extends(*self, g) && masks_sound(*self, g),
                    forall|s: Segment|
                        #[trigger] s.wf() ==> seg_listed(s, segs0) || all_digits_present(s, *self),
                    (same_board(*self, round_start) && (forall|u: int, v: int|
                        0 <= u < k && 0 <= v < 9 ==> (#[trigger] spec_find(
                            ordered@[u],
                            *self,
                            v,
                        )) is None)) || total_placed(*self, 9) > total_placed(round_start, 9),
                decreases ordered@.len() - k,
            {
                let seg = ordered[k];
                let ghost pre = *self;
                match seg.iterate(self) {
                    Ok(()) => {},
                    Err(e) => {
                        proof {
                            lemma_puzzle_prefix_trans(round_start, pre, *self);
                            lemma_puzzle_prefix_trans(*old(self), round_start, *self);
                            if spec_consistent(*old(self)) && (exists|g: spec_fn(int) -> int|
                                #[trigger] valid_grid(g) && grid_extends(*old(self), g)
                                    && masks_sound(*old(self), g)) {
                                let g = choose|g: spec_fn(int) -> int|
                                    #[trigger] valid_grid(g) && grid_extends(*old(self), g)
                                        && masks_sound(*old(self), g);
                                assert(grid_extends(pre, g) && masks_sound(pre, g));
                                if exists|v: int|
                                    0 <= v < 9 && count_positions(
                                        seg,
                                        (#[trigger] pre.layers@[v]).indices@,
                                    ) >= 2 {
                                    let v = choose|v: int|
                                        0 <= v < 9 && count_positions(
                                            seg,
                                            (#[trigger] pre.layers@[v]).indices@,
                                        ) >= 2;
                                    assert(count_positions(seg, pre.layers@[v].indices@) <= 1);
                                } else {
                                    let (v1, v2) = choose|v1: int, v2: int|
                                        0 <= v1 < v2 < 9 && #[trigger] spec_find(
                                            seg,
                                            pre,
                                            v1,
                                        ) is Some && #[trigger] spec_find(seg, pre, v2) is Some
                                            && spec_find(seg, pre, v1) == spec_find(seg, pre, v2);
                                    lemma_find_sound(seg, pre, g, v1);
                                    lemma_find_sound(seg, pre, g, v2);
                                    assert(false);
                                }
                            }
                        }
                        return Err(e);
                    },
                }
                proof {
                    assert forall|v: int|
                        0 <= v < 9 implies round_start.layers@[v].indices@.is_prefix_of(
                        (#[trigger] self.layers@[v]).indices@,
                    ) by {
                        lemma_prefix_trans(
                            round_start.layers@[v].indices@,
                            pre.layers@[v].indices@,
                            self.layers@[v].indices@,
                        );
                    }
                    if spec_consistent(*old(self)) {
                        lemma_find_keeps_consistent(seg, pre, *self);
                    }
                    assert forall|g: spec_fn(int) -> int|
                        #[trigger] valid_grid(g) && grid_extends(*old(self), g) && masks_sound(
                            *old(self),
                            g,
                        ) implies grid_extends(*self, g) && masks_sound(*self, g) by {
                        lemma_iterate_sound(seg, pre, *self, g);
                    }
                    assert forall|s: Segment|
                        #[trigger] s.wf() implies seg_listed(s, segs0) || all_digits_present(
                        s,
                        *self,
                    ) by {
                        if !seg_listed(s, segs0) {
                            assert forall|v: int|
                                0 <= v < 9 implies #[trigger] count_positions(
                                s,
                                self.layers@[v].indices@,
                            ) >= 1 by {
                                lemma_count_prefix_monotone(
                                    s,
                                    pre.layers@[v].indices@,
                                    self.layers@[v].indices@,
                                );
                            }
                        }
                    }
                    if same_board(pre, round_start) && (forall|u: int, v: int|
                        0 <= u < k && 0 <= v < 9 ==> (#[trigger] spec_find(
                            ordered@[u],
                            pre,
                            v,
                        )) is None) {
                        if exists|v: int|
                            0 <= v < 9 && (#[trigger] spec_find(seg, pre, v)) is Some {
                            let v = choose|v: int|
                                0 <= v < 9 && (#[trigger] spec_find(seg, pre, v)) is Some;
                            assert(self.layers@[v].indices@.len() == pre.layers@[v].indices@.len()
                                + 1);
                            lemma_total_strict(round_start, *self, 9, v);
                        } else {
                            assert forall|u: int|
                                0 <= u < 9 implies (#[trigger] self.layers@[u]).indices@
                                == round_start.layers@[u].indices@ && self.layers@[u].mask@
                                == round_start.layers@[u].mask@ by {
                                assert(self.layers@[u].indices@ == pre.layers@[u].indices@);
                                assert(self.layers@[u].mask@ =~= pre.layers@[u].mask@);
                            }
                            assert forall|u: int, v: int|
                                0 <= u < k + 1 && 0 <= v < 9 implies (#[trigger] spec_find(
                                ordered@[u],
                                *self,
                                v,
                            )) is None by {
                                lemma_spec_find_congruent(ordered@[u], *self, pre, v);
                            }
                        }
                    } else {
                        lemma_total_monotone(pre, *self, 9);
                    }
                }
                k = k + 1;
            }
            // drop the groups that can never deduce anything again
            let mut kept: Vec<Segment> = Vec::new();
            let mut k: usize = 0;
            while k < segments.len()
                invariant
                    self.wf(),
                    round_start.wf(),
                    k <= segments@.len(),
                    segments@ == segs0,
                    forall|u: int| 0 <= u < segments@.len() ==> (#[trigger] segments@[u]).wf(),
                    forall|u: int| 0 <= u < kept@.len() ==> (#[trigger] kept@[u]).wf(),
                    forall|u: int| 0 <= u < kept@.len() ==> seg_listed(#[trigger] kept@[u], segs0),
                    forall|u: int|
                        0 <= u < k ==> seg_listed(#[trigger] segs0[u], kept@) || all_digits_present(
                            segs0[u],
                            *self,
                        ),
                    forall|u: int|
                        0 <= u < segs0.len() ==> seg_listed(#[trigger] segs0[u], ordered@),
                    forall|u: int| 0 <= u < ordered@.len() ==> (#[trigger] ordered@[u]).wf(),
                    forall|v: int|
                        0 <= v < 9 ==> round_start.layers@[v].indices@.is_prefix_of(
                            (#[trigger] self.layers@[v]).indices@,
                        ),
                    forall|v: int|
                        0 <= v < 9 ==> old(self).layers@[v].indices@.is_prefix_of(
                            (#[trigger] round_start.layers@[v]).indices@,
                        ),
                    spec_consistent(*old(self)) ==> spec_consistent(*self),
                    forall|g: spec_fn(int) -> int|
                    #[trigger] valid_grid(g) && grid_extends(*old(self), g) && masks_sound(
                        *old(self),
                        g,
                    ) ==> grid_extends(*self, g) && masks_sound(*self, g),
                    forall|s: Segment|
                        #[trigger] s.wf() ==> seg_listed(s, segs0) || all_digits_present(s, *self),
                    (same_board(*self, round_start) && (forall|u: int, v: int|
                        0 <= u < ordered@.len() && 0 <= v < 9 ==> (#[trigger] spec_find(
                            ordered@[u],
                            *self,
                            v,
                        )) is None)) || total_placed(*self, 9) > total_placed(round_start, 9),
                decreases segments@.len() - k,
            {
                let seg = segments[k];
                let ghost kprev = kept@;
                match seg.count_open(self) {
                    Ok(n) => {
                        if n > 0 {
                            kept.push(seg);
                        } else {
                            proof {
                                lemma_count_open_zero(seg, *self, 9);
                                assert(all_digits_present(seg, *self));
                            }
                        }
                    },
                    Err(e) => {
                        proof {
                            lemma_puzzle_prefix_trans(*old(self), round_start, *self);
                            if spec_consistent(*old(self)) {
                                let v = choose|v: int|
                                    0 <= v < 9 && count_positions(
                                        seg,
                                        (#[trigger] self.layers@[v]).indices@,
                                    ) >= 2;
                                assert(count_positions(seg, self.layers@[v].indices@) <= 1);
                            }
                        }
                        return Err(e);
                    },
                }
                proof {
                    assert forall|u: int|
                        0 <= u < k + 1 implies seg_listed(#[trigger] segs0[u], kept@)
                        || all_digits_present(segs0[u], *self) by {
                        if u < k {
                            if seg_listed(segs0[u], kprev) {
                                let j = choose|j: int|
                                    0 <= j < kprev.len() && #[trigger] kprev[j] == segs0[u];
                                assert(kept@[j] == segs0[u]);
                            }
                        } else {
                            if kept@.len() > kprev.len() {
                                assert(kept@[kept@.len() - 1] == segs0[u]);
                            }
                        }
                    }
                }
                k = k + 1;
            }
            segments = kept;
            proof {
                assert forall|s: Segment|
                    #[trigger] s.wf() implies seg_listed(s, segments@) || all_digits_present(
                    s,
                    *self,
                ) by {
                    if seg_listed(s, segs0) && !all_digits_present(s, *self) {
                        let u = choose|u: int| 0 <= u < segs0.len() && #[trigger] segs0[u] == s;
                        assert(seg_listed(segs0[u], segments@) || all_digits_present(
                            segs0[u],
                            *self,
                        ));
                    }
                }
            }
            let after = self.count_placed();
            proof {
                lemma_puzzle_prefix_trans(*old(self), round_start, *self);
                lemma_total_monotone(round_start, *self, 9);
                lemma_total_bound(*self, 9);
            }
            if after == before {
                proof {
                    assert(same_board(*self, round_start));
                    assert forall|s: Segment, v: int|
                        s.wf() && 0 <= v < 9 implies (#[trigger] spec_find(s, *self, v))
                        is None by {
                        if seg_listed(s, segments@) {
                            let u = choose|u: int|
                                0 <= u < segments@.len() && #[trigger] segments@[u] == s;
                            let u0 = choose|u0: int|
                                0 <= u0 < segs0.len() && #[trigger] segs0[u0] == s;
                            let u1 = choose|u1: int|
                                0 <= u1 < ordered@.len() && #[trigger] ordered@[u1] == s;
                            assert(spec_find(ordered@[u1], *self, v) is None);
                        } else {
                            assert(count_positions(s, self.layers@[v].indices@) >= 1);
                        }
                    }
                    let w = choose|w: int|
                        0 <= w < 9 && (#[trigger] round_start.layers@[w]).indices@.len() != 9;
                    assert(self.layers@[w].indices@.len() != 9);
                }
                return Ok(SolveOutcome::Stalled);
            }
        }
    }


    /// Whether the whole grid is filled.
    pub fn is_solved(&self) -> (r: bool)
        requires
            self.wf(),
        ensures
            r == self.spec_solved(),
    {
        let mut v: usize = 0;
        while v < 9
            invariant
                self.wf(),
                v <= 9,
                forall|u: int| 0 <= u < v ==> (#[trigger] self.layers@[u]).indices@.len() == 9,
            decreases 9 - v,
        {
            if !self.layers[v].is_solved() {
                return false;
            }
            v = v + 1;
        }
        true
    }
}

/// Fault: the textual grid is malformed.
#[derive(Debug)]
pub enum ParseError {
    /// The text does not hold exactly 81 characters.
    WrongLength,
    /// Some character is not an ASCII digit.
    InvalidCharacter,
}

/// The digit a character stands for, or -1 when it is no digit.
pub open spec fn digit_of(c: char) -> int {
    if c == '0' {
        0
    } else if c == '1' {
        1
    } else if c == '2' {
        2
    } else if c == '3' {
        3
    } else if c == '4' {
        4
    } else if c == '5' {
        5
    } else if c == '6' {
        6
    } else if c == '7' {
        7
    } else if c == '8' {
        8
    } else if c == '9' {
        9
    } else {
        -1
    }
}

/// The positions among `0..n` whose character in `s` is digit `d`, ascending.
pub open spec fn digit_positions(s: Seq<char>, d: int, n: int) -> Seq<u32>
    decreases n,
{
    if n <= 0 {
        Seq::empty()
    } else {
        digit_positions(s, d, n - 1) + (if digit_of(s[n - 1]) == d {
            seq![(n - 1) as u32]
        } else {
            Seq::empty()
        })
    }
}

/// Whether parsing the first `n` characters of grid text `s` blocks position
/// `j` for digit `d`: some earlier occurrence of `d` reaches `j`, or `j`
/// itself holds another digit.
pub open spec fn parse_blocked(s: Seq<char>, d: int, j: int, n: int) -> bool {
    (exists|q: int| 0 <= q < n && digit_of(#[trigger] s[q]) == d && peers(q, j)) || (j < n
        && digit_of(s[j]) >= 1 && digit_of(s[j]) != d)
}

proof fn lemma_digit_positions_range(s: Seq<char>, d: int, n: int)
    requires
        0 <= n,
    ensures
        forall|k: int|
            0 <= k < digit_positions(s, d, n).len() ==> (#[trigger] digit_positions(s, d, n)[k])
                < n,
    decreases n,
{
    if n > 0 {
        lemma_digit_positions_range(s, d, n - 1);
        assert forall|k: int|
            0 <= k < digit_positions(s, d, n).len() implies (#[trigger] digit_positions(
            s,
            d,
            n,
        )[k]) < n by {
            if k < digit_positions(s, d, n - 1).len() {
                assert(digit_positions(s, d, n)[k] == digit_positions(s, d, n - 1)[k]);
            } else {
                assert(digit_positions(s, d, n)[k] == (n - 1) as u32);
            }
        }
    }
}

/// The character that renders digit `d`, with `'0'` for an empty cell.
pub open spec fn digit_char(d: int) -> char {
    if d == 1 {
        '1'
    } else if d == 2 {
        '2'
    } else if d == 3 {
        '3'
    } else if d == 4 {
        '4'
    } else if d == 5 {
        '5'
    } else if d == 6 {
        '6'
    } else if d == 7 {
        '7'
    } else if d == 8 {
        '8'
    } else if d == 9 {
        '9'
    } else {
        '0'
    }
}

/// The digit confirmed at position `j`, or 0 when the cell is unresolved.
pub open spec fn placed_digit(p: Puzzle, j: int) -> int {
    if p.placed(j) {
        (choose|v: int, k: int|
            0 <= v < 9 && 0 <= k < p.layers@[v].indices@.len()
                && #[trigger] p.layers@[v].indices@[k] as int == j).0 + 1
    } else {
        0
    }
}

/// The 81-character rendering of the board, row-major.
pub open spec fn spec_readout(p: Puzzle) -> Seq<char> {
    Seq::new(81, |j: int| digit_char(placed_digit(p, j)))
}

/// The cross-layer invariant in words: on a well-formed board, no position is
/// confirmed for two digits, however the board was built up by `update`.
pub proof fn lemma_placed_unique(p: &Puzzle, v1: int, k1: int, v2: int, k2: int)
    requires
        p.wf(),
        0 <= v1 < 9,
        0 <= k1 < p.layers@[v1].indices@.len(),
        0 <= v2 < 9,
        0 <= k2 < p.layers@[v2].indices@.len(),
        p.layers@[v1].indices@[k1] == p.layers@[v2].indices@[k2],
    ensures
        v1 == v2 && k1 == k2,
{
}

/// Rendering is a pure function of the board: two readouts with no mutation
/// in between agree.
pub proof fn lemma_readout_deterministic(p: Puzzle, a: Seq<char>, b: Seq<char>)
    requires
        a == spec_readout(p),
        b == spec_readout(p),
    ensures
        a == b,
{
}

/// A position that is open in any layer's mask is confirmed nowhere: every
/// confirmed position is blocked in every layer.
pub proof fn lemma_unblocked_unplaced(p: &Puzzle, v: int, j: int)
    requires
        p.wf(),
        0 <= v < 9,
        0 <= j < 81,
        !p.layers@[v].mask@[j],
    ensures
        !p.placed(j),
{
    if p.placed(j) {
        let (v1, k1) = choose|v1: int, k1: int|
            0 <= v1 < 9 && 0 <= k1 < p.layers@[v1].indices@.len()
                && #[trigger] p.layers@[v1].indices@[k1] as int == j;
        assert(p.layers@[v].mask@[p.layers@[v1].indices@[k1] as int]);
    }
}

proof fn lemma_digit_positions_props(s: Seq<char>, d: int, n: int)
    requires
        0 <= n <= 81,
    ensures
        forall|k: int|
            0 <= k < digit_positions(s, d, n).len() ==> 0 <= #[trigger] digit_positions(
                s,
                d,
                n,
            )[k] < n && digit_of(s[digit_positions(s, d, n)[k] as int]) == d,
        forall|q: int|
            0 <= q < n && digit_of(#[trigger] s[q]) == d ==> exists|k: int|
                0 <= k < digit_positions(s, d, n).len() && #[trigger] digit_positions(
                    s,
                    d,
                    n,
                )[k] as int == q,
        forall|k1: int, k2: int|
            0 <= k1 < k2 < digit_positions(s, d, n).len() ==> #[trigger] digit_positions(
                s,
                d,
                n,
            )[k1] < #[trigger] digit_positions(s, d, n)[k2],
    decreases n,
{
    if n > 0 {
        lemma_digit_positions_props(s, d, n - 1);
        assert forall|k: int|
            0 <= k < digit_positions(s, d, n).len() implies 0 <= #[trigger] digit_positions(
            s,
            d,
            n,
        )[k] < n && digit_of(s[digit_positions(s, d, n)[k] as int]) == d by {
            if k < digit_positions(s, d, n - 1).len() {
                assert(digit_positions(s, d, n)[k] == digit_positions(s, d, n - 1)[k]);
            } else {
                assert(digit_positions(s, d, n)[k] == (n - 1) as u32);
            }
        }
        assert forall|q: int|
            0 <= q < n && digit_of(#[trigger] s[q]) == d implies exists|k: int|
            0 <= k < digit_positions(s, d, n).len() && #[trigger] digit_positions(
                s,
                d,
                n,
            )[k] as int == q by {
            if q < n - 1 {
                let k = choose|k: int|
                    0 <= k < digit_positions(s, d, n - 1).len() && #[trigger] digit_positions(
                        s,
                        d,
                        n - 1,
                    )[k] as int == q;
                assert(digit_positions(s, d, n)[k] as int == q);
            } else {
                assert(digit_positions(s, d, n)[digit_positions(s, d, n - 1).len() as int] as int
                    == n - 1);
            }
        }
    }
}

/// Whether digit `d` appears somewhere in segment `s` of grid `g`.
pub open spec fn digit_in_segment(g: spec_fn(int) -> int, s: Segment, d: int) -> bool {
    exists|k: int| 0 <= k < 9 && g(#[trigger] s.pos(k)) == d
}

/// A complete assignment of digits to the 81 board positions that satisfies
/// the Sudoku constraints: every value is a digit, two positions sharing a
/// row, column or block never hold the same digit, and every digit appears
/// in every constraint group.
pub open spec fn valid_grid(g: spec_fn(int) -> int) -> bool {
    &&& forall|j: int| 0 <= j < 81 ==> 1 <= #[trigger] g(j) <= 9
    &&& forall|j1: int, j2: int|
        0 <= j1 < 81 && 0 <= j2 < 81 && j1 != j2 && #[trigger] peers(j1, j2) ==> g(j1) != g(j2)
    &&& forall|s: Segment, d: int|
        s.wf() && 1 <= d <= 9 ==> #[trigger] digit_in_segment(g, s, d)
}

/// Whether grid `g` agrees with every placement confirmed on the board.
pub open spec fn grid_extends(p: Puzzle, g: spec_fn(int) -> int) -> bool {
    forall|v: int, k: int|
        0 <= v < 9 && 0 <= k < p.layers@[v].indices@.len() ==> g(
            #[trigger] p.layers@[v].indices@[k] as int,
        ) == v + 1
}

/// Whether every blocked bit is justified against grid `g`: a position
/// blocked for a digit either does not hold that digit in `g`, or is the
/// digit's own confirmed cell.
pub open spec fn masks_sound(p: Puzzle, g: spec_fn(int) -> int) -> bool {
    forall|v: int, j: int|
        0 <= v < 9 && 0 <= j < 81 && #[trigger] p.layers@[v].mask@[j] && g(j) == v + 1
            ==> exists|k: int|
            0 <= k < p.layers@[v].indices@.len() && #[trigger] p.layers@[v].indices@[k] as int == j
}

/// Elimination is never incorrect: a located position really holds its digit
/// in every valid grid that the board's blocked bits are justified against.
pub proof fn lemma_find_sound(s: Segment, p: Puzzle, g: spec_fn(int) -> int, v: int)
    requires
        s.wf(),
        p.wf(),
        0 <= v < 9,
        valid_grid(g),
        masks_sound(p, g),
        spec_find(s, p, v) is Some,
    ensures
        g(spec_find(s, p, v)->Some_0) == v + 1,
{
    let q = spec_find(s, p, v)->Some_0;
    lemma_locate_some(s, p.layers@[v].mask@, q);
    assert(digit_in_segment(g, s, v + 1));
    let k = choose|k: int| 0 <= k < 9 && g(#[trigger] s.pos(k)) == v + 1;
    lemma_pos_in_segment(s, k);
    let j = s.pos(k);
    if j != q {
        assert(p.layers@[v].mask@[j]);
        let k2 = choose|k2: int|
            0 <= k2 < p.layers@[v].indices@.len() && #[trigger] p.layers@[v].indices@[k2] as int
                == j;
        lemma_count_contains_ge_one(s, p.layers@[v].indices@, k2);
        assert(false);
    }
}

/// One deduction pass keeps the board faithful to every valid grid it was
/// faithful to: the committed placements agree with the grid, and every new
/// blocked bit is justified.
pub proof fn lemma_iterate_sound(seg0: Segment, p1: Puzzle, p2: Puzzle, g: spec_fn(int) -> int)
    requires
        seg0.wf(),
        p1.wf(),
        valid_grid(g),
        grid_extends(p1, g),
        masks_sound(p1, g),
        forall|v: int|
            0 <= v < 9 ==> (#[trigger] p2.layers@[v]).indices@ == (match spec_find(seg0, p1, v) {
                Some(q) => p1.layers@[v].indices@.push(q as u32),
                None => p1.layers@[v].indices@,
            }),
        forall|v: int, j: int|
            0 <= v < 9 && 0 <= j < 81 ==> (#[trigger] p2.layers@[v].mask@[j]) == (
            p1.layers@[v].mask@[j] || (spec_find(seg0, p1, v) matches Some(q) && peers(q, j)) || (
            exists|v2: int| 0 <= v2 < 9 && v2 != v && #[trigger] spec_find(seg0, p1, v2) == Some(j))),
    ensures
        grid_extends(p2, g),
        masks_sound(p2, g),
{
    assert forall|v: int, k: int|
        0 <= v < 9 && 0 <= k < p2.layers@[v].indices@.len() implies g(
        #[trigger] p2.layers@[v].indices@[k] as int,
    ) == v + 1 by {
        if spec_find(seg0, p1, v) is Some {
            let q = spec_find(seg0, p1, v)->Some_0;
            lemma_find_sound(seg0, p1, g, v);
            lemma_locate_some(seg0, p1.layers@[v].mask@, q);
            if k < p1.layers@[v].indices@.len() {
                assert(p2.layers@[v].indices@[k] == p1.layers@[v].indices@[k]);
                assert(g(p1.layers@[v].indices@[k] as int) == v + 1);
            } else {
                assert(p2.layers@[v].indices@[k] == (q as u32));
            }
        } else {
            assert(p2.layers@[v].indices@[k] == p1.layers@[v].indices@[k]);
            assert(g(p1.layers@[v].indices@[k] as int) == v + 1);
        }
    }
    assert forall|v: int, j: int|
        0 <= v < 9 && 0 <= j < 81 && #[trigger] p2.layers@[v].mask@[j] && g(j) == v
        + 1 implies exists|k: int|
        0 <= k < p2.layers@[v].indices@.len() && #[trigger] p2.layers@[v].indices@[k] as int
            == j by {
        if p1.layers@[v].mask@[j] {
            let k = choose|k: int|
                0 <= k < p1.layers@[v].indices@.len()
                    && #[trigger] p1.layers@[v].indices@[k] as int == j;
            assert(p2.layers@[v].indices@[k] as int == j);
        } else if spec_find(seg0, p1, v) matches Some(q) && peers(q, j) {
            let q = spec_find(seg0, p1, v)->Some_0;
            lemma_find_sound(seg0, p1, g, v);
            lemma_locate_some(seg0, p1.layers@[v].mask@, q);
            assert(j == q);
            let k = p1.layers@[v].indices@.len() as int;
            assert(p2.layers@[v].indices@[k] as int == j);
        } else {
            let v2 = choose|v2: int|
                0 <= v2 < 9 && v2 != v && #[trigger] spec_find(seg0, p1, v2) == Some(j);
            lemma_find_sound(seg0, p1, g, v2);
            assert(false);
        }
    }
}

/// A freshly parsed board is faithful to every valid grid that agrees with
/// the nonzero digits of its text: the placements agree with the grid and
/// every blocked bit is justified.
pub proof fn lemma_parse_sound(feed: Seq<char>, p: Puzzle, g: spec_fn(int) -> int)
    requires
        feed.len() == 81,
        valid_grid(g),
        forall|j: int|
            0 <= j < 81 && 1 <= digit_of(#[trigger] feed[j]) ==> g(j) == digit_of(feed[j]),
        forall|v: int|
            0 <= v < 9 ==> (#[trigger] p.layers@[v]).indices@ == digit_positions(feed, v + 1, 81),
        forall|v: int, j: int|
            0 <= v < 9 && 0 <= j < 81 ==> (#[trigger] p.layers@[v].mask@[j]) == parse_blocked(
                feed,
                v + 1,
                j,
                81,
            ),
    ensures
        grid_extends(p, g),
        masks_sound(p, g),
{
    assert forall|v: int, k: int|
        0 <= v < 9 && 0 <= k < p.layers@[v].indices@.len() implies g(
        #[trigger] p.layers@[v].indices@[k] as int,
    ) == v + 1 by {
        lemma_digit_positions_props(feed, v + 1, 81);
        assert(digit_of(feed[digit_positions(feed, v + 1, 81)[k] as int]) == v + 1);
    }
    assert forall|v: int, j: int|
        0 <= v < 9 && 0 <= j < 81 && #[trigger] p.layers@[v].mask@[j] && g(j) == v
        + 1 implies exists|k: int|
        0 <= k < p.layers@[v].indices@.len() && #[trigger] p.layers@[v].indices@[k] as int
            == j by {
        lemma_digit_positions_props(feed, v + 1, 81);
        if exists|q: int| 0 <= q < 81 && digit_of(#[trigger] feed[q]) == v + 1 && peers(q, j) {
            let q = choose|q: int|
                0 <= q < 81 && digit_of(#[trigger] feed[q]) == v + 1 && peers(q, j);
            assert(g(q) == v + 1);
            assert(q == j);
            let k = choose|k: int|
                0 <= k < digit_positions(feed, v + 1, 81).len() && #[trigger] digit_positions(
                    feed,
                    v + 1,
                    81,
                )[k] as int == j;
            assert(p.layers@[v].indices@[k] as int == j);
        } else {
            assert(digit_of(feed[j]) >= 1 && digit_of(feed[j]) != v + 1);
            assert(g(j) == digit_of(feed[j]));
            assert(false);
        }
    }
}

/// A freshly parsed board whose text agrees with a valid grid is consistent:
/// no digit is confirmed twice inside any constraint group.
pub proof fn lemma_parse_consistent(feed: Seq<char>, p: Puzzle, g: spec_fn(int) -> int)
    requires
        feed.len() == 81,
        valid_grid(g),
        forall|j: int|
            0 <= j < 81 && 1 <= digit_of(#[trigger] feed[j]) ==> g(j) == digit_of(feed[j]),
        forall|v: int|
            0 <= v < 9 ==> (#[trigger] p.layers@[v]).indices@ == digit_positions(feed, v + 1, 81),
    ensures
        spec_consistent(p),
{
    assert forall|s: Segment, v: int|
        s.wf() && 0 <= v < 9 implies #[trigger] count_positions(s, p.layers@[v].indices@)
        <= 1 by {
        lemma_digit_positions_props(feed, v + 1, 81);
        if count_positions(s, p.layers@[v].indices@) >= 2 {
            lemma_count_ge_two_exists(
                s,
                p.layers@[v].indices@,
                p.layers@[v].indices@.len() as int,
            );
            let (k1, k2) = choose|k1: int, k2: int|
                0 <= k1 < k2 < p.layers@[v].indices@.len() && s.contains(
                    #[trigger] p.layers@[v].indices@[k1] as int,
                ) && s.contains(#[trigger] p.layers@[v].indices@[k2] as int);
            let q1 = p.layers@[v].indices@[k1] as int;
            let q2 = p.layers@[v].indices@[k2] as int;
            assert(g(q1) == v + 1 && g(q2) == v + 1);
            lemma_same_segment_peers(s, q1, q2);
            assert(false);
        }
        lemma_count_in_nonneg(s, p.layers@[v].indices@, p.layers@[v].indices@.len() as int);
    }
}

/// No constraint group can force any digit anywhere: the grid is at the
/// fixed point of pure elimination.
pub open spec fn spec_no_deduction(p: Puzzle) -> bool {
    forall|s: Segment, v: int|
        s.wf() && 0 <= v < 9 ==> (#[trigger] spec_find(s, p, v)) is None
}

/// Each digit is confirmed at most once inside each constraint group: the
/// placements form a (possibly partial) valid grid.
pub open spec fn spec_consistent(p: Puzzle) -> bool {
    forall|s: Segment, v: int|
        s.wf() && 0 <= v < 9 ==> #[trigger] count_positions(s, p.layers@[v].indices@) <= 1
}

/// The two boards hold the same placements and the same blocked bits.
pub open spec fn same_board(p1: Puzzle, p2: Puzzle) -> bool {
    &&& forall|v: int|
        0 <= v < 9 ==> (#[trigger] p1.layers@[v]).indices@ == p2.layers@[v].indices@
    &&& forall|v: int| 0 <= v < 9 ==> (#[trigger] p1.layers@[v]).mask@ == p2.layers@[v].mask@
}

/// Whether the segment occurs in the sequence.
pub open spec fn seg_listed(s: Segment, sv: Seq<Segment>) -> bool {
    exists|i: int| 0 <= i < sv.len() && sv[i] == s
}

/// Every digit already has a confirmed position inside `s`: the group can
/// never again produce a deduction.
pub open spec fn all_digits_present(s: Segment, p: Puzzle) -> bool {
    forall|v: int|
        0 <= v < 9 ==> #[trigger] count_positions(s, p.layers@[v].indices@) >= 1
}

/// The segment stored at slot `k` of the solver's work list: the lists of
/// rows, columns and blocks are interleaved in groups of three.
pub open spec fn seg_of_index(k: int) -> Segment {
    if k % 3 == 0 {
        Segment::Row { start: (9 * (k / 3)) as u32 }
    } else if k % 3 == 1 {
        Segment::Column { col: (k / 3) as u32 }
    } else {
        Segment::Cell { top: (27 * ((k / 3) / 3) + 3 * ((k / 3) % 3)) as u32 }
    }
}

/// A committed deduction keeps the board consistent: the digit had no
/// placement yet in any group that holds the deduced position, because such
/// a placement would have blocked it.
pub proof fn lemma_find_keeps_consistent(seg0: Segment, p1: Puzzle, p2: Puzzle)
    requires
        seg0.wf(),
        p1.wf(),
        spec_consistent(p1),
        forall|v: int|
            0 <= v < 9 ==> (#[trigger] p2.layers@[v]).indices@ == (match spec_find(seg0, p1, v) {
                Some(q) => p1.layers@[v].indices@.push(q as u32),
                None => p1.layers@[v].indices@,
            }),
    ensures
        spec_consistent(p2),
{
    assert forall|s: Segment, v: int|
        s.wf() && 0 <= v < 9 implies #[trigger] count_positions(s, p2.layers@[v].indices@)
        <= 1 by {
        if spec_find(seg0, p1, v) is Some {
            let q = spec_find(seg0, p1, v)->Some_0;
            lemma_locate_some(seg0, p1.layers@[v].mask@, q);
            lemma_count_push(s, p1.layers@[v].indices@, q as u32);
            if s.contains(q) {
                lemma_count_in_nonneg(
                    s,
                    p1.layers@[v].indices@,
                    p1.layers@[v].indices@.len() as int,
                );
                if count_positions(s, p1.layers@[v].indices@) >= 1 {
                    lemma_count_ge_one_exists(
                        s,
                        p1.layers@[v].indices@,
                        p1.layers@[v].indices@.len() as int,
                    );
                    let k = choose|k: int|
                        0 <= k < p1.layers@[v].indices@.len() && s.contains(
                            #[trigger] p1.layers@[v].indices@[k] as int,
                        );
                    lemma_same_segment_peers(s, p1.layers@[v].indices@[k] as int, q);
                    assert(p1.layers@[v].mask@[q]);
                    assert(false);
                }
            }
        }
    }
}

/// How the elimination loop ended.
#[derive(Debug)]
pub enum SolveOutcome {
    /// Every cell holds a digit.
    Solved,
    /// A full round produced no new placement: the grid cannot be finished
    /// by pure elimination from here.
    Stalled,
}

/// Total number of confirmed placements across the first `n` layers.
pub open spec fn total_placed(p: Puzzle, n: int) -> int
    decreases n,
{
    if n <= 0 {
        0
    } else {
        total_placed(p, n - 1) + p.layers@[n - 1].indices@.len()
    }
}

/// No layer can confirm more than the 81 board positions: its placements are
/// pairwise distinct positions below 81.
pub proof fn lemma_layer_len_bound(p: Puzzle, v: int)
    requires
        p.wf(),
        0 <= v < 9,
    ensures
        p.layers@[v].indices@.len() <= 81,
{
    let s = p.layers@[v].indices@;
    let si = s.map_values(|x: u32| x as int);
    assert forall|k1: int, k2: int| 0 <= k1 < k2 < si.len() implies si[k1] != si[k2] by {
        assert(s[k1] == p.layers@[v].indices@[k1] && s[k2] == p.layers@[v].indices@[k2]);
    }
    si.unique_seq_to_set();
    vstd::set_lib::lemma_int_range(0, 81);
    assert forall|x: int| si.to_set().contains(x) implies vstd::set_lib::set_int_range(
        0,
        81,
    ).contains(x) by {
        let k = choose|k: int| 0 <= k < si.len() && si[k] == x;
        assert(s[k] < 81);
    }
    vstd::set_lib::lemma_len_subset(si.to_set(), vstd::set_lib::set_int_range(0, 81));
}

proof fn lemma_total_bound(p: Puzzle, n: int)
    requires
        p.wf(),
        0 <= n <= 9,
    ensures
        0 <= total_placed(p, n) <= 81 * n,
    decreases n,
{
    if n > 0 {
        lemma_total_bound(p, n - 1);
        lemma_layer_len_bound(p, n - 1);
    }
}

proof fn lemma_total_strict(p1: Puzzle, p2: Puzzle, n: int, w: int)
    requires
        0 <= w < n <= 9,
        forall|v: int|
            0 <= v < 9 ==> (#[trigger] p1.layers@[v]).indices@.len()
                <= p2.layers@[v].indices@.len(),
        p1.layers@[w].indices@.len() < p2.layers@[w].indices@.len(),
    ensures
        total_placed(p1, n) < total_placed(p2, n),
    decreases n,
{
    if w < n - 1 {
        lemma_total_strict(p1, p2, n - 1, w);
    } else {
        lemma_total_monotone(p1, p2, n - 1);
    }
}

proof fn lemma_total_monotone(p1: Puzzle, p2: Puzzle, n: int)
    requires
        0 <= n <= 9,
        forall|v: int|
            0 <= v < 9 ==> (#[trigger] p1.layers@[v]).indices@.len()
                <= p2.layers@[v].indices@.len(),
    ensures
        total_placed(p1, n) <= total_placed(p2, n),
        total_placed(p1, n) == total_placed(p2, n) ==> forall|v: int|
            0 <= v < n ==> (#[trigger] p1.layers@[v]).indices@.len()
                == p2.layers@[v].indices@.len(),
    decreases n,
{
    if n > 0 {
        lemma_total_monotone(p1, p2, n - 1);
    }
}

/// Prefixes chain: what extends an extension extends the start.
pub proof fn lemma_prefix_trans(a: Seq<u32>, b: Seq<u32>, c: Seq<u32>)
    requires
        a.is_prefix_of(b),
        b.is_prefix_of(c),
    ensures
        a.is_prefix_of(c),
{
    assert(a =~= c.subrange(0, a.len() as int));
}

proof fn lemma_puzzle_prefix_trans(a: Puzzle, b: Puzzle, c: Puzzle)
    requires
        forall|v: int|
            0 <= v < 9 ==> a.layers@[v].indices@.is_prefix_of(
                (#[trigger] b.layers@[v]).indices@,
            ),
        forall|v: int|
            0 <= v < 9 ==> b.layers@[v].indices@.is_prefix_of(
                (#[trigger] c.layers@[v]).indices@,
            ),
    ensures
        forall|v: int|
            0 <= v < 9 ==> a.layers@[v].indices@.is_prefix_of(
                (#[trigger] c.layers@[v]).indices@,
            ),
{
    assert forall|v: int|
        0 <= v < 9 implies a.layers@[v].indices@.is_prefix_of(
        (#[trigger] c.layers@[v]).indices@,
    ) by {
        lemma_prefix_trans(a.layers@[v].indices@, b.layers@[v].indices@, c.layers@[v].indices@);
    }
}

/// Every position is its own peer: it shares its row with itself.
pub proof fn lemma_peers_reflexive(q: int)
    requires
        0 <= q < 81,
    ensures
        peers(q, q),
{
    assert(9 * (q / 9) <= q < 9 * (q / 9) + 9) by (nonlinear_arith)
        requires
            0 <= q,
    ;
}

} // verus!
