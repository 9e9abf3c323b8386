use sudoku::layer::Layer;
use sudoku::mask::Mask;
use sudoku::puzzle::{ParseError, Puzzle, SolveOutcome};
use sudoku::segment::Segment;

const PUZZLE: &str = "029306807000702050607100002005009010000080000004610000040060080061874209708031005";

#[test]
fn every_shape_mask_has_nine_bits() {
    for r in 0..9 {
        assert_eq!(Mask::row(9 * r).count_ones(), 9);
        assert_eq!(Mask::column(r).count_ones(), 9);
    }
    for i in 0..3 {
        for j in 0..3 {
            assert_eq!(Mask::cell(27 * i + 3 * j).count_ones(), 9);
        }
    }
    assert_eq!(Mask::new().count_ones(), 0);
}

#[test]
fn occupy_blocks_all_peers_and_records_the_position() {
    let mut layer = Layer::new(5);
    layer.occupy(40);

    assert_eq!(layer.indices.len(), 1);
    assert_eq!(layer.indices[0], 40);
    // the whole middle row, middle column and central block are blocked
    for c in 0..9 {
        assert!(layer.mask.bit(36 + c));
        assert!(layer.mask.bit(4 + 9 * c));
    }
    for r in 3..6 {
        for c in 3..6 {
            assert!(layer.mask.bit(9 * r + c));
        }
    }
    // a position sharing no group with the placement stays open
    assert!(!layer.mask.bit(0));
    assert!(!layer.mask.bit(80));
}

#[test]
fn updates_never_confirm_a_position_twice() {
    let mut puzzle = Puzzle::parse(PUZZLE).unwrap();
    puzzle.update(1, 0);
    puzzle.update(4, 10);

    let mut seen = vec![false; 81];
    for layer in &puzzle.layers {
        for k in 0..layer.indices.len() {
            let idx = layer.indices[k] as usize;
            assert!(!seen[idx], "position {} confirmed twice", idx);
            seen[idx] = true;
        }
    }
}

#[test]
fn committing_a_located_position_settles_the_segment() {
    let mut puzzle = Puzzle::parse(PUZZLE).unwrap();
    let row = Segment::row(1);

    assert_eq!(row.count_open(&puzzle).unwrap(), 3);
    let found = row.locate(&puzzle.layers[0]).unwrap();
    assert_eq!(found, 0);
    puzzle.update(1, found);
    assert_eq!(row.count_open(&puzzle).unwrap(), 2);
}

#[test]
fn readout_is_idempotent() {
    let puzzle = Puzzle::parse(PUZZLE).unwrap();
    let first = puzzle.readout();
    let second = puzzle.readout();
    assert_eq!(first, second);
}

#[test]
fn locate_reports_nothing_without_a_unique_open_position() {
    let puzzle = Puzzle::parse(PUZZLE).unwrap();
    // digit 6 already sits in the first row, so no open position is left there
    let row = Segment::row(1);
    assert_eq!(row.locate(&puzzle.layers[5]), None);
}

#[test]
fn parse_rejects_wrong_length() {
    assert!(matches!(Puzzle::parse(""), Err(ParseError::WrongLength)));
    assert!(matches!(Puzzle::parse("123"), Err(ParseError::WrongLength)));
}

#[test]
fn parse_rejects_a_character_that_is_no_digit() {
    let bad = "x29306807000702050607100002005009010000080000004610000040060080061874209708031005";
    assert_eq!(bad.len(), 81);
    assert!(matches!(
        Puzzle::parse(bad),
        Err(ParseError::InvalidCharacter)
    ));
}

#[test]
fn an_empty_grid_stalls_without_a_wrong_placement() {
    let empty = "000000000000000000000000000000000000000000000000000000000000000000000000000000000";
    let mut puzzle = Puzzle::parse(empty).unwrap();
    let outcome = puzzle.solve().unwrap();
    assert!(matches!(outcome, SolveOutcome::Stalled));
    assert_eq!(puzzle.readout(), String::from(empty));
}

#[test]
fn a_digit_placed_twice_in_a_row_is_a_corrupt_layer() {
    let twice = "110000000000000000000000000000000000000000000000000000000000000000000000000000000";
    let puzzle = Puzzle::parse(twice).unwrap();
    let row = Segment::row(1);
    let fault = row.count_open(&puzzle).unwrap_err();
    assert_eq!(fault.value, 1);
}

#[test]
fn two_digits_forced_onto_one_cell_is_a_corrupt_layer() {
    // eight 1s and eight 2s leave the top-left cell as the only open
    // position of the first row for both digits
    let grid = "000000000000000000000000000011111111000000000000000000022222222000000000000000000";
    let mut puzzle = Puzzle::parse(grid).unwrap();
    let row = Segment::row(1);
    assert_eq!(row.locate(&puzzle.layers[0]), Some(0));
    assert_eq!(row.locate(&puzzle.layers[1]), Some(0));
    let fault = row.iterate(&mut puzzle).unwrap_err();
    assert_eq!(fault.value, 2);
}
