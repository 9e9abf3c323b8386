use sudoku::layer::Layer;
use sudoku::mask::Mask;
use sudoku::puzzle::{Puzzle, SolveOutcome};
use sudoku::segment::Segment;

const PUZZLE: &str = "029306807000702050607100002005009010000080000004610000040060080061874209708031005";
const SOLVED: &str = "129356847483792156657148392875429613216583974934617528342965781561874239798231465";

fn check_bits(mask: &Mask, expected: &str) {
    assert_eq!(expected.len(), 81);
    let bytes = expected.as_bytes();
    for i in 0..81 {
        assert_eq!(mask.bit(i), bytes[i] == b'1', "bit {} differs", i);
    }
}

#[test]
fn mask_new() {
    let mask = Mask::new();
    check_bits(
        &mask,
        "000000000000000000000000000000000000000000000000000000000000000000000000000000000",
    );
}

#[test]
fn mask_cell() {
    let mask = Mask::cell(3);
    check_bits(
        &mask,
        "000111000000111000000111000000000000000000000000000000000000000000000000000000000",
    );
}

#[test]
fn mask_row() {
    let mask = Mask::row(18);
    check_bits(
        &mask,
        "000000000000000000111111111000000000000000000000000000000000000000000000000000000",
    );
}

#[test]
fn mask_column() {
    let mask = Mask::column(8);
    check_bits(
        &mask,
        "000000001000000001000000001000000001000000001000000001000000001000000001000000001",
    );
}

#[test]
fn layer_blot() {
    let mut layer = Layer::new(1);
    layer.blot(0);
    layer.blot(34);
    layer.blot(80);

    check_bits(
        &layer.mask,
        "100000000000000000000000000000000010000000000000000000000000000000000000000000001",
    );
}

#[test]
fn layer_occupy() {
    let mut layer = Layer::new(1);
    layer.occupy(0);
    layer.occupy(34);
    layer.occupy(80);

    check_bits(
        &layer.mask,
        "111111111111000011111000011111111111100000111100000111100000111100000111111111111",
    );
}

#[test]
fn puzzle_parse() {
    let puzzle = Puzzle::parse(PUZZLE).unwrap();

    assert_eq!(puzzle.layers[0].indices.len(), 5);
    assert_eq!(puzzle.layers[1].indices.len(), 4);
    assert_eq!(puzzle.layers[2].indices.len(), 2);
    assert_eq!(puzzle.layers[3].indices.len(), 3);
    assert_eq!(puzzle.layers[4].indices.len(), 3);
    assert_eq!(puzzle.layers[5].indices.len(), 5);
    assert_eq!(puzzle.layers[6].indices.len(), 5);
    assert_eq!(puzzle.layers[7].indices.len(), 5);
    assert_eq!(puzzle.layers[8].indices.len(), 3);
}

#[test]
fn segment_row_count_open() {
    let puzzle = Puzzle::parse(PUZZLE).unwrap();

    let row = Segment::row(1);
    assert_eq!(row.count_open(&puzzle).unwrap(), 3);
}

#[test]
fn segment_column_count_open() {
    let puzzle = Puzzle::parse(PUZZLE).unwrap();

    let column = Segment::column(1);
    assert_eq!(column.count_open(&puzzle).unwrap(), 7);
}

#[test]
fn segment_cell_count_open() {
    let puzzle = Puzzle::parse(PUZZLE).unwrap();

    let cell = Segment::cell(1, 1);
    assert_eq!(cell.count_open(&puzzle).unwrap(), 5);
}

#[test]
fn segment_cell_count_layer_positions() {
    let puzzle = Puzzle::parse(
        "029306807000702056607100002005009610000080000004610000040060080061874209708031005",
    )
    .unwrap();

    let cell = Segment::cell(1, 3);
    assert_eq!(cell.count_layer_positions(&puzzle.layers[5]), 1);
}

#[test]
fn segment_row_locate_1() {
    // In the first row we can place a 1 at the first position
    let puzzle = Puzzle::parse(PUZZLE).unwrap();

    let row = Segment::row(1);
    assert_eq!(row.locate(&puzzle.layers[0]), Some(0));
}

#[test]
fn segment_column_locate_2() {
    // In the fifth column we can place a 2 at the fourth position
    let puzzle = Puzzle::parse(PUZZLE).unwrap();

    let column = Segment::column(5);
    assert_eq!(column.locate(&puzzle.layers[1]), Some(31));
}

#[test]
fn segment_cell_locate_7() {
    // In the bottom right cell we can place a 7 at the first position
    let puzzle = Puzzle::parse(PUZZLE).unwrap();

    let cell = Segment::cell(3, 3);
    assert_eq!(cell.locate(&puzzle.layers[6]), Some(60));
}

#[test]
fn puzzle_readout() {
    let puzzle = Puzzle::parse(PUZZLE).unwrap();

    assert_eq!(puzzle.readout(), String::from(PUZZLE));
}

#[test]
fn puzzle_row_iteration() {
    let mut puzzle = Puzzle::parse(PUZZLE).unwrap();

    let row = Segment::row(1);
    row.iterate(&mut puzzle).unwrap();
    assert_eq!(
        puzzle.readout(),
        String::from(
            "129306807000702050607100002005009010000080000004610000040060080061874209708031005"
        )
    );
}

#[test]
fn puzzle_solve() {
    let mut puzzle = Puzzle::parse(PUZZLE).unwrap();

    let outcome = puzzle.solve().unwrap();
    assert!(matches!(outcome, SolveOutcome::Solved));
    assert_eq!(puzzle.readout(), String::from(SOLVED));
}
