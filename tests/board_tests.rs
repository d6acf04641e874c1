use tictactoe::PlaceValue::{Empty, O, X};
use tictactoe::{Board, PlaceValue};

const LINES: [[usize; 3]; 8] = [
    [0, 1, 2],
    [3, 4, 5],
    [6, 7, 8],
    [0, 3, 6],
    [1, 4, 7],
    [2, 5, 8],
    [0, 4, 8],
    [2, 4, 6],
];

fn board_of(cells: [PlaceValue; 9]) -> Board {
    let mut b = Board::new();
    for (i, v) in cells.iter().enumerate() {
        if *v != PlaceValue::Empty {
            b.place_value(i, *v);
        }
    }
    b
}

#[test]
fn new_board_is_empty() {
    let b = Board::new();
    for i in 0..9 {
        assert_eq!(b.get_cell(i), None);
    }
    assert_eq!(b.available_cells(), vec![0, 1, 2, 3, 4, 5, 6, 7, 8]);
    assert_eq!(b.eval_winner(), None);
    assert!(!b.is_finished());
}

#[test]
fn get_cell_out_of_range_is_none() {
    let mut b = Board::new();
    b.place_value(8, PlaceValue::X);
    assert_eq!(b.get_cell(9), None);
    assert_eq!(b.get_cell(100), None);
    assert_eq!(b.get_cell(8), Some(&PlaceValue::X));
}

#[test]
fn place_and_reset_cell() {
    let mut b = Board::new();
    b.place_value(4, PlaceValue::O);
    assert_eq!(b.get_cell(4), Some(&PlaceValue::O));
    assert_eq!(b.available_cells(), vec![0, 1, 2, 3, 5, 6, 7, 8]);
    b.place_value(4, PlaceValue::X);
    assert_eq!(b.get_cell(4), Some(&PlaceValue::X));
    b.reset_cell(4);
    assert_eq!(b.get_cell(4), None);
    assert_eq!(b.available_cells().len(), 9);
}

#[test]
fn default_place_value_is_empty() {
    assert_eq!(PlaceValue::default(), PlaceValue::Empty);
}

#[test]
fn each_line_wins_for_its_mark() {
    for line in LINES.iter() {
        for mark in [PlaceValue::X, PlaceValue::O] {
            let mut b = Board::new();
            for &i in line.iter() {
                b.place_value(i, mark);
            }
            assert_eq!(b.eval_winner(), Some(mark), "line {:?}", line);
            assert!(b.is_finished());
        }
    }
}

#[test]
fn two_cells_of_a_line_do_not_win() {
    for line in LINES.iter() {
        let mut b = Board::new();
        b.place_value(line[0], PlaceValue::X);
        b.place_value(line[1], PlaceValue::X);
        b.place_value(line[2], PlaceValue::O);
        assert_eq!(b.eval_winner(), None);
        assert!(!b.is_finished());
    }
}

#[test]
fn full_board_without_line_is_a_draw() {
    let b = board_of([X, O, X, X, O, O, O, X, X]);
    assert_eq!(b.eval_winner(), None);
    assert!(b.available_cells().is_empty());
    assert!(b.is_finished());
}

#[test]
fn terminal_iff_winner_or_full() {
    let boards = [
        [X, X, X, O, O, Empty, Empty, Empty, Empty],
        [X, O, X, X, O, O, O, X, X],
        [X, O, Empty, Empty, Empty, Empty, Empty, Empty, Empty],
        [Empty; 9],
        [O, X, X, X, O, O, X, O, O],
    ];
    for cells in boards.iter() {
        let b = board_of(*cells);
        let expected = b.eval_winner().is_some() || b.available_cells().is_empty();
        assert_eq!(b.is_finished(), expected);
    }
}
