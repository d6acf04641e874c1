use tictactoe::PlaceValue::{Empty, O, X};
use tictactoe::{Board, PlaceValue};

fn board_of(cells: [PlaceValue; 9]) -> Board {
    let mut b = Board::new();
    for (i, v) in cells.iter().enumerate() {
        if *v != PlaceValue::Empty {
            b.place_value(i, *v);
        }
    }
    b
}

fn snapshot(b: &Board) -> Vec<Option<PlaceValue>> {
    (0..9).map(|i| b.get_cell(i).copied()).collect()
}

#[test]
fn play_leaves_board_unchanged() {
    let boards = [
        [Empty; 9],
        [X, Empty, Empty, Empty, Empty, Empty, Empty, Empty, Empty],
        [X, X, Empty, O, O, Empty, Empty, Empty, Empty],
        [X, O, X, Empty, O, Empty, Empty, X, Empty],
    ];
    for cells in boards.iter() {
        let mut b = board_of(*cells);
        let before = snapshot(&b);
        let before_dbg = format!("{:?}", b);
        let _ = b.play();
        assert_eq!(snapshot(&b), before);
        assert_eq!(format!("{:?}", b), before_dbg);
    }
}

#[test]
fn play_wins_rather_than_blocks() {
    let mut b = board_of([X, X, Empty, O, O, Empty, Empty, Empty, Empty]);
    assert_eq!(b.play(), 5);
}

#[test]
fn play_takes_an_immediate_win_of_two() {
    // O can complete the anti-diagonal at 2 or the middle row at 5.
    let mut b = board_of([X, X, Empty, O, O, Empty, O, X, X]);
    let r = b.play();
    assert!(r == 2 || r == 5);
    b.place_value(r, O);
    assert_eq!(b.eval_winner(), Some(O));
}

#[test]
fn play_prefers_the_faster_win() {
    // O wins at once on 8 (diagonal); other moves win later at best.
    let mut b = board_of([O, X, Empty, X, O, Empty, X, Empty, Empty]);
    let r = b.play();
    assert_eq!(r, 8);
}

#[test]
fn play_blocks_a_threat() {
    let mut b = board_of([X, X, Empty, Empty, Empty, Empty, Empty, Empty, Empty]);
    assert_eq!(b.play(), 2);
}

#[test]
fn play_ties_go_to_the_lowest_cell() {
    // Both 2 and 5 win at once: the lower index is chosen.
    let mut b = board_of([X, X, Empty, O, O, Empty, O, X, X]);
    assert_eq!(b.play(), 2);
    // Only 8 stops X's right column.
    let mut b = board_of([X, O, X, Empty, O, X, O, X, Empty]);
    assert_eq!(b.play(), 8);
}

fn o_never_loses(b: &mut Board) {
    if b.is_finished() {
        assert_ne!(b.eval_winner(), Some(PlaceValue::X));
        return;
    }
    for cell in b.available_cells() {
        b.place_value(cell, PlaceValue::X);
        if b.is_finished() {
            assert_ne!(b.eval_winner(), Some(PlaceValue::X));
        } else {
            let reply = b.play();
            b.place_value(reply, PlaceValue::O);
            o_never_loses(b);
            b.reset_cell(reply);
        }
        b.reset_cell(cell);
    }
}

#[test]
fn best_moves_never_lose_to_any_opponent() {
    let mut b = Board::new();
    o_never_loses(&mut b);
}

fn mirrored(b: &Board) -> Board {
    let mut m = Board::new();
    for i in 0..9 {
        match b.get_cell(i) {
            Some(X) => m.place_value(i, O),
            Some(O) => m.place_value(i, X),
            _ => {}
        }
    }
    m
}

#[test]
fn both_sides_best_play_is_a_draw() {
    let mut b = Board::new();
    let mut turn = X;
    while !b.is_finished() {
        let cell = if turn == X {
            // X's best move is O's best move on the board with the marks swapped.
            mirrored(&b).play()
        } else {
            b.play()
        };
        assert_eq!(b.get_cell(cell), None);
        b.place_value(cell, turn);
        turn = if turn == X { O } else { X };
    }
    assert_eq!(b.eval_winner(), None);
}

#[test]
fn both_sides_best_play_is_a_draw_with_o_first() {
    let mut b = Board::new();
    let mut turn = O;
    while !b.is_finished() {
        let cell = if turn == X { mirrored(&b).play() } else { b.play() };
        b.place_value(cell, turn);
        turn = if turn == X { O } else { X };
    }
    assert_eq!(b.eval_winner(), None);
}

#[test]
fn best_moves_never_lose_moving_first() {
    let mut b = Board::new();
    let first = b.play();
    assert_eq!(b.get_cell(first), None);
    b.place_value(first, O);
    o_never_loses(&mut b);
}

#[test]
fn mirrored_board_swaps_winner() {
    let b = board_of([X, X, X, O, O, Empty, Empty, Empty, Empty]);
    assert_eq!(b.eval_winner(), Some(X));
    assert_eq!(mirrored(&b).eval_winner(), Some(O));
}
