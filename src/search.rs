//! Optimal move search for `O`: depth-aware minimax with alpha-beta pruning.
use vstd::prelude::*;
use crate::board::{
    Board,
    PlaceValue,
    empties_below,
    empty_cells,
    owns,
    winner_from,
    is_terminal,
    lemma_empty_cells,
    lemma_fill,
    n_empty,
    winner_of,
};

verus! {

/// The mark placed by the side to move: `O` maximizes, `X` minimizes.
pub open spec fn mark_for(maximizing: bool) -> PlaceValue {
    if maximizing {
        PlaceValue::O
    } else {
        PlaceValue::X
    }
}

/// The score of a finished board reached at `depth`: a win for `O` is worth
/// more the sooner it comes, a win for `X` costs more the sooner it comes.
pub open spec fn score(b: Seq<PlaceValue>, depth: int) -> int {
    match winner_of(b) {
        Some(PlaceValue::X) => depth - 10,
        Some(PlaceValue::O) => 10 - depth,
        _ => 0,
    }
}

/// The minimax value of `b` at `depth`, with `O` to move when `maximizing`.
pub open spec fn game_value(b: Seq<PlaceValue>, depth: int, maximizing: bool) -> int
    decreases n_empty(b), 10int,
{
    if is_terminal(b) {
        score(b, depth)
    } else {
        proof {
            lemma_empty_cells(b);
        }
        best_among(b, depth, maximizing, empty_cells(b))
    }
}

/// The best value for the side to move over the moves in `cells`: the largest
/// when maximizing, the smallest otherwise; the bound of `i32` when there is none.
pub open spec fn best_among(b: Seq<PlaceValue>, depth: int, maximizing: bool, cells: Seq<usize>) -> int
    decreases n_empty(b), cells.len(),
{
    if cells.len() == 0 {
        if maximizing {
            i32::MIN as int
        } else {
            i32::MAX as int
        }
    } else {
        let c = cells.last() as int;
        let prev = best_among(b, depth, maximizing, cells.drop_last());
        if b.len() == 9 && 0 <= c < 9 && b[c] == PlaceValue::Empty {
            proof {
                lemma_fill(b, c, mark_for(maximizing));
            }
            let v = game_value(b.update(c, mark_for(maximizing)), depth + 1, !maximizing);
            if maximizing {
                if v > prev { v } else { prev }
            } else {
                if v < prev { v } else { prev }
            }
        } else {
            prev
        }
    }
}

/// The value for `O` of playing cell `c` on `b`, `X` answering.
pub open spec fn move_value(b: Seq<PlaceValue>, c: int) -> int {
    game_value(b.update(c, PlaceValue::O), 0, false)
}


/// A longer run of moves is at least as good for the side to move as any prefix of it.
proof fn lemma_prefix_bound(b: Seq<PlaceValue>, depth: int, maximizing: bool, cells: Seq<usize>, j: int)
    requires
        0 <= j <= cells.len(),
    ensures
        maximizing ==> best_among(b, depth, maximizing, cells) >= best_among(b, depth, maximizing, cells.take(j)),
        !maximizing ==> best_among(b, depth, maximizing, cells) <= best_among(b, depth, maximizing, cells.take(j)),
    decreases cells.len(),
{
    if j < cells.len() {
        lemma_prefix_bound(b, depth, maximizing, cells.drop_last(), j);
        assert(cells.drop_last().take(j) =~= cells.take(j));
    } else {
        assert(cells.take(j) =~= cells);
    }
}

/// The value for the side to move of playing cell `c` on `b`.
pub open spec fn child_value(b: Seq<PlaceValue>, depth: int, maximizing: bool, c: int) -> int {
    game_value(b.update(c, mark_for(maximizing)), depth + 1, !maximizing)
}

/// The sign of an integer: 1, 0 or -1.
pub open spec fn sign(x: int) -> int {
    if x > 0 {
        1
    } else if x < 0 {
        -1
    } else {
        0
    }
}

/// Over a run of empty cells, the best value bounds each move's value, and
/// equals one of them when the run is not empty.
proof fn lemma_among_bounds(b: Seq<PlaceValue>, depth: int, maximizing: bool, cells: Seq<usize>)
    requires
        b.len() == 9,
        forall|i: int| 0 <= i < cells.len() ==> cells[i] < 9 && b[cells[i] as int] == PlaceValue::Empty,
        forall|i: int|
            0 <= i < cells.len() ==> -10 <= #[trigger] child_value(b, depth, maximizing, cells[i] as int) <= 10,
    ensures
        forall|i: int|
            0 <= i < cells.len() ==> (if maximizing {
                best_among(b, depth, maximizing, cells) >= child_value(b, depth, maximizing, cells[i] as int)
            } else {
                best_among(b, depth, maximizing, cells) <= child_value(b, depth, maximizing, cells[i] as int)
            }),
        cells.len() > 0 ==> exists|i: int|
            0 <= i < cells.len() && best_among(b, depth, maximizing, cells) == child_value(
                b,
                depth,
                maximizing,
                cells[i] as int,
            ),
    decreases cells.len(),
{
    if cells.len() > 0 {
        let prefix = cells.drop_last();
        lemma_among_bounds(b, depth, maximizing, prefix);
        let last = cells.len() - 1;
        assert forall|i: int| 0 <= i < last implies cells[i] == prefix[i] by {}
        if last > 0 {
            let i = choose|i: int|
                0 <= i < prefix.len() && best_among(b, depth, maximizing, prefix) == child_value(
                    b,
                    depth,
                    maximizing,
                    prefix[i] as int,
                );
            assert(cells[i] == prefix[i]);
        } else {
            assert(best_among(b, depth, maximizing, prefix) == (if maximizing {
                i32::MIN as int
            } else {
                i32::MAX as int
            }));
            assert(-10 <= child_value(b, depth, maximizing, cells[last] as int) <= 10);
        }
    }
}

/// The moves of an unfinished game have values between -10 and `9 - depth`.
proof fn lemma_children_bound(b: Seq<PlaceValue>, depth: int, maximizing: bool)
    requires
        b.len() == 9,
        0 <= depth,
        depth + n_empty(b) <= 9,
    ensures
        forall|i: int|
            0 <= i < empty_cells(b).len() ==> -10 <= #[trigger] child_value(
                b,
                depth,
                maximizing,
                empty_cells(b)[i] as int,
            ) <= 9 - depth,
    decreases n_empty(b), 0int,
{
    lemma_empty_cells(b);
    let cells = empty_cells(b);
    assert forall|i: int| 0 <= i < cells.len() implies -10 <= #[trigger] child_value(
        b,
        depth,
        maximizing,
        cells[i] as int,
    ) <= 9 - depth by {
        lemma_fill(b, cells[i] as int, mark_for(maximizing));
        lemma_value_bound(b.update(cells[i] as int, mark_for(maximizing)), depth + 1, !maximizing);
    }
}

/// Values lie between -10 and `10 - depth`, and below that when the game goes on.
pub proof fn lemma_value_bound(b: Seq<PlaceValue>, depth: int, maximizing: bool)
    requires
        b.len() == 9,
        0 <= depth,
        depth + n_empty(b) <= 9,
    ensures
        -10 <= game_value(b, depth, maximizing) <= 10 - depth,
        !is_terminal(b) ==> game_value(b, depth, maximizing) <= 9 - depth,
    decreases n_empty(b), 1int,
{
    if !is_terminal(b) {
        lemma_empty_cells(b);
        lemma_children_bound(b, depth, maximizing);
        let cells = empty_cells(b);
        lemma_among_bounds(b, depth, maximizing, cells);
    }
}

/// Whether a position is won, drawn or lost does not depend on the depth it is
/// scored from.
pub proof fn lemma_sign_any_depth(b: Seq<PlaceValue>, d1: int, d2: int, maximizing: bool)
    requires
        b.len() == 9,
        0 <= d1,
        0 <= d2,
        d1 + n_empty(b) <= 9,
        d2 + n_empty(b) <= 9,
    ensures
        sign(game_value(b, d1, maximizing)) == sign(game_value(b, d2, maximizing)),
    decreases n_empty(b),
{
    if !is_terminal(b) {
        lemma_empty_cells(b);
        let cells = empty_cells(b);
        lemma_children_bound(b, d1, maximizing);
        lemma_children_bound(b, d2, maximizing);
        lemma_among_bounds(b, d1, maximizing, cells);
        lemma_among_bounds(b, d2, maximizing, cells);
        let i1 = choose|i: int|
            0 <= i < cells.len() && best_among(b, d1, maximizing, cells) == child_value(
                b,
                d1,
                maximizing,
                cells[i] as int,
            );
        let i2 = choose|i: int|
            0 <= i < cells.len() && best_among(b, d2, maximizing, cells) == child_value(
                b,
                d2,
                maximizing,
                cells[i] as int,
            );
        let m = mark_for(maximizing);
        lemma_fill(b, cells[i1] as int, m);
        lemma_fill(b, cells[i2] as int, m);
        lemma_sign_any_depth(b.update(cells[i1] as int, m), d1 + 1, d2 + 1, !maximizing);
        lemma_sign_any_depth(b.update(cells[i2] as int, m), d1 + 1, d2 + 1, !maximizing);
    }
}

/// Best play keeps `O` from losing: if `O` does not lose with `X` to move on an
/// unfinished board `b`, then whatever empty cell `c` `X` takes, `X` has not won,
/// and if the game goes on, after `O` answers with a best move `r`, `O` still
/// does not lose with `X` to move.
pub proof fn lemma_best_move_keeps_draw(b: Seq<PlaceValue>, c: int, r: int)
    requires
        b.len() == 9,
        !is_terminal(b),
        game_value(b, 0, false) >= 0,
        0 <= c < 9,
        b[c] == PlaceValue::Empty,
        !is_terminal(b.update(c, PlaceValue::X)) ==> {
            &&& 0 <= r < 9
            &&& b.update(c, PlaceValue::X)[r] == PlaceValue::Empty
            &&& forall|c2: int|
                0 <= c2 < 9 && b.update(c, PlaceValue::X)[c2] == PlaceValue::Empty ==> move_value(
                    b.update(c, PlaceValue::X),
                    c2,
                ) <= move_value(b.update(c, PlaceValue::X), r)
        },
    ensures
        winner_of(b.update(c, PlaceValue::X)) != Some(PlaceValue::X),
        !is_terminal(b.update(c, PlaceValue::X)) ==> game_value(
            b.update(c, PlaceValue::X).update(r, PlaceValue::O),
            0,
            false,
        ) >= 0,
{
    let b1 = b.update(c, PlaceValue::X);
    lemma_empty_cells(b);
    lemma_fill(b, c, PlaceValue::X);
    let cells = empty_cells(b);
    assert(cells.contains(c as usize));
    lemma_children_bound(b, 0, false);
    lemma_among_bounds(b, 0, false, cells);
    assert(child_value(b, 0, false, c) >= 0);
    if !is_terminal(b1) {
        lemma_empty_cells(b1);
        let cells1 = empty_cells(b1);
        lemma_children_bound(b1, 1, true);
        lemma_among_bounds(b1, 1, true, cells1);
        let i = choose|i: int|
            0 <= i < cells1.len() && best_among(b1, 1, true, cells1) == child_value(
                b1,
                1,
                true,
                cells1[i] as int,
            );
        let c2 = cells1[i] as int;
        lemma_fill(b1, c2, PlaceValue::O);
        lemma_sign_any_depth(b1.update(c2, PlaceValue::O), 2, 0, false);
        assert(move_value(b1, c2) >= 0);
    }
}

/// With `O` to move on an unfinished board that `O` does not lose, a best move
/// `r` leaves a position, `X` to move, that `O` still does not lose; if that
/// position is finished, `X` has not won it.
pub proof fn lemma_best_move_not_losing(b: Seq<PlaceValue>, r: int)
    requires
        b.len() == 9,
        !is_terminal(b),
        game_value(b, 0, true) >= 0,
        0 <= r < 9,
        b[r] == PlaceValue::Empty,
        forall|c: int|
            0 <= c < 9 && b[c] == PlaceValue::Empty ==> move_value(b, c) <= move_value(b, r),
    ensures
        game_value(b.update(r, PlaceValue::O), 0, false) >= 0,
        is_terminal(b.update(r, PlaceValue::O)) ==> winner_of(b.update(r, PlaceValue::O)) != Some(
            PlaceValue::X,
        ),
{
    lemma_empty_cells(b);
    let cells = empty_cells(b);
    lemma_children_bound(b, 0, true);
    lemma_among_bounds(b, 0, true, cells);
    let i = choose|i: int|
        0 <= i < cells.len() && best_among(b, 0, true, cells) == child_value(
            b,
            0,
            true,
            cells[i] as int,
        );
    let c = cells[i] as int;
    lemma_fill(b, c, PlaceValue::O);
    lemma_sign_any_depth(b.update(c, PlaceValue::O), 1, 0, false);
    assert(move_value(b, c) >= 0);
}

/// The other mark; `Empty` stays `Empty`.
pub open spec fn swap_mark(v: PlaceValue) -> PlaceValue {
    match v {
        PlaceValue::X => PlaceValue::O,
        PlaceValue::O => PlaceValue::X,
        PlaceValue::Empty => PlaceValue::Empty,
    }
}

/// The board with `X` and `O` exchanged.
pub open spec fn swapped(b: Seq<PlaceValue>) -> Seq<PlaceValue> {
    Seq::new(b.len(), |i: int| swap_mark(b[i]))
}

/// Exchanging the marks exchanges the winner.
proof fn lemma_swap_winner_from(b: Seq<PlaceValue>, k: int)
    requires
        b.len() == 9,
        0 <= k <= 8,
    ensures
        winner_from(swapped(b), k) == (match winner_from(b, k) {
            Some(v) => Some(swap_mark(v)),
            None => None,
        }),
    decreases 8 - k,
{
    if k < 8 {
        lemma_swap_winner_from(b, k + 1);
        let sb = swapped(b);
        assert(owns(sb, PlaceValue::X, k) == owns(b, PlaceValue::O, k));
        assert(owns(sb, PlaceValue::O, k) == owns(b, PlaceValue::X, k));
    }
}

/// Exchanging the marks keeps the empty cells.
proof fn lemma_swap_empties(b: Seq<PlaceValue>, k: int)
    requires
        b.len() == 9,
        0 <= k <= 9,
    ensures
        empties_below(swapped(b), k) == empties_below(b, k),
    decreases k,
{
    if k > 0 {
        lemma_swap_empties(b, k - 1);
    }
}

/// Scoring is even-handed: exchanging `X` and `O`, and the side to move,
/// negates the value of a position.
pub proof fn lemma_swap_value(b: Seq<PlaceValue>, depth: int, maximizing: bool)
    requires
        b.len() == 9,
        0 <= depth,
        depth + n_empty(b) <= 9,
    ensures
        game_value(swapped(b), depth, !maximizing) == -game_value(b, depth, maximizing),
    decreases n_empty(b),
{
    let sb = swapped(b);
    let nm = !maximizing;
    lemma_swap_winner_from(b, 0);
    lemma_swap_empties(b, 9);
    if !is_terminal(b) {
        lemma_empty_cells(b);
        let cells = empty_cells(b);
        assert forall|i: int| 0 <= i < cells.len() implies #[trigger] child_value(
            sb,
            depth,
            nm,
            cells[i] as int,
        ) == -child_value(b, depth, maximizing, cells[i] as int) by {
            let c = cells[i] as int;
            let m = mark_for(maximizing);
            lemma_fill(b, c, m);
            assert(sb.update(c, mark_for(nm)) =~= swapped(b.update(c, m)));
            lemma_swap_value(b.update(c, m), depth + 1, nm);
        }
        lemma_children_bound(b, depth, maximizing);
        lemma_children_bound(sb, depth, nm);
        lemma_among_bounds(b, depth, maximizing, cells);
        lemma_among_bounds(sb, depth, nm, cells);
        let i1 = choose|i: int|
            0 <= i < cells.len() && best_among(b, depth, maximizing, cells) == child_value(
                b,
                depth,
                maximizing,
                cells[i] as int,
            );
        let i2 = choose|i: int|
            0 <= i < cells.len() && best_among(sb, depth, nm, cells) == child_value(
                sb,
                depth,
                nm,
                cells[i] as int,
            );
        assert(child_value(sb, depth, nm, cells[i1] as int) == -child_value(b, depth, maximizing, cells[i1] as int));
        assert(child_value(sb, depth, nm, cells[i2] as int) == -child_value(b, depth, maximizing, cells[i2] as int));
    }
}

/// A best move takes an immediate win whenever one is there.
proof fn lemma_immediate_win(b: Seq<PlaceValue>, r: int)
    requires
        b.len() == 9,
        0 <= r < 9,
        b[r] == PlaceValue::Empty,
        forall|c: int|
            0 <= c < 9 && b[c] == PlaceValue::Empty ==> move_value(b, c) <= move_value(b, r),
    ensures
        (exists|c: int|
            0 <= c < 9 && b[c] == PlaceValue::Empty && winner_of(b.update(c, PlaceValue::O))
                == Some(PlaceValue::O)) ==> winner_of(b.update(r, PlaceValue::O)) == Some(
            PlaceValue::O,
        ),
{
    lemma_empty_cells(b);
    lemma_fill(b, r, PlaceValue::O);
    lemma_value_bound(b.update(r, PlaceValue::O), 0, false);
}

impl Board {
    /// Alpha-beta search of the board at `depth`, `O` to move when `maximizing_player`.
    /// For a window with `alpha < beta` the result is exact inside the window and a
    /// bound outside it; the board is left as it was. Every depth up to 9 is
    /// accepted, as a board has at most nine empty cells (`lemma_empty_cells`).
    fn minimax(&mut self, depth: i32, alpha: i32, beta: i32, maximizing_player: bool) -> (r: i32)
        requires
            0 <= depth,
            depth + n_empty(old(self)@) <= 18,
        ensures
            final(self)@ == old(self)@,
            -10 <= r <= 10,
            depth + n_empty(old(self)@) <= 9 ==> depth - 10 <= r <= 10 - depth,
            is_terminal(old(self)@) ==> r == score(old(self)@, depth as int),
            alpha < beta && r <= alpha ==> game_value(old(self)@, depth as int, maximizing_player) <= r,
            alpha < beta && r >= beta ==> game_value(old(self)@, depth as int, maximizing_player) >= r,
            alpha < beta && alpha < r < beta ==> r == game_value(old(self)@, depth as int, maximizing_player),
        decreases n_empty(self@),
    {
        proof {
            self.lemma_len();
            lemma_empty_cells(self@);
        }
        if self.is_finished() {
            return self.score_winner(depth);
        }
        let ghost b0 = self@;
        let mut lo = alpha;
        let mut hi = beta;
        let mut best_value: i32 = if maximizing_player {
            i32::MIN
        } else {
            i32::MAX
        };
        let place_val = if maximizing_player {
            PlaceValue::O
        } else {
            PlaceValue::X
        };
        let cells = self.available_cells();
        let mut j: usize = 0;
        while j < cells.len()
            invariant
                self@ == b0,
                old(self)@ == b0,
                b0.len() == 9,
                !is_terminal(b0),
                cells@ == empty_cells(b0),
                forall|i: int| 0 <= i < cells@.len() ==> cells@[i] < 9 && b0[cells@[i] as int] == PlaceValue::Empty,
                j <= cells.len(),
                0 <= depth,
                depth + n_empty(b0) <= 18,
                place_val == mark_for(maximizing_player),
                j == 0 ==> best_value == (if maximizing_player { i32::MIN } else { i32::MAX }),
                j > 0 ==> -10 <= best_value <= 10,
                j > 0 && depth + n_empty(b0) <= 9 ==> depth - 9 <= best_value <= 9 - depth,
                maximizing_player ==> hi == beta && lo == (if alpha > best_value { alpha } else { best_value }),
                !maximizing_player ==> lo == alpha && hi == (if beta < best_value { beta } else { best_value }),
                alpha < beta && maximizing_player ==> {
                    &&& best_value < beta
                    &&& best_among(b0, depth as int, true, cells@.take(j as int)) <= best_value
                    &&& best_value > alpha ==> best_among(b0, depth as int, true, cells@.take(j as int)) == best_value
                },
                alpha < beta && !maximizing_player ==> {
                    &&& best_value > alpha
                    &&& best_among(b0, depth as int, false, cells@.take(j as int)) >= best_value
                    &&& best_value < beta ==> best_among(b0, depth as int, false, cells@.take(j as int)) == best_value
                },
            decreases cells.len() - j,
        {
            let cell = cells[j];
            proof {
                lemma_fill(b0, cell as int, place_val);
            }
            self.place_value(cell, place_val);
            let eval = self.minimax(depth + 1, lo, hi, !maximizing_player);
            self.reset_cell(cell);
            proof {
                assert(self@ =~= b0);
                let t = cells@.take(j + 1);
                assert(t.drop_last() =~= cells@.take(j as int));
                assert(t.last() == cells@[j as int]);
            }
            if maximizing_player {
                if eval > best_value {
                    best_value = eval;
                }
                if eval > lo {
                    lo = eval;
                }
            } else {
                if eval < best_value {
                    best_value = eval;
                }
                if eval < hi {
                    hi = eval;
                }
            }
            if hi <= lo {
                proof {
                    lemma_prefix_bound(b0, depth as int, maximizing_player, cells@, j + 1);
                }
                return best_value;
            }
            j = j + 1;
        }
        proof {
            assert(cells@.take(j as int) =~= cells@);
        }
        best_value
    }

    /// The best cell for `O`: the empty cell of highest `move_value`, the lowest
    /// such index on ties. The board is left as it was.
    pub fn play(&mut self) -> (r: usize)
        requires
            n_empty(old(self)@) > 0,
        ensures
            final(self)@ == old(self)@,
            r < 9,
            old(self)@[r as int] == PlaceValue::Empty,
            forall|c: int|
                0 <= c < 9 && old(self)@[c] == PlaceValue::Empty ==> move_value(old(self)@, c)
                    <= move_value(old(self)@, r as int),
            forall|c: int|
                0 <= c < r && old(self)@[c] == PlaceValue::Empty ==> move_value(old(self)@, c)
                    < move_value(old(self)@, r as int),
            (exists|c: int|
                0 <= c < 9 && old(self)@[c] == PlaceValue::Empty && winner_of(
                    old(self)@.update(c, PlaceValue::O),
                ) == Some(PlaceValue::O)) ==> winner_of(old(self)@.update(r as int, PlaceValue::O))
                == Some(PlaceValue::O),
    {
        proof {
            self.lemma_len();
            lemma_empty_cells(self@);
        }
        let ghost b0 = self@;
        let cells = self.available_cells();
        let mut best_cell: usize = cells[0];
        let mut best_score: i32 = i32::MIN;
        let ghost mut best_k: int = 0;
        let mut j: usize = 0;
        while j < cells.len()
            invariant
                self@ == b0,
                old(self)@ == b0,
                b0.len() == 9,
                cells@ == empty_cells(b0),
                n_empty(b0) <= 9,
                forall|i: int| 0 <= i < cells@.len() ==> cells@[i] < 9 && b0[cells@[i] as int] == PlaceValue::Empty,
                forall|i1: int, i2: int| 0 <= i1 < i2 < cells@.len() ==> cells@[i1] < cells@[i2],
                j <= cells.len(),
                j == 0 ==> best_score == i32::MIN && best_cell == cells@[0],
                j > 0 ==> 0 <= best_k < j && best_cell == cells@[best_k] && best_score == move_value(b0, best_cell as int),
                forall|i: int| 0 <= i < j ==> move_value(b0, cells@[i] as int) <= best_score,
                forall|i: int| 0 <= i < best_k ==> move_value(b0, cells@[i] as int) < best_score,
            decreases cells.len() - j,
        {
            let cell = cells[j];
            proof {
                lemma_fill(b0, cell as int, PlaceValue::O);
            }
            self.place_value(cell, PlaceValue::O);
            let score = self.minimax(0, i32::MIN, i32::MAX, false);
            self.reset_cell(cell);
            proof {
                assert(self@ =~= b0);
            }
            if score > best_score {
                best_score = score;
                best_cell = cell;
                proof {
                    best_k = j as int;
                }
            }
            j = j + 1;
        }
        proof {
            assert forall|c: int|
                0 <= c < 9 && b0[c] == PlaceValue::Empty implies move_value(b0, c) <= best_score && (c < best_cell ==> move_value(b0, c) < best_score) by {
                assert(cells@.contains(c as usize));
                let i = choose|i: int| 0 <= i < cells@.len() && cells@[i] == c as usize;
                if c < best_cell {
                    if i >= best_k {
                        if i > best_k {
                            assert(cells@[best_k] < cells@[i]);
                        }
                    }
                }
            }
            lemma_immediate_win(b0, best_cell as int);
        }
        best_cell
    }

    /// The score of the board at `depth`, as `score` states it.
    fn score_winner(&self, depth: i32) -> (r: i32)
        requires
            i32::MIN + 11 <= depth,
        ensures
            r == score(self@, depth as int),
    {
        match self.eval_winner() {
            Some(PlaceValue::X) => depth - 10,
            Some(PlaceValue::O) => 10 - depth,
            _ => 0,
        }
    }
}

} // verus!
