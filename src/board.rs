//! The board: nine cells in row-major order, each `X`, `O` or `Empty`.
use vstd::prelude::*;

verus! {

/// What a cell holds.
#[derive(Clone, Copy, Debug, PartialEq, Eq, Structural)]
pub enum PlaceValue {
    X,
    O,
    Empty,
}

impl Default for PlaceValue {
    fn default() -> (r: PlaceValue)
        ensures
            r == PlaceValue::Empty,
    {
        PlaceValue::Empty
    }
}

/// A 3x3 grid; cell `i` is row `i / 3`, column `i % 3`.
#[derive(Clone, Copy, Debug)]
pub struct Board([PlaceValue; 9]);

impl View for Board {
    type V = Seq<PlaceValue>;

    closed spec fn view(&self) -> Seq<PlaceValue> {
        self.0@
    }
}

/// The indices below `k` whose cell is empty, in ascending order.
pub open spec fn empties_below(b: Seq<PlaceValue>, k: int) -> Seq<usize>
    decreases k,
{
    if k <= 0 {
        Seq::empty()
    } else {
        let prev = empties_below(b, k - 1);
        if b[k - 1] == PlaceValue::Empty {
            prev.push((k - 1) as usize)
        } else {
            prev
        }
    }
}

/// The empty cells of a board, in ascending order.
pub open spec fn empty_cells(b: Seq<PlaceValue>) -> Seq<usize> {
    empties_below(b, 9)
}

/// The number of empty cells.
pub open spec fn n_empty(b: Seq<PlaceValue>) -> nat {
    empty_cells(b).len()
}

/// What `empties_below` holds: exactly the empty indices below `k`, ascending.
pub proof fn lemma_empties_below(b: Seq<PlaceValue>, k: int)
    requires
        0 <= k <= 9,
    ensures
        empties_below(b, k).len() <= k,
        forall|j: int|
            0 <= j < empties_below(b, k).len() ==> {
                &&& empties_below(b, k)[j] < k
                &&& b[empties_below(b, k)[j] as int] == PlaceValue::Empty
            },
        forall|j1: int, j2: int|
            0 <= j1 < j2 < empties_below(b, k).len() ==> empties_below(b, k)[j1]
                < empties_below(b, k)[j2],
        forall|i: int|
            0 <= i < k && b[i] == PlaceValue::Empty ==> empties_below(b, k).contains(
                i as usize,
            ),
    decreases k,
{
    if k > 0 {
        lemma_empties_below(b, k - 1);
        let prev = empties_below(b, k - 1);
        if b[k - 1] == PlaceValue::Empty {
            let cur = prev.push((k - 1) as usize);
            assert forall|i: int| 0 <= i < k && b[i] == PlaceValue::Empty implies cur.contains(
                i as usize,
            ) by {
                if i < k - 1 {
                    let j = choose|j: int| 0 <= j < prev.len() && prev[j] == i as usize;
                    assert(cur[j] == i as usize);
                } else {
                    assert(cur[prev.len() as int] == i as usize);
                }
            }
        }
    }
}

/// The empty cells of a board are the empty indices, each once, ascending.
pub proof fn lemma_empty_cells(b: Seq<PlaceValue>)
    ensures
        n_empty(b) <= 9,
        forall|j: int|
            0 <= j < n_empty(b) ==> {
                &&& empty_cells(b)[j] < 9
                &&& b[empty_cells(b)[j] as int] == PlaceValue::Empty
            },
        forall|j1: int, j2: int|
            0 <= j1 < j2 < n_empty(b) ==> empty_cells(b)[j1] < empty_cells(b)[j2],
        forall|i: int| 0 <= i < 9 && b[i] == PlaceValue::Empty ==> empty_cells(b).contains(i as usize),
{
    lemma_empties_below(b, 9);
}

/// Filling one empty cell removes it from the empty indices below `k`, if it is below `k`.
pub proof fn lemma_fill_below(b: Seq<PlaceValue>, c: int, v: PlaceValue, k: int)
    requires
        b.len() == 9,
        0 <= c < 9,
        0 <= k <= 9,
        b[c] == PlaceValue::Empty,
        v != PlaceValue::Empty,
    ensures
        empties_below(b.update(c, v), k).len() + (if c < k { 1int } else { 0 })
            == empties_below(b, k).len(),
    decreases k,
{
    if k > 0 {
        lemma_fill_below(b, c, v, k - 1);
    }
}

/// Filling one empty cell leaves one empty cell fewer.
pub proof fn lemma_fill(b: Seq<PlaceValue>, c: int, v: PlaceValue)
    requires
        b.len() == 9,
        0 <= c < 9,
        b[c] == PlaceValue::Empty,
        v != PlaceValue::Empty,
    ensures
        n_empty(b.update(c, v)) + 1 == n_empty(b),
{
    lemma_fill_below(b, c, v, 9);
}


/// The cells of winning line `k`, in the order of the line masks.
pub open spec fn line(k: int) -> (int, int, int) {
    if k == 0 {
        (6, 7, 8)
    } else if k == 1 {
        (3, 4, 5)
    } else if k == 2 {
        (0, 1, 2)
    } else if k == 3 {
        (2, 5, 8)
    } else if k == 4 {
        (1, 4, 7)
    } else if k == 5 {
        (0, 3, 6)
    } else if k == 6 {
        (0, 4, 8)
    } else {
        (2, 4, 6)
    }
}

/// Whether `v` holds all three cells of line `k`.
pub open spec fn owns(b: Seq<PlaceValue>, v: PlaceValue, k: int) -> bool {
    &&& b[line(k).0] == v
    &&& b[line(k).1] == v
    &&& b[line(k).2] == v
}

/// The owner of the first owned line from `k` on, `X` tried before `O` on each line.
pub open spec fn winner_from(b: Seq<PlaceValue>, k: int) -> Option<PlaceValue>
    decreases 8 - k,
{
    if k >= 8 || k < 0 {
        None
    } else if owns(b, PlaceValue::X, k) {
        Some(PlaceValue::X)
    } else if owns(b, PlaceValue::O, k) {
        Some(PlaceValue::O)
    } else {
        winner_from(b, k + 1)
    }
}

/// The winner of a board, if any.
pub open spec fn winner_of(b: Seq<PlaceValue>) -> Option<PlaceValue> {
    winner_from(b, 0)
}

/// Whether the game on `b` is over: someone won, or no empty cell is left.
pub open spec fn is_terminal(b: Seq<PlaceValue>) -> bool {
    winner_of(b) is Some || n_empty(b) == 0
}

/// The mask of line `k`: bit `i` stands for cell `i`.
pub open spec fn line_mask(k: int) -> u16 {
    if k == 0 {
        0b111_000_000
    } else if k == 1 {
        0b000_111_000
    } else if k == 2 {
        0b000_000_111
    } else if k == 3 {
        0b100_100_100
    } else if k == 4 {
        0b010_010_010
    } else if k == 5 {
        0b001_001_001
    } else if k == 6 {
        0b100_010_001
    } else {
        0b001_010_100
    }
}

/// Whether bit `i` of `m` is set.
pub open spec fn has_bit(m: u16, i: u16) -> bool {
    (m >> i) & 1u16 == 1u16
}

/// Setting bit `i` sets that bit and no other.
proof fn lemma_set_bit(m: u16, i: u16, j: u16)
    requires
        i < 16,
        j < 16,
    ensures
        has_bit(m | (1u16 << i), j) == (has_bit(m, j) || i == j),
{
    assert((((m | (1u16 << i)) >> j) & 1u16 == 1u16) == (((m >> j) & 1u16 == 1u16) || i == j))
        by (bit_vector)
        requires
            i < 16,
            j < 16,
    ;
}

/// Setting bit `i` of a 9-bit mask, for `i` below 9, keeps it a 9-bit mask; a
/// mask without bit `i` stays disjoint from one that gains bit `i`.
proof fn lemma_set_bit_bounds(m: u16, n: u16, i: u16)
    requires
        i < 9,
        m < 512,
        m & n == 0,
        !has_bit(n, i),
    ensures
        (m | (1u16 << i)) < 512,
        (m | (1u16 << i)) & n == 0,
        n & (m | (1u16 << i)) == 0,
{
    assert(((m | (1u16 << i)) < 512) && ((m | (1u16 << i)) & n == 0) && (n & (m | (1u16 << i))
        == 0)) by (bit_vector)
        requires
            i < 9,
            m < 512,
            m & n == 0,
            (n >> i) & 1u16 != 1u16,
    ;
}

/// No bit of zero is set.
proof fn lemma_zero_bits(j: u16)
    ensures
        !has_bit(0u16, j),
{
    assert(((0u16 >> j) & 1u16) != 1u16) by (bit_vector);
}

/// A mask covers line `k` exactly when the line's three bits are set.
proof fn lemma_line_mask(k: int, m: u16)
    requires
        0 <= k < 8,
    ensures
        ((line_mask(k) & m) == line_mask(k)) == (has_bit(m, line(k).0 as u16) && has_bit(
            m,
            line(k).1 as u16,
        ) && has_bit(m, line(k).2 as u16)),
{
    if k == 0 {
        assert(((0b111_000_000u16 & m) == 0b111_000_000u16) == ((m >> 6u16) & 1u16 == 1u16 && (m
            >> 7u16) & 1u16 == 1u16 && (m >> 8u16) & 1u16 == 1u16)) by (bit_vector);
    } else if k == 1 {
        assert(((0b000_111_000u16 & m) == 0b000_111_000u16) == ((m >> 3u16) & 1u16 == 1u16 && (m
            >> 4u16) & 1u16 == 1u16 && (m >> 5u16) & 1u16 == 1u16)) by (bit_vector);
    } else if k == 2 {
        assert(((0b000_000_111u16 & m) == 0b000_000_111u16) == ((m >> 0u16) & 1u16 == 1u16 && (m
            >> 1u16) & 1u16 == 1u16 && (m >> 2u16) & 1u16 == 1u16)) by (bit_vector);
    } else if k == 3 {
        assert(((0b100_100_100u16 & m) == 0b100_100_100u16) == ((m >> 2u16) & 1u16 == 1u16 && (m
            >> 5u16) & 1u16 == 1u16 && (m >> 8u16) & 1u16 == 1u16)) by (bit_vector);
    } else if k == 4 {
        assert(((0b010_010_010u16 & m) == 0b010_010_010u16) == ((m >> 1u16) & 1u16 == 1u16 && (m
            >> 4u16) & 1u16 == 1u16 && (m >> 7u16) & 1u16 == 1u16)) by (bit_vector);
    } else if k == 5 {
        assert(((0b001_001_001u16 & m) == 0b001_001_001u16) == ((m >> 0u16) & 1u16 == 1u16 && (m
            >> 3u16) & 1u16 == 1u16 && (m >> 6u16) & 1u16 == 1u16)) by (bit_vector);
    } else if k == 6 {
        assert(((0b100_010_001u16 & m) == 0b100_010_001u16) == ((m >> 0u16) & 1u16 == 1u16 && (m
            >> 4u16) & 1u16 == 1u16 && (m >> 8u16) & 1u16 == 1u16)) by (bit_vector);
    } else {
        assert(((0b001_010_100u16 & m) == 0b001_010_100u16) == ((m >> 2u16) & 1u16 == 1u16 && (m
            >> 4u16) & 1u16 == 1u16 && (m >> 6u16) & 1u16 == 1u16)) by (bit_vector);
    }
}

/// The mask of winning line `k`.
fn winning_position(k: usize) -> (r: u16)
    requires
        k < 8,
    ensures
        r == line_mask(k as int),
{
    if k == 0 {
        0b111_000_000
    } else if k == 1 {
        0b000_111_000
    } else if k == 2 {
        0b000_000_111
    } else if k == 3 {
        0b100_100_100
    } else if k == 4 {
        0b010_010_010
    } else if k == 5 {
        0b001_001_001
    } else if k == 6 {
        0b100_010_001
    } else {
        0b001_010_100
    }
}

/// The board holding `v` on the three cells of line `k` and nothing else.
pub open spec fn line_board(k: int, v: PlaceValue) -> Seq<PlaceValue> {
    Seq::new(
        9,
        |i: int|
            if i == line(k).0 || i == line(k).1 || i == line(k).2 {
                v
            } else {
                PlaceValue::Empty
            },
    )
}

/// A board with one line filled by a mark, and nothing else, is won by that mark.
pub proof fn lemma_line_board_winner(k: int, v: PlaceValue)
    requires
        0 <= k < 8,
        v != PlaceValue::Empty,
    ensures
        winner_of(line_board(k, v)) == Some(v),
{
    reveal_with_fuel(winner_from, 9);
    let b = line_board(k, v);
    assert forall|i: int| 0 <= i < 9 implies #[trigger] b[i] == (if i == line(k).0 || i == line(k).1
        || i == line(k).2 {
        v
    } else {
        PlaceValue::Empty
    }) by {}
}

/// The search for a winner from line `k` on finds an owned line, or there is none.
proof fn lemma_winner_from(b: Seq<PlaceValue>, k: int)
    requires
        0 <= k <= 8,
    ensures
        winner_from(b, k) is None <==> forall|j: int|
            k <= j < 8 ==> !owns(b, PlaceValue::X, j) && !owns(b, PlaceValue::O, j),
        winner_from(b, k) matches Some(v) ==> v != PlaceValue::Empty && exists|j: int|
            k <= j < 8 && owns(b, v, j),
    decreases 8 - k,
{
    if k < 8 {
        lemma_winner_from(b, k + 1);
    }
}

/// A board has no winner exactly when no line is owned by either mark; a
/// winner owns a line.
pub proof fn lemma_winner_iff_line(b: Seq<PlaceValue>)
    ensures
        winner_of(b) is None <==> forall|k: int|
            0 <= k < 8 ==> !owns(b, PlaceValue::X, k) && !owns(b, PlaceValue::O, k),
        winner_of(b) matches Some(v) ==> v != PlaceValue::Empty && exists|k: int|
            0 <= k < 8 && owns(b, v, k),
{
    lemma_winner_from(b, 0);
}

/// A full board on which no line is owned is a finished game without a winner.
pub proof fn lemma_full_board_draw(b: Seq<PlaceValue>)
    requires
        b.len() == 9,
        forall|i: int| 0 <= i < 9 ==> b[i] != PlaceValue::Empty,
        forall|k: int| 0 <= k < 8 ==> !owns(b, PlaceValue::X, k) && !owns(b, PlaceValue::O, k),
    ensures
        winner_of(b) is None,
        n_empty(b) == 0,
        is_terminal(b),
{
    lemma_winner_from(b, 0);
    lemma_empty_cells(b);
    if n_empty(b) > 0 {
        assert(b[empty_cells(b)[0] as int] == PlaceValue::Empty);
    }
}

impl Board {
    /// The length of the cell sequence.
    pub proof fn lemma_len(&self)
        ensures
            self@.len() == 9,
    {
        assert(self.0@.len() == 9);
    }

    /// An empty board.
    pub fn new() -> (r: Board)
        ensures
            forall|i: int| 0 <= i < 9 ==> r@[i] == PlaceValue::Empty,
            r@.len() == 9,
    {
        Board([PlaceValue::Empty; 9])
    }

    /// The occupant of cell `index`, or `None` when it is empty or out of range.
    pub fn get_cell(&self, index: usize) -> (r: Option<&PlaceValue>)
        ensures
            r == (if index < 9 && self@[index as int] != PlaceValue::Empty {
                Some(&self@[index as int])
            } else {
                None
            }),
    {
        if index < 9 {
            let cell = &self.0[index];
            if *cell == PlaceValue::Empty {
                None
            } else {
                Some(cell)
            }
        } else {
            None
        }
    }

    /// Clears cell `index`.
    pub fn reset_cell(&mut self, index: usize)
        requires
            index < 9,
        ensures
            final(self)@ == old(self)@.update(index as int, PlaceValue::Empty),
    {
        self.0[index] = PlaceValue::Empty;
    }

    /// Writes `value` into cell `index`, whatever it held.
    pub fn place_value(&mut self, index: usize, value: PlaceValue)
        requires
            index < 9,
        ensures
            final(self)@ == old(self)@.update(index as int, value),
    {
        self.0[index] = value;
    }

    /// Whether the game is over: a player owns a line, or the board is full.
    pub fn is_finished(&self) -> (r: bool)
        ensures
            r == is_terminal(self@),
    {
        if self.eval_winner().is_some() {
            return true;
        }
        let mut i: usize = 0;
        while i < 9
            invariant
                i <= 9,
                self@.len() == 9,
                winner_of(self@) is None,
                forall|j: int| 0 <= j < i ==> self@[j] != PlaceValue::Empty,
            decreases 9 - i,
        {
            if self.0[i] == PlaceValue::Empty {
                proof {
                    lemma_empty_cells(self@);
                    assert(self@[i as int] == PlaceValue::Empty);
                    assert(empty_cells(self@).contains((i as int) as usize));
                }
                return false;
            }
            i = i + 1;
        }
        proof {
            lemma_empty_cells(self@);
            if n_empty(self@) > 0 {
                assert(self@[empty_cells(self@)[0] as int] == PlaceValue::Empty);
            }
        }
        true
    }

    /// The masks of the cells held by `X` and by `O`: bit `i` for cell `i`.
    fn bit_position(&self) -> (r: (u16, u16))
        ensures
            forall|i: u16|
                i < 9 ==> (has_bit(r.0, i) <==> self@[i as int] == PlaceValue::X) && (has_bit(
                    r.1,
                    i,
                ) <==> self@[i as int] == PlaceValue::O),
            r.0 < 512,
            r.1 < 512,
            r.0 & r.1 == 0,
    {
        let mut x_bits: u16 = 0;
        let mut o_bits: u16 = 0;
        let mut i: usize = 0;
        proof {
            assert forall|j: u16| j < 16 implies !has_bit(0u16, j) by {
                lemma_zero_bits(j);
            }
            assert(0u16 & 0u16 == 0) by (bit_vector);
        }
        while i < 9
            invariant
                i <= 9,
                self@.len() == 9,
                forall|j: u16|
                    j < i ==> (has_bit(x_bits, j) <==> self@[j as int] == PlaceValue::X) && (
                    has_bit(o_bits, j) <==> self@[j as int] == PlaceValue::O),
                forall|j: u16| i <= j < 16 ==> !has_bit(x_bits, j) && !has_bit(o_bits, j),
                x_bits < 512,
                o_bits < 512,
                x_bits & o_bits == 0,
                o_bits & x_bits == 0,
            decreases 9 - i,
        {
            let ghost (x0, o0) = (x_bits, o_bits);
            match self.0[i] {
                PlaceValue::X => {
                    proof {
                        lemma_set_bit_bounds(x_bits, o_bits, i as u16);
                    }
                    x_bits = x_bits | (1u16 << (i as u16));
                },
                PlaceValue::O => {
                    proof {
                        lemma_set_bit_bounds(o_bits, x_bits, i as u16);
                    }
                    o_bits = o_bits | (1u16 << (i as u16));
                },
                PlaceValue::Empty => {},
            }
            proof {
                assert forall|j: u16| j < 16 implies (has_bit(x_bits, j) == (has_bit(x0, j) || (
                i == j && self@[i as int] == PlaceValue::X))) && (has_bit(o_bits, j) == (has_bit(
                    o0,
                    j,
                ) || (i == j && self@[i as int] == PlaceValue::O))) by {
                    lemma_set_bit(x0, i as u16, j);
                    lemma_set_bit(o0, i as u16, j);
                }
            }
            i = i + 1;
        }
        (x_bits, o_bits)
    }

    /// The owner of a completed line, or `None`; lines are tried in a fixed
    /// order, `X` before `O` on each.
    pub fn eval_winner(&self) -> (r: Option<PlaceValue>)
        ensures
            r == winner_of(self@),
    {
        let (x_bits, o_bits) = self.bit_position();
        let mut k: usize = 0;
        while k < 8
            invariant
                k <= 8,
                winner_of(self@) == winner_from(self@, k as int),
                forall|i: u16|
                    i < 9 ==> (has_bit(x_bits, i) <==> self@[i as int] == PlaceValue::X) && (
                    has_bit(o_bits, i) <==> self@[i as int] == PlaceValue::O),
            decreases 8 - k,
        {
            let position = winning_position(k);
            proof {
                lemma_line_mask(k as int, x_bits);
                lemma_line_mask(k as int, o_bits);
            }
            if (position & x_bits) == position {
                return Some(PlaceValue::X);
            }
            if (position & o_bits) == position {
                return Some(PlaceValue::O);
            }
            k = k + 1;
        }
        None
    }

    /// The indices of the empty cells, ascending.
    pub fn available_cells(&self) -> (r: Vec<usize>)
        ensures
            r@ == empty_cells(self@),
    {
        let mut r: Vec<usize> = Vec::new();
        let mut i: usize = 0;
        while i < 9
            invariant
                i <= 9,
                r@ == empties_below(self@, i as int),
            decreases 9 - i,
        {
            if self.0[i] == PlaceValue::Empty {
                r.push(i);
            }
            i = i + 1;
        }
        r
    }
}

} // verus!
