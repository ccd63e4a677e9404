//! Board rendering: the game state as a flat textual grid.
//!
//! Each of the `size` rows holds `size` cell characters and one newline:
//! `-` for an empty cell, `O` for a snake cell, `&` for a food cell.

use vstd::prelude::*;
use vstd::string::StringExecFns;

use crate::state::Inner;

verus! {

/// The character rendered for the board cell `(x, y)`; snake cells take
/// precedence over food, the invariant keeps the two disjoint anyway.
pub open spec fn cell_char(s: Inner, x: usize, y: usize) -> char {
    if s.snake@.contains((x, y)) {
        'O'
    } else if s.food@.contains((x, y)) {
        '&'
    } else {
        '-'
    }
}

/// One rendered row: `size` cell characters followed by a newline.
pub open spec fn row_chars(s: Inner, y: usize) -> Seq<char> {
    Seq::new(
        (s.size + 1) as nat,
        |x: int| if x == s.size { '\n' } else { cell_char(s, x as usize, y) },
    )
}

/// The first `y` rendered rows, concatenated.
pub open spec fn rows_prefix(s: Inner, y: int) -> Seq<char>
    decreases y,
{
    if y <= 0 {
        Seq::empty()
    } else {
        rows_prefix(s, y - 1) + row_chars(s, (y - 1) as usize)
    }
}

/// The full rendered board.
pub open spec fn board_text(s: Inner) -> Seq<char> {
    rows_prefix(s, s.size as int)
}

/// The flat index of board position `(x, y)` in the rendered text.
pub open spec fn board_pos(size: usize, x: int, y: int) -> int {
    y * (size + 1) + x
}

/// Length of the concatenation of the first `y` rows.
proof fn lemma_rows_prefix_len(s: Inner, y: int)
    requires
        0 <= y,
    ensures
        rows_prefix(s, y).len() == y * (s.size + 1),
    decreases y,
{
    if y > 0 {
        lemma_rows_prefix_len(s, y - 1);
        assert(rows_prefix(s, y).len() == rows_prefix(s, y - 1).len() + (s.size + 1));
        assert((y - 1) * (s.size + 1) + (s.size + 1) == y * (s.size + 1)) by (nonlinear_arith);
    } else {
        assert(rows_prefix(s, y).len() == 0);
    }
}

/// Indexing into the concatenated rows reaches the expected row character.
proof fn lemma_rows_prefix_index(s: Inner, rows: int, y: int, x: int)
    requires
        0 <= y < rows,
        0 <= x <= s.size,
    ensures
        rows_prefix(s, rows)[board_pos(s.size, x, y)] == row_chars(s, y as usize)[x],
    decreases rows,
{
    lemma_rows_prefix_len(s, rows - 1);
    if y == rows - 1 {
        assert(board_pos(s.size, x, y) - (rows - 1) * (s.size + 1) == x);
    } else {
        lemma_rows_prefix_index(s, rows - 1, y, x);
        assert(y * (s.size + 1) + x < (rows - 1) * (s.size + 1)) by (nonlinear_arith)
            requires
                0 <= y,
                y <= rows - 2,
                0 <= x <= s.size,
        ;
    }
}

impl Inner {
    /// Renders the current board as flat text, row by row: `-` for an empty
    /// cell, `O` for a snake cell, `&` for a food cell, one newline after
    /// each row. Read-only.
    pub fn get_board(&self) -> (b: String)
        requires
            self.wf(),
        ensures
            b@ == board_text(*self),
            b@.len() == self.size * (self.size + 1),
            forall|x: int, y: int|
                0 <= x < self.size && 0 <= y < self.size ==> b@[#[trigger] board_pos(
                    self.size,
                    x,
                    y,
                )] == cell_char(*self, x as usize, y as usize),
            forall|y: int|
                0 <= y < self.size ==> b@[#[trigger] board_pos(self.size, self.size as int, y)]
                    == '\n',
    {
        proof {
            reveal_strlit("O");
            reveal_strlit("&");
            reveal_strlit("-");
            reveal_strlit("\n");
        }
        let size = self.size;
        let mut b = String::new();
        let mut y: usize = 0;
        while y < size
            invariant
                size == self.size,
                self.wf(),
                y <= size,
                b@ == rows_prefix(*self, y as int),
                "O"@ == seq!['O'],
                "&"@ == seq!['&'],
                "-"@ == seq!['-'],
                "\n"@ == seq!['\n'],
            decreases size - y,
        {
            let mut x: usize = 0;
            while x < size
                invariant
                    size == self.size,
                    self.wf(),
                    y < size,
                    x <= size,
                    b@ == rows_prefix(*self, y as int) + row_chars(*self, y).take(x as int),
                    "O"@ == seq!['O'],
                    "&"@ == seq!['&'],
                    "-"@ == seq!['-'],
                    "\n"@ == seq!['\n'],
                decreases size - x,
            {
                let c = (x, y);
                let piece = if crate::state::find_cell(&self.snake, c).is_some() {
                    "O"
                } else if crate::state::find_cell(&self.food, c).is_some() {
                    "&"
                } else {
                    "-"
                };
                proof {
                    assert(piece@ =~= seq![cell_char(*self, x, y)]);
                    assert(row_chars(*self, y)[x as int] == cell_char(*self, x, y));
                    assert(row_chars(*self, y).take(x as int).push(cell_char(*self, x, y)) =~= row_chars(
                        *self,
                        y,
                    ).take(x as int + 1));
                    assert((rows_prefix(*self, y as int) + row_chars(*self, y).take(x as int))
                        + piece@ =~= rows_prefix(*self, y as int) + row_chars(*self, y).take(
                        x as int + 1,
                    ));
                }
                b.append(piece);
                x = x + 1;
            }
            proof {
                assert(row_chars(*self, y)[size as int] == '\n');
                assert(row_chars(*self, y).take(size as int).push('\n') =~= row_chars(*self, y));
                assert((rows_prefix(*self, y as int) + row_chars(*self, y).take(size as int))
                    + "\n"@ =~= rows_prefix(*self, y as int) + row_chars(*self, y));
                assert(rows_prefix(*self, y as int) + row_chars(*self, y) == rows_prefix(
                    *self,
                    y as int + 1,
                ));
            }
            b.append("\n");
            y = y + 1;
        }
        proof {
            lemma_rows_prefix_len(*self, size as int);
            assert forall|x: int, yy: int| 0 <= x < size && 0 <= yy < size implies b@[#[trigger]
                board_pos(size, x, yy)] == cell_char(*self, x as usize, yy as usize) by {
                lemma_rows_prefix_index(*self, size as int, yy, x);
            }
            assert forall|yy: int| 0 <= yy < size implies b@[#[trigger]
                board_pos(size, size as int, yy)] == '\n' by {
                lemma_rows_prefix_index(*self, size as int, yy, size as int);
            }
        }
        b
    }
}

} // verus!
