use vstd::prelude::*;
use crate::error::Error;
use crate::letter::{all_tile_chars, all_tile_codes, first_invalid, letters_of, parse_word, Letter};

verus! {

/// The letters of a board: 15 rows of 15 tile codes, 0 for an empty square.
pub type Grid = Seq<Seq<Letter>>;

/// A grid has 15 rows of 15 squares, and every square holds a tile code.
pub open spec fn grid_wf(g: Grid) -> bool {
    &&& g.len() == 15
    &&& forall|r: int| 0 <= r < 15 ==> (#[trigger] g[r]).len() == 15
    &&& forall|r: int, c: int| 0 <= r < 15 && 0 <= c < 15 ==> #[trigger] g[r][c] <= 26
}

/// The grid without any letter.
pub open spec fn empty_grid() -> Grid {
    Seq::new(15, |r: int| Seq::new(15, |c: int| 0u8))
}

/// Whether no square of the grid holds a letter.
pub open spec fn grid_empty(g: Grid) -> bool {
    forall|r: int, c: int| 0 <= r < 15 && 0 <= c < 15 ==> #[trigger] g[r][c] == 0
}

/// The grid read column by column: square (c, r) of the result is square
/// (r, c) of `g`.
pub open spec fn transpose(g: Grid) -> Grid {
    Seq::new(15, |c: int| Seq::new(15, |r: int| g[r][c]))
}

/// Whether a word of `len` letters laid from (`row`, `col`) stays on the board.
pub open spec fn fits(len: int, row: int, col: int, across: bool) -> bool {
    len == 0 || if across {
        row < 15 && col + len <= 15
    } else {
        col < 15 && row + len <= 15
    }
}

/// The grid after `word` is laid from (`row`, `col`), rightwards when `across`
/// and downwards otherwise. Squares off the word keep their letter.
pub open spec fn with_word(g: Grid, word: Seq<Letter>, row: int, col: int, across: bool) -> Grid {
    Seq::new(
        15,
        |r: int|
            Seq::new(
                15,
                |c: int|
                    if across && r == row && col <= c < col + word.len() {
                        word[c - col]
                    } else if !across && c == col && row <= r < row + word.len() {
                        word[r - row]
                    } else {
                        g[r][c]
                    },
            ),
    )
}

/// The board: the letters by rows in `primary`, the same letters by columns in
/// `secondary`, and the reading direction of `primary`.
pub struct Board {
    pub primary: [[Letter; 15]; 15],
    pub secondary: [[Letter; 15]; 15],
    pub across: bool,
}

impl Board {
    /// The letters of the board as `primary` holds them.
    pub open spec fn grid(&self) -> Grid {
        Seq::new(15, |r: int| Seq::new(15, |c: int| self.primary[r][c]))
    }

    /// The letters of the board as `secondary` holds them.
    pub open spec fn cross_grid(&self) -> Grid {
        Seq::new(15, |r: int| Seq::new(15, |c: int| self.secondary[r][c]))
    }

    /// Every square holds a tile code, and `secondary` is `primary` read by
    /// columns.
    pub open spec fn wf(&self) -> bool {
        forall|r: int, c: int|
            0 <= r < 15 && 0 <= c < 15 ==> #[trigger] self.primary[r][c] <= 26
                && self.secondary[c][r] == self.primary[r][c]
    }

    /// The board with its two grids exchanged and its direction flipped.
    pub open spec fn rotated(self) -> Board {
        Board { primary: self.secondary, secondary: self.primary, across: !self.across }
    }

    /// The board after `n` rotations.
    pub open spec fn rotated_times(self, n: nat) -> Board
        decreases n,
    {
        if n == 0 {
            self
        } else {
            self.rotated().rotated_times((n - 1) as nat)
        }
    }

    /// The letters in the orientation in which words are laid: `primary` while
    /// the board reads across, `secondary` while it is rotated.
    pub open spec fn upright_grid(&self) -> Grid {
        if self.across {
            self.grid()
        } else {
            self.cross_grid()
        }
    }

    pub fn new() -> (board: Board)
        ensures
            board.wf(),
            board.across,
            board.grid() == empty_grid(),
    {
        let board = Board { primary: [[0; 15]; 15], secondary: [[0; 15]; 15], across: true };
        proof {
            assert forall|r: int| 0 <= r < 15 implies #[trigger] board.grid()[r] == empty_grid()[r] by {
                assert(board.grid()[r] =~= empty_grid()[r]);
            }
            assert(board.grid() =~= empty_grid());
        }
        board
    }

    /// Whether no square holds a letter.
    pub fn is_empty(&self) -> (empty: bool)
        ensures
            empty == grid_empty(self.grid()),
    {
        let mut r: usize = 0;
        while r < 15
            invariant
                r <= 15,
                forall|i: int, j: int| 0 <= i < r && 0 <= j < 15 ==> #[trigger] self.grid()[i][j] == 0,
            decreases 15 - r,
        {
            let mut c: usize = 0;
            while c < 15
                invariant
                    r < 15,
                    c <= 15,
                    forall|i: int, j: int|
                        0 <= i < r && 0 <= j < 15 ==> #[trigger] self.grid()[i][j] == 0,
                    forall|j: int| 0 <= j < c ==> #[trigger] self.grid()[r as int][j] == 0,
                decreases 15 - c,
            {
                if self.primary[r][c] != 0 {
                    assert(self.grid()[r as int][c as int] != 0);
                    return false;
                }
                c = c + 1;
            }
            r = r + 1;
        }
        true
    }

    /// The letter on square (`row`, `col`), 0 when the square is empty.
    pub fn get(&self, row: usize, col: usize) -> (l: Letter)
        requires
            row < 15,
            col < 15,
        ensures
            l == self.grid()[row as int][col as int],
    {
        self.primary[row][col]
    }

    /// Lays `word` from (`row`, `col`): rightwards when `across`, downwards
    /// otherwise. The word goes down whole or not at all.
    pub fn play(&mut self, word: &str, row_index: usize, column_index: usize, across: bool) -> (r:
        Result<(), Error>)
        requires
            old(self).wf(),
        ensures
            final(self).wf(),
            final(self).across == old(self).across,
            r is Ok <==> all_tile_chars(word@) && fits(
                word@.len() as int,
                row_index as int,
                column_index as int,
                across,
            ),
            r is Ok ==> final(self).grid() == with_word(
                old(self).grid(),
                letters_of(word@),
                row_index as int,
                column_index as int,
                across,
            ),
            r is Err ==> *final(self) == *old(self),
            !all_tile_chars(word@) ==> 0 <= first_invalid(word@) < word@.len() && r == Err::<
                (),
                Error,
            >(Error::InvalidCharacter(word@[first_invalid(word@)])),
            all_tile_chars(word@) && r is Err ==> r == Err::<(), Error>(Error::OutOfRange),
    {
        let letters = match parse_word(word) {
            Ok(letters) => letters,
            Err(e) => {
                return Err(e);
            },
        };
        let n = letters.len();
        if n == 0 {
            proof {
                assert(letters_of(word@) =~= Seq::<Letter>::empty());
                lemma_with_empty_word(self.grid(), row_index as int, column_index as int, across);
            }
            return Ok(());
        }
        if across {
            if row_index >= 15 || column_index > 15 || n > 15 - column_index {
                return Err(Error::OutOfRange);
            }
            let mut i: usize = 0;
            while i < n
                invariant
                    i <= n,
                    n == letters.len(),
                    row_index < 15,
                    column_index + n <= 15,
                    all_tile_codes(letters@),
                    self.across == old(self).across,
                    forall|r: int, c: int|
                        0 <= r < 15 && 0 <= c < 15 ==> #[trigger] self.primary[r][c] == (if r
                            == row_index && column_index <= c < column_index + i {
                            letters[c - column_index]
                        } else {
                            old(self).primary[r][c]
                        }),
                    forall|r: int, c: int|
                        0 <= r < 15 && 0 <= c < 15 ==> #[trigger] self.primary[r][c] <= 26
                            && self.secondary[c][r] == self.primary[r][c],
                decreases n - i,
            {
                let letter = letters[i];
                self.primary[row_index][column_index + i] = letter;
                self.secondary[column_index + i][row_index] = letter;
                i = i + 1;
            }
        } else {
            if column_index >= 15 || row_index > 15 || n > 15 - row_index {
                return Err(Error::OutOfRange);
            }
            let mut i: usize = 0;
            while i < n
                invariant
                    i <= n,
                    n == letters.len(),
                    column_index < 15,
                    row_index + n <= 15,
                    all_tile_codes(letters@),
                    self.across == old(self).across,
                    forall|r: int, c: int|
                        0 <= r < 15 && 0 <= c < 15 ==> #[trigger] self.primary[r][c] == (if c
                            == column_index && row_index <= r < row_index + i {
                            letters[r - row_index]
                        } else {
                            old(self).primary[r][c]
                        }),
                    forall|r: int, c: int|
                        0 <= r < 15 && 0 <= c < 15 ==> #[trigger] self.primary[r][c] <= 26
                            && self.secondary[c][r] == self.primary[r][c],
                decreases n - i,
            {
                let letter = letters[i];
                self.primary[row_index + i][column_index] = letter;
                self.secondary[column_index][row_index + i] = letter;
                i = i + 1;
            }
        }
        proof {
            let after = self.grid();
            let goal = with_word(
                old(self).grid(),
                letters_of(word@),
                row_index as int,
                column_index as int,
                across,
            );
            assert forall|r: int| 0 <= r < 15 implies #[trigger] after[r] == goal[r] by {
                assert(after[r] =~= goal[r]);
            }
            assert(after =~= goal);
        }
        Ok(())
    }

    /// Exchanges the two grids and flips the direction.
    pub fn rotate(&mut self)
        ensures
            *final(self) == old(self).rotated(),
            old(self).wf() ==> final(self).wf(),
    {
        let primary = self.primary;
        self.primary = self.secondary;
        self.secondary = primary;
        self.across = !self.across;
        proof {
            if old(self).wf() {
                lemma_rotated_wf(*old(self));
            }
        }
    }
}

/// Laying the empty word changes nothing.
pub proof fn lemma_with_empty_word(g: Grid, row: int, col: int, across: bool)
    requires
        g.len() == 15,
        forall|r: int| 0 <= r < 15 ==> (#[trigger] g[r]).len() == 15,
    ensures
        with_word(g, Seq::<Letter>::empty(), row, col, across) == g,
{
    let h = with_word(g, Seq::<Letter>::empty(), row, col, across);
    assert forall|r: int| 0 <= r < 15 implies #[trigger] h[r] == g[r] by {
        assert(h[r] =~= g[r]);
    }
    assert(h =~= g);
}

/// On a well-formed board, `secondary` is the transpose of `primary`, square
/// by square, and `primary` the transpose of `secondary`.
pub proof fn lemma_board_transposed(board: Board)
    requires
        board.wf(),
    ensures
        grid_wf(board.grid()),
        grid_wf(board.cross_grid()),
        board.cross_grid() == transpose(board.grid()),
        board.grid() == transpose(board.cross_grid()),
{
    let g = board.grid();
    let s = board.cross_grid();
    assert forall|r: int, c: int| 0 <= r < 15 && 0 <= c < 15 implies #[trigger] s[r][c] <= 26 by {
        assert(board.primary[c][r] <= 26);
    }
    assert forall|r: int| 0 <= r < 15 implies #[trigger] s[r] == transpose(g)[r] by {
        assert forall|c: int| 0 <= c < 15 implies s[r][c] == transpose(g)[r][c] by {
            assert(board.primary[c][r] <= 26);
        }
        assert(s[r] =~= transpose(g)[r]);
    }
    assert(s =~= transpose(g));
    assert forall|r: int| 0 <= r < 15 implies #[trigger] g[r] == transpose(s)[r] by {
        assert forall|c: int| 0 <= c < 15 implies g[r][c] == transpose(s)[r][c] by {
            assert(board.primary[r][c] <= 26);
        }
        assert(g[r] =~= transpose(s)[r]);
    }
    assert(g =~= transpose(s));
}

/// Rotating a well-formed board gives a well-formed board.
pub proof fn lemma_rotated_wf(board: Board)
    requires
        board.wf(),
    ensures
        board.rotated().wf(),
        board.rotated().grid() == board.cross_grid(),
        board.rotated().cross_grid() == board.grid(),
        board.rotated().upright_grid() == board.upright_grid(),
{
    let t = board.rotated();
    assert forall|r: int, c: int| 0 <= r < 15 && 0 <= c < 15 implies #[trigger] t.primary[r][c]
        <= 26 && t.secondary[c][r] == t.primary[r][c] by {
        assert(board.primary[c][r] <= 26);
    }
}

/// Two rotations give the board back.
pub proof fn lemma_rotate_twice(board: Board)
    ensures
        board.rotated().rotated() == board,
{
}

/// An even number of rotations gives the board back.
pub proof fn lemma_rotate_balanced(board: Board, n: nat)
    requires
        n % 2 == 0,
    ensures
        board.rotated_times(n) == board,
    decreases n,
{
    if n > 0 {
        assert(board.rotated_times(n) == board.rotated().rotated_times((n - 1) as nat));
        assert(board.rotated().rotated_times((n - 1) as nat)
            == board.rotated().rotated().rotated_times((n - 2) as nat));
        lemma_rotate_balanced(board, (n - 2) as nat);
    }
}

/// Transposing twice gives the grid back.
pub proof fn lemma_transpose_twice(g: Grid)
    requires
        g.len() == 15,
        forall|r: int| 0 <= r < 15 ==> (#[trigger] g[r]).len() == 15,
    ensures
        transpose(transpose(g)) == g,
{
    let t = transpose(transpose(g));
    assert forall|r: int| 0 <= r < 15 implies #[trigger] t[r] == g[r] by {
        assert(t[r] =~= g[r]);
    }
    assert(t =~= g);
}

/// Laying a word and transposing is laying it in the other direction on the
/// transposed grid, with row and column exchanged.
pub proof fn lemma_transpose_with_word(g: Grid, word: Seq<Letter>, row: int, col: int, across: bool)
    ensures
        transpose(with_word(g, word, row, col, across)) == with_word(
            transpose(g),
            word,
            col,
            row,
            !across,
        ),
{
    let a = transpose(with_word(g, word, row, col, across));
    let b = with_word(transpose(g), word, col, row, !across);
    assert forall|r: int| 0 <= r < 15 implies #[trigger] a[r] == b[r] by {
        assert(a[r] =~= b[r]);
    }
    assert(a =~= b);
}

} // verus!
