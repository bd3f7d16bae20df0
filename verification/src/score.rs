use vstd::prelude::*;
use crate::board::Board;
use crate::letter::{all_tile_chars, all_tile_codes, letters_of, parse_word, Letter};

verus! {

/// The points of each tile, by tile code; the blank is worth nothing.
pub const LETTERS_VALUES: [u16; 27] = [
    0, 1, 3, 3, 2, 1, 4, 2, 4, 1, 8, 10, 1, 2, 1, 1, 3, 8, 1, 1, 1, 1, 4, 10, 10, 10, 10,
];

/// The premium of each square: 0 none, 1 double letter, 2 triple letter,
/// 3 double word, 4 triple word.
pub const PREMIUM_SQUARES: [[u8; 15]; 15] = [
    [4, 0, 0, 1, 0, 0, 0, 4, 0, 0, 0, 1, 0, 0, 4],
    [0, 3, 0, 0, 0, 2, 0, 0, 0, 2, 0, 0, 0, 3, 0],
    [0, 0, 3, 0, 0, 0, 1, 0, 1, 0, 0, 0, 3, 0, 0],
    [1, 0, 0, 3, 0, 0, 0, 1, 0, 0, 0, 3, 0, 0, 1],
    [0, 0, 0, 0, 3, 0, 0, 0, 0, 0, 3, 0, 0, 0, 0],
    [0, 2, 0, 0, 0, 2, 0, 0, 0, 2, 0, 0, 0, 2, 0],
    [0, 0, 1, 0, 0, 0, 1, 0, 1, 0, 0, 0, 1, 0, 0],
    [4, 0, 0, 1, 0, 0, 0, 3, 0, 0, 0, 1, 0, 0, 4],
    [0, 0, 1, 0, 0, 0, 1, 0, 1, 0, 0, 0, 1, 0, 0],
    [0, 2, 0, 0, 0, 2, 0, 0, 0, 2, 0, 0, 0, 2, 0],
    [0, 0, 0, 0, 3, 0, 0, 0, 0, 0, 3, 0, 0, 0, 0],
    [1, 0, 0, 3, 0, 0, 0, 1, 0, 0, 0, 3, 0, 0, 1],
    [0, 0, 3, 0, 0, 0, 1, 0, 1, 0, 0, 0, 3, 0, 0],
    [0, 3, 0, 0, 0, 2, 0, 0, 0, 2, 0, 0, 0, 3, 0],
    [4, 0, 0, 1, 0, 0, 0, 4, 0, 0, 0, 1, 0, 0, 4],
];

/// The bonus for laying seven tiles in one move.
pub const BINGO_BONUS: u16 = 50;

/// What a square does to the first tile laid on it.
#[derive(Clone, Copy, Debug, PartialEq, Eq, Structural)]
pub enum SquareType {
    Normal,
    DoubleLetter,
    TripleLetter,
    DoubleWord,
    TripleWord,
}

/// The kind of square that a premium code stands for.
pub open spec fn square_type_of(value: u8) -> SquareType {
    if value == 1 {
        SquareType::DoubleLetter
    } else if value == 2 {
        SquareType::TripleLetter
    } else if value == 3 {
        SquareType::DoubleWord
    } else if value == 4 {
        SquareType::TripleWord
    } else {
        SquareType::Normal
    }
}

impl SquareType {
    pub fn from_u8(value: u8) -> (kind: SquareType)
        requires
            value <= 4,
        ensures
            kind == square_type_of(value),
    {
        if value == 0 {
            SquareType::Normal
        } else if value == 1 {
            SquareType::DoubleLetter
        } else if value == 2 {
            SquareType::TripleLetter
        } else if value == 3 {
            SquareType::DoubleWord
        } else {
            SquareType::TripleWord
        }
    }

    /// The factor on the points of a tile newly laid on such a square.
    pub open spec fn letter_factor(self) -> int {
        match self {
            SquareType::DoubleLetter => 2,
            SquareType::TripleLetter => 3,
            _ => 1,
        }
    }

    /// The factor on the points of a word with a tile newly laid on such a
    /// square.
    pub open spec fn word_factor(self) -> int {
        match self {
            SquareType::DoubleWord => 2,
            SquareType::TripleWord => 3,
            _ => 1,
        }
    }
}

/// The points of a tile.
#[verifier::opaque]
pub open spec fn letter_value(l: Letter) -> int {
    if l <= 26 {
        LETTERS_VALUES[l as int] as int
    } else {
        0
    }
}

/// The kind of square (`r`, `c`); off the board every square is plain.
#[verifier::opaque]
pub open spec fn premium(r: int, c: int) -> SquareType {
    if 0 <= r < 15 && 0 <= c < 15 {
        square_type_of(PREMIUM_SQUARES[r][c])
    } else {
        SquareType::Normal
    }
}

/// The sum of the points of the tiles of `word`.
pub open spec fn word_points(word: Seq<Letter>) -> int
    decreases word.len(),
{
    if word.len() == 0 {
        0
    } else {
        word_points(word.drop_last()) + letter_value(word.last())
    }
}

/// The points of tile `l` on square (`r`, `c`): its value, times the letter
/// premium of the square when the tile is `fresh`, that is newly laid.
pub open spec fn tile_points(l: Letter, r: int, c: int, fresh: bool) -> int {
    if fresh {
        letter_value(l) * premium(r, c).letter_factor()
    } else {
        letter_value(l)
    }
}

/// The factor that square (`r`, `c`) puts on a word through it: its word
/// premium when the tile on it is `fresh`, 1 otherwise.
pub open spec fn square_factor(r: int, c: int, fresh: bool) -> int {
    if fresh {
        premium(r, c).word_factor()
    } else {
        1
    }
}

/// The points of the first `k` tiles of `word`, laid from column `c` of row
/// `r`, whose squares hold `line` before the move.
pub open spec fn main_points(line: Seq<Letter>, word: Seq<Letter>, r: int, c: int, k: int) -> int
    decreases k,
{
    if k <= 0 {
        0
    } else {
        main_points(line, word, r, c, k - 1) + tile_points(
            word[k - 1],
            r,
            c + k - 1,
            line[c + k - 1] == 0,
        )
    }
}

/// The product of the word premiums under the first `k` tiles of a word laid
/// from column `c` of row `r`.
pub open spec fn main_factor(line: Seq<Letter>, r: int, c: int, k: int) -> int
    decreases k,
{
    if k <= 0 {
        1
    } else {
        main_factor(line, r, c, k - 1) * square_factor(r, c + k - 1, line[c + k - 1] == 0)
    }
}

/// The points of the word that the tile at position `i` of `word` forms
/// across the line: the points `values[c + i]` of the letters it joins plus
/// its own, times the word premium of its square. Nothing where it joins
/// no letter.
pub open spec fn cross_term(
    line: Seq<Letter>,
    values: Seq<u16>,
    word: Seq<Letter>,
    r: int,
    c: int,
    i: int,
) -> int {
    if values[c + i] != 0 {
        (values[c + i] + tile_points(word[i], r, c + i, line[c + i] == 0)) * square_factor(
            r,
            c + i,
            line[c + i] == 0,
        )
    } else {
        0
    }
}

/// The points of the words formed across the line by the first `k` tiles.
pub open spec fn cross_points(
    line: Seq<Letter>,
    values: Seq<u16>,
    word: Seq<Letter>,
    r: int,
    c: int,
    k: int,
) -> int
    decreases k,
{
    if k <= 0 {
        0
    } else {
        cross_points(line, values, word, r, c, k - 1) + cross_term(line, values, word, r, c, k - 1)
    }
}

/// The score of `word` laid from column `c` of row `r`: the points of its
/// tiles times its word premiums, plus the words formed across, plus the
/// bonus when `bingo`.
pub open spec fn placement_score(
    line: Seq<Letter>,
    values: Seq<u16>,
    word: Seq<Letter>,
    r: int,
    c: int,
    bingo: bool,
) -> int {
    main_points(line, word, r, c, word.len() as int) * main_factor(line, r, c, word.len() as int)
        + cross_points(line, values, word, r, c, word.len() as int) + if bingo {
        50int
    } else {
        0int
    }
}

/// The points of a tile.
pub fn tile_value(l: Letter) -> (v: u16)
    requires
        l <= 26,
    ensures
        v == letter_value(l),
        v <= 10,
        l != 0 ==> v >= 1,
{
    proof {
        reveal(letter_value);
    }
    LETTERS_VALUES[l as usize]
}

/// No tile is worth more than 10 points, and every letter is worth at least
/// one.
pub proof fn lemma_letter_value_bounds(l: Letter)
    ensures
        0 <= letter_value(l) <= 10,
        1 <= l <= 26 ==> letter_value(l) >= 1,
        l == 0 ==> letter_value(l) == 0,
{
    reveal(letter_value);
}

/// The kind of square (`row`, `col`).
pub fn square_type(row: usize, col: usize) -> (kind: SquareType)
    requires
        row < 15,
        col < 15,
    ensures
        kind == premium(row as int, col as int),
{
    proof {
        reveal(premium);
    }
    SquareType::from_u8(PREMIUM_SQUARES[row][col])
}

/// For tile `l` on square (`row`, `col`): its points there and the factor
/// that the square puts on a word through it.
pub fn tile_score(board: &Board, l: Letter, row: usize, col: usize) -> (r: (u32, u32))
    requires
        row < 15,
        col < 15,
        l <= 26,
    ensures
        r.0 == tile_points(l, row as int, col as int, board.grid()[row as int][col as int] == 0),
        r.1 == square_factor(row as int, col as int, board.grid()[row as int][col as int] == 0),
        r.0 <= 30,
        1 <= r.1 <= 3,
{
    let value: u32 = tile_value(l) as u32;
    if board.primary[row][col] != 0 {
        (value, 1)
    } else {
        match square_type(row, col) {
            SquareType::DoubleLetter => (value * 2, 1),
            SquareType::TripleLetter => (value * 3, 1),
            SquareType::DoubleWord => (value, 2),
            SquareType::TripleWord => (value, 3),
            SquareType::Normal => (value, 1),
        }
    }
}

/// The product of the word premiums of the `k` squares from column `c` of
/// row `r`.
pub open spec fn row_factor(r: int, c: int, k: int) -> int
    decreases k,
{
    if k <= 0 {
        1
    } else {
        row_factor(r, c, k - 1) * premium(r, c + k - 1).word_factor()
    }
}

/// The points of the tiles of `letters`.
pub fn word_value(letters: &str) -> (score: u16)
    requires
        all_tile_chars(letters@),
        word_points(letters_of(letters@)) <= u16::MAX,
    ensures
        score == word_points(letters_of(letters@)),
{
    match parse_word(letters) {
        Ok(word) => letters_value(&word),
        Err(_) => 0,
    }
}

/// The points of the tiles of `word`.
pub fn letters_value(word: &Vec<Letter>) -> (score: u16)
    requires
        all_tile_codes(word@),
        word_points(word@) <= u16::MAX,
    ensures
        score == word_points(word@),
{
    let mut score: u16 = 0;
    let mut i: usize = 0;
    while i < word.len()
        invariant
            i <= word.len(),
            all_tile_codes(word@),
            word_points(word@) <= u16::MAX,
            score == word_points(word@.take(i as int)),
        decreases word.len() - i,
    {
        proof {
            assert(word@.take(i + 1).drop_last() =~= word@.take(i as int));
            lemma_word_points_prefix(word@, i + 1);
        }
        score = score + tile_value(word[i]);
        i = i + 1;
    }
    proof {
        assert(word@.take(word@.len() as int) =~= word@);
    }
    score
}

/// The score of `letters` laid from column `column_index` of row
/// `row_index`, given the points `value_set` of the letters that each empty
/// square joins across the row.
pub fn calculate_score(
    board: &Board,
    value_set: &[[u16; 15]; 15],
    letters: &str,
    row_index: usize,
    column_index: usize,
    bingo: bool,
) -> (score: u16)
    requires
        row_index < 15,
        column_index + letters@.len() <= 15,
        all_tile_chars(letters@),
        placement_score(
            board.grid()[row_index as int],
            value_set[row_index as int]@,
            letters_of(letters@),
            row_index as int,
            column_index as int,
            bingo,
        ) <= u16::MAX,
    ensures
        score == placement_score(
            board.grid()[row_index as int],
            value_set[row_index as int]@,
            letters_of(letters@),
            row_index as int,
            column_index as int,
            bingo,
        ),
{
    match parse_word(letters) {
        Ok(word) => score_letters(board, value_set, &word, row_index, column_index, bingo),
        Err(_) => 0,
    }
}

/// The score of the tile codes `word` laid from column `col` of row `row`.
pub fn score_letters(
    board: &Board,
    value_set: &[[u16; 15]; 15],
    word: &Vec<Letter>,
    row: usize,
    col: usize,
    bingo: bool,
) -> (score: u16)
    requires
        row < 15,
        col + word.len() <= 15,
        all_tile_codes(word@),
        placement_score(
            board.grid()[row as int],
            value_set[row as int]@,
            word@,
            row as int,
            col as int,
            bingo,
        ) <= u16::MAX,
    ensures
        score == placement_score(
            board.grid()[row as int],
            value_set[row as int]@,
            word@,
            row as int,
            col as int,
            bingo,
        ),
{
    let ghost line = board.grid()[row as int];
    let ghost values = value_set[row as int]@;
    let mut main: u32 = 0;
    let mut factor: u32 = 1;
    let mut cross: u64 = 0;
    let mut k: usize = 0;
    while k < word.len()
        invariant
            k <= word.len(),
            row < 15,
            col + word.len() <= 15,
            all_tile_codes(word@),
            line == board.grid()[row as int],
            values == value_set[row as int]@,
            main == main_points(line, word@, row as int, col as int, k as int),
            factor == main_factor(line, row as int, col as int, k as int),
            cross == cross_points(line, values, word@, row as int, col as int, k as int),
            main <= 30 * k,
            1 <= factor <= 27,
            cross <= 200000 * k,
        decreases word.len() - k,
    {
        let c = col + k;
        let (value, square) = tile_score(board, word[k], row, c);
        let ghost factor_before = factor as int;
        proof {
            lemma_main_factor_bound(line, row as int, col as int, k + 1);
            assert(line[c as int] == board.grid()[row as int][c as int]);
            assert(main_factor(line, row as int, col as int, k + 1) == factor_before * square);
        }
        factor = factor * square;
        main = main + value;
        let joined = value_set[row][c];
        assert(joined == values[c as int]);
        if joined != 0 {
            assert((joined + value) * square <= 200000) by (nonlinear_arith)
                requires
                    joined <= 65535,
                    value <= 30,
                    1 <= square <= 3,
            ;
            cross = cross + (joined as u64 + value as u64) * (square as u64);
        }
        k = k + 1;
    }
    assert(main * factor <= 450 * 27) by (nonlinear_arith)
        requires
            main <= 450,
            factor <= 27,
    ;
    let bonus: u64 = if bingo {
        BINGO_BONUS as u64
    } else {
        0
    };
    let total: u64 = (main as u64) * (factor as u64) + cross + bonus;
    total as u16
}

/// The points of a prefix of a word do not exceed the points of the word.
pub proof fn lemma_word_points_prefix(word: Seq<Letter>, k: int)
    requires
        0 <= k <= word.len(),
    ensures
        0 <= word_points(word.take(k)) <= word_points(word),
        word_points(word.take(k)) <= 10 * k,
    decreases word.len() - k,
{
    lemma_word_points_bound(word.take(k));
    if k < word.len() {
        assert(word.take(k + 1).drop_last() =~= word.take(k));
        assert(word.take(k + 1).last() == word[k]);
        lemma_letter_value_bounds(word[k]);
        lemma_word_points_prefix(word, k + 1);
    } else {
        assert(word.take(k) =~= word);
    }
}

/// A word of `n` tiles has between 0 and `10 * n` points.
pub proof fn lemma_word_points_bound(word: Seq<Letter>)
    ensures
        0 <= word_points(word) <= 10 * word.len(),
    decreases word.len(),
{
    if word.len() > 0 {
        lemma_word_points_bound(word.drop_last());
        lemma_letter_value_bounds(word.last());
    }
}

/// The distance of row or column `i` from the nearer edge of the board.
pub open spec fn from_edge(i: int) -> int {
    if i <= 7 {
        i
    } else {
        14 - i
    }
}

/// The kind of square (`r`, `c`) by rule: the layout is the same in all
/// eight parts into which the two centre lines and the two diagonals cut
/// the board, so the distances from the edges decide.
pub open spec fn premium_rule(r: int, c: int) -> SquareType {
    let a = from_edge(r);
    let b = from_edge(c);
    let x = if a <= b {
        a
    } else {
        b
    };
    let y = if a <= b {
        b
    } else {
        a
    };
    if x == 0 && (y == 0 || y == 7) {
        SquareType::TripleWord
    } else if x == y && (x == 1 || x == 2 || x == 3 || x == 4 || x == 7) {
        SquareType::DoubleWord
    } else if (x == 1 || x == 5) && y == 5 {
        SquareType::TripleLetter
    } else if (x == 0 && y == 3) || (x == 2 && y == 6) || (x == 3 && y == 7) || (x == 6 && y == 6) {
        SquareType::DoubleLetter
    } else {
        SquareType::Normal
    }
}

/// The premium table follows the rule, row by row.
pub proof fn lemma_premium_rule(r: int, c: int)
    requires
        0 <= r < 15,
        0 <= c < 15,
    ensures
        premium(r, c) == premium_rule(r, c),
{
    if r == 0 || r == 14 {
        lemma_premium_edge_rows(r, c);
    } else if r == 1 || r == 13 {
        lemma_premium_second_rows(r, c);
    } else if r == 2 || r == 12 {
        lemma_premium_third_rows(r, c);
    } else if r == 3 || r == 11 {
        lemma_premium_fourth_rows(r, c);
    } else if r == 4 || r == 10 {
        lemma_premium_fifth_rows(r, c);
    } else if r == 5 || r == 9 {
        lemma_premium_sixth_rows(r, c);
    } else if r == 6 || r == 8 {
        lemma_premium_seventh_rows(r, c);
    } else {
        lemma_premium_centre_row(c);
    }
}

/// The first and the last row of the table follow the rule.
proof fn lemma_premium_edge_rows(r: int, c: int)
    requires
        r == 0 || r == 14,
        0 <= c < 15,
    ensures
        premium(r, c) == premium_rule(r, c),
{
    reveal(premium);
}

/// The second row from either edge follows the rule.
proof fn lemma_premium_second_rows(r: int, c: int)
    requires
        r == 1 || r == 13,
        0 <= c < 15,
    ensures
        premium(r, c) == premium_rule(r, c),
{
    reveal(premium);
}

/// The third row from either edge follows the rule.
proof fn lemma_premium_third_rows(r: int, c: int)
    requires
        r == 2 || r == 12,
        0 <= c < 15,
    ensures
        premium(r, c) == premium_rule(r, c),
{
    reveal(premium);
}

/// The fourth row from either edge follows the rule.
proof fn lemma_premium_fourth_rows(r: int, c: int)
    requires
        r == 3 || r == 11,
        0 <= c < 15,
    ensures
        premium(r, c) == premium_rule(r, c),
{
    reveal(premium);
}

/// The fifth row from either edge follows the rule.
proof fn lemma_premium_fifth_rows(r: int, c: int)
    requires
        r == 4 || r == 10,
        0 <= c < 15,
    ensures
        premium(r, c) == premium_rule(r, c),
{
    reveal(premium);
}

/// The sixth row from either edge follows the rule.
proof fn lemma_premium_sixth_rows(r: int, c: int)
    requires
        r == 5 || r == 9,
        0 <= c < 15,
    ensures
        premium(r, c) == premium_rule(r, c),
{
    reveal(premium);
}

/// The seventh row from either edge follows the rule.
proof fn lemma_premium_seventh_rows(r: int, c: int)
    requires
        r == 6 || r == 8,
        0 <= c < 15,
    ensures
        premium(r, c) == premium_rule(r, c),
{
    reveal(premium);
}

/// The centre row of the table follows the rule.
proof fn lemma_premium_centre_row(c: int)
    requires
        0 <= c < 15,
    ensures
        premium(7, c) == premium_rule(7, c),
{
    reveal(premium);
}

/// The number of word premium squares among the `k` squares from column `c`
/// of row `r`.
pub open spec fn word_squares(r: int, c: int, k: int) -> int
    decreases k,
{
    if k <= 0 {
        0
    } else {
        word_squares(r, c, k - 1) + if premium(r, c + k - 1).word_factor() > 1 {
            1int
        } else {
            0int
        }
    }
}

/// The number of columns among the `k` columns from `c` where row `r` can
/// have a word premium square: the two columns as far from the edges as the
/// row is and, in the edge rows and the centre row, the edge columns and
/// the centre column.
pub open spec fn word_columns(r: int, c: int, k: int) -> int {
    let within = |p: int| if c <= p < c + k {
        1int
    } else {
        0int
    };
    if from_edge(r) == 0 || from_edge(r) == 7 {
        within(0) + within(7) + within(14)
    } else {
        within(from_edge(r)) + within(14 - from_edge(r))
    }
}

/// No stretch of a row holds more than three word premium squares.
pub proof fn lemma_word_squares_bound(r: int, c: int, k: int)
    requires
        0 <= r < 15,
        0 <= c,
        0 <= k,
        c + k <= 15,
    ensures
        0 <= word_squares(r, c, k) <= word_columns(r, c, k) <= 3,
    decreases k,
{
    if k > 0 {
        lemma_word_squares_bound(r, c, k - 1);
        lemma_premium_rule(r, c + k - 1);
    }
}

/// Three to the power `n`.
pub open spec fn pow3(n: int) -> int
    decreases n,
{
    if n <= 0 {
        1
    } else {
        3 * pow3(n - 1)
    }
}

/// The word premiums of a stretch of a row multiply to at most three to the
/// number of word premium squares in it.
pub proof fn lemma_row_factor_power(r: int, c: int, k: int)
    requires
        0 <= k,
    ensures
        1 <= row_factor(r, c, k) <= pow3(word_squares(r, c, k)),
        0 <= word_squares(r, c, k),
    decreases k,
{
    if k > 0 {
        lemma_row_factor_power(r, c, k - 1);
        let a = row_factor(r, c, k - 1);
        let n = word_squares(r, c, k - 1);
        let w = premium(r, c + k - 1).word_factor();
        assert(1 <= w <= 3);
        if w > 1 {
            assert(pow3(n + 1) == 3 * pow3(n));
            assert(1 <= a * w <= 3 * pow3(n)) by (nonlinear_arith)
                requires
                    1 <= a <= pow3(n),
                    1 <= w <= 3,
            ;
        } else {
            assert(a * w == a) by (nonlinear_arith)
                requires
                    w == 1,
            ;
        }
    }
}

/// The word premiums of any stretch of a row multiply to at most 27.
pub proof fn lemma_row_factor_bound(r: int, c: int, k: int)
    requires
        0 <= r < 15,
        0 <= c,
        0 <= k,
        c + k <= 15,
    ensures
        1 <= row_factor(r, c, k) <= 27,
{
    lemma_row_factor_power(r, c, k);
    lemma_word_squares_bound(r, c, k);
    let n = word_squares(r, c, k);
    assert(pow3(0) == 1);
    assert(pow3(1) == 3);
    assert(pow3(2) == 9);
    assert(pow3(3) == 27);
}

/// The word premiums under a word multiply to at most 27.
pub proof fn lemma_main_factor_bound(line: Seq<Letter>, r: int, c: int, k: int)
    requires
        0 <= r < 15,
        0 <= c,
        0 <= k,
        c + k <= 15,
    ensures
        1 <= main_factor(line, r, c, k) <= row_factor(r, c, k) <= 27,
    decreases k,
{
    lemma_row_factor_bound(r, c, k);
    if k > 0 {
        lemma_main_factor_bound(line, r, c, k - 1);
        let a = main_factor(line, r, c, k - 1);
        let b = row_factor(r, c, k - 1);
        let x = square_factor(r, c + k - 1, line[c + k - 1] == 0);
        let y = premium(r, c + k - 1).word_factor();
        assert(1 <= a * x <= b * y) by (nonlinear_arith)
            requires
                1 <= a <= b,
                1 <= x <= y,
        ;
    }
}

/// The points of the tiles of a word, premiums included, are at most 30 a
/// tile.
pub proof fn lemma_main_points_bound(line: Seq<Letter>, word: Seq<Letter>, r: int, c: int, k: int)
    requires
        0 <= k <= word.len(),
        all_tile_codes(word),
    ensures
        0 <= main_points(line, word, r, c, k) <= 30 * k,
    decreases k,
{
    if k > 0 {
        lemma_main_points_bound(line, word, r, c, k - 1);
        assert(word[k - 1] <= 26);
        lemma_tile_points_bound(word[k - 1], r, c + k - 1, line[c + k - 1] == 0);
    }
}

/// The points of a tile on a square lie between nothing and 30, and the
/// word premium of a square between 1 and 3.
pub proof fn lemma_tile_points_bound(l: Letter, r: int, c: int, fresh: bool)
    ensures
        0 <= tile_points(l, r, c, fresh) <= 30,
        1 <= square_factor(r, c, fresh) <= 3,
{
    lemma_letter_value_bounds(l);
    let v = letter_value(l);
    let f = premium(r, c).letter_factor();
    assert(0 <= v * f <= 30) by (nonlinear_arith)
        requires
            0 <= v <= 10,
            1 <= f <= 3,
    ;
}

/// The points of the words formed across are at most three times the points
/// joined plus 30, for each tile.
pub proof fn lemma_cross_points_bound(
    line: Seq<Letter>,
    values: Seq<u16>,
    word: Seq<Letter>,
    r: int,
    c: int,
    k: int,
    limit: int,
)
    requires
        0 <= k <= word.len(),
        0 <= c,
        c + k <= values.len(),
        all_tile_codes(word),
        forall|j: int| 0 <= j < values.len() ==> #[trigger] values[j] <= limit,
    ensures
        0 <= cross_points(line, values, word, r, c, k) <= (3 * (limit + 30)) * k,
    decreases k,
{
    let cap = 3 * (limit + 30);
    if k > 0 {
        lemma_cross_points_bound(line, values, word, r, c, k - 1, limit);
        let before = cross_points(line, values, word, r, c, k - 1);
        let term = cross_term(line, values, word, r, c, k - 1);
        assert(word[k - 1] <= 26);
        let v = values[c + k - 1] as int;
        assert(v <= limit);
        let fresh = line[c + k - 1] == 0;
        let t = tile_points(word[k - 1], r, c + k - 1, fresh);
        let f = square_factor(r, c + k - 1, fresh);
        lemma_tile_points_bound(word[k - 1], r, c + k - 1, fresh);
        assert(0 <= (v + t) * f <= cap) by (nonlinear_arith)
            requires
                0 <= v <= limit,
                0 <= t <= 30,
                1 <= f <= 3,
                cap == 3 * (limit + 30),
        ;
        assert(0 <= term <= cap);
        assert(0 <= before <= cap * (k - 1));
        assert(cap * (k - 1) + cap == cap * k) by (nonlinear_arith);
        assert(cross_points(line, values, word, r, c, k) == before + term);
    } else {
        assert(cap * 0 == 0) by (nonlinear_arith);
    }
}

/// Where no square joins letters worth more than 150 points, the score of a
/// placement on the board is at most 20300.
pub proof fn lemma_placement_score_bound(
    line: Seq<Letter>,
    values: Seq<u16>,
    word: Seq<Letter>,
    r: int,
    c: int,
    bingo: bool,
)
    requires
        0 <= r < 15,
        0 <= c,
        c + word.len() <= 15,
        values.len() == 15,
        all_tile_codes(word),
        forall|j: int| 0 <= j < 15 ==> #[trigger] values[j] <= 150,
    ensures
        0 <= placement_score(line, values, word, r, c, bingo) <= 20300,
{
    let n = word.len() as int;
    lemma_main_points_bound(line, word, r, c, n);
    lemma_main_factor_bound(line, r, c, n);
    lemma_cross_points_bound(line, values, word, r, c, n, 150);
    let m = main_points(line, word, r, c, n);
    let f = main_factor(line, r, c, n);
    assert(0 <= m * f <= 450 * 27) by (nonlinear_arith)
        requires
            0 <= m <= 450,
            1 <= f <= 27,
    ;
    let x = cross_points(line, values, word, r, c, n);
    assert(x <= 8100) by (nonlinear_arith)
        requires
            x <= (3 * (150 + 30)) * n,
            0 <= n <= 15,
    ;
}

/// The premium table reads the same from each of the four sides of the
/// board, and the same by rows as by columns.
pub proof fn lemma_premium_symmetric(r: int, c: int)
    requires
        0 <= r < 15,
        0 <= c < 15,
    ensures
        premium(r, c) == premium(c, r),
        premium(r, c) == premium(14 - r, c),
        premium(r, c) == premium(r, 14 - c),
{
    lemma_premium_rule(r, c);
    lemma_premium_rule(c, r);
    lemma_premium_rule(14 - r, c);
    lemma_premium_rule(r, 14 - c);
}

} // verus!
