use vstd::prelude::*;
use crate::board::{
    fits, grid_empty, grid_wf, lemma_board_transposed, lemma_rotate_twice, lemma_transpose_twice,
    lemma_transpose_with_word, transpose, with_word, Board, Grid,
};
use crate::completeness::lemma_moves_are_complete;
use crate::generation::{fresh_count, legal_moves_of, row_context, MoveView};
use crate::letter::{
    all_letters, all_tile_chars, all_tile_codes, lemma_word_round_trip, letters_of, Letter,
};
use crate::lexicon::Lexicon;
use crate::lines::{lemma_run_end, lemma_run_start, run_after, run_before, run_start, touches};
use crate::orchestrator::both_axes;
use crate::placement::{move_line, move_start, placed};
use crate::rack::{rack_wf, Rack};
use crate::score::{
    cross_points, lemma_letter_value_bounds, lemma_premium_symmetric, lemma_word_points_bound,
    letter_value, main_factor, main_points, premium, square_factor, tile_points, word_points,
};
use crate::soundness::lemma_moves_are_legal;
use crate::squares::{
    anchor_at, column, cross_value, is_anchor, lemma_column_is_transposed_row,
    lemma_row_is_transposed_column,
};
use crate::validity::{grid_valid, lemma_placement_keeps_valid, lemma_transpose_valid};

verus! {

/// Whether the word of move `m` lies over square (`row`, `col`).
pub open spec fn covers(m: MoveView, row: int, col: int) -> bool {
    if m.across {
        m.row == row && m.col <= col < m.col + m.letters.len()
    } else {
        m.col == col && m.row <= row < m.row + m.letters.len()
    }
}

/// The letter of grid `u` under position `i` of a word laid from (`row`,
/// `col`).
pub open spec fn under(u: Grid, row: int, col: int, across: bool, i: int) -> Letter {
    if across {
        u[row][col + i]
    } else {
        u[row + i][col]
    }
}

/// The line of grid `u` that crosses a word laid from (`row`, `col`) at its
/// position `i`.
pub open spec fn crossing(u: Grid, row: int, col: int, across: bool, i: int) -> Seq<Letter> {
    if across {
        column(u, col + i)
    } else {
        u[row + i]
    }
}

/// Where a word laid from (`row`, `col`) meets the lines that cross it.
pub open spec fn crossing_at(row: int, col: int, across: bool) -> int {
    if across {
        row
    } else {
        col
    }
}

/// The number of tiles that a word of `len` letters laid from (`row`, `col`)
/// puts on empty squares of grid `u`.
pub open spec fn tiles_laid(u: Grid, row: int, col: int, across: bool, len: int) -> int
    decreases len,
{
    if len <= 0 {
        0
    } else {
        tiles_laid(u, row, col, across, len - 1) + if under(u, row, col, across, len - 1) == 0 {
            1int
        } else {
            0int
        }
    }
}

/// The points of the tile at position `i` of the word: its value, times the
/// letter premium of its square when the square was empty.
pub open spec fn rule_tile_points(
    u: Grid,
    row: int,
    col: int,
    across: bool,
    word: Seq<Letter>,
    i: int,
) -> int {
    let kind = if across {
        premium(row, col + i)
    } else {
        premium(row + i, col)
    };
    if under(u, row, col, across, i) == 0 {
        letter_value(word[i]) * kind.letter_factor()
    } else {
        letter_value(word[i])
    }
}

/// The word premium that the tile at position `i` earns: that of its square
/// when the square was empty, 1 otherwise.
pub open spec fn rule_word_factor(u: Grid, row: int, col: int, across: bool, i: int) -> int {
    let kind = if across {
        premium(row, col + i)
    } else {
        premium(row + i, col)
    };
    if under(u, row, col, across, i) == 0 {
        kind.word_factor()
    } else {
        1
    }
}

/// The points of the first `k` tiles of the word.
pub open spec fn rule_main_points(
    u: Grid,
    row: int,
    col: int,
    across: bool,
    word: Seq<Letter>,
    k: int,
) -> int
    decreases k,
{
    if k <= 0 {
        0
    } else {
        rule_main_points(u, row, col, across, word, k - 1) + rule_tile_points(
            u,
            row,
            col,
            across,
            word,
            k - 1,
        )
    }
}

/// The product of the word premiums that the first `k` tiles earn.
pub open spec fn rule_main_factor(u: Grid, row: int, col: int, across: bool, k: int) -> int
    decreases k,
{
    if k <= 0 {
        1
    } else {
        rule_main_factor(u, row, col, across, k - 1) * rule_word_factor(u, row, col, across, k - 1)
    }
}

/// The score of the word that the tile at position `i` forms across the
/// direction of the move: nothing where the square held a letter or the
/// tile joins none; else the points of the letters joined plus the points
/// of the tile, times the word premium of its square.
pub open spec fn rule_cross_word(
    u: Grid,
    row: int,
    col: int,
    across: bool,
    word: Seq<Letter>,
    i: int,
) -> int {
    let line = crossing(u, row, col, across, i);
    let at = crossing_at(row, col, across);
    if under(u, row, col, across, i) == 0 && touches(line, at) {
        (word_points(run_before(line, at)) + word_points(run_after(line, at)) + rule_tile_points(
            u,
            row,
            col,
            across,
            word,
            i,
        )) * rule_word_factor(u, row, col, across, i)
    } else {
        0
    }
}

/// The scores of the words formed across by the first `k` tiles.
pub open spec fn rule_cross_points(
    u: Grid,
    row: int,
    col: int,
    across: bool,
    word: Seq<Letter>,
    k: int,
) -> int
    decreases k,
{
    if k <= 0 {
        0
    } else {
        rule_cross_points(u, row, col, across, word, k - 1) + rule_cross_word(
            u,
            row,
            col,
            across,
            word,
            k - 1,
        )
    }
}

/// The score of a move by the rules of the game, from the grid before the
/// move alone: the points of the tiles of the word, letter premiums under
/// new tiles counted, times the word premiums under new tiles; plus the
/// score of each word that a new tile forms across; plus 50 when seven tiles
/// are laid.
pub open spec fn rule_score(u: Grid, row: int, col: int, across: bool, word: Seq<Letter>) -> int {
    let n = word.len() as int;
    rule_main_points(u, row, col, across, word, n) * rule_main_factor(u, row, col, across, n)
        + rule_cross_points(u, row, col, across, word, n) + if tiles_laid(u, row, col, across, n)
        == 7 {
        50int
    } else {
        0int
    }
}

/// The grid on which the generator works for a board whose letters, upright,
/// are `u`: `u` itself while the board reads across, its transpose when
/// rotated.
pub open spec fn working_grid(u: Grid, across: bool) -> Grid {
    if across {
        u
    } else {
        transpose(u)
    }
}

/// On a well-formed board, the grid in `primary` is the working grid of the
/// upright letters.
pub proof fn lemma_working_grid(board: Board)
    requires
        board.wf(),
    ensures
        grid_wf(board.grid()),
        grid_wf(board.upright_grid()),
        board.grid() == working_grid(board.upright_grid(), board.across),
        board.upright_grid() == working_grid(board.grid(), board.across),
{
    lemma_board_transposed(board);
}

/// A word of `n` letters is worth at least `n` points: every letter from
/// `A` to `Z` is worth at least one.
pub proof fn lemma_letters_have_points(word: Seq<Letter>)
    requires
        all_letters(word),
    ensures
        word_points(word) >= word.len(),
    decreases word.len(),
{
    if word.len() > 0 {
        let rest = word.drop_last();
        assert forall|i: int| 0 <= i < rest.len() implies 1 <= #[trigger] rest[i] <= 26 by {
            assert(rest[i] == word[i]);
        }
        lemma_letters_have_points(rest);
        assert(1 <= word[word.len() - 1] <= 26);
        lemma_letter_value_bounds(word.last());
    }
}

/// The cross value of a square is at most 140 points, and at least 1 where
/// the square is empty and next to a letter.
pub proof fn lemma_cross_value_bounds(line: Seq<Letter>, i: int)
    requires
        line.len() == 15,
        all_tile_codes(line),
        0 <= i < 15,
    ensures
        0 <= cross_value(line, i) <= 140,
        cross_value(line, i) != 0 <==> line[i] == 0 && touches(line, i),
{
    lemma_run_start(line, i);
    lemma_run_end(line, i);
    let before = run_before(line, i);
    let after = run_after(line, i);
    lemma_word_points_bound(before);
    lemma_word_points_bound(after);
    assert(all_letters(before)) by {
        assert forall|k: int| 0 <= k < before.len() implies 1 <= #[trigger] before[k] <= 26 by {
            assert(before[k] == line[run_start(line, i) + k]);
        }
    }
    assert(all_letters(after)) by {
        assert forall|k: int| 0 <= k < after.len() implies 1 <= #[trigger] after[k] <= 26 by {
            assert(after[k] == line[i + 1 + k]);
        }
    }
    lemma_letters_have_points(before);
    lemma_letters_have_points(after);
}

/// The squares under a word, its premiums and the lines across it are the
/// same whether the move is read on the upright grid or along a row of the
/// working grid.
pub proof fn lemma_rule_parts(u: Grid, across: bool, r: int, start: int, word: Seq<Letter>, i: int)
    requires
        grid_wf(u),
        0 <= r < 15,
        0 <= start,
        0 <= i < word.len(),
        start + word.len() <= 15,
    ensures
        ({
            let g = working_grid(u, across);
            let row = if across {
                r
            } else {
                start
            };
            let col = if across {
                start
            } else {
                r
            };
            &&& under(u, row, col, across, i) == g[r][start + i]
            &&& crossing(u, row, col, across, i) == column(g, start + i)
            &&& crossing_at(row, col, across) == r
            &&& rule_tile_points(u, row, col, across, word, i) == tile_points(
                word[i],
                r,
                start + i,
                g[r][start + i] == 0,
            )
            &&& rule_word_factor(u, row, col, across, i) == square_factor(
                r,
                start + i,
                g[r][start + i] == 0,
            )
        }),
{
    if !across {
        lemma_premium_symmetric(r, start + i);
        lemma_row_is_transposed_column(u, start + i);
    }
}

/// The score that the generator records for a legal move along a row of the
/// working grid is the score of the move by the rules, read on the upright
/// grid.
pub proof fn lemma_score_by_rules(
    lexicon: Lexicon,
    u: Grid,
    across: bool,
    r: int,
    start: int,
    word: Seq<Letter>,
)
    requires
        grid_wf(u),
        0 <= r < 15,
        0 <= start,
        start + word.len() <= 15,
    ensures
        row_context(lexicon, working_grid(u, across), across, r).emitted(start, word).score
            == rule_score(
            u,
            if across {
                r
            } else {
                start
            },
            if across {
                start
            } else {
                r
            },
            across,
            word,
        ),
{
    let g = working_grid(u, across);
    if !across {
        lemma_transpose_valid_shape(u);
    }
    lemma_score_parts(lexicon, u, across, r, start, word, word.len() as int);
}

/// The transpose of a well-formed grid is well formed.
pub proof fn lemma_transpose_valid_shape(u: Grid)
    requires
        grid_wf(u),
    ensures
        grid_wf(transpose(u)),
{
}

/// The parts of the score of the first `k` tiles, as the generator computes
/// them, are their parts by the rules.
pub proof fn lemma_score_parts(
    lexicon: Lexicon,
    u: Grid,
    across: bool,
    r: int,
    start: int,
    word: Seq<Letter>,
    k: int,
)
    requires
        grid_wf(u),
        grid_wf(working_grid(u, across)),
        0 <= r < 15,
        0 <= start,
        0 <= k <= word.len(),
        start + word.len() <= 15,
    ensures
        ({
            let g = working_grid(u, across);
            let ctx = row_context(lexicon, g, across, r);
            let row = if across {
                r
            } else {
                start
            };
            let col = if across {
                start
            } else {
                r
            };
            &&& main_points(ctx.line, word, r, start, k) == rule_main_points(
                u,
                row,
                col,
                across,
                word,
                k,
            )
            &&& main_factor(ctx.line, r, start, k) == rule_main_factor(u, row, col, across, k)
            &&& cross_points(ctx.line, ctx.values, word, r, start, k) == rule_cross_points(
                u,
                row,
                col,
                across,
                word,
                k,
            )
            &&& fresh_count(ctx.line, start, k) == tiles_laid(u, row, col, across, k)
        }),
    decreases k,
{
    if k > 0 {
        let g = working_grid(u, across);
        let ctx = row_context(lexicon, g, across, r);
        lemma_score_parts(lexicon, u, across, r, start, word, k - 1);
        lemma_rule_parts(u, across, r, start, word, k - 1);
        let c = start + k - 1;
        let line = column(g, c);
        lemma_column_is_transposed_row(g, c);
        assert(all_tile_codes(line)) by {
            assert forall|j: int| 0 <= j < 15 implies #[trigger] line[j] <= 26 by {
                assert(g[j][c] <= 26);
            }
        }
        lemma_cross_value_bounds(line, r);
        assert(ctx.values[c] == cross_value(line, r));
        assert(line[r] == g[r][c]);
    }
}

/// The moves that the generator finds along the rows of a grid are the
/// legal moves along its rows, each recorded with its score: it finds no
/// other move, and it misses none.
pub proof fn lemma_moves_characterized(lexicon: Lexicon, g: Grid, across: bool, rack: Rack)
    requires
        grid_wf(g),
        rack_wf(rack),
    ensures
        forall|m: MoveView| #[trigger]
            legal_moves_of(lexicon, g, across, rack).contains(m) <==> placed(
                lexicon,
                g,
                across,
                rack,
                m,
            ),
{
    let moves = legal_moves_of(lexicon, g, across, rack);
    assert forall|m: MoveView| #[trigger] moves.contains(m) <==> placed(
        lexicon,
        g,
        across,
        rack,
        m,
    ) by {
        if moves.contains(m) {
            let i = choose|i: int| 0 <= i < moves.len() && moves[i] == m;
            lemma_moves_are_legal(lexicon, g, across, rack, i);
        }
        if placed(lexicon, g, across, rack, m) {
            lemma_moves_are_complete(
                lexicon,
                g,
                across,
                rack,
                move_line(m),
                move_start(m),
                letters_of(m.letters),
            );
        }
    }
}

/// Whether the generator finds move `m` on the board with the tiles of
/// `rack`.
pub open spec fn found_on(lexicon: Lexicon, board: Board, rack: Rack, m: MoveView) -> bool {
    legal_moves_of(lexicon, board.grid(), board.across, rack).contains(m)
}

/// Every move that the generator finds on a board is a legal move along a
/// row of the grid it works on, written in tile characters.
pub proof fn lemma_found_move_placed(lexicon: Lexicon, board: Board, rack: Rack, m: MoveView)
    requires
        board.wf(),
        rack_wf(rack),
        found_on(lexicon, board, rack, m),
    ensures
        placed(lexicon, board.grid(), board.across, rack, m),
        all_letters(letters_of(m.letters)),
        all_tile_chars(m.letters),
{
    lemma_working_grid(board);
    lemma_moves_characterized(lexicon, board.grid(), board.across, rack);
    lemma_word_round_trip(letters_of(m.letters));
}

/// Every move that the generator finds lays at least one tile from the
/// rack, and stays on the board.
pub proof fn lemma_move_uses_rack(lexicon: Lexicon, board: Board, rack: Rack, m: MoveView)
    requires
        board.wf(),
        rack_wf(rack),
        found_on(lexicon, board, rack, m),
    ensures
        m.across == board.across,
        0 <= m.row < 15,
        0 <= m.col < 15,
        m.letters.len() >= 1,
        fits(m.letters.len() as int, m.row, m.col, m.across),
        tiles_laid(board.upright_grid(), m.row, m.col, m.across, m.letters.len() as int) >= 1,
{
    lemma_found_move_placed(lexicon, board, rack, m);
    lemma_working_grid(board);
    let word = letters_of(m.letters);
    lemma_score_parts(
        lexicon,
        board.upright_grid(),
        board.across,
        move_line(m),
        move_start(m),
        word,
        word.len() as int,
    );
}

/// Every move that the generator finds carries the score that the rules
/// give it on the board before the move.
pub proof fn lemma_move_score_by_rules(lexicon: Lexicon, board: Board, rack: Rack, m: MoveView)
    requires
        board.wf(),
        rack_wf(rack),
        found_on(lexicon, board, rack, m),
    ensures
        m.score == rule_score(board.upright_grid(), m.row, m.col, m.across, letters_of(m.letters)),
{
    lemma_found_move_placed(lexicon, board, rack, m);
    lemma_working_grid(board);
    lemma_score_by_rules(
        lexicon,
        board.upright_grid(),
        board.across,
        move_line(m),
        move_start(m),
        letters_of(m.letters),
    );
}

/// On a board without letters, every move that the generator finds covers
/// the centre square.
pub proof fn lemma_opening_covers_centre(lexicon: Lexicon, board: Board, rack: Rack, m: MoveView)
    requires
        board.wf(),
        rack_wf(rack),
        grid_empty(board.upright_grid()),
        found_on(lexicon, board, rack, m),
    ensures
        covers(m, 7, 7),
{
    lemma_found_move_placed(lexicon, board, rack, m);
    lemma_working_grid(board);
    let g = board.grid();
    let r = move_line(m);
    let start = move_start(m);
    let word = letters_of(m.letters);
    assert forall|row: int, col: int| 0 <= row < 15 && 0 <= col < 15 implies #[trigger] g[row][col]
        == 0 by {
        if !board.across {
            assert(board.upright_grid()[col][row] == 0);
        }
    }
    let c = choose|c: int| start <= c < start + word.len() && #[trigger] anchor_at(g, r, c);
    assert(!is_anchor(g, r, c)) by {
        if c > 0 {
            assert(g[r][c - 1] == 0);
        }
        if c + 1 < 15 {
            assert(g[r][c + 1] == 0);
        }
        if r > 0 {
            assert(g[r - 1][c] == 0);
        }
        if r + 1 < 15 {
            assert(g[r + 1][c] == 0);
        }
    }
}

/// Where every stretch of two or more letters of the board is a lexicon
/// word, it is so again after any move that the generator finds is laid on
/// the upright board.
pub proof fn lemma_move_keeps_board_valid(lexicon: Lexicon, board: Board, rack: Rack, m: MoveView)
    requires
        board.wf(),
        rack_wf(rack),
        grid_valid(lexicon, board.upright_grid()),
        found_on(lexicon, board, rack, m),
    ensures
        all_tile_chars(m.letters),
        fits(m.letters.len() as int, m.row, m.col, m.across),
        grid_wf(with_word(board.upright_grid(), letters_of(m.letters), m.row, m.col, m.across)),
        grid_valid(
            lexicon,
            with_word(board.upright_grid(), letters_of(m.letters), m.row, m.col, m.across),
        ),
{
    lemma_found_move_placed(lexicon, board, rack, m);
    lemma_move_uses_rack(lexicon, board, rack, m);
    lemma_working_grid(board);
    let g = board.grid();
    let u = board.upright_grid();
    let r = move_line(m);
    let start = move_start(m);
    let word = letters_of(m.letters);
    if board.across {
        lemma_placement_keeps_valid(lexicon, g, r, start, word, rack);
    } else {
        lemma_transpose_valid(lexicon, u);
        lemma_placement_keeps_valid(lexicon, g, r, start, word, rack);
        let laid = with_word(g, word, r, start, true);
        lemma_transpose_valid(lexicon, laid);
        lemma_transpose_with_word(g, word, r, start, true);
        lemma_transpose_twice(u);
    }
}

/// Generating along the rows and then along the columns finds the same
/// moves, each as often, as generating along the columns and then along the
/// rows.
pub proof fn lemma_generation_order(lexicon: Lexicon, board: Board, rack: Rack)
    ensures
        both_axes(lexicon, board, rack).to_multiset() == both_axes(
            lexicon,
            board.rotated(),
            rack,
        ).to_multiset(),
{
    lemma_rotate_twice(board);
    let a = legal_moves_of(lexicon, board.grid(), board.across, rack);
    let b = legal_moves_of(lexicon, board.rotated().grid(), board.rotated().across, rack);
    vstd::seq_lib::lemma_multiset_commutative(a, b);
    vstd::seq_lib::lemma_multiset_commutative(b, a);
}

/// A word that agrees with the letters under it leaves every letter of the
/// board where it was.
pub proof fn lemma_agreeing_play_keeps_letters(
    g: Grid,
    word: Seq<Letter>,
    row: int,
    col: int,
    across: bool,
    r: int,
    c: int,
)
    requires
        grid_wf(g),
        0 <= row,
        0 <= col,
        fits(word.len() as int, row, col, across),
        forall|i: int|
            0 <= i < word.len() ==> under(g, row, col, across, i) == 0 || under(
                g,
                row,
                col,
                across,
                i,
            ) == #[trigger] word[i],
        0 <= r < 15,
        0 <= c < 15,
        g[r][c] != 0,
    ensures
        with_word(g, word, row, col, across)[r][c] == g[r][c],
{
    if across && r == row && col <= c < col + word.len() {
        assert(under(g, row, col, across, c - col) == g[r][c]);
        assert(word[c - col] == g[r][c]);
    } else if !across && c == col && row <= r < row + word.len() {
        assert(under(g, row, col, across, r - row) == g[r][c]);
        assert(word[r - row] == g[r][c]);
    }
}

/// After a word is laid on a board, two rotations leave both grids as the
/// play left them.
pub proof fn lemma_play_then_rotate_twice(
    before: Board,
    after: Board,
    word: Seq<Letter>,
    row: int,
    col: int,
    across: bool,
)
    requires
        before.wf(),
        after.wf(),
        after.grid() == with_word(before.grid(), word, row, col, across),
    ensures
        after.rotated().rotated() == after,
        after.rotated().rotated().grid() == with_word(before.grid(), word, row, col, across),
        after.rotated().rotated().cross_grid() == transpose(
            with_word(before.grid(), word, row, col, across),
        ),
{
    lemma_board_transposed(after);
}

} // verus!
