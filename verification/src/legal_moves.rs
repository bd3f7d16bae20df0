use std::collections::HashMap;
use vstd::prelude::*;
use crate::bits::{has_bit, has_bit16, test_bit, test_bit16, with_bit, with_bit16, ALL_LETTERS};
use crate::board::{lemma_board_transposed, Board};
use crate::distinct::lemma_moves_are_distinct;
use crate::extension::{continues, lemma_extend_right_continues};
use crate::generation::{
    emitted_move, fresh_count, gap_before, grid_moves, legal_moves_of, row_context, MoveView,
    RowContext,
};
use crate::laws::lemma_moves_characterized;
use crate::letter::{
    all_tile_chars, all_tile_codes, lemma_word_round_trip, letters_of, word_to_string, Letter,
};
use crate::lexicon::{lemma_descend_concat, Lexicon, Node};
use crate::lines::{
    joined_word, lemma_run_start, run_after, run_before, run_end, run_start, touches,
};
use crate::placement::placed;
use crate::rack::{lemma_rack_restored, rack_wf, rack_with, rack_without};
use crate::score::{
    calculate_score, lemma_placement_score_bound, lemma_word_points_bound, letters_value,
    placement_score, word_points,
};
use crate::squares::{
    anchor_at, anchor_mask, column, cross_ok, cross_set, cross_value, lemma_anchor_mask_bits,
    lemma_column_is_transposed_row, lemma_contains_joined, lemma_cross_set_bits,
    lemma_letter_set_bits, lemma_letter_set_without_prefix, letter_set,
};

verus! {

broadcast use vstd::std_specs::hash::group_hash_axioms;

/// A placement of a word: the square where it starts on the upright board,
/// its direction, its letters and its score.
pub struct LegalMove {
    pub row_index: usize,
    pub column_index: usize,
    pub across: bool,
    pub letters: String,
    pub score: u16,
}

impl View for LegalMove {
    type V = MoveView;

    open spec fn view(&self) -> MoveView {
        MoveView {
            row: self.row_index as int,
            col: self.column_index as int,
            across: self.across,
            letters: self.letters@,
            score: self.score as int,
        }
    }
}

/// The moves of a list, each as the generator reports it.
pub open spec fn move_views(moves: Seq<LegalMove>) -> Seq<MoveView> {
    Seq::new(moves.len(), |i: int| moves[i]@)
}

/// What the generator knows of row `row` of the board, given the tables of
/// cross-check sets and cross values.
pub open spec fn table_context(
    board: Board,
    cross_check_sets: [[u32; 15]; 15],
    value_set: [[u16; 15]; 15],
    row: int,
) -> RowContext {
    RowContext {
        line: board.grid()[row],
        sets: cross_check_sets[row]@,
        values: value_set[row]@,
        row,
        across: board.across,
    }
}

impl LegalMove {
    /// The move that lays `letters` from column `column_index` of row
    /// `row_index` of the board as it stands, with its score. On a rotated
    /// board row and column change places in the record.
    pub fn new(
        board: &Board,
        value_set: &[[u16; 15]; 15],
        row_index: usize,
        column_index: usize,
        across: bool,
        letters: String,
        bingo: bool,
    ) -> (legal_move: LegalMove)
        requires
            row_index < 15,
            column_index + letters@.len() <= 15,
            all_tile_chars(letters@),
            placement_score(
                board.grid()[row_index as int],
                value_set[row_index as int]@,
                letters_of(letters@),
                row_index as int,
                column_index as int,
                bingo,
            ) <= u16::MAX,
        ensures
            legal_move@ == (MoveView {
                row: if board.across {
                    row_index as int
                } else {
                    column_index as int
                },
                col: if board.across {
                    column_index as int
                } else {
                    row_index as int
                },
                across,
                letters: letters@,
                score: placement_score(
                    board.grid()[row_index as int],
                    value_set[row_index as int]@,
                    letters_of(letters@),
                    row_index as int,
                    column_index as int,
                    bingo,
                ),
            }),
    {
        let score = calculate_score(
            board,
            value_set,
            letters.as_str(),
            row_index,
            column_index,
            bingo,
        );
        if board.across {
            LegalMove { row_index, column_index, across, letters, score }
        } else {
            LegalMove { row_index: column_index, column_index: row_index, across, letters, score }
        }
    }
}

/// The number of empty squares among the `len` squares from column `col` of
/// row `row`.
pub fn count_fresh(board: &Board, row: usize, col: usize, len: usize) -> (n: usize)
    requires
        row < 15,
        col + len <= 15,
    ensures
        n == fresh_count(board.grid()[row as int], col as int, len as int),
        n <= len,
{
    let mut n: usize = 0;
    let mut k: usize = 0;
    while k < len
        invariant
            k <= len,
            row < 15,
            col + len <= 15,
            n <= k,
            n == fresh_count(board.grid()[row as int], col as int, k as int),
        decreases len - k,
    {
        if board.primary[row][col + k] == 0 {
            n = n + 1;
        }
        k = k + 1;
    }
    n
}

/// Adds to `legal_moves` the move that lays `word` from column
/// `column_index` of row `row_index`.
pub fn record_move(
    board: &Board,
    value_set: &[[u16; 15]; 15],
    legal_moves: &mut Vec<LegalMove>,
    row_index: usize,
    column_index: usize,
    word: &Vec<Letter>,
)
    requires
        row_index < 15,
        column_index + word.len() <= 15,
        all_tile_codes(word@),
        forall|c: int| 0 <= c < 15 ==> #[trigger] value_set[row_index as int][c] <= 150,
    ensures
        move_views(final(legal_moves)@) == move_views(old(legal_moves)@).push(
            emitted_move(
                board.grid()[row_index as int],
                value_set[row_index as int]@,
                row_index as int,
                board.across,
                column_index as int,
                word@,
            ),
        ),
{
    let letters = word_to_string(word);
    let bingo = count_fresh(board, row_index, column_index, word.len()) == 7;
    proof {
        lemma_word_round_trip(word@);
        lemma_placement_score_bound(
            board.grid()[row_index as int],
            value_set[row_index as int]@,
            word@,
            row_index as int,
            column_index as int,
            bingo,
        );
    }
    let legal_move = LegalMove::new(
        board,
        value_set,
        row_index,
        column_index,
        board.across,
        letters,
        bingo,
    );
    legal_moves.push(legal_move);
    proof {
        assert(move_views(legal_moves@) =~= move_views(old(legal_moves)@).push(legal_move@));
    }
}

/// Takes one tile `letter` from the rack, if it holds one.
pub fn remove_letter_from_rack(rack: &mut HashMap<Letter, u8>, letter: Letter)
    requires
        rack_wf(old(rack)@),
    ensures
        final(rack)@ == rack_without(old(rack)@, letter),
        rack_wf(final(rack)@),
{
    let count = match rack.get(&letter) {
        Some(count) => *count,
        None => 0,
    };
    if count > 1 {
        rack.insert(letter, count - 1);
    } else if count == 1 {
        rack.remove(&letter);
    }
}

/// Puts one tile `letter` on the rack.
pub fn add_letter_to_rack(rack: &mut HashMap<Letter, u8>, letter: Letter)
    requires
        old(rack)@.contains_key(letter) ==> old(rack)@[letter] < 255,
    ensures
        final(rack)@ == rack_with(old(rack)@, letter),
        rack_wf(old(rack)@) ==> rack_wf(final(rack)@),
{
    let count = match rack.get(&letter) {
        Some(count) => *count,
        None => 0,
    };
    if rack.contains_key(&letter) {
        rack.insert(letter, count + 1);
    } else {
        rack.insert(letter, 1);
    }
}

/// The anchors of the board, one bit mask per row: bit `c` of mask `r` is
/// set where square (`r`, `c`) is empty and next to a letter. The empty
/// board has the centre square for its one anchor.
pub fn calculate_anchors(board: &Board) -> (anchors: [u16; 15])
    requires
        board.wf(),
    ensures
        forall|r: int| 0 <= r < 15 ==> #[trigger] anchors[r] == anchor_mask(board.grid(), r, 15),
        forall|r: int, c: int|
            0 <= r < 15 && 0 <= c < 16 ==> (#[trigger] has_bit16(anchors[r], c) <==> c < 15
                && anchor_at(board.grid(), r, c)),
{
    let empty = board.is_empty();
    let mut anchors: [u16; 15] = [0; 15];
    let ghost g = board.grid();
    let mut r: usize = 0;
    while r < 15
        invariant
            r <= 15,
            board.wf(),
            g == board.grid(),
            empty == crate::board::grid_empty(g),
            forall|i: int| 0 <= i < r ==> #[trigger] anchors[i] == anchor_mask(g, i, 15),
        decreases 15 - r,
    {
        let mut mask: u16 = 0;
        let mut c: usize = 0;
        while c < 15
            invariant
                r < 15,
                c <= 15,
                board.wf(),
                g == board.grid(),
                empty == crate::board::grid_empty(g),
                mask == anchor_mask(g, r as int, c as int),
            decreases 15 - c,
        {
            proof {
                lemma_board_transposed(*board);
                lemma_column_is_transposed_row(g, c as int);
                assert(board.primary[r as int][c as int] <= 26);
            }
            let open = board.primary[r][c] == 0;
            let beside = (c > 0 && board.primary[r][c - 1] != 0) || (c < 14 && board.primary[r][c
                + 1] != 0);
            let across = (r > 0 && board.secondary[c][r - 1] != 0) || (r < 14
                && board.secondary[c][r + 1] != 0);
            proof {
                assert(beside == touches(g[r as int], c as int));
                assert(r > 0 ==> board.secondary[c as int][r - 1] == column(g, c as int)[r - 1]) by {
                    if r > 0 {
                        assert(board.primary[r - 1][c as int] <= 26);
                    }
                }
                assert(r < 14 ==> board.secondary[c as int][r + 1] == column(g, c as int)[r + 1])
                    by {
                    if r < 14 {
                        assert(board.primary[r + 1][c as int] <= 26);
                    }
                }
                assert(across == touches(column(g, c as int), r as int));
            }
            if (open && (beside || across)) || (empty && r == 7 && c == 7) {
                mask = with_bit16(mask, c);
            }
            c = c + 1;
        }
        anchors[r] = mask;
        r = r + 1;
    }
    proof {
        assert forall|r: int, c: int| 0 <= r < 15 && 0 <= c < 16 implies (#[trigger] has_bit16(
            anchors[r],
            c,
        ) <==> c < 15 && anchor_at(g, r, c)) by {
            lemma_anchor_mask_bits(g, r, 15, c);
        }
    }
    anchors
}

/// For the empty position `anchor_row_index` of `column`: the set of
/// letters that make a lexicon word between the letters above and the
/// letters below, and the points of those letters.
pub fn calculate_letter_set_and_score(
    lexicon: &Lexicon,
    column: &[Letter; 15],
    anchor_row_index: usize,
) -> (r: (u32, u16))
    requires
        anchor_row_index < 15,
        all_tile_codes(column@),
    ensures
        r.0 == letter_set(
            *lexicon,
            run_before(column@, anchor_row_index as int),
            run_after(column@, anchor_row_index as int),
            26,
        ),
        r.1 == word_points(run_before(column@, anchor_row_index as int)) + word_points(
            run_after(column@, anchor_row_index as int),
        ),
        r.1 <= 140,
        forall|l: int|
            1 <= l <= 32 ==> (#[trigger] has_bit(r.0, l - 1) <==> l <= 26 && lexicon.contains(
                joined_word(column@, anchor_row_index as int, l as u8),
            )),
{
    let ghost line = column@;
    let ghost at = anchor_row_index as int;
    let mut start: usize = anchor_row_index;
    while start > 0 && column[start - 1] != 0
        invariant
            start <= anchor_row_index < 15,
            line == column@,
            run_start(line, anchor_row_index as int) == run_start(line, start as int),
        decreases start,
    {
        start = start - 1;
    }
    let mut end: usize = anchor_row_index + 1;
    while end < 15 && column[end] != 0
        invariant
            anchor_row_index < end <= 15,
            line == column@,
            run_end(line, anchor_row_index as int) == run_end(line, end - 1),
        decreases 15 - end,
    {
        end = end + 1;
    }
    let mut prefix: Vec<Letter> = Vec::new();
    let mut k: usize = start;
    while k < anchor_row_index
        invariant
            start <= k <= anchor_row_index < 15,
            line == column@,
            prefix@ == line.subrange(start as int, k as int),
        decreases anchor_row_index - k,
    {
        prefix.push(column[k]);
        proof {
            assert(prefix@ =~= line.subrange(start as int, k + 1));
        }
        k = k + 1;
    }
    let mut suffix: Vec<Letter> = Vec::new();
    let mut k: usize = anchor_row_index + 1;
    while k < end
        invariant
            anchor_row_index < k <= end <= 15,
            line == column@,
            suffix@ == line.subrange(anchor_row_index + 1, k as int),
        decreases end - k,
    {
        suffix.push(column[k]);
        proof {
            assert(suffix@ =~= line.subrange(anchor_row_index + 1, k + 1));
        }
        k = k + 1;
    }
    proof {
        assert(prefix@ == run_before(line, at));
        assert(suffix@ == run_after(line, at));
        assert(all_tile_codes(prefix@));
        assert(all_tile_codes(suffix@));
        lemma_word_points_bound(prefix@);
        lemma_word_points_bound(suffix@);
    }
    let mut letters: u32 = 0;
    match lexicon.root.find(&prefix) {
        Some(node) => {
            let mut letter: u8 = 1;
            while letter <= 26
                invariant
                    1 <= letter <= 27,
                    lexicon.root.descend(prefix@) == Some(*node),
                    letters == letter_set(*lexicon, prefix@, suffix@, letter - 1),
                decreases 27 - letter,
            {
                let mut found = false;
                match node.child(letter) {
                    Some(child) => {
                        match child.find(&suffix) {
                            Some(last) => {
                                found = last.is_terminal;
                            },
                            None => {},
                        }
                    },
                    None => {},
                }
                proof {
                    lemma_contains_joined(*lexicon, prefix@, letter, suffix@);
                }
                if found {
                    letters = with_bit(letters, letter - 1);
                }
                letter = letter + 1;
            }
        },
        None => {
            proof {
                lemma_letter_set_without_prefix(*lexicon, prefix@, suffix@, 26);
            }
        },
    }
    let score = letters_value(&prefix) + letters_value(&suffix);
    proof {
        assert forall|l: int| 1 <= l <= 32 implies (#[trigger] has_bit(letters, l - 1) <==> l <= 26
            && lexicon.contains(joined_word(line, at, l as u8))) by {
            lemma_letter_set_bits(*lexicon, prefix@, suffix@, 26, l);
        }
    }
    (letters, score)
}

/// The cross-check set and the cross value of every square.
pub fn calculate_cross_check_sets_and_value_set(lexicon: &Lexicon, board: &Board) -> (r: (
    [[u32; 15]; 15],
    [[u16; 15]; 15],
))
    requires
        board.wf(),
    ensures
        forall|row: int, col: int|
            0 <= row < 15 && 0 <= col < 15 ==> #[trigger] r.0[row][col] == cross_set(
                *lexicon,
                column(board.grid(), col),
                row,
            ),
        forall|row: int, col: int|
            0 <= row < 15 && 0 <= col < 15 ==> #[trigger] r.1[row][col] == cross_value(
                column(board.grid(), col),
                row,
            ),
        forall|row: int, col: int| 0 <= row < 15 && 0 <= col < 15 ==> #[trigger] r.1[row][col] <= 140,
        forall|row: int, col: int, l: Letter|
            0 <= row < 15 && 0 <= col < 15 && board.grid()[row][col] == 0 && 1 <= l <= 26 ==> (
            #[trigger] has_bit(r.0[row][col], l - 1) <==> cross_ok(
                *lexicon,
                column(board.grid(), col),
                row,
                l,
            )),
{
    let mut cross_check_sets: [[u32; 15]; 15] = [[ALL_LETTERS; 15]; 15];
    let mut value_set: [[u16; 15]; 15] = [[0; 15]; 15];
    let ghost g = board.grid();
    let mut c: usize = 0;
    while c < 15
        invariant
            c <= 15,
            board.wf(),
            g == board.grid(),
            forall|row: int, col: int|
                0 <= row < 15 && 0 <= col < c ==> #[trigger] cross_check_sets[row][col]
                    == cross_set(*lexicon, column(g, col), row),
            forall|row: int, col: int|
                0 <= row < 15 && 0 <= col < c ==> #[trigger] value_set[row][col] == cross_value(
                    column(g, col),
                    row,
                ),
            forall|row: int, col: int|
                0 <= row < 15 && 0 <= col < c ==> #[trigger] value_set[row][col] <= 140,
        decreases 15 - c,
    {
        let line = &board.secondary[c];
        proof {
            lemma_board_transposed(*board);
            lemma_column_is_transposed_row(g, c as int);
            assert(line@ =~= column(g, c as int)) by {
                assert forall|i: int| 0 <= i < 15 implies line@[i] == column(g, c as int)[i] by {
                    assert(board.primary[i][c as int] <= 26);
                }
            }
            assert(all_tile_codes(line@)) by {
                assert forall|i: int| 0 <= i < 15 implies #[trigger] line@[i] <= 26 by {
                    assert(board.primary[i][c as int] <= 26);
                }
            }
        }
        let mut r: usize = 0;
        while r < 15
            invariant
                c < 15,
                r <= 15,
                board.wf(),
                g == board.grid(),
                line@ == column(g, c as int),
                all_tile_codes(line@),
                forall|row: int, col: int|
                    0 <= row < 15 && 0 <= col < c ==> #[trigger] cross_check_sets[row][col]
                        == cross_set(*lexicon, column(g, col), row),
                forall|row: int, col: int|
                    0 <= row < 15 && 0 <= col < c ==> #[trigger] value_set[row][col]
                        == cross_value(column(g, col), row),
                forall|row: int|
                    0 <= row < r ==> #[trigger] cross_check_sets[row][c as int] == cross_set(
                        *lexicon,
                        column(g, c as int),
                        row,
                    ),
                forall|row: int|
                    0 <= row < r ==> #[trigger] value_set[row][c as int] == cross_value(
                        column(g, c as int),
                        row,
                    ),
                forall|row: int, col: int|
                    0 <= row < 15 && 0 <= col < c ==> #[trigger] value_set[row][col] <= 140,
                forall|row: int| 0 <= row < r ==> #[trigger] value_set[row][c as int] <= 140,
            decreases 15 - r,
        {
            let near = (r > 0 && line[r - 1] != 0) || (r < 14 && line[r + 1] != 0);
            assert(near == touches(line@, r as int));
            if line[r] == 0 && near {
                let (letters, points) = calculate_letter_set_and_score(lexicon, line, r);
                cross_check_sets[r][c] = letters;
                value_set[r][c] = points;
            } else {
                cross_check_sets[r][c] = ALL_LETTERS;
                value_set[r][c] = 0;
            }
            r = r + 1;
        }
        c = c + 1;
    }
    proof {
        assert forall|row: int, col: int, l: Letter|
            0 <= row < 15 && 0 <= col < 15 && g[row][col] == 0 && 1 <= l <= 26 implies (
        #[trigger] has_bit(cross_check_sets[row][col], l - 1) <==> cross_ok(
            *lexicon,
            column(g, col),
            row,
            l,
        )) by {
            lemma_cross_set_bits(*lexicon, column(g, col), row, l);
        }
    }
    (cross_check_sets, value_set)
}

/// Adds to `legal_moves` every move that continues `partial_word`, laid
/// from column `column_index` of row `row_index`, to the right of it. `node`
/// is where the lexicon stands after `partial_word`; `possible` tells
/// whether the word so far may end where it stands. In each move added,
/// every letter after `partial_word` is the letter of its square or, on an
/// empty square, a tile of the rack that the cross-check set of the square
/// allows; the word ends at the edge or before an empty square; and its
/// letters lead from `node` to a terminal node. The rack and the partial
/// word come back as they were.
pub fn extend_right(
    board: &Board,
    cross_check_sets: &[[u32; 15]; 15],
    value_set: &[[u16; 15]; 15],
    legal_moves: &mut Vec<LegalMove>,
    row_index: usize,
    column_index: usize,
    node: &Node,
    rack: &mut HashMap<Letter, u8>,
    partial_word: &mut Vec<Letter>,
    possible: bool,
)
    requires
        board.wf(),
        row_index < 15,
        column_index + old(partial_word).len() <= 15,
        all_tile_codes(old(partial_word)@),
        rack_wf(old(rack)@),
        forall|c: int| 0 <= c < 15 ==> #[trigger] value_set[row_index as int][c] <= 150,
    ensures
        final(rack)@ == old(rack)@,
        final(partial_word)@ == old(partial_word)@,
        move_views(final(legal_moves)@) == move_views(old(legal_moves)@) + table_context(
            *board,
            *cross_check_sets,
            *value_set,
            row_index as int,
        ).extend_right_moves(
            *node,
            column_index as int,
            old(partial_word)@,
            old(rack)@,
            possible,
        ),
        final(legal_moves).len() >= old(legal_moves).len(),
        forall|i: int|
            old(legal_moves).len() <= i < final(legal_moves).len() ==> continues(
                table_context(*board, *cross_check_sets, *value_set, row_index as int),
                *node,
                column_index as int,
                old(partial_word)@,
                old(rack)@,
                #[trigger] final(legal_moves)@[i]@,
            ),
        forall|lexicon: Lexicon, i: int|
            #[trigger] lexicon.root.descend(old(partial_word)@) == Some(*node) && old(
                legal_moves,
            ).len() <= i < final(legal_moves).len() ==> lexicon.contains(
                letters_of((#[trigger] final(legal_moves)@[i])@.letters),
            ),
    decreases 15 - (column_index + old(partial_word).len()),
{
    let ghost ctx = table_context(*board, *cross_check_sets, *value_set, row_index as int);
    let ghost start = column_index as int;
    let ghost partial = partial_word@;
    let ghost before = move_views(legal_moves@);
    let cursor = column_index + partial_word.len();
    if cursor >= 15 {
        if node.is_terminal && possible {
            record_move(board, value_set, legal_moves, row_index, column_index, partial_word);
            proof {
                assert(before.push(ctx.emitted(start, partial)) =~= before + seq![
                    ctx.emitted(start, partial),
                ]);
            }
        } else {
            proof {
                assert(before =~= before + Seq::<MoveView>::empty());
            }
        }
    } else {
        let tile = board.primary[row_index][cursor];
        proof {
            assert(tile == ctx.line[cursor as int]);
            assert(tile <= 26);
        }
        if tile == 0 {
            if node.is_terminal && possible {
                record_move(board, value_set, legal_moves, row_index, column_index, partial_word);
            }
            let ghost here = if node.is_terminal && possible {
                seq![ctx.emitted(start, partial)]
            } else {
                Seq::<MoveView>::empty()
            };
            proof {
                assert(move_views(legal_moves@) =~= before + here);
            }
            let set = cross_check_sets[row_index][cursor];
            let mut letter: u8 = 1;
            while letter <= 26
                invariant
                    1 <= letter <= 27,
                    board.wf(),
                    row_index < 15,
                    cursor < 15,
                    cursor == column_index + partial_word.len(),
                    all_tile_codes(partial),
                    partial_word@ == partial,
                    partial == old(partial_word)@,
                    rack@ == old(rack)@,
                    rack_wf(rack@),
                    forall|c: int| 0 <= c < 15 ==> #[trigger] value_set[row_index as int][c] <= 150,
                    ctx == table_context(*board, *cross_check_sets, *value_set, row_index as int),
                    start == column_index as int,
                    set == ctx.sets[cursor as int],
                    move_views(legal_moves@) + ctx.extend_letters_moves(
                        *node,
                        start,
                        partial,
                        rack@,
                        letter as int,
                    ) == before + here + ctx.extend_letters_moves(*node, start, partial, rack@, 1),
                decreases 27 - letter,
            {
                let ghost found = move_views(legal_moves@);
                let ghost rest = ctx.extend_letters_moves(
                    *node,
                    start,
                    partial,
                    rack@,
                    letter + 1,
                );
                let ghost held = rack@;
                let mut tried = false;
                match node.child(letter) {
                    Some(child) => {
                        if test_bit(set, letter - 1) && rack.contains_key(&letter) {
                            tried = true;
                            partial_word.push(letter);
                            remove_letter_from_rack(rack, letter);
                            extend_right(
                                board,
                                cross_check_sets,
                                value_set,
                                legal_moves,
                                row_index,
                                column_index,
                                child,
                                rack,
                                partial_word,
                                true,
                            );
                            proof {
                                lemma_rack_restored(held, letter);
                            }
                            add_letter_to_rack(rack, letter);
                            partial_word.pop();
                            proof {
                                assert(partial_word@ =~= partial);
                            }
                        }
                    },
                    None => {},
                }
                proof {
                    let with_letter = if tried {
                        ctx.extend_right_moves(
                            node.children@[letter],
                            start,
                            partial.push(letter),
                            rack_without(held, letter),
                            true,
                        )
                    } else {
                        Seq::<MoveView>::empty()
                    };
                    assert(ctx.extend_letters_moves(*node, start, partial, held, letter as int)
                        == with_letter + rest);
                    assert(move_views(legal_moves@) == found + with_letter);
                    assert((found + with_letter) + rest =~= found + (with_letter + rest));
                }
                letter = letter + 1;
            }
            proof {
                assert(ctx.extend_letters_moves(*node, start, partial, rack@, 27)
                    =~= Seq::<MoveView>::empty());
                assert(move_views(legal_moves@) =~= move_views(legal_moves@) + Seq::<
                    MoveView,
                >::empty());
                assert(before + here + ctx.extend_letters_moves(*node, start, partial, rack@, 1)
                    =~= before + (here + ctx.extend_letters_moves(
                    *node,
                    start,
                    partial,
                    rack@,
                    1,
                )));
            }
        } else {
            match node.child(tile) {
                Some(child) => {
                    partial_word.push(tile);
                    extend_right(
                        board,
                        cross_check_sets,
                        value_set,
                        legal_moves,
                        row_index,
                        column_index,
                        child,
                        rack,
                        partial_word,
                        true,
                    );
                    partial_word.pop();
                    proof {
                        assert(partial_word@ =~= partial);
                    }
                },
                None => {
                    proof {
                        assert(before =~= before + Seq::<MoveView>::empty());
                    }
                },
            }
        }
    }
    proof {
        let found = ctx.extend_right_moves(*node, start, partial, old(rack)@, possible);
        assert(move_views(legal_moves@) == before + found);
        assert(all_tile_codes(ctx.line)) by {
            assert forall|j: int| 0 <= j < 15 implies #[trigger] ctx.line[j] <= 26 by {
                assert(board.primary[row_index as int][j] <= 26);
            }
        }
        assert forall|i: int| old(legal_moves).len() <= i < legal_moves.len() implies continues(
            ctx,
            *node,
            start,
            partial,
            old(rack)@,
            #[trigger] legal_moves@[i]@,
        ) by {
            let k = i - old(legal_moves).len();
            assert(move_views(legal_moves@)[i] == legal_moves@[i]@);
            assert((before + found)[i] == found[k]);
            lemma_extend_right_continues(ctx, *node, start, partial, old(rack)@, possible, k);
        }
        assert forall|lexicon: Lexicon, i: int|
            #[trigger] lexicon.root.descend(partial) == Some(*node) && old(legal_moves).len() <= i
                < legal_moves.len() implies lexicon.contains(
            letters_of((#[trigger] legal_moves@[i])@.letters),
        ) by {
            let word = letters_of(legal_moves@[i]@.letters);
            let n = partial.len() as int;
            assert(continues(ctx, *node, start, partial, old(rack)@, legal_moves@[i]@));
            lemma_descend_concat(lexicon.root, word.take(n), word.skip(n));
            assert(word.take(n) + word.skip(n) =~= word);
        }
    }
}

/// Adds to `legal_moves` every move through the anchor just after
/// `partial_word` whose tiles before the anchor begin with `partial_word`
/// and take at most `limit` squares more. `column_index` is where
/// `partial_word` starts. The rack and the partial word come back as they
/// were.
pub fn left_part(
    board: &Board,
    cross_check_sets: &[[u32; 15]; 15],
    value_set: &[[u16; 15]; 15],
    legal_moves: &mut Vec<LegalMove>,
    row_index: usize,
    column_index: usize,
    node: &Node,
    rack: &mut HashMap<Letter, u8>,
    partial_word: &mut Vec<Letter>,
    limit: u8,
)
    requires
        board.wf(),
        row_index < 15,
        column_index + old(partial_word).len() <= 15,
        limit <= column_index,
        all_tile_codes(old(partial_word)@),
        rack_wf(old(rack)@),
        forall|c: int| 0 <= c < 15 ==> #[trigger] value_set[row_index as int][c] <= 150,
    ensures
        final(rack)@ == old(rack)@,
        final(partial_word)@ == old(partial_word)@,
        move_views(final(legal_moves)@) == move_views(old(legal_moves)@) + table_context(
            *board,
            *cross_check_sets,
            *value_set,
            row_index as int,
        ).left_part_moves(
            *node,
            column_index + old(partial_word).len(),
            old(partial_word)@,
            old(rack)@,
            limit as int,
        ),
    decreases limit,
{
    let ghost ctx = table_context(*board, *cross_check_sets, *value_set, row_index as int);
    let ghost anchor = column_index + partial_word.len();
    let ghost partial = partial_word@;
    let ghost before = move_views(legal_moves@);
    let ghost right = ctx.extend_right_moves(*node, column_index as int, partial, rack@, false);
    extend_right(
        board,
        cross_check_sets,
        value_set,
        legal_moves,
        row_index,
        column_index,
        node,
        rack,
        partial_word,
        false,
    );
    if limit > 0 {
        let mut letter: u8 = 1;
        while letter <= 26
            invariant
                1 <= letter <= 27,
                board.wf(),
                row_index < 15,
                anchor <= 15,
                anchor == column_index + partial_word.len(),
                0 < limit <= column_index,
                all_tile_codes(partial),
                partial_word@ == partial,
                partial == old(partial_word)@,
                rack@ == old(rack)@,
                rack_wf(rack@),
                forall|c: int| 0 <= c < 15 ==> #[trigger] value_set[row_index as int][c] <= 150,
                ctx == table_context(*board, *cross_check_sets, *value_set, row_index as int),
                move_views(legal_moves@) + ctx.left_letters_moves(
                    *node,
                    anchor,
                    partial,
                    rack@,
                    limit as int,
                    letter as int,
                ) == before + right + ctx.left_letters_moves(
                    *node,
                    anchor,
                    partial,
                    rack@,
                    limit as int,
                    1,
                ),
            decreases 27 - letter,
        {
            let ghost found = move_views(legal_moves@);
            let ghost rest = ctx.left_letters_moves(
                *node,
                anchor,
                partial,
                rack@,
                limit as int,
                letter + 1,
            );
            let ghost held = rack@;
            let mut tried = false;
            match node.child(letter) {
                Some(child) => {
                    if rack.contains_key(&letter) {
                        tried = true;
                        partial_word.push(letter);
                        remove_letter_from_rack(rack, letter);
                        left_part(
                            board,
                            cross_check_sets,
                            value_set,
                            legal_moves,
                            row_index,
                            column_index - 1,
                            child,
                            rack,
                            partial_word,
                            limit - 1,
                        );
                        proof {
                            lemma_rack_restored(held, letter);
                        }
                        add_letter_to_rack(rack, letter);
                        partial_word.pop();
                        proof {
                            assert(partial_word@ =~= partial);
                        }
                    }
                },
                None => {},
            }
            proof {
                let with_letter = if tried {
                    ctx.left_part_moves(
                        node.children@[letter],
                        anchor,
                        partial.push(letter),
                        rack_without(held, letter),
                        limit - 1,
                    )
                } else {
                    Seq::<MoveView>::empty()
                };
                assert(ctx.left_letters_moves(
                    *node,
                    anchor,
                    partial,
                    held,
                    limit as int,
                    letter as int,
                ) == with_letter + rest);
                assert(move_views(legal_moves@) == found + with_letter);
                assert((found + with_letter) + rest =~= found + (with_letter + rest));
            }
            letter = letter + 1;
        }
        proof {
            let all = ctx.left_letters_moves(*node, anchor, partial, rack@, limit as int, 1);
            assert(ctx.left_letters_moves(*node, anchor, partial, rack@, limit as int, 27)
                =~= Seq::<MoveView>::empty());
            assert(move_views(legal_moves@) =~= move_views(legal_moves@) + Seq::<
                MoveView,
            >::empty());
            assert(before + right + all =~= before + (right + all));
        }
    }
}

/// Every legal move along the rows of the board as it stands, with tiles of
/// the rack: each once, with its score, in the order in which the rows, the
/// anchors and the letters are walked. Only letters are laid; a blank on
/// the rack stays there. The rack comes back as it was.
pub fn calculate_legal_moves(
    lexicon: &Lexicon,
    board: &Board,
    rack: &mut HashMap<Letter, u8>,
) -> (legal_moves: Vec<LegalMove>)
    requires
        board.wf(),
        rack_wf(old(rack)@),
    ensures
        final(rack)@ == old(rack)@,
        move_views(legal_moves@) == legal_moves_of(
            *lexicon,
            board.grid(),
            board.across,
            old(rack)@,
        ),
        forall|m: MoveView| #[trigger]
            move_views(legal_moves@).contains(m) <==> placed(
                *lexicon,
                board.grid(),
                board.across,
                old(rack)@,
                m,
            ),
        move_views(legal_moves@).no_duplicates(),
{
    let mut legal_moves: Vec<LegalMove> = Vec::new();
    let anchors = calculate_anchors(board);
    let (cross_check_sets, value_set) = calculate_cross_check_sets_and_value_set(lexicon, board);
    let ghost g = board.grid();
    let ghost held = rack@;
    proof {
        assert(move_views(legal_moves@) =~= grid_moves(*lexicon, g, board.across, held, 0));
    }
    let mut row_index: usize = 0;
    while row_index < 15
        invariant
            row_index <= 15,
            board.wf(),
            g == board.grid(),
            rack@ == held,
            rack_wf(held),
            forall|r: int| 0 <= r < 15 ==> #[trigger] anchors[r] == anchor_mask(g, r, 15),
            forall|row: int, col: int|
                0 <= row < 15 && 0 <= col < 15 ==> #[trigger] cross_check_sets[row][col]
                    == cross_set(*lexicon, column(g, col), row),
            forall|row: int, col: int|
                0 <= row < 15 && 0 <= col < 15 ==> #[trigger] value_set[row][col] == cross_value(
                    column(g, col),
                    row,
                ),
            forall|row: int, col: int|
                0 <= row < 15 && 0 <= col < 15 ==> #[trigger] value_set[row][col] <= 140,
            move_views(legal_moves@) == grid_moves(
                *lexicon,
                g,
                board.across,
                held,
                row_index as int,
            ),
        decreases 15 - row_index,
    {
        let ghost ctx = table_context(*board, cross_check_sets, value_set, row_index as int);
        let ghost line = g[row_index as int];
        let ghost above = move_views(legal_moves@);
        let mask = anchors[row_index];
        proof {
            let wanted = row_context(*lexicon, g, board.across, row_index as int);
            assert(ctx.sets =~= wanted.sets);
            assert(ctx.values =~= wanted.values);
            assert(ctx == wanted);
            assert forall|c: int| 0 <= c < 15 && has_bit16(mask, c) implies line[c] == 0 by {
                lemma_anchor_mask_bits(g, row_index as int, 15, c);
            }
            assert(above =~= above + ctx.row_moves(lexicon.root, mask, held, 0));
        }
        let mut non_anchor_square_count: u8 = 0;
        let mut partial_word: Vec<Letter> = Vec::new();
        let mut column_index: usize = 0;
        while column_index < 15
            invariant
                row_index < 15,
                column_index <= 15,
                board.wf(),
                g == board.grid(),
                line == g[row_index as int],
                line.len() == 15,
                rack@ == held,
                rack_wf(held),
                mask == anchors[row_index as int],
                ctx == table_context(*board, cross_check_sets, value_set, row_index as int),
                forall|c: int| 0 <= c < 15 && has_bit16(mask, c) ==> line[c] == 0,
                forall|c: int| 0 <= c < 15 ==> #[trigger] value_set[row_index as int][c] <= 150,
                non_anchor_square_count == gap_before(mask, column_index as int),
                non_anchor_square_count <= column_index,
                partial_word@ == run_before(line, column_index as int),
                move_views(legal_moves@) == above + ctx.row_moves(
                    lexicon.root,
                    mask,
                    held,
                    column_index as int,
                ),
            decreases 15 - column_index,
        {
            let ghost found = move_views(legal_moves@);
            let ghost done = ctx.row_moves(lexicon.root, mask, held, column_index as int);
            let ghost here = ctx.column_moves(lexicon.root, mask, held, column_index as int);
            let tile = board.primary[row_index][column_index];
            proof {
                lemma_run_start(line, column_index as int);
                lemma_run_start(line, column_index + 1);
                assert(tile == line[column_index as int]);
                assert(tile <= 26);
                assert(all_tile_codes(partial_word@)) by {
                    assert forall|i: int| 0 <= i < partial_word@.len() implies #[trigger] partial_word@[i]
                        <= 26 by {
                        let j = run_start(line, column_index as int) + i;
                        assert(partial_word@[i] == line[j]);
                        assert(board.primary[row_index as int][j] <= 26);
                    }
                }
            }
            if test_bit16(mask, column_index) {
                if partial_word.len() == 0 {
                    left_part(
                        board,
                        &cross_check_sets,
                        &value_set,
                        &mut legal_moves,
                        row_index,
                        column_index,
                        &lexicon.root,
                        rack,
                        &mut partial_word,
                        non_anchor_square_count,
                    );
                    proof {
                        assert(partial_word@ =~= Seq::<Letter>::empty());
                    }
                } else {
                    match lexicon.root.find(&partial_word) {
                        Some(node) => {
                            extend_right(
                                board,
                                &cross_check_sets,
                                &value_set,
                                &mut legal_moves,
                                row_index,
                                column_index - partial_word.len(),
                                node,
                                rack,
                                &mut partial_word,
                                false,
                            );
                        },
                        None => {
                            proof {
                                assert(found =~= found + here);
                            }
                        },
                    }
                    partial_word.clear();
                }
                non_anchor_square_count = 0;
            } else {
                if tile != 0 {
                    partial_word.push(tile);
                } else {
                    partial_word.clear();
                }
                non_anchor_square_count = non_anchor_square_count + 1;
                proof {
                    assert(found =~= found + here);
                }
            }
            proof {
                assert(move_views(legal_moves@) == found + here);
                assert((above + done) + here =~= above + (done + here));
                assert(partial_word@ =~= run_before(line, column_index + 1));
            }
            column_index = column_index + 1;
        }
        row_index = row_index + 1;
    }
    proof {
        lemma_board_transposed(*board);
        lemma_moves_characterized(*lexicon, g, board.across, held);
        lemma_moves_are_distinct(*lexicon, g, board.across, held);
        let found = legal_moves_of(*lexicon, g, board.across, held);
        assert(move_views(legal_moves@) == found);
        assert forall|m: MoveView| #[trigger]
            move_views(legal_moves@).contains(m) <==> placed(
                *lexicon,
                g,
                board.across,
                held,
                m,
            ) by {
            assert(found.contains(m) <==> placed(*lexicon, g, board.across, held, m));
        }
    }
    legal_moves
}

} // verus!
