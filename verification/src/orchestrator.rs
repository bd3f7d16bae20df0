use std::collections::HashMap;
use vstd::prelude::*;
use crate::board::{lemma_board_transposed, lemma_rotate_twice, lemma_rotated_wf, Board};
use crate::completeness::lemma_contains_concat;
use crate::distinct::lemma_moves_are_distinct;
use crate::generation::{legal_moves_of, MoveView};
use crate::laws::{found_on, lemma_moves_characterized};
use crate::legal_moves::{calculate_legal_moves, move_views, LegalMove};
use crate::letter::Letter;
use crate::lexicon::Lexicon;
use crate::placement::placed;
use crate::rack::{rack_wf, Rack};
use crate::ranking::{lemma_ranked_contains, lemma_ranked_distinct, rank_moves, ranked, ranked_down};

verus! {

/// The moves along the rows of the board, then those along its columns.
pub open spec fn both_axes(lexicon: Lexicon, board: Board, rack: Rack) -> Seq<MoveView> {
    legal_moves_of(lexicon, board.grid(), board.across, rack) + legal_moves_of(
        lexicon,
        board.rotated().grid(),
        board.rotated().across,
        rack,
    )
}

/// The ranked moves in both directions are the moves found along the rows
/// of the board and those found along the rows of the rotated board.
pub proof fn lemma_ranked_both_axes(lexicon: Lexicon, board: Board, rack: Rack, m: MoveView)
    ensures
        ranked(both_axes(lexicon, board, rack)).contains(m) <==> found_on(lexicon, board, rack, m)
            || found_on(lexicon, board.rotated(), rack, m),
{
    let first = legal_moves_of(lexicon, board.grid(), board.across, rack);
    let second = legal_moves_of(lexicon, board.rotated().grid(), board.rotated().across, rack);
    lemma_ranked_contains(first + second, m);
    if first.contains(m) || second.contains(m) {
        lemma_contains_concat(first, second, m);
    }
    if (first + second).contains(m) {
        let i = choose|i: int| 0 <= i < (first + second).len() && (first + second)[i] == m;
        if i < first.len() {
            assert(first[i] == m);
        } else {
            assert(second[i - first.len()] == m);
        }
    }
}

/// No move comes twice among the moves in both directions.
pub proof fn lemma_both_axes_distinct(lexicon: Lexicon, board: Board, rack: Rack)
    requires
        board.wf(),
        rack_wf(rack),
    ensures
        both_axes(lexicon, board, rack).no_duplicates(),
        ranked(both_axes(lexicon, board, rack)).no_duplicates(),
{
    let turned = board.rotated();
    let first = legal_moves_of(lexicon, board.grid(), board.across, rack);
    let second = legal_moves_of(lexicon, turned.grid(), turned.across, rack);
    lemma_rotated_wf(board);
    lemma_board_transposed(board);
    lemma_board_transposed(turned);
    lemma_moves_are_distinct(lexicon, board.grid(), board.across, rack);
    lemma_moves_are_distinct(lexicon, turned.grid(), turned.across, rack);
    lemma_moves_characterized(lexicon, board.grid(), board.across, rack);
    lemma_moves_characterized(lexicon, turned.grid(), turned.across, rack);
    assert forall|i: int, j: int| 0 <= i < first.len() && 0 <= j < second.len() implies first[i]
        != second[j] by {
        assert(first.contains(first[i]));
        assert(second.contains(second[j]));
        assert(first[i].across == board.across);
        assert(second[j].across == !board.across);
    }
    vstd::seq_lib::lemma_no_dup_in_concat(first, second);
    lemma_ranked_distinct(first + second);
}

/// Every move on the board with tiles of the rack, in both directions, by
/// falling score. The board is rotated twice on the way and so comes back as
/// it was, and so does the rack.
pub fn generate(lexicon: &Lexicon, board: &mut Board, rack: &mut HashMap<Letter, u8>) -> (moves:
    Vec<LegalMove>)
    requires
        old(board).wf(),
        rack_wf(old(rack)@),
    ensures
        *final(board) == *old(board),
        final(rack)@ == old(rack)@,
        move_views(moves@) == ranked(both_axes(*lexicon, *old(board), old(rack)@)),
        ranked_down(move_views(moves@)),
        move_views(moves@).no_duplicates(),
        forall|m: MoveView| #[trigger]
            move_views(moves@).contains(m) <==> placed(
                *lexicon,
                old(board).grid(),
                old(board).across,
                old(rack)@,
                m,
            ) || placed(
                *lexicon,
                old(board).rotated().grid(),
                !old(board).across,
                old(rack)@,
                m,
            ),
{
    let mut legal_moves = calculate_legal_moves(lexicon, board, rack);
    board.rotate();
    let mut rotated_moves = calculate_legal_moves(lexicon, board, rack);
    board.rotate();
    let ghost first = move_views(legal_moves@);
    let ghost second = move_views(rotated_moves@);
    legal_moves.append(&mut rotated_moves);
    proof {
        lemma_rotate_twice(*old(board));
        lemma_both_axes_distinct(*lexicon, *old(board), old(rack)@);
        assert(move_views(legal_moves@) =~= first + second);
        assert forall|m: MoveView| #[trigger]
            ranked(first + second).contains(m) <==> first.contains(m) || second.contains(m) by {
            lemma_ranked_both_axes(*lexicon, *old(board), old(rack)@, m);
        }
    }
    rank_moves(legal_moves)
}

} // verus!
