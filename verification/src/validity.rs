use vstd::prelude::*;
use crate::board::{grid_wf, transpose, with_word, Grid};
use crate::letter::{all_letters, Letter};
use crate::lexicon::Lexicon;
use crate::lines::{
    is_run, joined_word, lemma_run_end, lemma_run_start, run_end, run_start, touches,
};
use crate::placement::{agrees, row_placement};
use crate::rack::Rack;
use crate::squares::{
    column, cross_ok, lemma_column_is_transposed_row, lemma_row_is_transposed_column,
};

verus! {

/// Whether every stretch of two or more letters of the line, taken from
/// empty square or edge to empty square or edge, is a lexicon word.
pub open spec fn line_valid(lexicon: Lexicon, line: Seq<Letter>) -> bool {
    forall|a: int, b: int| #[trigger]
        is_run(line, a, b) && b - a >= 2 ==> lexicon.contains(line.subrange(a, b))
}

/// Whether every stretch of two or more letters of the grid, along a row or
/// along a column, is a lexicon word.
pub open spec fn grid_valid(lexicon: Lexicon, g: Grid) -> bool {
    &&& forall|r: int| 0 <= r < 15 ==> line_valid(lexicon, #[trigger] g[r])
    &&& forall|c: int| 0 <= c < 15 ==> line_valid(lexicon, #[trigger] column(g, c))
}

/// The line with `word` laid over it from position `start`.
pub open spec fn overlay(line: Seq<Letter>, start: int, word: Seq<Letter>) -> Seq<Letter> {
    Seq::new(
        line.len(),
        |j: int|
            if start <= j < start + word.len() {
                word[j - start]
            } else {
                line[j]
            },
    )
}

/// A line on which a lexicon word is laid between two empty squares or
/// edges, over letters it agrees with, stays valid.
pub proof fn lemma_line_with_word(
    lexicon: Lexicon,
    line: Seq<Letter>,
    start: int,
    word: Seq<Letter>,
)
    requires
        line_valid(lexicon, line),
        0 <= start,
        1 <= word.len(),
        start + word.len() <= line.len(),
        all_letters(word),
        start == 0 || line[start - 1] == 0,
        start + word.len() == line.len() || line[start + word.len()] == 0,
        lexicon.contains(word),
    ensures
        line_valid(lexicon, overlay(line, start, word)),
{
    let after = overlay(line, start, word);
    let end = start + word.len();
    assert forall|a: int, b: int| #[trigger] is_run(after, a, b) && b - a >= 2 implies lexicon.contains(
        after.subrange(a, b),
    ) by {
        if a < end && b > start {
            if a < start {
                assert(after[start - 1] != 0);
            }
            if a > start {
                assert(after[a - 1] == word[a - 1 - start]);
            }
            if b > end {
                assert(after[end] != 0);
            }
            if b < end {
                assert(after[b] == word[b - start]);
            }
            assert(after.subrange(a, b) =~= word);
        } else {
            assert forall|j: int| a <= j < b implies #[trigger] line[j] != 0 by {
                assert(after[j] != 0);
            }
            if a > 0 && start <= a - 1 < end {
                assert(after[a - 1] == word[a - 1 - start]);
            }
            if b < line.len() && start <= b < end {
                assert(after[b] == word[b - start]);
            }
            assert(is_run(line, a, b));
            assert(after.subrange(a, b) =~= line.subrange(a, b));
        }
    }
}

/// A valid line stays valid when a tile is laid on an empty square of it,
/// provided the tile forms a lexicon word with the letters it joins.
pub proof fn lemma_line_with_letter(lexicon: Lexicon, line: Seq<Letter>, i: int, l: Letter)
    requires
        line_valid(lexicon, line),
        0 <= i < line.len(),
        line[i] == 0,
        l != 0,
        cross_ok(lexicon, line, i, l),
    ensures
        line_valid(lexicon, line.update(i, l)),
{
    let after = line.update(i, l);
    lemma_run_start(line, i);
    lemma_run_end(line, i);
    let s = run_start(line, i);
    let e = run_end(line, i);
    assert forall|a: int, b: int| #[trigger] is_run(after, a, b) && b - a >= 2 implies lexicon.contains(
        after.subrange(a, b),
    ) by {
        if a <= i < b {
            if a < s {
                assert(after[s - 1] != 0);
            }
            if a > s {
                assert(line[a - 1] != 0);
                assert(after[a - 1] == line[a - 1]);
            }
            if b > e {
                assert(after[e] != 0);
            }
            if b < e {
                assert(line[b] != 0);
                assert(after[b] == line[b]);
            }
            assert(a == s && b == e);
            assert(touches(line, i));
            assert(after.subrange(a, b) =~= joined_word(line, i, l));
        } else {
            assert forall|j: int| a <= j < b implies #[trigger] line[j] != 0 by {
                assert(after[j] != 0);
            }
            if a > 0 {
                assert(after[a - 1] == 0);
            }
            if b < line.len() {
                assert(after[b] == 0);
            }
            assert(is_run(line, a, b));
            assert(after.subrange(a, b) =~= line.subrange(a, b));
        }
    }
}

/// A grid is valid when its transpose is.
pub proof fn lemma_transpose_valid(lexicon: Lexicon, g: Grid)
    requires
        grid_wf(g),
        grid_valid(lexicon, g),
    ensures
        grid_valid(lexicon, transpose(g)),
        grid_wf(transpose(g)),
{
    let t = transpose(g);
    assert forall|r: int| 0 <= r < 15 implies line_valid(lexicon, #[trigger] t[r]) by {
        lemma_column_is_transposed_row(g, r);
        assert(line_valid(lexicon, column(g, r)));
    }
    assert forall|c: int| 0 <= c < 15 implies line_valid(lexicon, #[trigger] column(t, c)) by {
        lemma_row_is_transposed_column(g, c);
        assert(line_valid(lexicon, g[c]));
    }
}

/// A legal move along a row leaves a valid grid valid: after it, every
/// stretch of two or more letters, along a row or a column, is a lexicon
/// word.
pub proof fn lemma_placement_keeps_valid(
    lexicon: Lexicon,
    g: Grid,
    r: int,
    start: int,
    word: Seq<Letter>,
    rack: Rack,
)
    requires
        grid_wf(g),
        grid_valid(lexicon, g),
        row_placement(lexicon, g, r, start, word, rack),
    ensures
        grid_wf(with_word(g, word, r, start, true)),
        grid_valid(lexicon, with_word(g, word, r, start, true)),
{
    let after = with_word(g, word, r, start, true);
    let end = start + word.len();
    assert forall|row: int, col: int| 0 <= row < 15 && 0 <= col < 15 implies #[trigger] after[row][col]
        <= 26 by {
        if row == r && start <= col < end {
            assert(1 <= word[col - start] <= 26);
        } else {
            assert(g[row][col] <= 26);
        }
    }
    assert forall|row: int| 0 <= row < 15 implies line_valid(lexicon, #[trigger] after[row]) by {
        if row == r {
            assert(line_valid(lexicon, g[r]));
            lemma_line_with_word(lexicon, g[r], start, word);
            assert(after[r] =~= overlay(g[r], start, word));
        } else {
            assert(line_valid(lexicon, g[row]));
            assert(after[row] =~= g[row]);
        }
    }
    assert forall|c: int| 0 <= c < 15 implies line_valid(lexicon, #[trigger] column(after, c)) by {
        let before = column(g, c);
        assert(line_valid(lexicon, before));
        if start <= c < end && g[r][c] == 0 {
            let l = word[c - start];
            assert(1 <= l <= 26);
            assert(cross_ok(lexicon, column(g, start + (c - start)), r, word[c - start]));
            lemma_line_with_letter(lexicon, before, r, l);
            assert(column(after, c) =~= before.update(r, l));
        } else {
            if start <= c < end {
                assert(g[r][start + (c - start)] == 0 || g[r][start + (c - start)] == word[c
                    - start]);
            }
            assert(column(after, c) =~= before);
        }
    }
}

} // verus!
