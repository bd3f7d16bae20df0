use vstd::prelude::*;
use crate::bits::{
    has_bit, has_bit16, lemma_all_letters_bits, lemma_no_bit, lemma_no_bit16, lemma_or_bit,
    lemma_or_bit16, ALL_LETTERS,
};
use crate::board::{grid_empty, grid_wf, transpose, Grid};
use crate::letter::Letter;
use crate::lexicon::{lemma_descend_concat, lemma_descend_push, Lexicon};
use crate::lines::{joined_word, run_after, run_before, touches};
use crate::score::word_points;

verus! {

/// Column `c` of the grid, from the top down.
pub open spec fn column(g: Grid, c: int) -> Seq<Letter> {
    Seq::new(15, |r: int| g[r][c])
}

/// The letters among 1 to `n` that make a lexicon word when put between
/// `before` and `after`, as a bit set: bit `l - 1` stands for letter `l`.
pub open spec fn letter_set(lexicon: Lexicon, before: Seq<Letter>, after: Seq<Letter>, n: int) -> u32
    decreases n,
{
    if n <= 0 {
        0
    } else {
        let rest = letter_set(lexicon, before, after, n - 1);
        if lexicon.contains(before.push(n as u8) + after) {
            rest | (1u32 << ((n - 1) as u32))
        } else {
            rest
        }
    }
}

/// Whether letter `l` on the empty position `i` of `line` forms a lexicon
/// word with the letters it joins, or joins none.
pub open spec fn cross_ok(lexicon: Lexicon, line: Seq<Letter>, i: int, l: Letter) -> bool {
    !touches(line, i) || lexicon.contains(joined_word(line, i, l))
}

/// The cross-check set of position `i` of `line`: on an empty square next to
/// a letter, the letters that form a lexicon word with the letters they
/// join; all letters anywhere else.
pub open spec fn cross_set(lexicon: Lexicon, line: Seq<Letter>, i: int) -> u32 {
    if line[i] == 0 && touches(line, i) {
        letter_set(lexicon, run_before(line, i), run_after(line, i), 26)
    } else {
        ALL_LETTERS
    }
}

/// The cross value of position `i` of `line`: on an empty square next to a
/// letter, the points of the letters that a tile there joins; 0 anywhere
/// else.
pub open spec fn cross_value(line: Seq<Letter>, i: int) -> int {
    if line[i] == 0 && touches(line, i) {
        word_points(run_before(line, i)) + word_points(run_after(line, i))
    } else {
        0
    }
}

/// Whether square (`r`, `c`) is empty and next to a letter, along its row or
/// along its column.
pub open spec fn is_anchor(g: Grid, r: int, c: int) -> bool {
    g[r][c] == 0 && (touches(g[r], c) || touches(column(g, c), r))
}

/// The squares from which words are built: the empty squares next to a
/// letter and, on the empty board, the centre.
pub open spec fn anchor_at(g: Grid, r: int, c: int) -> bool {
    is_anchor(g, r, c) || (grid_empty(g) && r == 7 && c == 7)
}

/// The anchors of row `r` among its first `k` squares, as a bit mask: bit `c`
/// stands for column `c`.
pub open spec fn anchor_mask(g: Grid, r: int, k: int) -> u16
    decreases k,
{
    if k <= 0 {
        0
    } else {
        let rest = anchor_mask(g, r, k - 1);
        if anchor_at(g, r, k - 1) {
            rest | (1u16 << ((k - 1) as u16))
        } else {
            rest
        }
    }
}

/// Bit `l - 1` of a letter set tells whether letter `l` makes a word.
pub proof fn lemma_letter_set_bits(
    lexicon: Lexicon,
    before: Seq<Letter>,
    after: Seq<Letter>,
    n: int,
    l: int,
)
    requires
        0 <= n <= 26,
        1 <= l <= 32,
    ensures
        has_bit(letter_set(lexicon, before, after, n), l - 1) <==> l <= n && lexicon.contains(
            before.push(l as u8) + after,
        ),
    decreases n,
{
    if n <= 0 {
        lemma_no_bit((l - 1) as u32);
    } else {
        lemma_letter_set_bits(lexicon, before, after, n - 1, l);
        let rest = letter_set(lexicon, before, after, n - 1);
        if lexicon.contains(before.push(n as u8) + after) {
            lemma_or_bit(rest, (n - 1) as u32, (l - 1) as u32);
        }
    }
}

/// On an empty square, bit `l - 1` of the cross-check set tells whether
/// letter `l` may stand there.
pub proof fn lemma_cross_set_bits(lexicon: Lexicon, line: Seq<Letter>, i: int, l: Letter)
    requires
        1 <= l <= 26,
        line[i] == 0,
    ensures
        has_bit(cross_set(lexicon, line, i), l - 1) <==> cross_ok(lexicon, line, i, l),
{
    if touches(line, i) {
        lemma_letter_set_bits(lexicon, run_before(line, i), run_after(line, i), 26, l as int);
    } else {
        lemma_all_letters_bits((l - 1) as u32);
    }
}

/// Bit `c` of an anchor mask tells whether column `c` is an anchor.
pub proof fn lemma_anchor_mask_bits(g: Grid, r: int, k: int, c: int)
    requires
        0 <= k <= 16,
        0 <= c < 16,
    ensures
        has_bit16(anchor_mask(g, r, k), c) <==> c < k && anchor_at(g, r, c),
    decreases k,
{
    if k <= 0 {
        lemma_no_bit16(c as u16);
    } else {
        lemma_anchor_mask_bits(g, r, k - 1, c);
        let rest = anchor_mask(g, r, k - 1);
        if anchor_at(g, r, k - 1) {
            lemma_or_bit16(rest, (k - 1) as u16, c as u16);
        }
    }
}

/// Where nothing leads to `before` in the lexicon, no letter makes a word
/// after it.
pub proof fn lemma_letter_set_without_prefix(
    lexicon: Lexicon,
    before: Seq<Letter>,
    after: Seq<Letter>,
    n: int,
)
    requires
        lexicon.root.descend(before) is None,
    ensures
        letter_set(lexicon, before, after, n) == 0,
    decreases n,
{
    if n > 0 {
        lemma_letter_set_without_prefix(lexicon, before, after, n - 1);
        lemma_contains_joined(lexicon, before, n as u8, after);
    }
}

/// A word made of `before`, one letter and `after` is in the lexicon when
/// the trie leads through `before` and the letter to a node that accepts
/// `after`.
pub proof fn lemma_contains_joined(
    lexicon: Lexicon,
    before: Seq<Letter>,
    l: Letter,
    after: Seq<Letter>,
)
    ensures
        lexicon.contains(before.push(l) + after) <==> match lexicon.root.descend(before) {
            Some(node) => match node.step(l) {
                Some(child) => child.accepts(after),
                None => false,
            },
            None => false,
        },
{
    lemma_descend_concat(lexicon.root, before.push(l), after);
    lemma_descend_push(lexicon.root, before, l);
}

/// A column of a grid is a row of its transpose.
pub proof fn lemma_column_is_transposed_row(g: Grid, c: int)
    requires
        0 <= c < 15,
    ensures
        column(g, c) == transpose(g)[c],
        column(g, c).len() == 15,
{
    assert(column(g, c) =~= transpose(g)[c]);
}

/// A row of a grid is a column of its transpose.
pub proof fn lemma_row_is_transposed_column(g: Grid, r: int)
    requires
        grid_wf(g),
        0 <= r < 15,
    ensures
        column(transpose(g), r) == g[r],
{
    assert(column(transpose(g), r) =~= g[r]);
}

} // verus!
