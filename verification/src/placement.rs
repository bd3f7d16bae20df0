use vstd::prelude::*;
use crate::bits::has_bit16;
use crate::board::{grid_wf, Grid};
use crate::generation::{fresh_count, gap_before, row_context, MoveView};
use crate::letter::{all_letters, letters_of, Letter};
use crate::lexicon::Lexicon;
use crate::lines::touches;
use crate::rack::{rack_count, Rack};
use crate::squares::{anchor_at, anchor_mask, column, cross_ok, is_anchor, lemma_anchor_mask_bits};

verus! {

/// Whether `word`, laid on `line` from position `start`, puts on every
/// square that holds a letter the letter it holds.
pub open spec fn agrees(line: Seq<Letter>, start: int, word: Seq<Letter>) -> bool {
    forall|i: int| 0 <= i < word.len() ==> line[start + i] == 0 || line[start + i] == #[trigger] word[i]
}

/// The number of tiles `l` that `word` needs from the rack: its letters `l`
/// over empty squares of `line`.
pub open spec fn fresh_letter_count(line: Seq<Letter>, start: int, word: Seq<Letter>, l: Letter) -> int
    decreases word.len(),
{
    if word.len() == 0 {
        0
    } else {
        fresh_letter_count(line, start, word.drop_last(), l) + if line[start + word.len() - 1] == 0
            && word.last() == l {
            1int
        } else {
            0int
        }
    }
}

/// Whether laying `word` from column `start` of row `r` of grid `g` is a
/// legal move with the tiles of `rack`:
/// the word stays on the board and is made of letters; it leaves the letters
/// under it as they are; no letter stands just before or just after it; it
/// is a lexicon word; every tile it lays forms a lexicon word with the
/// letters it joins along its column; it lays at least one tile; the rack
/// holds the tiles it lays; and it covers an anchor.
pub open spec fn row_placement(
    lexicon: Lexicon,
    g: Grid,
    r: int,
    start: int,
    word: Seq<Letter>,
    rack: Rack,
) -> bool {
    &&& 0 <= r < 15
    &&& 0 <= start
    &&& 1 <= word.len()
    &&& start + word.len() <= 15
    &&& all_letters(word)
    &&& agrees(g[r], start, word)
    &&& (start == 0 || g[r][start - 1] == 0)
    &&& (start + word.len() == 15 || g[r][start + word.len()] == 0)
    &&& lexicon.contains(word)
    &&& forall|i: int|
        0 <= i < word.len() && g[r][start + i] == 0 ==> cross_ok(
            lexicon,
            column(g, start + i),
            r,
            #[trigger] word[i],
        )
    &&& fresh_count(g[r], start, word.len() as int) >= 1
    &&& forall|l: Letter| #[trigger] fresh_letter_count(g[r], start, word, l) <= rack_count(rack, l)
    &&& exists|c: int| start <= c < start + word.len() && #[trigger] anchor_at(g, r, c)
}

/// The row of the grid along which move `m` was built.
pub open spec fn move_line(m: MoveView) -> int {
    if m.across {
        m.row
    } else {
        m.col
    }
}

/// The column of the grid from which move `m` was built.
pub open spec fn move_start(m: MoveView) -> int {
    if m.across {
        m.col
    } else {
        m.row
    }
}

/// Whether `m` is the record of a legal move along a row of grid `g` with
/// the tiles of `rack`: it names the row and the column where the word
/// starts, carries the direction of the board and the letters of the word,
/// and its score is the score of that placement.
pub open spec fn placed(lexicon: Lexicon, g: Grid, across: bool, rack: Rack, m: MoveView) -> bool {
    &&& m.across == across
    &&& m == row_context(lexicon, g, across, move_line(m)).emitted(
        move_start(m),
        letters_of(m.letters),
    )
    &&& row_placement(lexicon, g, move_line(m), move_start(m), letters_of(m.letters), rack)
}

/// A word with an empty square under it lays at least one tile.
pub proof fn lemma_fresh_count_positive(line: Seq<Letter>, start: int, len: int, at: int)
    requires
        start <= at < start + len,
        line[at] == 0,
    ensures
        fresh_count(line, start, len) >= 1,
    decreases len,
{
    lemma_fresh_count_bounds(line, start, len - 1);
    if at < start + len - 1 {
        lemma_fresh_count_positive(line, start, len - 1, at);
    }
}

/// A word lays no more tiles than it has letters.
pub proof fn lemma_fresh_count_bounds(line: Seq<Letter>, start: int, len: int)
    ensures
        0 <= fresh_count(line, start, len),
        len >= 0 ==> fresh_count(line, start, len) <= len,
    decreases len,
{
    if len > 0 {
        lemma_fresh_count_bounds(line, start, len - 1);
    }
}

/// A word over letters only needs no tile.
pub proof fn lemma_no_fresh_letter(line: Seq<Letter>, start: int, word: Seq<Letter>, l: Letter)
    requires
        forall|j: int| start <= j < start + word.len() ==> #[trigger] line[j] != 0,
    ensures
        fresh_letter_count(line, start, word, l) == 0,
    decreases word.len(),
{
    if word.len() > 0 {
        lemma_no_fresh_letter(line, start, word.drop_last(), l);
    }
}

/// The squares without an anchor just before an anchor with no letter
/// before it: all of them are empty and join no letter along their column,
/// and before them stands the edge of the board or an empty square.
pub proof fn lemma_gap_is_clear(g: Grid, r: int, c: int, j: int)
    requires
        grid_wf(g),
        0 <= r < 15,
        0 <= c < 15,
        g[r][c] == 0,
        c == 0 || g[r][c - 1] == 0,
        c - gap_before(anchor_mask(g, r, 15), c) <= j < c,
    ensures
        0 <= c - gap_before(anchor_mask(g, r, 15), c),
        g[r][j] == 0,
        !touches(column(g, j), r),
        !touches(g[r], j),
        c - gap_before(anchor_mask(g, r, 15), c) == 0 || g[r][c - gap_before(
            anchor_mask(g, r, 15),
            c,
        ) - 1] == 0,
    decreases c,
{
    let mask = anchor_mask(g, r, 15);
    if c > 0 && !has_bit16(mask, c - 1) {
        lemma_anchor_mask_bits(g, r, 15, c - 1);
        assert(!anchor_at(g, r, c - 1));
        assert(!is_anchor(g, r, c - 1));
        assert(g[r].len() == 15);
        if c >= 2 && g[r][c - 2] != 0 {
            assert(touches(g[r], c - 1));
        }
        if j < c - 1 {
            lemma_gap_is_clear(g, r, c - 1, j);
        } else {
            lemma_gap_nonnegative(mask, c - 1);
            if c - 1 - gap_before(mask, c - 1) > 0 {
                lemma_gap_edge(g, r, c - 1);
            }
        }
    } else if c > 0 {
        lemma_anchor_mask_bits(g, r, 15, c - 1);
    }
}

/// There are no more squares without an anchor before a column than squares.
pub proof fn lemma_gap_nonnegative(mask: u16, c: int)
    requires
        0 <= c,
    ensures
        0 <= gap_before(mask, c) <= c,
    decreases c,
{
    if c > 0 && !has_bit16(mask, c - 1) {
        lemma_gap_nonnegative(mask, c - 1);
    }
}

/// Before the squares without an anchor that end at column `c` stands an
/// anchor, which is empty.
pub proof fn lemma_gap_edge(g: Grid, r: int, c: int)
    requires
        0 <= c < 15,
        c - gap_before(anchor_mask(g, r, 15), c) > 0,
    ensures
        g[r][c - gap_before(anchor_mask(g, r, 15), c) - 1] == 0,
        anchor_at(g, r, c - gap_before(anchor_mask(g, r, 15), c) - 1),
    decreases c,
{
    let mask = anchor_mask(g, r, 15);
    lemma_gap_nonnegative(mask, c);
    if c > 0 && !has_bit16(mask, c - 1) {
        lemma_gap_edge(g, r, c - 1);
    } else {
        lemma_anchor_mask_bits(g, r, 15, c - 1);
    }
}

} // verus!
