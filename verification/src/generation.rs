use vstd::prelude::*;
use crate::bits::{has_bit, has_bit16};
use crate::board::Grid;
use crate::letter::{chars_of, Letter};
use crate::lexicon::{Lexicon, Node};
use crate::lines::run_before;
use crate::rack::{rack_without, Rack};
use crate::score::placement_score;
use crate::squares::{anchor_mask, column, cross_set, cross_value};

verus! {

/// A move as the generator reports it: where the word starts on the upright
/// board, its direction, its letters (those already on the board included)
/// and its score.
pub struct MoveView {
    pub row: int,
    pub col: int,
    pub across: bool,
    pub letters: Seq<char>,
    pub score: int,
}

/// What the generator knows of one row: its letters, the cross-check set and
/// the cross value of each of its squares, its number, and the direction of
/// the board it belongs to.
pub struct RowContext {
    pub line: Seq<Letter>,
    pub sets: Seq<u32>,
    pub values: Seq<u16>,
    pub row: int,
    pub across: bool,
}

/// The number of empty squares among the `len` squares of `line` from
/// `start`.
pub open spec fn fresh_count(line: Seq<Letter>, start: int, len: int) -> int
    decreases len,
{
    if len <= 0 {
        0
    } else {
        fresh_count(line, start, len - 1) + if line[start + len - 1] == 0 {
            1int
        } else {
            0int
        }
    }
}

/// The number of squares without an anchor just before column `c`.
pub open spec fn gap_before(mask: u16, c: int) -> int
    decreases c,
{
    if c <= 0 || has_bit16(mask, c - 1) {
        0
    } else {
        1 + gap_before(mask, c - 1)
    }
}

/// The move that lays `word` from column `start` of row `row`, whose squares
/// hold `line` and join letters worth `values`. On a rotated board row and
/// column change places. Seven tiles from the rack earn the bonus.
pub open spec fn emitted_move(
    line: Seq<Letter>,
    values: Seq<u16>,
    row: int,
    across: bool,
    start: int,
    word: Seq<Letter>,
) -> MoveView {
    MoveView {
        row: if across {
            row
        } else {
            start
        },
        col: if across {
            start
        } else {
            row
        },
        across,
        letters: chars_of(word),
        score: placement_score(
            line,
            values,
            word,
            row,
            start,
            fresh_count(line, start, word.len() as int) == 7,
        ),
    }
}

impl RowContext {
    /// The move that lays `word` from column `start` of this row.
    pub open spec fn emitted(self, start: int, word: Seq<Letter>) -> MoveView {
        emitted_move(self.line, self.values, self.row, self.across, start, word)
    }

    /// The moves found from `node` with `partial` laid from column `start`
    /// and the cursor on the square after it: the word so far if it is
    /// complete and ends here, then every way on to the right.
    pub open spec fn extend_right_moves(
        self,
        node: Node,
        start: int,
        partial: Seq<Letter>,
        rack: Rack,
        possible: bool,
    ) -> Seq<MoveView>
        decreases 15 - (start + partial.len()), 28int,
    {
        let cursor = start + partial.len();
        let here = if node.is_terminal && possible {
            seq![self.emitted(start, partial)]
        } else {
            Seq::<MoveView>::empty()
        };
        if cursor >= 15 {
            here
        } else if self.line[cursor] == 0 {
            here + self.extend_letters_moves(node, start, partial, rack, 1)
        } else {
            match node.step(self.line[cursor]) {
                Some(child) => self.extend_right_moves(
                    child,
                    start,
                    partial.push(self.line[cursor]),
                    rack,
                    true,
                ),
                None => Seq::<MoveView>::empty(),
            }
        }
    }

    /// The moves found by laying, on the empty square under the cursor, each
    /// letter from `letter` to 26 in turn that the node, the cross-check set
    /// and the rack allow.
    pub open spec fn extend_letters_moves(
        self,
        node: Node,
        start: int,
        partial: Seq<Letter>,
        rack: Rack,
        letter: int,
    ) -> Seq<MoveView>
        decreases 15 - (start + partial.len()), 27 - letter,
    {
        let cursor = start + partial.len();
        if letter < 1 || letter > 26 || cursor >= 15 {
            Seq::<MoveView>::empty()
        } else {
            let l = letter as u8;
            let with_letter = if node.children@.contains_key(l) && has_bit(
                self.sets[cursor],
                letter - 1,
            ) && rack.contains_key(l) {
                self.extend_right_moves(
                    node.children@[l],
                    start,
                    partial.push(l),
                    rack_without(rack, l),
                    true,
                )
            } else {
                Seq::<MoveView>::empty()
            };
            with_letter + self.extend_letters_moves(node, start, partial, rack, letter + 1)
        }
    }

    /// The moves through the anchor at column `anchor` whose part before the
    /// anchor begins with `partial`, all of it from the rack, and takes at
    /// most `limit` squares more.
    pub open spec fn left_part_moves(
        self,
        node: Node,
        anchor: int,
        partial: Seq<Letter>,
        rack: Rack,
        limit: int,
    ) -> Seq<MoveView>
        decreases limit, 28int,
    {
        let right = self.extend_right_moves(node, anchor - partial.len(), partial, rack, false);
        if limit > 0 {
            right + self.left_letters_moves(node, anchor, partial, rack, limit, 1)
        } else {
            right
        }
    }

    /// The moves found by adding to the part before the anchor each letter
    /// from `letter` to 26 in turn that the node and the rack allow.
    pub open spec fn left_letters_moves(
        self,
        node: Node,
        anchor: int,
        partial: Seq<Letter>,
        rack: Rack,
        limit: int,
        letter: int,
    ) -> Seq<MoveView>
        decreases limit, 27 - letter,
    {
        if letter < 1 || letter > 26 || limit <= 0 {
            Seq::<MoveView>::empty()
        } else {
            let l = letter as u8;
            let with_letter = if node.children@.contains_key(l) && rack.contains_key(l) {
                self.left_part_moves(
                    node.children@[l],
                    anchor,
                    partial.push(l),
                    rack_without(rack, l),
                    limit - 1,
                )
            } else {
                Seq::<MoveView>::empty()
            };
            with_letter + self.left_letters_moves(node, anchor, partial, rack, limit, letter + 1)
        }
    }

    /// The moves built from column `c` of the row: none where it is no
    /// anchor; where letters end just before it, the words that begin with
    /// them; else the words whose first tiles take the squares without an
    /// anchor before it.
    pub open spec fn column_moves(self, root: Node, mask: u16, rack: Rack, c: int) -> Seq<MoveView> {
        let before = run_before(self.line, c);
        if !has_bit16(mask, c) {
            Seq::<MoveView>::empty()
        } else if before.len() == 0 {
            self.left_part_moves(root, c, Seq::<Letter>::empty(), rack, gap_before(mask, c))
        } else {
            match root.descend(before) {
                Some(node) => self.extend_right_moves(node, c - before.len(), before, rack, false),
                None => Seq::<MoveView>::empty(),
            }
        }
    }

    /// The moves built from the first `k` columns of the row.
    pub open spec fn row_moves(self, root: Node, mask: u16, rack: Rack, k: int) -> Seq<MoveView>
        decreases k,
    {
        if k <= 0 {
            Seq::<MoveView>::empty()
        } else {
            self.row_moves(root, mask, rack, k - 1) + self.column_moves(root, mask, rack, k - 1)
        }
    }
}

/// What the generator knows of row `r` of grid `g`.
pub open spec fn row_context(lexicon: Lexicon, g: Grid, across: bool, r: int) -> RowContext {
    RowContext {
        line: g[r],
        sets: Seq::new(15, |c: int| cross_set(lexicon, column(g, c), r)),
        values: Seq::new(15, |c: int| cross_value(column(g, c), r) as u16),
        row: r,
        across,
    }
}

/// The moves built from the first `rows` rows of grid `g`.
pub open spec fn grid_moves(lexicon: Lexicon, g: Grid, across: bool, rack: Rack, rows: int) -> Seq<
    MoveView,
>
    decreases rows,
{
    if rows <= 0 {
        Seq::<MoveView>::empty()
    } else {
        grid_moves(lexicon, g, across, rack, rows - 1) + row_context(
            lexicon,
            g,
            across,
            rows - 1,
        ).row_moves(lexicon.root, anchor_mask(g, rows - 1, 15), rack, 15)
    }
}

/// Every move along the rows of grid `g` with tiles of `rack`, in the order
/// in which the generator finds them: row by row, anchor by anchor, words
/// with fewer tiles before the anchor first, letters in alphabet order.
pub open spec fn legal_moves_of(lexicon: Lexicon, g: Grid, across: bool, rack: Rack) -> Seq<
    MoveView,
> {
    grid_moves(lexicon, g, across, rack, 15)
}

} // verus!
