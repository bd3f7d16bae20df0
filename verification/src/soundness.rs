use vstd::prelude::*;
use crate::bits::has_bit16;
use crate::board::{grid_wf, Grid};
use crate::generation::{gap_before, grid_moves, legal_moves_of, row_context, MoveView};
use crate::letter::{all_letters, lemma_word_round_trip, letters_of, Letter};
use crate::lexicon::{lemma_descend_push, Lexicon, Node};
use crate::lines::{lemma_run_start, run_before, run_start};
use crate::placement::{
    agrees, fresh_letter_count, lemma_fresh_count_positive, lemma_gap_edge, lemma_gap_is_clear,
    lemma_gap_nonnegative, lemma_no_fresh_letter, placed,
};
use crate::rack::{lemma_rack_restored, rack_count, rack_wf, rack_without, Rack};
use crate::squares::{
    anchor_at, anchor_mask, column, cross_ok, lemma_anchor_mask_bits, lemma_cross_set_bits,
};

verus! {

/// What holds of a word under construction: `partial`, laid from column
/// `start` of row `r`, follows the lexicon and leaves the letters under it
/// as they are; no letter stands just before it; each tile it lays forms a
/// lexicon word along its column; and the tiles it lays, together with those
/// still on `rack`, are the tiles of `held`.
pub open spec fn walk_ok(
    lexicon: Lexicon,
    g: Grid,
    r: int,
    start: int,
    partial: Seq<Letter>,
    rack: Rack,
    held: Rack,
) -> bool {
    &&& 0 <= r < 15
    &&& 0 <= start
    &&& start + partial.len() <= 15
    &&& lexicon.root.descend(partial) is Some
    &&& all_letters(partial)
    &&& agrees(g[r], start, partial)
    &&& (start == 0 || g[r][start - 1] == 0)
    &&& forall|i: int|
        0 <= i < partial.len() && g[r][start + i] == 0 ==> cross_ok(
            lexicon,
            column(g, start + i),
            r,
            #[trigger] partial[i],
        )
    &&& rack_wf(rack)
    &&& forall|l: Letter|
        rack_count(rack, l) + #[trigger] fresh_letter_count(g[r], start, partial, l) == rack_count(
            held,
            l,
        )
}

/// A complete word that ends before an empty square or at the edge, and
/// covers an empty anchor, is a legal move.
pub proof fn lemma_emitted_is_placed(
    lexicon: Lexicon,
    g: Grid,
    across: bool,
    r: int,
    start: int,
    word: Seq<Letter>,
    rack: Rack,
    held: Rack,
    anchor: int,
)
    requires
        grid_wf(g),
        walk_ok(lexicon, g, r, start, word, rack, held),
        lexicon.contains(word),
        start <= anchor < start + word.len(),
        anchor_at(g, r, anchor),
        g[r][anchor] == 0,
        start + word.len() == 15 || g[r][start + word.len()] == 0,
    ensures
        placed(lexicon, g, across, held, row_context(lexicon, g, across, r).emitted(start, word)),
{
    let m = row_context(lexicon, g, across, r).emitted(start, word);
    lemma_word_round_trip(word);
    assert(letters_of(m.letters) == word);
    lemma_fresh_count_positive(g[r], start, word.len() as int, anchor);
    assert forall|l: Letter| #[trigger] fresh_letter_count(g[r], start, word, l) <= rack_count(
        held,
        l,
    ) by {
        assert(rack_count(rack, l) >= 0);
    }
}

/// Laying one more letter keeps a word under construction in order.
pub proof fn lemma_walk_step(
    lexicon: Lexicon,
    g: Grid,
    r: int,
    node: Node,
    start: int,
    partial: Seq<Letter>,
    rack: Rack,
    held: Rack,
    l: Letter,
)
    requires
        grid_wf(g),
        walk_ok(lexicon, g, r, start, partial, rack, held),
        lexicon.root.descend(partial) == Some(node),
        start + partial.len() < 15,
        node.children@.contains_key(l),
        1 <= l <= 26,
        g[r][start + partial.len()] == l || (g[r][start + partial.len()] == 0 && rack.contains_key(l)
            && cross_ok(lexicon, column(g, start + partial.len()), r, l)),
    ensures
        lexicon.root.descend(partial.push(l)) == Some(node.children@[l]),
        walk_ok(
            lexicon,
            g,
            r,
            start,
            partial.push(l),
            if g[r][start + partial.len()] == 0 {
                rack_without(rack, l)
            } else {
                rack
            },
            held,
        ),
{
    let next = partial.push(l);
    let cursor = start + partial.len();
    let after = if g[r][cursor] == 0 {
        rack_without(rack, l)
    } else {
        rack
    };
    lemma_descend_push(lexicon.root, partial, l);
    assert(next.drop_last() =~= partial);
    if g[r][cursor] == 0 {
        lemma_rack_restored(rack, l);
    }
    assert forall|i: int| 0 <= i < next.len() implies g[r][start + i] == 0 || g[r][start + i]
        == #[trigger] next[i] by {
        if i < partial.len() {
            assert(next[i] == partial[i]);
        }
    }
    assert forall|i: int| 0 <= i < next.len() && g[r][start + i] == 0 implies cross_ok(
        lexicon,
        column(g, start + i),
        r,
        #[trigger] next[i],
    ) by {
        if i < partial.len() {
            assert(next[i] == partial[i]);
        }
    }
    assert forall|i: int| 0 <= i < next.len() implies 1 <= #[trigger] next[i] <= 26 by {
        if i < partial.len() {
            assert(next[i] == partial[i]);
        }
    }
    assert forall|k: Letter|
        rack_count(after, k) + #[trigger] fresh_letter_count(g[r], start, next, k) == rack_count(
            held,
            k,
        ) by {
        assert(rack_count(rack, k) + fresh_letter_count(g[r], start, partial, k) == rack_count(
            held,
            k,
        ));
    }
}

/// Every move found to the right of a word under construction is a legal
/// move.
pub proof fn lemma_extend_right_sound(
    lexicon: Lexicon,
    g: Grid,
    across: bool,
    r: int,
    node: Node,
    start: int,
    partial: Seq<Letter>,
    rack: Rack,
    held: Rack,
    possible: bool,
    anchor: int,
    i: int,
)
    requires
        grid_wf(g),
        walk_ok(lexicon, g, r, start, partial, rack, held),
        lexicon.root.descend(partial) == Some(node),
        start <= anchor <= start + partial.len(),
        anchor < 15,
        anchor_at(g, r, anchor),
        g[r][anchor] == 0,
        possible <==> anchor < start + partial.len(),
        0 <= i < row_context(lexicon, g, across, r).extend_right_moves(
            node,
            start,
            partial,
            rack,
            possible,
        ).len(),
    ensures
        placed(
            lexicon,
            g,
            across,
            held,
            row_context(lexicon, g, across, r).extend_right_moves(
                node,
                start,
                partial,
                rack,
                possible,
            )[i],
        ),
    decreases 15 - (start + partial.len()), 28int,
{
    let ctx = row_context(lexicon, g, across, r);
    let cursor = start + partial.len();
    let here = if node.is_terminal && possible {
        seq![ctx.emitted(start, partial)]
    } else {
        Seq::<MoveView>::empty()
    };
    if cursor >= 15 {
        lemma_emitted_is_placed(lexicon, g, across, r, start, partial, rack, held, anchor);
    } else if ctx.line[cursor] == 0 {
        if i < here.len() {
            lemma_emitted_is_placed(lexicon, g, across, r, start, partial, rack, held, anchor);
        } else {
            lemma_extend_letters_sound(
                lexicon,
                g,
                across,
                r,
                node,
                start,
                partial,
                rack,
                held,
                anchor,
                1,
                i - here.len(),
            );
        }
    } else {
        let tile = ctx.line[cursor];
        assert(tile == g[r][cursor]);
        if node.children@.contains_key(tile) {
            lemma_walk_step(lexicon, g, r, node, start, partial, rack, held, tile);
            lemma_extend_right_sound(
                lexicon,
                g,
                across,
                r,
                node.children@[tile],
                start,
                partial.push(tile),
                rack,
                held,
                true,
                anchor,
                i,
            );
        }
    }
}

/// Every move found by laying a letter on the empty square under the cursor
/// is a legal move.
pub proof fn lemma_extend_letters_sound(
    lexicon: Lexicon,
    g: Grid,
    across: bool,
    r: int,
    node: Node,
    start: int,
    partial: Seq<Letter>,
    rack: Rack,
    held: Rack,
    anchor: int,
    letter: int,
    i: int,
)
    requires
        grid_wf(g),
        walk_ok(lexicon, g, r, start, partial, rack, held),
        lexicon.root.descend(partial) == Some(node),
        start <= anchor <= start + partial.len(),
        start + partial.len() < 15,
        g[r][start + partial.len()] == 0,
        anchor_at(g, r, anchor),
        g[r][anchor] == 0,
        1 <= letter,
        0 <= i < row_context(lexicon, g, across, r).extend_letters_moves(
            node,
            start,
            partial,
            rack,
            letter,
        ).len(),
    ensures
        placed(
            lexicon,
            g,
            across,
            held,
            row_context(lexicon, g, across, r).extend_letters_moves(
                node,
                start,
                partial,
                rack,
                letter,
            )[i],
        ),
    decreases 15 - (start + partial.len()), 27 - letter,
{
    let ctx = row_context(lexicon, g, across, r);
    let cursor = start + partial.len();
    if letter <= 26 {
        let l = letter as u8;
        let tried = node.children@.contains_key(l) && crate::bits::has_bit(
            ctx.sets[cursor],
            letter - 1,
        ) && rack.contains_key(l);
        let with_letter = if tried {
            ctx.extend_right_moves(
                node.children@[l],
                start,
                partial.push(l),
                rack_without(rack, l),
                true,
            )
        } else {
            Seq::<MoveView>::empty()
        };
        if i < with_letter.len() {
            assert(column(g, cursor)[r] == 0);
            lemma_cross_set_bits(lexicon, column(g, cursor), r, l);
            lemma_walk_step(lexicon, g, r, node, start, partial, rack, held, l);
            lemma_extend_right_sound(
                lexicon,
                g,
                across,
                r,
                node.children@[l],
                start,
                partial.push(l),
                rack_without(rack, l),
                held,
                true,
                anchor,
                i,
            );
        } else {
            lemma_extend_letters_sound(
                lexicon,
                g,
                across,
                r,
                node,
                start,
                partial,
                rack,
                held,
                anchor,
                letter + 1,
                i - with_letter.len(),
            );
        }
    }
}

/// Over empty squares, the tiles that a word needs do not depend on where
/// it is laid.
pub proof fn lemma_fresh_letters_shift(
    line: Seq<Letter>,
    from: int,
    to: int,
    word: Seq<Letter>,
    l: Letter,
)
    requires
        forall|j: int| from <= j < from + word.len() ==> #[trigger] line[j] == 0,
        forall|j: int| to <= j < to + word.len() ==> #[trigger] line[j] == 0,
    ensures
        fresh_letter_count(line, from, word, l) == fresh_letter_count(line, to, word, l),
    decreases word.len(),
{
    if word.len() > 0 {
        lemma_fresh_letters_shift(line, from, to, word.drop_last(), l);
        assert(line[from + word.len() - 1] == 0);
        assert(line[to + word.len() - 1] == 0);
    }
}

/// What holds while the part of a word before its anchor is built: the
/// anchor is an empty square of row `r`; `partial`, all of it tiles from the
/// rack, ends just before the anchor and follows the lexicon; it and the
/// `limit` squares before it lie on empty squares that join no letter along
/// their column, with the edge or an empty square before them; and the tiles
/// of `partial` together with those on `rack` are the tiles of `held`.
pub open spec fn left_ok(
    lexicon: Lexicon,
    g: Grid,
    r: int,
    anchor: int,
    partial: Seq<Letter>,
    rack: Rack,
    held: Rack,
    limit: int,
) -> bool {
    let first = anchor - partial.len() - limit;
    &&& 0 <= r < 15
    &&& 0 <= anchor < 15
    &&& anchor_at(g, r, anchor)
    &&& g[r][anchor] == 0
    &&& 0 <= limit
    &&& 0 <= first
    &&& forall|j: int|
        first <= j < anchor ==> #[trigger] g[r][j] == 0 && !crate::lines::touches(column(g, j), r)
    &&& (first == 0 || g[r][first - 1] == 0)
    &&& lexicon.root.descend(partial) is Some
    &&& all_letters(partial)
    &&& rack_wf(rack)
    &&& forall|l: Letter|
        rack_count(rack, l) + #[trigger] fresh_letter_count(
            g[r],
            anchor - partial.len(),
            partial,
            l,
        ) == rack_count(held, l)
}

/// Every move found while the part before the anchor is built is a legal
/// move.
pub proof fn lemma_left_part_sound(
    lexicon: Lexicon,
    g: Grid,
    across: bool,
    r: int,
    node: Node,
    anchor: int,
    partial: Seq<Letter>,
    rack: Rack,
    held: Rack,
    limit: int,
    i: int,
)
    requires
        grid_wf(g),
        left_ok(lexicon, g, r, anchor, partial, rack, held, limit),
        lexicon.root.descend(partial) == Some(node),
        0 <= i < row_context(lexicon, g, across, r).left_part_moves(
            node,
            anchor,
            partial,
            rack,
            limit,
        ).len(),
    ensures
        placed(
            lexicon,
            g,
            across,
            held,
            row_context(lexicon, g, across, r).left_part_moves(node, anchor, partial, rack, limit)[i],
        ),
    decreases limit, 28int,
{
    let ctx = row_context(lexicon, g, across, r);
    let start = anchor - partial.len();
    let right = ctx.extend_right_moves(node, start, partial, rack, false);
    if i < right.len() {
        assert(walk_ok(lexicon, g, r, start, partial, rack, held)) by {
            assert forall|k: int| 0 <= k < partial.len() implies g[r][start + k] == 0 || g[r][start
                + k] == #[trigger] partial[k] by {
                assert(g[r][start + k] == 0);
            }
            assert forall|k: int| 0 <= k < partial.len() && g[r][start + k] == 0 implies cross_ok(
                lexicon,
                column(g, start + k),
                r,
                #[trigger] partial[k],
            ) by {
                assert(g[r][start + k] == 0);
            }
            if start > 0 && limit > 0 {
                assert(g[r][start - 1] == 0);
            }
        }
        lemma_extend_right_sound(
            lexicon,
            g,
            across,
            r,
            node,
            start,
            partial,
            rack,
            held,
            false,
            anchor,
            i,
        );
    } else {
        lemma_left_letters_sound(
            lexicon,
            g,
            across,
            r,
            node,
            anchor,
            partial,
            rack,
            held,
            limit,
            1,
            i - right.len(),
        );
    }
}

/// Every move found by adding a letter to the part before the anchor is a
/// legal move.
pub proof fn lemma_left_letters_sound(
    lexicon: Lexicon,
    g: Grid,
    across: bool,
    r: int,
    node: Node,
    anchor: int,
    partial: Seq<Letter>,
    rack: Rack,
    held: Rack,
    limit: int,
    letter: int,
    i: int,
)
    requires
        grid_wf(g),
        left_ok(lexicon, g, r, anchor, partial, rack, held, limit),
        lexicon.root.descend(partial) == Some(node),
        1 <= letter,
        0 <= i < row_context(lexicon, g, across, r).left_letters_moves(
            node,
            anchor,
            partial,
            rack,
            limit,
            letter,
        ).len(),
    ensures
        placed(
            lexicon,
            g,
            across,
            held,
            row_context(lexicon, g, across, r).left_letters_moves(
                node,
                anchor,
                partial,
                rack,
                limit,
                letter,
            )[i],
        ),
    decreases limit, 27 - letter,
{
    let ctx = row_context(lexicon, g, across, r);
    if letter <= 26 && limit > 0 {
        let l = letter as u8;
        let tried = node.children@.contains_key(l) && rack.contains_key(l);
        let next = partial.push(l);
        let with_letter = if tried {
            ctx.left_part_moves(node.children@[l], anchor, next, rack_without(rack, l), limit - 1)
        } else {
            Seq::<MoveView>::empty()
        };
        if i < with_letter.len() {
            let start = anchor - partial.len();
            lemma_descend_push(lexicon.root, partial, l);
            lemma_rack_restored(rack, l);
            assert(next.drop_last() =~= partial);
            assert(g[r][start - 1 + next.len() - 1] == 0);
            assert forall|k: int| 0 <= k < next.len() implies 1 <= #[trigger] next[k] <= 26 by {
                if k < partial.len() {
                    assert(next[k] == partial[k]);
                }
            }
            assert forall|k: Letter|
                rack_count(rack_without(rack, l), k) + #[trigger] fresh_letter_count(
                    g[r],
                    start - 1,
                    next,
                    k,
                ) == rack_count(held, k) by {
                lemma_fresh_letters_shift(g[r], start, start - 1, partial, k);
                assert(rack_count(rack, k) + fresh_letter_count(g[r], start, partial, k)
                    == rack_count(held, k));
            }
            lemma_left_part_sound(
                lexicon,
                g,
                across,
                r,
                node.children@[l],
                anchor,
                next,
                rack_without(rack, l),
                held,
                limit - 1,
                i,
            );
        } else {
            lemma_left_letters_sound(
                lexicon,
                g,
                across,
                r,
                node,
                anchor,
                partial,
                rack,
                held,
                limit,
                letter + 1,
                i - with_letter.len(),
            );
        }
    }
}

/// Every move built from one column of a row is a legal move.
pub proof fn lemma_column_moves_sound(
    lexicon: Lexicon,
    g: Grid,
    across: bool,
    r: int,
    rack: Rack,
    c: int,
    i: int,
)
    requires
        grid_wf(g),
        rack_wf(rack),
        0 <= r < 15,
        0 <= c < 15,
        0 <= i < row_context(lexicon, g, across, r).column_moves(
            lexicon.root,
            anchor_mask(g, r, 15),
            rack,
            c,
        ).len(),
    ensures
        placed(
            lexicon,
            g,
            across,
            rack,
            row_context(lexicon, g, across, r).column_moves(
                lexicon.root,
                anchor_mask(g, r, 15),
                rack,
                c,
            )[i],
        ),
{
    let ctx = row_context(lexicon, g, across, r);
    let mask = anchor_mask(g, r, 15);
    let line = g[r];
    let before = run_before(line, c);
    let empty = Seq::<Letter>::empty();
    lemma_anchor_mask_bits(g, r, 15, c);
    lemma_run_start(line, c);
    assert(has_bit16(mask, c));
    assert(anchor_at(g, r, c));
    assert(g[r][c] == 0);
    if before.len() == 0 {
        let limit = gap_before(mask, c);
        lemma_gap_nonnegative(mask, c);
        assert forall|j: int| c - limit <= j < c implies #[trigger] g[r][j] == 0
            && !crate::lines::touches(column(g, j), r) by {
            lemma_gap_is_clear(g, r, c, j);
        }
        if c - limit > 0 {
            lemma_gap_edge(g, r, c);
        }
        assert(lexicon.root.descend(empty) == Some(lexicon.root));
        assert(left_ok(lexicon, g, r, c, empty, rack, rack, limit));
        lemma_left_part_sound(lexicon, g, across, r, lexicon.root, c, empty, rack, rack, limit, i);
    } else {
        let start = c - before.len();
        assert(start == run_start(line, c));
        let node = lexicon.root.descend(before).unwrap();
        assert forall|k: int| 0 <= k < before.len() implies 1 <= #[trigger] before[k] <= 26 by {
            assert(before[k] == line[start + k]);
            assert(g[r][start + k] <= 26);
        }
        assert forall|l: Letter|
            rack_count(rack, l) + #[trigger] fresh_letter_count(line, start, before, l)
                == rack_count(rack, l) by {
            lemma_no_fresh_letter(line, start, before, l);
        }
        assert(walk_ok(lexicon, g, r, start, before, rack, rack)) by {
            assert forall|k: int| 0 <= k < before.len() implies line[start + k] == 0 || line[start
                + k] == #[trigger] before[k] by {
                assert(before[k] == line[start + k]);
            }
            assert forall|k: int| 0 <= k < before.len() && g[r][start + k] == 0 implies cross_ok(
                lexicon,
                column(g, start + k),
                r,
                #[trigger] before[k],
            ) by {
                assert(line[start + k] != 0);
            }
        }
        lemma_extend_right_sound(
            lexicon,
            g,
            across,
            r,
            node,
            start,
            before,
            rack,
            rack,
            false,
            c,
            i,
        );
    }
}

/// Every move built from the first `k` columns of a row is a legal move.
pub proof fn lemma_row_moves_sound(
    lexicon: Lexicon,
    g: Grid,
    across: bool,
    r: int,
    rack: Rack,
    k: int,
    i: int,
)
    requires
        grid_wf(g),
        rack_wf(rack),
        0 <= r < 15,
        0 <= k <= 15,
        0 <= i < row_context(lexicon, g, across, r).row_moves(
            lexicon.root,
            anchor_mask(g, r, 15),
            rack,
            k,
        ).len(),
    ensures
        placed(
            lexicon,
            g,
            across,
            rack,
            row_context(lexicon, g, across, r).row_moves(
                lexicon.root,
                anchor_mask(g, r, 15),
                rack,
                k,
            )[i],
        ),
    decreases k,
{
    let ctx = row_context(lexicon, g, across, r);
    let mask = anchor_mask(g, r, 15);
    if k > 0 {
        let done = ctx.row_moves(lexicon.root, mask, rack, k - 1);
        if i < done.len() {
            lemma_row_moves_sound(lexicon, g, across, r, rack, k - 1, i);
        } else {
            lemma_column_moves_sound(lexicon, g, across, r, rack, k - 1, i - done.len());
        }
    }
}

/// Every move built from the first `rows` rows of a grid is a legal move.
pub proof fn lemma_grid_moves_sound(
    lexicon: Lexicon,
    g: Grid,
    across: bool,
    rack: Rack,
    rows: int,
    i: int,
)
    requires
        grid_wf(g),
        rack_wf(rack),
        0 <= rows <= 15,
        0 <= i < grid_moves(lexicon, g, across, rack, rows).len(),
    ensures
        placed(lexicon, g, across, rack, grid_moves(lexicon, g, across, rack, rows)[i]),
    decreases rows,
{
    if rows > 0 {
        let done = grid_moves(lexicon, g, across, rack, rows - 1);
        if i < done.len() {
            lemma_grid_moves_sound(lexicon, g, across, rack, rows - 1, i);
        } else {
            lemma_row_moves_sound(lexicon, g, across, rows - 1, rack, 15, i - done.len());
        }
    }
}

/// Every move that the generator finds along the rows of a grid is a legal
/// move, recorded with its score.
pub proof fn lemma_moves_are_legal(lexicon: Lexicon, g: Grid, across: bool, rack: Rack, i: int)
    requires
        grid_wf(g),
        rack_wf(rack),
        0 <= i < legal_moves_of(lexicon, g, across, rack).len(),
    ensures
        placed(lexicon, g, across, rack, legal_moves_of(lexicon, g, across, rack)[i]),
{
    lemma_grid_moves_sound(lexicon, g, across, rack, 15, i);
}

} // verus!
