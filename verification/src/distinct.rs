use vstd::prelude::*;
use vstd::seq_lib::lemma_no_dup_in_concat;
use crate::bits::{has_bit, has_bit16};
use crate::board::{grid_wf, Grid};
use crate::generation::{gap_before, grid_moves, legal_moves_of, row_context, MoveView, RowContext};
use crate::letter::{all_tile_codes, lemma_word_round_trip, letters_of, Letter};
use crate::lexicon::{Lexicon, Node};
use crate::lines::{lemma_run_start, run_before, run_start};
use crate::placement::{lemma_gap_nonnegative, move_line, move_start};
use crate::rack::{rack_without, Rack};
use crate::squares::{anchor_mask, lemma_anchor_mask_bits};

verus! {

/// Whether move `m` lies along the row of `ctx`, starts at column `start`
/// and begins with the letters `partial`.
pub open spec fn begins(ctx: RowContext, start: int, partial: Seq<Letter>, m: MoveView) -> bool {
    &&& m.across == ctx.across
    &&& move_line(m) == ctx.row
    &&& move_start(m) == start
    &&& letters_of(m.letters).len() >= partial.len()
    &&& letters_of(m.letters).take(partial.len() as int) == partial
}

/// Whether move `m` begins with `partial` and goes on with a letter from
/// `letter` up.
pub open spec fn goes_on(ctx: RowContext, start: int, partial: Seq<Letter>, letter: int, m: MoveView) -> bool {
    &&& begins(ctx, start, partial, m)
    &&& letters_of(m.letters).len() > partial.len()
    &&& letters_of(m.letters)[partial.len() as int] >= letter
}

/// The move recorded for a word starts where the word starts and spells the
/// word.
pub proof fn lemma_emitted_begins(ctx: RowContext, start: int, word: Seq<Letter>)
    requires
        all_tile_codes(word),
    ensures
        begins(ctx, start, word, ctx.emitted(start, word)),
        letters_of(ctx.emitted(start, word).letters) == word,
{
    lemma_word_round_trip(word);
    assert(word.take(word.len() as int) =~= word);
}

/// A move that begins with `partial` and letter `l` begins with `partial`
/// and goes on with `l`.
pub proof fn lemma_begins_shorter(ctx: RowContext, start: int, partial: Seq<Letter>, l: Letter, m: MoveView)
    requires
        begins(ctx, start, partial.push(l), m),
    ensures
        begins(ctx, start, partial, m),
        letters_of(m.letters).len() > partial.len(),
        letters_of(m.letters)[partial.len() as int] == l,
{
    let word = letters_of(m.letters);
    let n = partial.len() as int;
    assert(word.take(n + 1)[n] == l);
    assert(word.take(n) =~= word.take(n + 1).take(n));
    assert(partial.push(l).take(n) =~= partial);
}

/// The moves found to the right of a word under construction all start
/// where it starts and begin with it, and none of them comes twice.
pub proof fn lemma_extend_right_distinct(
    ctx: RowContext,
    node: Node,
    start: int,
    partial: Seq<Letter>,
    rack: Rack,
    possible: bool,
)
    requires
        ctx.line.len() == 15,
        all_tile_codes(ctx.line),
        all_tile_codes(partial),
        0 <= start,
    ensures
        ctx.extend_right_moves(node, start, partial, rack, possible).no_duplicates(),
        forall|i: int|
            0 <= i < ctx.extend_right_moves(node, start, partial, rack, possible).len() ==> begins(
                ctx,
                start,
                partial,
                #[trigger] ctx.extend_right_moves(node, start, partial, rack, possible)[i],
            ),
    decreases 15 - (start + partial.len()), 28int,
{
    let cursor = start + partial.len();
    let moves = ctx.extend_right_moves(node, start, partial, rack, possible);
    let here = if node.is_terminal && possible {
        seq![ctx.emitted(start, partial)]
    } else {
        Seq::<MoveView>::empty()
    };
    lemma_emitted_begins(ctx, start, partial);
    if cursor >= 15 {
    } else if ctx.line[cursor] == 0 {
        let more = ctx.extend_letters_moves(node, start, partial, rack, 1);
        lemma_extend_letters_distinct(ctx, node, start, partial, rack, 1);
        assert forall|i: int, j: int| 0 <= i < here.len() && 0 <= j < more.len() implies here[i]
            != more[j] by {
            assert(goes_on(ctx, start, partial, 1, more[j]));
        }
        lemma_no_dup_in_concat(here, more);
        assert forall|i: int| 0 <= i < moves.len() implies begins(
            ctx,
            start,
            partial,
            #[trigger] moves[i],
        ) by {
            if i >= here.len() {
                assert(goes_on(ctx, start, partial, 1, more[i - here.len()]));
            }
        }
    } else {
        let tile = ctx.line[cursor];
        if node.children@.contains_key(tile) {
            let next = partial.push(tile);
            assert(all_tile_codes(next)) by {
                assert forall|k: int| 0 <= k < next.len() implies #[trigger] next[k] <= 26 by {
                    if k < partial.len() {
                        assert(next[k] == partial[k]);
                    }
                }
            }
            lemma_extend_right_distinct(ctx, node.children@[tile], start, next, rack, true);
            assert forall|i: int| 0 <= i < moves.len() implies begins(
                ctx,
                start,
                partial,
                #[trigger] moves[i],
            ) by {
                lemma_begins_shorter(ctx, start, partial, tile, moves[i]);
            }
        }
    }
}

/// The moves found by laying a letter from `letter` up on the empty square
/// under the cursor all begin with the word under construction and go on
/// with such a letter, and none of them comes twice.
pub proof fn lemma_extend_letters_distinct(
    ctx: RowContext,
    node: Node,
    start: int,
    partial: Seq<Letter>,
    rack: Rack,
    letter: int,
)
    requires
        ctx.line.len() == 15,
        all_tile_codes(ctx.line),
        all_tile_codes(partial),
        0 <= start,
        1 <= letter,
    ensures
        ctx.extend_letters_moves(node, start, partial, rack, letter).no_duplicates(),
        forall|i: int|
            0 <= i < ctx.extend_letters_moves(node, start, partial, rack, letter).len() ==> goes_on(
                ctx,
                start,
                partial,
                letter,
                #[trigger] ctx.extend_letters_moves(node, start, partial, rack, letter)[i],
            ),
    decreases 15 - (start + partial.len()), 27 - letter,
{
    let cursor = start + partial.len();
    let moves = ctx.extend_letters_moves(node, start, partial, rack, letter);
    if letter <= 26 && cursor < 15 {
        let l = letter as u8;
        let next = partial.push(l);
        let tried = node.children@.contains_key(l) && has_bit(ctx.sets[cursor], letter - 1)
            && rack.contains_key(l);
        let with_letter = if tried {
            ctx.extend_right_moves(node.children@[l], start, next, rack_without(rack, l), true)
        } else {
            Seq::<MoveView>::empty()
        };
        let rest = ctx.extend_letters_moves(node, start, partial, rack, letter + 1);
        lemma_extend_letters_distinct(ctx, node, start, partial, rack, letter + 1);
        if tried {
            assert(all_tile_codes(next)) by {
                assert forall|k: int| 0 <= k < next.len() implies #[trigger] next[k] <= 26 by {
                    if k < partial.len() {
                        assert(next[k] == partial[k]);
                    }
                }
            }
            lemma_extend_right_distinct(
                ctx,
                node.children@[l],
                start,
                next,
                rack_without(rack, l),
                true,
            );
        }
        assert forall|i: int| 0 <= i < with_letter.len() implies goes_on(
            ctx,
            start,
            partial,
            letter,
            #[trigger] with_letter[i],
        ) && letters_of(with_letter[i].letters)[partial.len() as int] == l by {
            lemma_begins_shorter(ctx, start, partial, l, with_letter[i]);
        }
        assert forall|i: int, j: int|
            0 <= i < with_letter.len() && 0 <= j < rest.len() implies with_letter[i] != rest[j] by {
            assert(goes_on(ctx, start, partial, letter, with_letter[i]));
            assert(goes_on(ctx, start, partial, letter + 1, rest[j]));
        }
        lemma_no_dup_in_concat(with_letter, rest);
        assert forall|i: int| 0 <= i < moves.len() implies goes_on(
            ctx,
            start,
            partial,
            letter,
            #[trigger] moves[i],
        ) by {
            if i < with_letter.len() {
                assert(goes_on(ctx, start, partial, letter, with_letter[i]));
            } else {
                assert(goes_on(ctx, start, partial, letter + 1, rest[i - with_letter.len()]));
            }
        }
    }
}

/// Whether move `m` lies along the row of `ctx`, begins with the letters
/// `partial` and starts between column `low` and column `high`.
pub open spec fn begins_within(
    ctx: RowContext,
    low: int,
    high: int,
    partial: Seq<Letter>,
    m: MoveView,
) -> bool {
    &&& low <= move_start(m) <= high
    &&& begins(ctx, move_start(m), partial, m)
}

/// The moves found while the part before the anchor is built all begin with
/// that part and start no more than `limit` squares before it, and none of
/// them comes twice.
pub proof fn lemma_left_part_distinct(
    ctx: RowContext,
    node: Node,
    anchor: int,
    partial: Seq<Letter>,
    rack: Rack,
    limit: int,
)
    requires
        ctx.line.len() == 15,
        all_tile_codes(ctx.line),
        all_tile_codes(partial),
        0 <= limit,
        0 <= anchor - partial.len() - limit,
    ensures
        ctx.left_part_moves(node, anchor, partial, rack, limit).no_duplicates(),
        forall|i: int|
            0 <= i < ctx.left_part_moves(node, anchor, partial, rack, limit).len()
                ==> begins_within(
                ctx,
                anchor - partial.len() - limit,
                anchor - partial.len(),
                partial,
                #[trigger] ctx.left_part_moves(node, anchor, partial, rack, limit)[i],
            ),
    decreases limit, 28int,
{
    let start = anchor - partial.len();
    let moves = ctx.left_part_moves(node, anchor, partial, rack, limit);
    let right = ctx.extend_right_moves(node, start, partial, rack, false);
    lemma_extend_right_distinct(ctx, node, start, partial, rack, false);
    assert forall|i: int| 0 <= i < right.len() implies begins_within(
        ctx,
        start - limit,
        start,
        partial,
        #[trigger] right[i],
    ) by {
        assert(begins(ctx, start, partial, right[i]));
    }
    if limit > 0 {
        let left = ctx.left_letters_moves(node, anchor, partial, rack, limit, 1);
        lemma_left_letters_distinct(ctx, node, anchor, partial, rack, limit, 1);
        assert forall|i: int, j: int| 0 <= i < right.len() && 0 <= j < left.len() implies right[i]
            != left[j] by {
            assert(begins(ctx, start, partial, right[i]));
            assert(goes_on_within(ctx, start - limit, start - 1, partial, 1, left[j]));
        }
        lemma_no_dup_in_concat(right, left);
        assert forall|i: int| 0 <= i < moves.len() implies begins_within(
            ctx,
            start - limit,
            start,
            partial,
            #[trigger] moves[i],
        ) by {
            if i >= right.len() {
                assert(goes_on_within(
                    ctx,
                    start - limit,
                    start - 1,
                    partial,
                    1,
                    left[i - right.len()],
                ));
            }
        }
    }
}

/// Whether move `m` starts between column `low` and column `high`, begins
/// with `partial` and goes on with a letter from `letter` up.
pub open spec fn goes_on_within(
    ctx: RowContext,
    low: int,
    high: int,
    partial: Seq<Letter>,
    letter: int,
    m: MoveView,
) -> bool {
    &&& low <= move_start(m) <= high
    &&& goes_on(ctx, move_start(m), partial, letter, m)
}

/// The moves found by adding a letter from `letter` up to the part before
/// the anchor all begin with that part and such a letter and start at least
/// one square before it, and none of them comes twice.
pub proof fn lemma_left_letters_distinct(
    ctx: RowContext,
    node: Node,
    anchor: int,
    partial: Seq<Letter>,
    rack: Rack,
    limit: int,
    letter: int,
)
    requires
        ctx.line.len() == 15,
        all_tile_codes(ctx.line),
        all_tile_codes(partial),
        0 < limit,
        0 <= anchor - partial.len() - limit,
        1 <= letter,
    ensures
        ctx.left_letters_moves(node, anchor, partial, rack, limit, letter).no_duplicates(),
        forall|i: int|
            0 <= i < ctx.left_letters_moves(node, anchor, partial, rack, limit, letter).len()
                ==> goes_on_within(
                ctx,
                anchor - partial.len() - limit,
                anchor - partial.len() - 1,
                partial,
                letter,
                #[trigger] ctx.left_letters_moves(node, anchor, partial, rack, limit, letter)[i],
            ),
    decreases limit, 27 - letter,
{
    let start = anchor - partial.len();
    let moves = ctx.left_letters_moves(node, anchor, partial, rack, limit, letter);
    if letter <= 26 {
        let l = letter as u8;
        let next = partial.push(l);
        let tried = node.children@.contains_key(l) && rack.contains_key(l);
        let with_letter = if tried {
            ctx.left_part_moves(node.children@[l], anchor, next, rack_without(rack, l), limit - 1)
        } else {
            Seq::<MoveView>::empty()
        };
        let rest = ctx.left_letters_moves(node, anchor, partial, rack, limit, letter + 1);
        lemma_left_letters_distinct(ctx, node, anchor, partial, rack, limit, letter + 1);
        if tried {
            assert(all_tile_codes(next)) by {
                assert forall|k: int| 0 <= k < next.len() implies #[trigger] next[k] <= 26 by {
                    if k < partial.len() {
                        assert(next[k] == partial[k]);
                    }
                }
            }
            lemma_left_part_distinct(
                ctx,
                node.children@[l],
                anchor,
                next,
                rack_without(rack, l),
                limit - 1,
            );
        }
        assert forall|i: int| 0 <= i < with_letter.len() implies goes_on_within(
            ctx,
            start - limit,
            start - 1,
            partial,
            letter,
            #[trigger] with_letter[i],
        ) && letters_of(with_letter[i].letters)[partial.len() as int] == l by {
            let m = with_letter[i];
            assert(begins_within(ctx, start - limit, start - 1, next, m));
            lemma_begins_shorter(ctx, move_start(m), partial, l, m);
        }
        assert forall|i: int, j: int|
            0 <= i < with_letter.len() && 0 <= j < rest.len() implies with_letter[i] != rest[j] by {
            assert(goes_on_within(ctx, start - limit, start - 1, partial, letter, with_letter[i]));
            assert(goes_on_within(ctx, start - limit, start - 1, partial, letter + 1, rest[j]));
        }
        lemma_no_dup_in_concat(with_letter, rest);
        assert forall|i: int| 0 <= i < moves.len() implies goes_on_within(
            ctx,
            start - limit,
            start - 1,
            partial,
            letter,
            #[trigger] moves[i],
        ) by {
            if i < with_letter.len() {
                assert(goes_on_within(
                    ctx,
                    start - limit,
                    start - 1,
                    partial,
                    letter,
                    with_letter[i],
                ));
            } else {
                assert(goes_on_within(
                    ctx,
                    start - limit,
                    start - 1,
                    partial,
                    letter + 1,
                    rest[i - with_letter.len()],
                ));
            }
        }
    }
}

/// Whether move `m` lies along the row of `ctx` and starts at or before
/// column `c`, after every anchor before `c`.
pub open spec fn built_from(ctx: RowContext, mask: u16, c: int, m: MoveView) -> bool {
    &&& m.across == ctx.across
    &&& move_line(m) == ctx.row
    &&& move_start(m) <= c
    &&& has_bit16(mask, c)
    &&& forall|j: int| 0 <= j < c && has_bit16(mask, j) ==> j < move_start(m)
}

/// No anchor stands among the squares without an anchor before a column.
pub proof fn lemma_gap_has_no_anchor(mask: u16, c: int, j: int)
    requires
        0 <= c,
        c - gap_before(mask, c) <= j < c,
    ensures
        !has_bit16(mask, j),
    decreases c,
{
    if c > 0 && !has_bit16(mask, c - 1) {
        if j < c - 1 {
            lemma_gap_has_no_anchor(mask, c - 1, j);
        }
    }
}

/// The moves built from one column of a row all start at or before it and
/// after every anchor before it, and none of them comes twice.
pub proof fn lemma_column_moves_distinct(ctx: RowContext, root: Node, mask: u16, rack: Rack, c: int)
    requires
        ctx.line.len() == 15,
        all_tile_codes(ctx.line),
        0 <= c < 15,
        forall|j: int| 0 <= j < 15 && has_bit16(mask, j) ==> ctx.line[j] == 0,
    ensures
        ctx.column_moves(root, mask, rack, c).no_duplicates(),
        forall|i: int|
            0 <= i < ctx.column_moves(root, mask, rack, c).len() ==> built_from(
                ctx,
                mask,
                c,
                #[trigger] ctx.column_moves(root, mask, rack, c)[i],
            ),
{
    let moves = ctx.column_moves(root, mask, rack, c);
    let before = run_before(ctx.line, c);
    lemma_run_start(ctx.line, c);
    if has_bit16(mask, c) {
        if before.len() == 0 {
            let limit = gap_before(mask, c);
            lemma_gap_nonnegative(mask, c);
            lemma_left_part_distinct(ctx, root, c, Seq::<Letter>::empty(), rack, limit);
            assert forall|i: int| 0 <= i < moves.len() implies built_from(
                ctx,
                mask,
                c,
                #[trigger] moves[i],
            ) by {
                let m = moves[i];
                assert(begins_within(ctx, c - limit, c, Seq::<Letter>::empty(), m));
                assert forall|j: int| 0 <= j < c && has_bit16(mask, j) implies j < move_start(m) by {
                    if j >= c - limit {
                        lemma_gap_has_no_anchor(mask, c, j);
                    }
                }
            }
        } else {
            let start = c - before.len();
            assert(start == run_start(ctx.line, c));
            assert(all_tile_codes(before)) by {
                assert forall|k: int| 0 <= k < before.len() implies #[trigger] before[k] <= 26 by {
                    assert(before[k] == ctx.line[start + k]);
                }
            }
            if root.descend(before) is Some {
                let node = root.descend(before).unwrap();
                lemma_extend_right_distinct(ctx, node, start, before, rack, false);
                assert forall|i: int| 0 <= i < moves.len() implies built_from(
                    ctx,
                    mask,
                    c,
                    #[trigger] moves[i],
                ) by {
                    let m = moves[i];
                    assert(begins(ctx, start, before, m));
                    assert forall|j: int| 0 <= j < c && has_bit16(mask, j) implies j < move_start(
                        m,
                    ) by {
                        if j >= start {
                            assert(ctx.line[j] != 0);
                        }
                    }
                }
            }
        }
    }
}

/// Whether move `m` was built from one of the first `k` columns of the row.
pub open spec fn built_before(ctx: RowContext, mask: u16, k: int, m: MoveView) -> bool {
    exists|c: int| 0 <= c < k && #[trigger] built_from(ctx, mask, c, m)
}

/// The moves built from the first `k` columns of a row lie along that row,
/// and none of them comes twice.
pub proof fn lemma_row_moves_distinct(ctx: RowContext, root: Node, mask: u16, rack: Rack, k: int)
    requires
        ctx.line.len() == 15,
        all_tile_codes(ctx.line),
        0 <= k <= 15,
        forall|j: int| 0 <= j < 15 && has_bit16(mask, j) ==> ctx.line[j] == 0,
    ensures
        ctx.row_moves(root, mask, rack, k).no_duplicates(),
        forall|i: int|
            0 <= i < ctx.row_moves(root, mask, rack, k).len() ==> built_before(
                ctx,
                mask,
                k,
                #[trigger] ctx.row_moves(root, mask, rack, k)[i],
            ),
    decreases k,
{
    let moves = ctx.row_moves(root, mask, rack, k);
    if k > 0 {
        let done = ctx.row_moves(root, mask, rack, k - 1);
        let here = ctx.column_moves(root, mask, rack, k - 1);
        lemma_row_moves_distinct(ctx, root, mask, rack, k - 1);
        lemma_column_moves_distinct(ctx, root, mask, rack, k - 1);
        assert forall|i: int, j: int| 0 <= i < done.len() && 0 <= j < here.len() implies done[i]
            != here[j] by {
            assert(built_before(ctx, mask, k - 1, done[i]));
            let c = choose|c: int| 0 <= c < k - 1 && #[trigger] built_from(ctx, mask, c, done[i]);
            assert(built_from(ctx, mask, k - 1, here[j]));
            assert(c < move_start(here[j]));
        }
        lemma_no_dup_in_concat(done, here);
        assert forall|i: int| 0 <= i < moves.len() implies built_before(
            ctx,
            mask,
            k,
            #[trigger] moves[i],
        ) by {
            if i < done.len() {
                assert(built_before(ctx, mask, k - 1, done[i]));
                let c = choose|c: int|
                    0 <= c < k - 1 && #[trigger] built_from(ctx, mask, c, done[i]);
                assert(built_from(ctx, mask, c, moves[i]));
            } else {
                assert(built_from(ctx, mask, k - 1, here[i - done.len()]));
            }
        }
    }
}

/// The moves built from the first `rows` rows of a grid lie along those
/// rows, and none of them comes twice.
pub proof fn lemma_grid_moves_distinct(
    lexicon: Lexicon,
    g: Grid,
    across: bool,
    rack: Rack,
    rows: int,
)
    requires
        grid_wf(g),
        0 <= rows <= 15,
    ensures
        grid_moves(lexicon, g, across, rack, rows).no_duplicates(),
        forall|i: int|
            0 <= i < grid_moves(lexicon, g, across, rack, rows).len() ==> 0 <= move_line(
                #[trigger] grid_moves(lexicon, g, across, rack, rows)[i],
            ) < rows,
    decreases rows,
{
    let moves = grid_moves(lexicon, g, across, rack, rows);
    if rows > 0 {
        let r = rows - 1;
        let ctx = row_context(lexicon, g, across, r);
        let mask = anchor_mask(g, r, 15);
        let done = grid_moves(lexicon, g, across, rack, r);
        let here = ctx.row_moves(lexicon.root, mask, rack, 15);
        lemma_grid_moves_distinct(lexicon, g, across, rack, r);
        assert(all_tile_codes(ctx.line)) by {
            assert forall|j: int| 0 <= j < 15 implies #[trigger] ctx.line[j] <= 26 by {
                assert(g[r][j] <= 26);
            }
        }
        assert forall|j: int| 0 <= j < 15 && has_bit16(mask, j) implies ctx.line[j] == 0 by {
            lemma_anchor_mask_bits(g, r, 15, j);
        }
        lemma_row_moves_distinct(ctx, lexicon.root, mask, rack, 15);
        assert forall|j: int| 0 <= j < here.len() implies move_line(#[trigger] here[j]) == r by {
            assert(built_before(ctx, mask, 15, here[j]));
        }
        assert forall|i: int, j: int| 0 <= i < done.len() && 0 <= j < here.len() implies done[i]
            != here[j] by {
            assert(move_line(done[i]) < r);
            assert(move_line(here[j]) == r);
        }
        lemma_no_dup_in_concat(done, here);
        assert forall|i: int| 0 <= i < moves.len() implies 0 <= move_line(#[trigger] moves[i])
            < rows by {
            if i < done.len() {
                assert(move_line(done[i]) < r);
            } else {
                assert(move_line(here[i - done.len()]) == r);
            }
        }
    }
}

/// The generator finds no move twice.
pub proof fn lemma_moves_are_distinct(lexicon: Lexicon, g: Grid, across: bool, rack: Rack)
    requires
        grid_wf(g),
    ensures
        legal_moves_of(lexicon, g, across, rack).no_duplicates(),
{
    lemma_grid_moves_distinct(lexicon, g, across, rack, 15);
}

} // verus!
