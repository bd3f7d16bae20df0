use vstd::prelude::*;
use crate::bits::has_bit;
use crate::board::{grid_wf, Grid};
use crate::completeness::{lemma_still_needed_step, still_needed};
use crate::generation::{row_context, MoveView, RowContext};
use crate::letter::{all_tile_codes, lemma_word_round_trip, letters_of, Letter};
use crate::lexicon::{lemma_descend_concat, Lexicon, Node};
use crate::rack::{lemma_rack_restored, rack_count, rack_wf, rack_without, Rack};
use crate::squares::{column, cross_ok, lemma_cross_set_bits};

verus! {

/// Whether move `m` continues `partial`, laid from column `start`, by the
/// rules of the walk to the right: it is the record of a word that begins
/// with `partial` and stays on the row; the word ends at the edge or before
/// an empty square; the letters after `partial` lead from `node` to a
/// terminal node; each of them is the letter of its square or, on an empty
/// square, a letter that `rack` holds and that the cross-check set of the
/// square allows; and `rack` holds as many tiles of each letter as they
/// lay.
pub open spec fn continues(
    ctx: RowContext,
    node: Node,
    start: int,
    partial: Seq<Letter>,
    rack: Rack,
    m: MoveView,
) -> bool {
    let word = letters_of(m.letters);
    let n = partial.len() as int;
    &&& m == ctx.emitted(start, word)
    &&& n <= word.len()
    &&& word.take(n) == partial
    &&& start + word.len() <= 15
    &&& (start + word.len() == 15 || ctx.line[start + word.len()] == 0)
    &&& node.accepts(word.skip(n))
    &&& forall|i: int|
        n <= i < word.len() ==> if ctx.line[start + i] == 0 {
            1 <= #[trigger] word[i] <= 26 && has_bit(ctx.sets[start + i], word[i] - 1)
                && rack.contains_key(word[i])
        } else {
            word[i] == ctx.line[start + i]
        }
    &&& forall|l: Letter| #[trigger] still_needed(ctx.line, start, word, n, l) <= rack_count(rack, l)
}

/// The word under construction itself, where it is complete and ends at the
/// edge or before an empty square, continues itself.
pub proof fn lemma_continues_here(
    ctx: RowContext,
    node: Node,
    start: int,
    partial: Seq<Letter>,
    rack: Rack,
)
    requires
        all_tile_codes(partial),
        node.is_terminal,
        start + partial.len() <= 15,
        start + partial.len() == 15 || ctx.line[start + partial.len()] == 0,
    ensures
        continues(ctx, node, start, partial, rack, ctx.emitted(start, partial)),
{
    let m = ctx.emitted(start, partial);
    let n = partial.len() as int;
    lemma_word_round_trip(partial);
    let word = letters_of(m.letters);
    assert(word == partial);
    assert(word.take(n) =~= partial);
    assert(word.skip(n) =~= Seq::<Letter>::empty());
    assert(node.descend(word.skip(n)) == Some(node));
}

/// A move that continues the word under construction with one letter more
/// continues the word under construction: the letter is laid from the rack
/// on an empty square whose cross-check set allows it, or it is the letter
/// of the square.
pub proof fn lemma_continues_shorter(
    ctx: RowContext,
    node: Node,
    start: int,
    partial: Seq<Letter>,
    rack: Rack,
    x: Letter,
    m: MoveView,
)
    requires
        rack_wf(rack),
        0 <= start,
        node.children@.contains_key(x),
        (ctx.line[start + partial.len()] != 0 && ctx.line[start + partial.len()] == x) || (
        ctx.line[start + partial.len()] == 0 && 1 <= x <= 26 && has_bit(
            ctx.sets[start + partial.len()],
            x - 1,
        ) && rack.contains_key(x)),
        continues(
            ctx,
            node.children@[x],
            start,
            partial.push(x),
            if ctx.line[start + partial.len()] == 0 {
                rack_without(rack, x)
            } else {
                rack
            },
            m,
        ),
    ensures
        continues(ctx, node, start, partial, rack, m),
{
    let word = letters_of(m.letters);
    let n = partial.len() as int;
    let next = partial.push(x);
    let fresh = ctx.line[start + n] == 0;
    assert(word.take(n + 1)[n] == x);
    assert(word[n] == x);
    assert(word.take(n) =~= word.take(n + 1).take(n));
    assert(next.take(n) =~= partial);
    let tail = word.skip(n);
    assert(tail[0] == x);
    assert(tail.skip(1) =~= word.skip(n + 1));
    assert(node.descend(tail) == node.children@[x].descend(word.skip(n + 1)));
    if fresh {
        lemma_rack_restored(rack, x);
    }
    assert forall|i: int| n <= i < word.len() implies if ctx.line[start + i] == 0 {
        1 <= #[trigger] word[i] <= 26 && has_bit(ctx.sets[start + i], word[i] - 1)
            && rack.contains_key(word[i])
    } else {
        word[i] == ctx.line[start + i]
    } by {
        if i > n && ctx.line[start + i] == 0 && fresh {
            assert(rack_without(rack, x).contains_key(word[i]));
        }
    }
    assert forall|l: Letter| #[trigger]
        still_needed(ctx.line, start, word, n, l) <= rack_count(rack, l) by {
        lemma_still_needed_step(ctx.line, start, word, n, l);
        if fresh {
            assert(still_needed(ctx.line, start, word, n + 1, l) <= rack_count(
                rack_without(rack, x),
                l,
            ));
        } else {
            assert(still_needed(ctx.line, start, word, n + 1, l) <= rack_count(rack, l));
        }
    }
}

/// Every move found to the right of a word under construction continues it
/// by the rules of the walk, whatever the tables hold.
pub proof fn lemma_extend_right_continues(
    ctx: RowContext,
    node: Node,
    start: int,
    partial: Seq<Letter>,
    rack: Rack,
    possible: bool,
    i: int,
)
    requires
        ctx.line.len() == 15,
        all_tile_codes(ctx.line),
        all_tile_codes(partial),
        rack_wf(rack),
        0 <= start,
        start + partial.len() <= 15,
        0 <= i < ctx.extend_right_moves(node, start, partial, rack, possible).len(),
    ensures
        continues(
            ctx,
            node,
            start,
            partial,
            rack,
            ctx.extend_right_moves(node, start, partial, rack, possible)[i],
        ),
    decreases 15 - (start + partial.len()), 28int,
{
    let cursor = start + partial.len();
    let here = if node.is_terminal && possible {
        seq![ctx.emitted(start, partial)]
    } else {
        Seq::<MoveView>::empty()
    };
    if cursor >= 15 {
        lemma_continues_here(ctx, node, start, partial, rack);
    } else if ctx.line[cursor] == 0 {
        if i < here.len() {
            lemma_continues_here(ctx, node, start, partial, rack);
        } else {
            lemma_extend_letters_continues(ctx, node, start, partial, rack, 1, i - here.len());
        }
    } else {
        let tile = ctx.line[cursor];
        if node.children@.contains_key(tile) {
            let next = partial.push(tile);
            assert(all_tile_codes(next)) by {
                assert forall|k: int| 0 <= k < next.len() implies #[trigger] next[k] <= 26 by {
                    if k < partial.len() {
                        assert(next[k] == partial[k]);
                    }
                }
            }
            lemma_extend_right_continues(ctx, node.children@[tile], start, next, rack, true, i);
            lemma_continues_shorter(
                ctx,
                node,
                start,
                partial,
                rack,
                tile,
                ctx.extend_right_moves(node, start, partial, rack, possible)[i],
            );
        }
    }
}

/// Every move found by laying a letter on the empty square under the cursor
/// continues the word under construction by the rules of the walk.
pub proof fn lemma_extend_letters_continues(
    ctx: RowContext,
    node: Node,
    start: int,
    partial: Seq<Letter>,
    rack: Rack,
    letter: int,
    i: int,
)
    requires
        ctx.line.len() == 15,
        all_tile_codes(ctx.line),
        all_tile_codes(partial),
        rack_wf(rack),
        0 <= start,
        start + partial.len() < 15,
        ctx.line[start + partial.len()] == 0,
        1 <= letter,
        0 <= i < ctx.extend_letters_moves(node, start, partial, rack, letter).len(),
    ensures
        continues(
            ctx,
            node,
            start,
            partial,
            rack,
            ctx.extend_letters_moves(node, start, partial, rack, letter)[i],
        ),
    decreases 15 - (start + partial.len()), 27 - letter,
{
    let cursor = start + partial.len();
    if letter <= 26 {
        let l = letter as u8;
        let next = partial.push(l);
        let tried = node.children@.contains_key(l) && has_bit(ctx.sets[cursor], letter - 1)
            && rack.contains_key(l);
        let with_letter = if tried {
            ctx.extend_right_moves(node.children@[l], start, next, rack_without(rack, l), true)
        } else {
            Seq::<MoveView>::empty()
        };
        if i < with_letter.len() {
            assert(all_tile_codes(next)) by {
                assert forall|k: int| 0 <= k < next.len() implies #[trigger] next[k] <= 26 by {
                    if k < partial.len() {
                        assert(next[k] == partial[k]);
                    }
                }
            }
            lemma_rack_restored(rack, l);
            lemma_extend_right_continues(
                ctx,
                node.children@[l],
                start,
                next,
                rack_without(rack, l),
                true,
                i,
            );
            lemma_continues_shorter(ctx, node, start, partial, rack, l, with_letter[i]);
        } else {
            lemma_extend_letters_continues(
                ctx,
                node,
                start,
                partial,
                rack,
                letter + 1,
                i - with_letter.len(),
            );
        }
    }
}

/// Where `node` is the node of `partial` in the lexicon and the tables are
/// those of the grid, a move that continues `partial` spells a lexicon
/// word, and each tile that it lays after `partial` forms a lexicon word
/// with the letters it joins along its column, or joins none.
pub proof fn lemma_continued_word(
    lexicon: Lexicon,
    g: Grid,
    across: bool,
    r: int,
    node: Node,
    start: int,
    partial: Seq<Letter>,
    rack: Rack,
    m: MoveView,
)
    requires
        grid_wf(g),
        0 <= r < 15,
        0 <= start,
        lexicon.root.descend(partial) == Some(node),
        continues(row_context(lexicon, g, across, r), node, start, partial, rack, m),
    ensures
        lexicon.contains(letters_of(m.letters)),
        forall|i: int|
            partial.len() <= i < letters_of(m.letters).len() && g[r][start + i] == 0 ==> cross_ok(
                lexicon,
                column(g, start + i),
                r,
                #[trigger] letters_of(m.letters)[i],
            ),
{
    let ctx = row_context(lexicon, g, across, r);
    let word = letters_of(m.letters);
    let n = partial.len() as int;
    lemma_descend_concat(lexicon.root, word.take(n), word.skip(n));
    assert(word.take(n) + word.skip(n) =~= word);
    assert forall|i: int| n <= i < word.len() && g[r][start + i] == 0 implies cross_ok(
        lexicon,
        column(g, start + i),
        r,
        #[trigger] word[i],
    ) by {
        assert(has_bit(ctx.sets[start + i], word[i] - 1));
        assert(column(g, start + i)[r] == 0);
        lemma_cross_set_bits(lexicon, column(g, start + i), r, word[i]);
    }
}

} // verus!
