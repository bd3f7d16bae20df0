use vstd::prelude::*;
use crate::bits::{has_bit, has_bit16};
use crate::board::{grid_wf, Grid};
use crate::generation::{gap_before, grid_moves, legal_moves_of, row_context, MoveView, RowContext};
use crate::letter::{all_letters, Letter};
use crate::lexicon::{lemma_descend_concat, lemma_descend_push, Lexicon, Node};
use crate::lines::{lemma_run_start, run_before, run_start, touches};
use crate::placement::{agrees, fresh_letter_count, row_placement};
use crate::rack::{lemma_rack_restored, rack_count, rack_wf, rack_without, Rack};
use crate::squares::{
    anchor_at, anchor_mask, column, cross_ok, is_anchor, lemma_anchor_mask_bits,
    lemma_cross_set_bits,
};

verus! {

/// The number of tiles `l` that the letters of `word` from position `k` on
/// need from the rack.
pub open spec fn still_needed(line: Seq<Letter>, start: int, word: Seq<Letter>, k: int, l: Letter) -> int {
    fresh_letter_count(line, start, word, l) - fresh_letter_count(line, start, word.take(k), l)
}

/// What is left to lay of a legal word: `word`, laid from column `start` of
/// row `r`, is a lexicon word that fits the row and ends before an empty
/// square or the edge; from position `k` on, each tile it lays forms a
/// lexicon word along its column, and `rack` holds the tiles it lays.
pub open spec fn rest_ok(
    lexicon: Lexicon,
    g: Grid,
    r: int,
    start: int,
    word: Seq<Letter>,
    k: int,
    rack: Rack,
) -> bool {
    &&& 0 <= r < 15
    &&& 0 <= start
    &&& 1 <= word.len()
    &&& start + word.len() <= 15
    &&& 0 <= k <= word.len()
    &&& all_letters(word)
    &&& agrees(g[r], start, word)
    &&& (start + word.len() == 15 || g[r][start + word.len()] == 0)
    &&& lexicon.contains(word)
    &&& forall|i: int|
        k <= i < word.len() && g[r][start + i] == 0 ==> cross_ok(
            lexicon,
            column(g, start + i),
            r,
            #[trigger] word[i],
        )
    &&& rack_wf(rack)
    &&& forall|l: Letter| #[trigger] still_needed(g[r], start, word, k, l) <= rack_count(rack, l)
}

/// What is in one of two lists is in the two laid end to end.
pub proof fn lemma_contains_concat(a: Seq<MoveView>, b: Seq<MoveView>, m: MoveView)
    requires
        a.contains(m) || b.contains(m),
    ensures
        (a + b).contains(m),
{
    if a.contains(m) {
        let i = choose|i: int| 0 <= i < a.len() && a[i] == m;
        assert((a + b)[i] == m);
    } else {
        let i = choose|i: int| 0 <= i < b.len() && b[i] == m;
        assert((a + b)[a.len() + i] == m);
    }
}

/// The lexicon leads through every prefix of a word it holds, one letter at
/// a time.
pub proof fn lemma_prefix_path(lexicon: Lexicon, word: Seq<Letter>, k: int)
    requires
        lexicon.contains(word),
        0 <= k <= word.len(),
    ensures
        lexicon.root.descend(word.take(k)) is Some,
        k == word.len() ==> lexicon.root.descend(word.take(k)).unwrap().is_terminal,
        k < word.len() ==> lexicon.root.descend(word.take(k)).unwrap().children@.contains_key(
            word[k],
        ) && lexicon.root.descend(word.take(k + 1)) == Some(
            lexicon.root.descend(word.take(k)).unwrap().children@[word[k]],
        ),
{
    lemma_descend_concat(lexicon.root, word.take(k), word.skip(k));
    assert(word.take(k) + word.skip(k) =~= word);
    if k < word.len() {
        lemma_descend_concat(lexicon.root, word.take(k + 1), word.skip(k + 1));
        assert(word.take(k + 1) + word.skip(k + 1) =~= word);
        lemma_descend_push(lexicon.root, word.take(k), word[k]);
        assert(word.take(k).push(word[k]) =~= word.take(k + 1));
    } else {
        assert(word.take(k) =~= word);
    }
}

/// The tiles needed from position `k` on are those needed from position
/// `k + 1` on, and one more of letter `word[k]` where its square is empty.
pub proof fn lemma_still_needed_step(
    line: Seq<Letter>,
    start: int,
    word: Seq<Letter>,
    k: int,
    l: Letter,
)
    requires
        0 <= k < word.len(),
    ensures
        still_needed(line, start, word, k, l) == still_needed(line, start, word, k + 1, l) + if line[start
            + k] == 0 && word[k] == l {
            1int
        } else {
            0int
        },
        still_needed(line, start, word, k + 1, l) >= 0,
    decreases word.len() - k,
{
    assert(word.take(k + 1).drop_last() =~= word.take(k));
    if k + 1 < word.len() {
        lemma_still_needed_step(line, start, word, k + 1, l);
    } else {
        assert(word.take(k + 1) =~= word);
    }
}

/// A move found after laying letter `l` is among the moves found by trying
/// the letters from `letter` on, where `letter` comes no later than `l`.
pub proof fn lemma_extend_letters_contains(
    ctx: RowContext,
    node: Node,
    start: int,
    partial: Seq<Letter>,
    rack: Rack,
    letter: int,
    l: Letter,
    m: MoveView,
)
    requires
        1 <= letter <= l <= 26,
        start + partial.len() < 15,
        node.children@.contains_key(l),
        has_bit(ctx.sets[start + partial.len()], l - 1),
        rack.contains_key(l),
        ctx.extend_right_moves(
            node.children@[l],
            start,
            partial.push(l),
            rack_without(rack, l),
            true,
        ).contains(m),
    ensures
        ctx.extend_letters_moves(node, start, partial, rack, letter).contains(m),
    decreases l - letter,
{
    let k = letter as u8;
    let with_letter = if node.children@.contains_key(k) && has_bit(
        ctx.sets[start + partial.len()],
        letter - 1,
    ) && rack.contains_key(k) {
        ctx.extend_right_moves(node.children@[k], start, partial.push(k), rack_without(rack, k), true)
    } else {
        Seq::<MoveView>::empty()
    };
    let rest = ctx.extend_letters_moves(node, start, partial, rack, letter + 1);
    if letter < l {
        lemma_extend_letters_contains(ctx, node, start, partial, rack, letter + 1, l, m);
    }
    lemma_contains_concat(with_letter, rest, m);
}

/// A move found after adding letter `l` to the part before the anchor is
/// among the moves found by trying the letters from `letter` on.
pub proof fn lemma_left_letters_contains(
    ctx: RowContext,
    node: Node,
    anchor: int,
    partial: Seq<Letter>,
    rack: Rack,
    limit: int,
    letter: int,
    l: Letter,
    m: MoveView,
)
    requires
        1 <= letter <= l <= 26,
        limit > 0,
        node.children@.contains_key(l),
        rack.contains_key(l),
        ctx.left_part_moves(
            node.children@[l],
            anchor,
            partial.push(l),
            rack_without(rack, l),
            limit - 1,
        ).contains(m),
    ensures
        ctx.left_letters_moves(node, anchor, partial, rack, limit, letter).contains(m),
    decreases l - letter,
{
    let k = letter as u8;
    let with_letter = if node.children@.contains_key(k) && rack.contains_key(k) {
        ctx.left_part_moves(
            node.children@[k],
            anchor,
            partial.push(k),
            rack_without(rack, k),
            limit - 1,
        )
    } else {
        Seq::<MoveView>::empty()
    };
    let rest = ctx.left_letters_moves(node, anchor, partial, rack, limit, letter + 1);
    if letter < l {
        lemma_left_letters_contains(ctx, node, anchor, partial, rack, limit, letter + 1, l, m);
    }
    lemma_contains_concat(with_letter, rest, m);
}

/// A rack that holds the tiles still needed holds them again, one less of
/// letter `word[k]`, after that letter is laid on an empty square.
pub proof fn lemma_rest_step(
    lexicon: Lexicon,
    g: Grid,
    r: int,
    start: int,
    word: Seq<Letter>,
    k: int,
    rack: Rack,
)
    requires
        rest_ok(lexicon, g, r, start, word, k, rack),
        k < word.len(),
    ensures
        g[r][start + k] == 0 ==> rack.contains_key(word[k]) && rest_ok(
            lexicon,
            g,
            r,
            start,
            word,
            k + 1,
            rack_without(rack, word[k]),
        ),
        g[r][start + k] != 0 ==> g[r][start + k] == word[k] && rest_ok(
            lexicon,
            g,
            r,
            start,
            word,
            k + 1,
            rack,
        ),
{
    let line = g[r];
    let l = word[k];
    assert(line[start + k] == 0 || line[start + k] == word[k]);
    assert forall|x: Letter|
        still_needed(line, start, word, k, x) == #[trigger] still_needed(line, start, word, k + 1, x)
            + if line[start + k] == 0 && word[k] == x {
            1int
        } else {
            0int
        } && still_needed(line, start, word, k + 1, x) >= 0 by {
        lemma_still_needed_step(line, start, word, k, x);
    }
    if line[start + k] == 0 {
        assert(still_needed(line, start, word, k, l) <= rack_count(rack, l));
        assert(still_needed(line, start, word, k + 1, l) >= 0);
        assert(rack.contains_key(l));
        lemma_rack_restored(rack, l);
        assert forall|x: Letter| #[trigger]
            still_needed(line, start, word, k + 1, x) <= rack_count(rack_without(rack, l), x) by {
            assert(still_needed(line, start, word, k, x) <= rack_count(rack, x));
        }
    } else {
        assert forall|x: Letter| #[trigger]
            still_needed(line, start, word, k + 1, x) <= rack_count(rack, x) by {
            assert(still_needed(line, start, word, k, x) <= rack_count(rack, x));
        }
    }
}

/// The move of a legal word is among the moves found to the right of every
/// prefix of it, once the rack holds the tiles that the rest needs.
pub proof fn lemma_extend_right_complete(
    lexicon: Lexicon,
    g: Grid,
    across: bool,
    r: int,
    start: int,
    word: Seq<Letter>,
    k: int,
    rack: Rack,
    possible: bool,
)
    requires
        grid_wf(g),
        rest_ok(lexicon, g, r, start, word, k, rack),
        possible || k < word.len(),
    ensures
        lexicon.root.descend(word.take(k)) is Some,
        row_context(lexicon, g, across, r).extend_right_moves(
            lexicon.root.descend(word.take(k)).unwrap(),
            start,
            word.take(k),
            rack,
            possible,
        ).contains(row_context(lexicon, g, across, r).emitted(start, word)),
    decreases word.len() - k,
{
    let ctx = row_context(lexicon, g, across, r);
    let target = ctx.emitted(start, word);
    let partial = word.take(k);
    lemma_prefix_path(lexicon, word, k);
    let node = lexicon.root.descend(partial).unwrap();
    let cursor = start + k;
    let moves = ctx.extend_right_moves(node, start, partial, rack, possible);
    let here = if node.is_terminal && possible {
        seq![ctx.emitted(start, partial)]
    } else {
        Seq::<MoveView>::empty()
    };
    if k == word.len() {
        assert(partial =~= word);
        assert(here[0] == target);
        if cursor < 15 {
            lemma_contains_concat(here, ctx.extend_letters_moves(node, start, partial, rack, 1), target);
        }
    } else {
        let l = word[k];
        assert(1 <= l <= 26);
        assert(partial.push(l) =~= word.take(k + 1));
        lemma_rest_step(lexicon, g, r, start, word, k, rack);
        if g[r][cursor] == 0 {
            lemma_extend_right_complete(
                lexicon,
                g,
                across,
                r,
                start,
                word,
                k + 1,
                rack_without(rack, l),
                true,
            );
            assert(column(g, cursor)[r] == 0);
            assert(cross_ok(lexicon, column(g, start + k), r, word[k]));
            lemma_cross_set_bits(lexicon, column(g, cursor), r, l);
            lemma_extend_letters_contains(ctx, node, start, partial, rack, 1, l, target);
            lemma_contains_concat(here, ctx.extend_letters_moves(node, start, partial, rack, 1), target);
        } else {
            lemma_extend_right_complete(lexicon, g, across, r, start, word, k + 1, rack, true);
        }
    }
}

/// The move of a legal word whose first squares up to the anchor are empty
/// is among the moves found while the part before the anchor is built.
pub proof fn lemma_left_part_complete(
    lexicon: Lexicon,
    g: Grid,
    across: bool,
    r: int,
    anchor: int,
    start: int,
    word: Seq<Letter>,
    k: int,
    rack: Rack,
    limit: int,
)
    requires
        grid_wf(g),
        rest_ok(lexicon, g, r, start, word, k, rack),
        start <= anchor < start + word.len(),
        0 <= k <= anchor - start,
        limit >= anchor - start - k,
        forall|j: int| start <= j < anchor ==> #[trigger] g[r][j] == 0,
    ensures
        lexicon.root.descend(word.take(k)) is Some,
        row_context(lexicon, g, across, r).left_part_moves(
            lexicon.root.descend(word.take(k)).unwrap(),
            anchor,
            word.take(k),
            rack,
            limit,
        ).contains(row_context(lexicon, g, across, r).emitted(start, word)),
    decreases anchor - start - k,
{
    let ctx = row_context(lexicon, g, across, r);
    let target = ctx.emitted(start, word);
    let partial = word.take(k);
    lemma_prefix_path(lexicon, word, k);
    let node = lexicon.root.descend(partial).unwrap();
    let right = ctx.extend_right_moves(node, anchor - partial.len(), partial, rack, false);
    if k == anchor - start {
        lemma_extend_right_complete(lexicon, g, across, r, start, word, k, rack, false);
        if limit > 0 {
            lemma_contains_concat(
                right,
                ctx.left_letters_moves(node, anchor, partial, rack, limit, 1),
                target,
            );
        }
    } else {
        let l = word[k];
        assert(1 <= l <= 26);
        assert(partial.push(l) =~= word.take(k + 1));
        assert(g[r][start + k] == 0);
        lemma_rest_step(lexicon, g, r, start, word, k, rack);
        lemma_left_part_complete(
            lexicon,
            g,
            across,
            r,
            anchor,
            start,
            word,
            k + 1,
            rack_without(rack, l),
            limit - 1,
        );
        lemma_left_letters_contains(ctx, node, anchor, partial, rack, limit, 1, l, target);
        lemma_contains_concat(
            right,
            ctx.left_letters_moves(node, anchor, partial, rack, limit, 1),
            target,
        );
    }
}

/// Among the anchors under a word, one comes first.
pub proof fn lemma_first_anchor(g: Grid, r: int, start: int, c: int) -> (a: int)
    requires
        start <= c,
        anchor_at(g, r, c),
    ensures
        start <= a <= c,
        anchor_at(g, r, a),
        forall|j: int| start <= j < a ==> !anchor_at(g, r, j),
    decreases c - start,
{
    if exists|j: int| start <= j < c && anchor_at(g, r, j) {
        let j = choose|j: int| start <= j < c && anchor_at(g, r, j);
        lemma_first_anchor(g, r, start, j)
    } else {
        c
    }
}

/// Squares without an anchor that end before a letter all hold letters.
pub proof fn lemma_letters_back(g: Grid, r: int, start: int, end: int, j: int)
    requires
        grid_wf(g),
        0 <= r < 15,
        0 <= start <= j < end <= 15,
        g[r][end - 1] != 0,
        forall|i: int| start <= i < end ==> !anchor_at(g, r, i),
    ensures
        g[r][j] != 0,
    decreases end - j,
{
    if j < end - 1 {
        lemma_letters_back(g, r, start, end, j + 1);
        assert(!anchor_at(g, r, j));
        assert(g[r].len() == 15);
        if g[r][j] == 0 {
            assert(touches(g[r], j));
            assert(is_anchor(g, r, j));
        }
    }
}

/// Squares without an anchor that end before an empty square are all
/// empty.
pub proof fn lemma_empty_back(g: Grid, r: int, start: int, end: int, j: int)
    requires
        grid_wf(g),
        0 <= r < 15,
        0 <= start <= j < end <= 15,
        g[r][end - 1] == 0,
        forall|i: int| start <= i < end ==> !anchor_at(g, r, i),
    ensures
        g[r][j] == 0,
    decreases end - j,
{
    if j < end - 1 {
        lemma_empty_back(g, r, start, end, j + 1);
        assert(!anchor_at(g, r, j + 1));
        assert(g[r].len() == 15);
        if g[r][j] != 0 {
            assert(touches(g[r], j + 1));
            assert(is_anchor(g, r, j + 1));
        }
    }
}

/// Letters from an empty square or the edge up to a column begin where that
/// empty square or edge is.
pub proof fn lemma_run_start_is(line: Seq<Letter>, start: int, end: int)
    requires
        0 <= start <= end <= line.len(),
        forall|j: int| start <= j < end ==> #[trigger] line[j] != 0,
        start == 0 || line[start - 1] == 0,
    ensures
        run_start(line, end) == start,
    decreases end - start,
{
    if start < end {
        assert(line[end - 1] != 0);
        lemma_run_start_is(line, start, end - 1);
    }
}

/// Where no column from `start` up to `c` is an anchor, at least `c - start`
/// squares without an anchor stand before `c`.
pub proof fn lemma_gap_covers(g: Grid, r: int, start: int, c: int)
    requires
        0 <= start <= c <= 15,
        forall|j: int| start <= j < c ==> !anchor_at(g, r, j),
    ensures
        gap_before(anchor_mask(g, r, 15), c) >= c - start,
    decreases c - start,
{
    crate::placement::lemma_gap_nonnegative(anchor_mask(g, r, 15), c);
    if start < c {
        lemma_anchor_mask_bits(g, r, 15, c - 1);
        assert(!anchor_at(g, r, c - 1));
        lemma_gap_covers(g, r, start, c - 1);
    }
}

/// What is found from a column of a row is found from the row.
pub proof fn lemma_row_moves_contains(
    ctx: RowContext,
    root: Node,
    mask: u16,
    rack: Rack,
    k: int,
    c: int,
    m: MoveView,
)
    requires
        0 <= c < k,
        ctx.column_moves(root, mask, rack, c).contains(m),
    ensures
        ctx.row_moves(root, mask, rack, k).contains(m),
    decreases k,
{
    if c < k - 1 {
        lemma_row_moves_contains(ctx, root, mask, rack, k - 1, c, m);
    }
    lemma_contains_concat(
        ctx.row_moves(root, mask, rack, k - 1),
        ctx.column_moves(root, mask, rack, k - 1),
        m,
    );
}

/// What is found from a row of a grid is found from the grid.
pub proof fn lemma_grid_moves_contains(
    lexicon: Lexicon,
    g: Grid,
    across: bool,
    rack: Rack,
    rows: int,
    r: int,
    m: MoveView,
)
    requires
        0 <= r < rows,
        row_context(lexicon, g, across, r).row_moves(
            lexicon.root,
            anchor_mask(g, r, 15),
            rack,
            15,
        ).contains(m),
    ensures
        grid_moves(lexicon, g, across, rack, rows).contains(m),
    decreases rows,
{
    if r < rows - 1 {
        lemma_grid_moves_contains(lexicon, g, across, rack, rows - 1, r, m);
    }
    lemma_contains_concat(
        grid_moves(lexicon, g, across, rack, rows - 1),
        row_context(lexicon, g, across, rows - 1).row_moves(
            lexicon.root,
            anchor_mask(g, rows - 1, 15),
            rack,
            15,
        ),
        m,
    );
}

/// The generator finds every legal move along the rows of a grid.
pub proof fn lemma_moves_are_complete(
    lexicon: Lexicon,
    g: Grid,
    across: bool,
    rack: Rack,
    r: int,
    start: int,
    word: Seq<Letter>,
)
    requires
        grid_wf(g),
        rack_wf(rack),
        row_placement(lexicon, g, r, start, word, rack),
    ensures
        legal_moves_of(lexicon, g, across, rack).contains(
            row_context(lexicon, g, across, r).emitted(start, word),
        ),
{
    let ctx = row_context(lexicon, g, across, r);
    let target = ctx.emitted(start, word);
    let line = g[r];
    let mask = anchor_mask(g, r, 15);
    let end = start + word.len();
    let c = choose|c: int| start <= c < end && #[trigger] anchor_at(g, r, c);
    let a = lemma_first_anchor(g, r, start, c);
    lemma_anchor_mask_bits(g, r, 15, a);
    assert(line[a] == 0);
    assert(has_bit16(mask, a));
    assert(word.take(0) =~= Seq::<Letter>::empty());
    assert forall|l: Letter| #[trigger]
        still_needed(line, start, word, 0, l) <= rack_count(rack, l) by {
        assert(fresh_letter_count(line, start, word, l) <= rack_count(rack, l));
    }
    assert(rest_ok(lexicon, g, r, start, word, 0, rack));
    lemma_run_start(line, a);
    if a > start && line[a - 1] != 0 {
        assert forall|j: int| start <= j < a implies #[trigger] line[j] != 0 by {
            lemma_letters_back(g, r, start, a, j);
        }
        lemma_run_start_is(line, start, a);
        let before = run_before(line, a);
        let k = a - start;
        assert(before =~= word.take(k)) by {
            assert forall|i: int| 0 <= i < k implies before[i] == word.take(k)[i] by {
                assert(line[start + i] != 0);
                assert(line[start + i] == 0 || line[start + i] == word[i]);
            }
        }
        lemma_rest_prefix(lexicon, g, r, start, word, k, rack);
        lemma_extend_right_complete(lexicon, g, across, r, start, word, k, rack, false);
    } else {
        if a > start {
            assert forall|j: int| start <= j < a implies #[trigger] line[j] == 0 by {
                lemma_empty_back(g, r, start, a, j);
            }
        }
        assert(run_before(line, a).len() == 0);
        lemma_gap_covers(g, r, start, a);
        lemma_left_part_complete(
            lexicon,
            g,
            across,
            r,
            a,
            start,
            word,
            0,
            rack,
            gap_before(mask, a),
        );
        assert(lexicon.root.descend(word.take(0)) == Some(lexicon.root));
    }
    assert(ctx.column_moves(lexicon.root, mask, rack, a).contains(target));
    lemma_row_moves_contains(ctx, lexicon.root, mask, rack, 15, a, target);
    lemma_grid_moves_contains(lexicon, g, across, rack, 15, r, target);
}

/// Over squares that hold letters a word lays no tile: what the rest of the
/// word needs after them is what the whole word needs.
pub proof fn lemma_rest_prefix(
    lexicon: Lexicon,
    g: Grid,
    r: int,
    start: int,
    word: Seq<Letter>,
    k: int,
    rack: Rack,
)
    requires
        rest_ok(lexicon, g, r, start, word, 0, rack),
        0 <= k <= word.len(),
        forall|j: int| start <= j < start + k ==> #[trigger] g[r][j] != 0,
    ensures
        rest_ok(lexicon, g, r, start, word, k, rack),
    decreases k,
{
    if k > 0 {
        lemma_rest_prefix(lexicon, g, r, start, word, k - 1, rack);
        assert(g[r][start + (k - 1)] != 0);
        lemma_rest_step(lexicon, g, r, start, word, k - 1, rack);
    }
}

} // verus!
