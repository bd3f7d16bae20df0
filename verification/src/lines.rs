use vstd::prelude::*;
use crate::letter::Letter;

verus! {

/// The position where the letters that end just before position `i` begin;
/// `i` itself when the square before it is empty or off the line.
pub open spec fn run_start(line: Seq<Letter>, i: int) -> int
    decreases i,
{
    if 0 < i <= line.len() && line[i - 1] != 0 {
        run_start(line, i - 1)
    } else {
        i
    }
}

/// The position just after the letters that begin right after position `i`;
/// `i + 1` when the square after it is empty or off the line.
pub open spec fn run_end(line: Seq<Letter>, i: int) -> int
    decreases line.len() - i,
{
    if 0 <= i + 1 < line.len() && line[i + 1] != 0 {
        run_end(line, i + 1)
    } else {
        i + 1
    }
}

/// The letters that end just before position `i`.
pub open spec fn run_before(line: Seq<Letter>, i: int) -> Seq<Letter> {
    line.subrange(run_start(line, i), i)
}

/// The letters that begin right after position `i`.
pub open spec fn run_after(line: Seq<Letter>, i: int) -> Seq<Letter> {
    line.subrange(i + 1, run_end(line, i))
}

/// Whether a square next to position `i` holds a letter.
pub open spec fn touches(line: Seq<Letter>, i: int) -> bool {
    (0 < i <= line.len() && line[i - 1] != 0) || (0 <= i + 1 < line.len() && line[i + 1] != 0)
}

/// The word that letter `l` on position `i` forms with the letters on both
/// sides of it.
pub open spec fn joined_word(line: Seq<Letter>, i: int, l: Letter) -> Seq<Letter> {
    run_before(line, i).push(l) + run_after(line, i)
}

/// Whether positions `a` to `b - 1` hold letters, with an empty square or
/// the end of the line on both sides.
pub open spec fn is_run(line: Seq<Letter>, a: int, b: int) -> bool {
    &&& 0 <= a < b <= line.len()
    &&& forall|i: int| a <= i < b ==> #[trigger] line[i] != 0
    &&& (a == 0 || line[a - 1] == 0)
    &&& (b == line.len() || line[b] == 0)
}

/// The letters before position `i` start at or before `i`, on the line, and
/// every square between holds a letter; the square before them does not.
pub proof fn lemma_run_start(line: Seq<Letter>, i: int)
    requires
        0 <= i <= line.len(),
    ensures
        0 <= run_start(line, i) <= i,
        forall|j: int| run_start(line, i) <= j < i ==> #[trigger] line[j] != 0,
        run_start(line, i) == 0 || line[run_start(line, i) - 1] == 0,
        run_start(line, i) < i <==> touches_before(line, i),
    decreases i,
{
    if 0 < i && line[i - 1] != 0 {
        lemma_run_start(line, i - 1);
    }
}

/// The letters after position `i` end at or after `i + 1`, on the line, and
/// every square between holds a letter; the square after them does not.
pub proof fn lemma_run_end(line: Seq<Letter>, i: int)
    requires
        -1 <= i < line.len(),
    ensures
        i + 1 <= run_end(line, i) <= line.len(),
        forall|j: int| i < j < run_end(line, i) ==> #[trigger] line[j] != 0,
        run_end(line, i) == line.len() || line[run_end(line, i)] == 0,
        run_end(line, i) > i + 1 <==> touches_after(line, i),
    decreases line.len() - i,
{
    if i + 1 < line.len() && line[i + 1] != 0 {
        lemma_run_end(line, i + 1);
    }
}

/// Whether the square before position `i` holds a letter.
pub open spec fn touches_before(line: Seq<Letter>, i: int) -> bool {
    0 < i <= line.len() && line[i - 1] != 0
}

/// Whether the square after position `i` holds a letter.
pub open spec fn touches_after(line: Seq<Letter>, i: int) -> bool {
    0 <= i + 1 < line.len() && line[i + 1] != 0
}

} // verus!
