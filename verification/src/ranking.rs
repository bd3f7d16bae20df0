use vstd::prelude::*;
use crate::generation::MoveView;
use crate::legal_moves::{move_views, LegalMove};

verus! {

/// Whether the scores of the moves never rise along the list.
pub open spec fn ranked_down(moves: Seq<MoveView>) -> bool {
    forall|i: int, j: int|
        0 <= i <= j < moves.len() ==> (#[trigger] moves[i]).score >= (#[trigger] moves[j]).score
}

/// Where a move of the given score goes into a ranked list: behind the last
/// move that scores at least as much.
pub open spec fn rank_position(ranked: Seq<MoveView>, score: int) -> int
    decreases ranked.len(),
{
    if ranked.len() == 0 {
        0
    } else if ranked.last().score >= score {
        ranked.len() as int
    } else {
        rank_position(ranked.drop_last(), score)
    }
}

/// The moves by falling score; moves of one score keep the order they come
/// in.
pub open spec fn ranked(moves: Seq<MoveView>) -> Seq<MoveView>
    decreases moves.len(),
{
    if moves.len() == 0 {
        Seq::<MoveView>::empty()
    } else {
        let before = ranked(moves.drop_last());
        before.insert(rank_position(before, moves.last().score), moves.last())
    }
}

/// The position of a move in a ranked list lies in the list, after every
/// move that scores as much or more and before every move that scores
/// less.
pub proof fn lemma_rank_position(list: Seq<MoveView>, score: int)
    requires
        ranked_down(list),
    ensures
        0 <= rank_position(list, score) <= list.len(),
        forall|i: int| 0 <= i < rank_position(list, score) ==> (#[trigger] list[i]).score >= score,
        forall|i: int|
            rank_position(list, score) <= i < list.len() ==> (#[trigger] list[i]).score < score,
    decreases list.len(),
{
    if list.len() > 0 {
        let rest = list.drop_last();
        if list.last().score >= score {
            assert forall|i: int| 0 <= i < list.len() implies (#[trigger] list[i]).score
                >= score by {
                assert(list[i].score >= list[list.len() - 1].score);
            }
        } else {
            assert forall|i: int, j: int| 0 <= i <= j < rest.len() implies (#[trigger] rest[i]).score
                >= (#[trigger] rest[j]).score by {
                assert(rest[i] == list[i] && rest[j] == list[j]);
            }
            lemma_rank_position(rest, score);
            assert forall|i: int| 0 <= i < rank_position(list, score) implies (#[trigger] list[i]).score
                >= score by {
                assert(rest[i] == list[i]);
            }
            assert forall|i: int| rank_position(list, score) <= i < list.len() implies (
            #[trigger] list[i]).score < score by {
                if i < rest.len() {
                    assert(rest[i] == list[i]);
                }
            }
        }
    }
}

/// Ranking keeps every move, as often as it came, and puts the scores in
/// falling order.
pub proof fn lemma_ranked(moves: Seq<MoveView>)
    ensures
        ranked(moves).len() == moves.len(),
        ranked(moves).to_multiset() == moves.to_multiset(),
        ranked_down(ranked(moves)),
    decreases moves.len(),
{
    broadcast use vstd::seq_lib::group_to_multiset_ensures;

    if moves.len() > 0 {
        let rest = moves.drop_last();
        let last = moves.last();
        lemma_ranked(rest);
        let before = ranked(rest);
        lemma_rank_position(before, last.score);
        let at = rank_position(before, last.score);
        let after = before.insert(at, last);
        assert(moves =~= rest.push(last));
        assert(after.to_multiset() =~= before.to_multiset().insert(last));
        assert forall|i: int, j: int| 0 <= i <= j < after.len() implies (#[trigger] after[i]).score
            >= (#[trigger] after[j]).score by {
            if i < at {
                assert(after[i] == before[i]);
            } else if i > at {
                assert(after[i] == before[i - 1]);
            }
            if j < at {
                assert(after[j] == before[j]);
            } else if j > at {
                assert(after[j] == before[j - 1]);
            }
        }
    } else {
        assert(moves =~= Seq::<MoveView>::empty());
    }
}

/// Ranking neither adds a move nor drops one.
pub proof fn lemma_ranked_contains(moves: Seq<MoveView>, m: MoveView)
    ensures
        ranked(moves).contains(m) <==> moves.contains(m),
{
    lemma_ranked(moves);
    moves.to_multiset_ensures();
    ranked(moves).to_multiset_ensures();
    assert(ranked(moves).contains(m) <==> ranked(moves).to_multiset().count(m) > 0);
    assert(moves.contains(m) <==> moves.to_multiset().count(m) > 0);
}

/// Ranking a list without repeats gives a list without repeats.
pub proof fn lemma_ranked_distinct(moves: Seq<MoveView>)
    requires
        moves.no_duplicates(),
    ensures
        ranked(moves).no_duplicates(),
{
    lemma_ranked(moves);
    moves.lemma_multiset_has_no_duplicates();
    ranked(moves).lemma_multiset_has_no_duplicates_conv();
}

/// Ranks the moves by falling score; moves of one score keep their order.
pub fn rank_moves(moves: Vec<LegalMove>) -> (sorted: Vec<LegalMove>)
    ensures
        move_views(sorted@) == ranked(move_views(moves@)),
        ranked_down(move_views(sorted@)),
        move_views(sorted@).to_multiset() == move_views(moves@).to_multiset(),
{
    let mut sorted: Vec<LegalMove> = Vec::new();
    let ghost all = move_views(moves@);
    proof {
        assert(all.take(0) =~= Seq::<MoveView>::empty());
        assert(move_views(sorted@) =~= ranked(all.take(0)));
    }
    for legal_move in it: moves
        invariant
            all == move_views(it.seq()),
            move_views(sorted@) == ranked(all.take(it.index() as int)),
    {
        let ghost k = it.index() as int;
        let ghost before = move_views(sorted@);
        let mut at: usize = sorted.len();
        proof {
            lemma_ranked(all.take(k));
            assert(before.take(sorted.len() as int) =~= before);
        }
        while at > 0 && sorted[at - 1].score < legal_move.score
            invariant
                at <= sorted.len(),
                before == move_views(sorted@),
                rank_position(before, legal_move.score as int) == rank_position(
                    before.take(at as int),
                    legal_move.score as int,
                ),
            decreases at,
        {
            proof {
                assert(before.take(at as int).drop_last() =~= before.take(at - 1));
            }
            at = at - 1;
        }
        proof {
            assert(before.take(sorted.len() as int) =~= before);
            if at > 0 {
                assert(before.take(at as int).last() == sorted@[at - 1]@);
            }
            assert(all.take(k + 1).drop_last() =~= all.take(k));
            assert(all.take(k + 1).last() == legal_move@);
        }
        sorted.insert(at, legal_move);
        proof {
            assert(move_views(sorted@) =~= before.insert(at as int, legal_move@));
        }
    }
    proof {
        assert(all.take(all.len() as int) =~= all);
        lemma_ranked(all);
    }
    sorted
}

} // verus!
