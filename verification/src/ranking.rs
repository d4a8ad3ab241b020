//! Ordering colours by prevalence, the most dominant first.
//!
//! The order is stable: colours of equal percentage keep the order in which
//! they were given, which for the colours of a clustering is the order of the
//! cluster indices.

use vstd::prelude::*;
use crate::fraction::lemma_order_weak;
use crate::prevalence::{ColourInfo, counts_total, zero_shares};

verus! {

/// Where `x` goes into colours that are already ranked: before the colours at
/// the end that it outranks, and behind every colour before those.
pub open spec fn rank_position(ranked: Seq<ColourInfo>, x: ColourInfo) -> int
    decreases ranked.len(),
{
    if ranked.len() == 0 {
        0
    } else if x.outranks(ranked.last()) {
        rank_position(ranked.drop_last(), x)
    } else {
        ranked.len() as int
    }
}

/// The colours in the order of their percentages, the greatest first; colours
/// of equal percentage in the order in which they are given.
pub open spec fn ranking(colours: Seq<ColourInfo>) -> Seq<ColourInfo>
    decreases colours.len(),
{
    if colours.len() == 0 {
        Seq::empty()
    } else {
        let before = ranking(colours.drop_last());
        before.insert(rank_position(before, colours.last()), colours.last())
    }
}

/// No colour is outranked by one that comes behind it.
pub open spec fn is_ranked(colours: Seq<ColourInfo>) -> bool {
    forall|i: int, j: int|
        0 <= i < j < colours.len() ==> !(#[trigger] colours[j]).outranks(#[trigger] colours[i])
}

pub open spec fn all_shares(colours: Seq<ColourInfo>) -> bool {
    forall|i: int| 0 <= i < colours.len() ==> (#[trigger] colours[i]).wf()
}

/// The test for having the same percentage as `e`.
pub open spec fn share_of(e: ColourInfo) -> spec_fn(ColourInfo) -> bool {
    |c: ColourInfo| c.same_share(e)
}

/// The position lies within the colours, `x` outranks every colour from it
/// on, and does not outrank the colour just before it.
pub proof fn lemma_rank_position(ranked: Seq<ColourInfo>, x: ColourInfo)
    ensures
        0 <= rank_position(ranked, x) <= ranked.len(),
        forall|i: int|
            rank_position(ranked, x) <= i < ranked.len() ==> x.outranks(#[trigger] ranked[i]),
        rank_position(ranked, x) > 0 ==> !x.outranks(ranked[rank_position(ranked, x) - 1]),
    decreases ranked.len(),
{
    if ranked.len() > 0 && x.outranks(ranked.last()) {
        let rest = ranked.drop_last();
        lemma_rank_position(rest, x);
        assert forall|i: int| rank_position(ranked, x) <= i < ranked.len() implies x.outranks(
            #[trigger] ranked[i],
        ) by {
            if i < rest.len() {
                assert(ranked[i] == rest[i]);
            }
        }
        if rank_position(ranked, x) > 0 {
            assert(ranked[rank_position(ranked, x) - 1] == rest[rank_position(rest, x) - 1]);
        }
    }
}

/// Ranking keeps the number of colours.
pub proof fn lemma_ranking_len(colours: Seq<ColourInfo>)
    ensures
        ranking(colours).len() == colours.len(),
    decreases colours.len(),
{
    if colours.len() > 0 {
        let before = ranking(colours.drop_last());
        lemma_ranking_len(colours.drop_last());
        lemma_rank_position(before, colours.last());
    }
}

/// Ranking rearranges: it holds each colour as often as it was given.
pub proof fn lemma_ranking_permutes(colours: Seq<ColourInfo>)
    ensures
        ranking(colours).to_multiset() == colours.to_multiset(),
    decreases colours.len(),
{
    broadcast use vstd::seq_lib::to_multiset_insert, vstd::seq_lib::to_multiset_build;

    if colours.len() > 0 {
        let rest = colours.drop_last();
        let before = ranking(rest);
        lemma_ranking_permutes(rest);
        lemma_rank_position(before, colours.last());
        assert(rest.push(colours.last()) =~= colours);
        assert(rest.push(colours.last()).to_multiset() == rest.to_multiset().insert(
            colours.last(),
        ));
    } else {
        assert(colours =~= Seq::<ColourInfo>::empty());
    }
}

/// Ranking keeps the shares as they are.
pub proof fn lemma_ranking_shares(colours: Seq<ColourInfo>)
    requires
        all_shares(colours),
    ensures
        all_shares(ranking(colours)),
    decreases colours.len(),
{
    if colours.len() > 0 {
        let rest = colours.drop_last();
        let before = ranking(rest);
        let x = colours.last();
        assert forall|i: int| 0 <= i < rest.len() implies (#[trigger] rest[i]).wf() by {
            assert(rest[i] == colours[i]);
        }
        lemma_ranking_shares(rest);
        lemma_rank_position(before, x);
        let pos = rank_position(before, x);
        let after = before.insert(pos, x);
        assert forall|i: int| 0 <= i < after.len() implies (#[trigger] after[i]).wf() by {
            if i < pos {
                assert(after[i] == before[i]);
            } else if i == pos {
                assert(after[i] == x);
            } else {
                assert(after[i] == before[i - 1]);
            }
        }
    }
}

/// The percentages are in order: of three shares, if the second does not
/// outrank the first and the third does not outrank the second, then the third
/// does not outrank the first.
pub proof fn lemma_not_outranked_transitive(a: ColourInfo, b: ColourInfo, c: ColourInfo)
    requires
        a.wf(),
        b.wf(),
        c.wf(),
        !b.outranks(a),
        !c.outranks(b),
    ensures
        !c.outranks(a),
{
    lemma_order_weak(
        c.count as int,
        c.total as int,
        b.count as int,
        b.total as int,
        a.count as int,
        a.total as int,
    );
}

/// Having the same percentage is transitive.
pub proof fn lemma_same_share_transitive(a: ColourInfo, b: ColourInfo, c: ColourInfo)
    requires
        a.wf(),
        b.wf(),
        c.wf(),
        a.same_share(b),
        b.same_share(c),
    ensures
        a.same_share(c),
{
    lemma_order_weak(
        a.count as int,
        a.total as int,
        b.count as int,
        b.total as int,
        c.count as int,
        c.total as int,
    );
    lemma_order_weak(
        c.count as int,
        c.total as int,
        b.count as int,
        b.total as int,
        a.count as int,
        a.total as int,
    );
}

/// The ranking is non-increasing in percentage: no colour in it is outranked
/// by a colour behind it.
pub proof fn lemma_ranking_non_increasing(colours: Seq<ColourInfo>)
    requires
        all_shares(colours),
    ensures
        is_ranked(ranking(colours)),
    decreases colours.len(),
{
    if colours.len() > 0 {
        let rest = colours.drop_last();
        let before = ranking(rest);
        let x = colours.last();
        assert forall|i: int| 0 <= i < rest.len() implies (#[trigger] rest[i]).wf() by {
            assert(rest[i] == colours[i]);
        }
        lemma_ranking_non_increasing(rest);
        lemma_ranking_shares(rest);
        lemma_rank_position(before, x);
        let pos = rank_position(before, x);
        let after = before.insert(pos, x);
        assert forall|i: int, j: int| 0 <= i < j < after.len() implies !(#[trigger] after[j]).outranks(
            #[trigger] after[i],
        ) by {
            if j < pos {
                assert(after[i] == before[i] && after[j] == before[j]);
            } else if j == pos {
                assert(after[i] == before[i]);
                assert(after[j] == x);
                if i < pos - 1 {
                    assert(!before[pos - 1].outranks(before[i]));
                    lemma_not_outranked_transitive(before[i], before[pos - 1], x);
                }
            } else if i < pos {
                assert(after[i] == before[i] && after[j] == before[j - 1]);
            } else if i == pos {
                assert(after[i] == x && after[j] == before[j - 1]);
                assert(x.outranks(before[j - 1]));
            } else {
                assert(after[i] == before[i - 1] && after[j] == before[j - 1]);
            }
        }
    }
}

/// The ranking is stable: the colours that have a given percentage stand in
/// it in the order in which they were given.
pub proof fn lemma_ranking_stable(colours: Seq<ColourInfo>, e: ColourInfo)
    requires
        all_shares(colours),
        e.wf(),
    ensures
        ranking(colours).filter(share_of(e)) == colours.filter(share_of(e)),
    decreases colours.len(),
{
    broadcast use Seq::lemma_filter_push, Seq::filter_distributes_over_add;

    let pred = share_of(e);
    if colours.len() == 0 {
        assert(ranking(colours) =~= colours);
    } else {
        let rest = colours.drop_last();
        let before = ranking(rest);
        let x = colours.last();
        assert forall|i: int| 0 <= i < rest.len() implies (#[trigger] rest[i]).wf() by {
            assert(rest[i] == colours[i]);
        }
        lemma_ranking_stable(rest, e);
        lemma_ranking_shares(rest);
        lemma_rank_position(before, x);
        let pos = rank_position(before, x);
        let head = before.subrange(0, pos);
        let tail = before.subrange(pos, before.len() as int);
        assert(before =~= head + tail);
        assert(before.insert(pos, x) =~= head.push(x) + tail);
        assert(rest.push(x) =~= colours);
        assert(colours.filter(pred) == if pred(x) {
            rest.filter(pred).push(x)
        } else {
            rest.filter(pred)
        });
        assert(before.filter(pred) == head.filter(pred) + tail.filter(pred));
        assert(before.insert(pos, x).filter(pred) == head.push(x).filter(pred) + tail.filter(pred));
        if pred(x) {
            assert forall|i: int| 0 <= i < tail.len() implies !pred(#[trigger] tail[i]) by {
                let y = tail[i];
                assert(y == before[pos + i]);
                assert(x.outranks(y));
                if y.same_share(e) {
                    lemma_same_share_transitive(x, e, y);
                }
            }
            tail.lemma_all_neg_filter_empty(pred);
            assert(tail.filter(pred) =~= Seq::<ColourInfo>::empty());
            assert(head.filter(pred) + tail.filter(pred) =~= head.filter(pred));
            assert(head.push(x).filter(pred) + tail.filter(pred) =~= head.filter(pred).push(x));
        }
    }
}

/// Ranking changes no count: the counts still add up to the same, and as many
/// colours as before have the share zero.
pub proof fn lemma_ranking_counts(colours: Seq<ColourInfo>)
    ensures
        counts_total(ranking(colours)) == counts_total(colours),
        zero_shares(ranking(colours)) == zero_shares(colours),
    decreases colours.len(),
{
    if colours.len() > 0 {
        let rest = colours.drop_last();
        let before = ranking(rest);
        lemma_ranking_counts(rest);
        lemma_rank_position(before, colours.last());
        lemma_counts_insert(before, rank_position(before, colours.last()), colours.last());
    }
}

proof fn lemma_counts_insert(colours: Seq<ColourInfo>, pos: int, x: ColourInfo)
    requires
        0 <= pos <= colours.len(),
    ensures
        counts_total(colours.insert(pos, x)) == counts_total(colours) + x.count,
        zero_shares(colours.insert(pos, x)) == zero_shares(colours) + if x.count == 0 {
            1nat
        } else {
            0nat
        },
    decreases colours.len(),
{
    let after = colours.insert(pos, x);
    if pos == colours.len() {
        assert(after =~= colours.push(x));
        assert(after.drop_last() =~= colours);
    } else {
        lemma_counts_insert(colours.drop_last(), pos, x);
        assert(after.drop_last() =~= colours.drop_last().insert(pos, x));
        assert(after.last() == colours.last());
    }
}

/// Orders the colours by percentage, the greatest first, and keeps colours of
/// equal percentage in the order in which they are given.
pub fn rank(colours: &Vec<ColourInfo>) -> (ranked: Vec<ColourInfo>)
    ensures
        ranked@ == ranking(colours@),
        ranked.len() == colours.len(),
{
    let mut ranked: Vec<ColourInfo> = Vec::new();
    let mut i: usize = 0;
    while i < colours.len()
        invariant
            i <= colours.len(),
            ranked.len() == i,
            ranked@ == ranking(colours@.take(i as int)),
        decreases colours.len() - i,
    {
        let x: ColourInfo = colours[i];
        let mut pos: usize = ranked.len();
        assert(ranked@.take(pos as int) =~= ranked@);
        while pos > 0 && x.ranks_above(&ranked[pos - 1])
            invariant
                pos <= ranked.len(),
                rank_position(ranked@, x) == rank_position(ranked@.take(pos as int), x),
            decreases pos,
        {
            proof {
                let upto = ranked@.take(pos as int);
                assert(upto.last() == ranked@[pos - 1]);
                assert(upto.drop_last() =~= ranked@.take(pos - 1));
            }
            pos -= 1;
        }
        proof {
            let upto = ranked@.take(pos as int);
            if pos > 0 {
                assert(upto.last() == ranked@[pos - 1]);
            }
            assert(rank_position(upto, x) == pos);
            let grown = colours@.take(i + 1);
            assert(grown.drop_last() =~= colours@.take(i as int));
            assert(grown.last() == x);
        }
        ranked.insert(pos, x);
        i += 1;
    }
    proof {
        assert(colours@.take(colours.len() as int) =~= colours@);
    }
    ranked
}

} // verus!
