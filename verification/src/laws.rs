//! Engine-wide laws, stated and proved over the public specifications.

use vstd::prelude::*;

use crate::card::{
    card_ranks, lemma_sorted_ranks_eq, rank_ord, sorted_ranks, Card, Rank,
};
use crate::card_set::{
    base_ord, beats, dominates_prefix, legal_ranks, recolor_card, recolored_cards,
    recolored_ranks, CardSet,
};

verus! {

broadcast use crate::card::lemma_rank_ord_bij, crate::card::lemma_ord_rank_inv;

/// Law of validation idempotence: feeding the cards of a validated throw
/// back into validation succeeds and changes nothing. The cards are already
/// sorted, so their sorted rank profile is the profile they carry; that
/// profile is legal; and recoloring finds no wildcard left to rewrite.
/// Together with the contract of `CardSet::new`, the throw built from the
/// cards of `cs` carries the same rank profile and the same card multiset
/// as `cs` itself.
pub proof fn lemma_validation_idempotent(cs: CardSet)
    requires
        cs.wf(),
    ensures
        legal_ranks(sorted_ranks(cs@)),
        sorted_ranks(cs@) == card_ranks(cs@),
        recolored_ranks(sorted_ranks(cs@)) == card_ranks(cs@),
        recolored_cards(cs@).to_multiset() == cs@.to_multiset(),
{
    lemma_sorted_ranks_eq(cs@, cs@);
    let sr = card_ranks(cs@);
    assert(sr[0] == base_ord(cs@));
    assert(legal_ranks(sr)) by {
        if sr[0] == rank_ord(Rank::_3) || sr[0] == rank_ord(Rank::_4) {
            assert(rank_ord(cs@[cs@.len() - 1].rank) == base_ord(cs@));
            assert(sr.last() == base_ord(cs@));
        }
        assert forall|i: int| 0 <= i < sr.len() implies #[trigger] sr[i] == sr[0] || sr[i]
            >= rank_ord(Rank::_2) by {
            assert(rank_ord(cs@[i].rank) == base_ord(cs@) || rank_ord(cs@[i].rank) >= rank_ord(
                Rank::_2,
            ));
        }
    }
    assert(recolored_ranks(sr) =~= sr) by {
        if sr.len() > 0 && sr[0] < rank_ord(Rank::_2) {
            assert forall|i: int| 0 <= i < sr.len() implies recolored_ranks(sr)[i] == sr[i] by {
                assert(rank_ord(cs@[i].rank) != rank_ord(Rank::_2));
                assert(sr[i] == rank_ord(cs@[i].rank));
            }
        }
    }
    assert(recolored_cards(cs@) =~= cs@) by {
        assert forall|i: int| 0 <= i < cs@.len() implies recolored_cards(cs@)[i] == cs@[i] by {
            assert(recolored_cards(cs@)[i] == recolor_card(cs@[i], sorted_ranks(cs@)[0]));
            if rank_ord(cs@[i].rank) == rank_ord(Rank::_2) && base_ord(cs@) < rank_ord(Rank::_2) {
                assert(false);
            }
        }
    }
}

/// Law of the rank invariant: in a validated throw every card carries the
/// base effective rank, except jokers, which may ride on top of any group.
pub proof fn lemma_uniform_effective_rank(cs: CardSet)
    requires
        cs.wf(),
    ensures
        forall|i: int|
            0 <= i < cs@.len() ==> #[trigger] rank_ord(cs@[i].rank) == base_ord(cs@) || rank_ord(
                cs@[i].rank,
            ) >= rank_ord(Rank::_BJK),
{
    assert forall|i: int|
        0 <= i < cs@.len() implies #[trigger] rank_ord(cs@[i].rank) == base_ord(cs@) || rank_ord(
        cs@[i].rank,
    ) >= rank_ord(Rank::_BJK) by {
        if rank_ord(cs@[i].rank) == rank_ord(Rank::_2) {
            if base_ord(cs@) < rank_ord(Rank::_2) {
                assert(false);
            }
            if i > 0 {
                assert(rank_ord(cs@[0].rank) <= rank_ord(cs@[i].rank));
            }
            assert(base_ord(cs@) == rank_ord(Rank::_2));
        }
    }
}

/// Law of the joker overflow: a throw exactly one card longer than its
/// opponent beats it only when the opponent ends in a red joker, the longer
/// throw ends in two red jokers, and the leading positions strictly
/// dominate; whenever the leading positions fail to dominate, the
/// comparison fails even with the overflow jokers present.
pub proof fn lemma_joker_overflow(a: Seq<Card>, b: Seq<Card>)
    requires
        a.len() == b.len() + 1,
    ensures
        beats(a, b) <==> {
            &&& b.last().rank == Rank::_RJK
            &&& a.last().rank == Rank::_RJK
            &&& a[a.len() - 2].rank == Rank::_RJK
            &&& dominates_prefix(a, b, a.len() - 2)
        },
{
}

/// Law of 3/4 exclusivity: a selection whose lowest raw rank is a 3 or a 4
/// and which also holds a card above the ace is never a legal throw, in
/// whatever order the cards are supplied. `low` and `high` point at two
/// witnessing cards.
pub proof fn lemma_low_base_excludes_high(cards: Seq<Card>, low: int, high: int)
    requires
        0 <= low < cards.len(),
        0 <= high < cards.len(),
        rank_ord(cards[low].rank) <= rank_ord(Rank::_4),
        rank_ord(cards[high].rank) > rank_ord(Rank::_A),
    ensures
        !legal_ranks(sorted_ranks(cards)),
{
    broadcast use vstd::seq_lib::group_to_multiset_ensures;

    let cr = card_ranks(cards);
    cr.lemma_sort_ensures();
    let sr = cr.sort();
    assert(sr.to_multiset().len() == sr.len());
    assert(cr.to_multiset().len() == cr.len());
    assert(sr.len() == cards.len());
    assert(cr[low] == rank_ord(cards[low].rank));
    assert(cr[high] == rank_ord(cards[high].rank));
    assert(cr.contains(cr[low]));
    assert(cr.contains(cr[high]));
    assert(cr.to_multiset().count(cr[low]) > 0);
    assert(cr.to_multiset().count(cr[high]) > 0);
    assert(sr.to_multiset().count(cr[low]) > 0);
    assert(sr.to_multiset().count(cr[high]) > 0);
    assert(sr.contains(cr[low]));
    assert(sr.contains(cr[high]));
    let li = choose|t: int| 0 <= t < sr.len() && sr[t] == cr[low];
    let hi = choose|t: int| 0 <= t < sr.len() && sr[t] == cr[high];
    let leq = |x: int, y: int| x <= y;
    assert(vstd::relations::sorted_by(sr, leq)) by {
        assert forall|i: int, j: int| 0 <= i < j < sr.len() implies #[trigger] leq(
            sr[i],
            sr[j],
        ) by {
            assert(vstd::relations::sorted_by(sr, |x: int, y: int| x <= y));
        }
    }
    if li > 0 {
        assert(leq(sr[0], sr[li]));
    }
    assert(sr[0] <= rank_ord(Rank::_4));
    if hi < sr.len() - 1 {
        assert(leq(sr[hi], sr[sr.len() - 1]));
    }
    assert(sr.last() > rank_ord(Rank::_A));
    assert(sr.contains(sr[0]));
    assert(sr.to_multiset().count(sr[0]) > 0);
    assert(cr.to_multiset().count(sr[0]) > 0);
    assert(cr.contains(sr[0]));
    let zi = choose|t: int| 0 <= t < cr.len() && cr[t] == sr[0];
    assert(sr[0] == rank_ord(cards[zi].rank));
    assert(sr[0] == rank_ord(Rank::_3) || sr[0] == rank_ord(Rank::_4));
    assert(!legal_ranks(sr));
}

} // verus!
