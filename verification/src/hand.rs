//! A player's hand: a rank-sorted sequence of cards, reduced only by
//! committing a played throw.

use vstd::prelude::*;

use crate::card::{
    agg_cards, card_ranks, expand_agg, rank_ord, rank_value, sort_cards, sorted_by_rank,
    sorted_ranks, Card, Rank, Suit,
};
use crate::card_set::CardSet;

verus! {

/// Greedy forward match of the rank profile `ranks` against `hand`, both in
/// their own order: walk the hand once, consuming a hand card whenever its
/// rank equals the next wanted rank, and keep every other card. `Some`
/// holds the residual hand when every wanted rank was found in order;
/// `None` means the hand was exhausted first.
pub open spec fn remove_matched(hand: Seq<Card>, ranks: Seq<int>) -> Option<Seq<Card>>
    decreases hand.len(),
{
    if ranks.len() == 0 {
        Some(hand)
    } else if hand.len() == 0 {
        None
    } else if rank_ord(hand[0].rank) == ranks[0] {
        remove_matched(hand.drop_first(), ranks.drop_first())
    } else {
        match remove_matched(hand.drop_first(), ranks) {
            Some(rest) => Some(seq![hand[0]] + rest),
            None => None,
        }
    }
}

/// When removing the throw `s` from `hand` succeeds: every card of `s` is
/// matched in rank order, a base-3 throw must empty the hand, and a base-4
/// throw must leave no rank-4 card behind.
pub open spec fn subtract_ok(hand: Seq<Card>, s: Seq<Card>) -> bool {
    match remove_matched(hand, card_ranks(s)) {
        Some(rest) => {
            &&& (s[0].rank == Rank::_3 ==> rest.len() == 0)
            &&& (s[0].rank == Rank::_4 ==> forall|i: int|
                0 <= i < rest.len() ==> #[trigger] rest[i].rank != Rank::_4)
        },
        None => false,
    }
}

/// The residual hand after a successful removal of the throw `s`.
pub open spec fn subtract_result(hand: Seq<Card>, s: Seq<Card>) -> Seq<Card> {
    match remove_matched(hand, card_ranks(s)) {
        Some(rest) => rest,
        None => Seq::empty(),
    }
}

/// The residual of a greedy match keeps the hand's sort order.
proof fn lemma_remove_matched_sorted(hand: Seq<Card>, ranks: Seq<int>, rest: Seq<Card>)
    requires
        sorted_by_rank(hand),
        remove_matched(hand, ranks) == Some(rest),
    ensures
        sorted_by_rank(rest),
        rest.len() > 0 && hand.len() > 0 ==> rank_ord(hand[0].rank) <= rank_ord(rest[0].rank),
    decreases hand.len(),
{
    if ranks.len() == 0 {
        assert(rest == hand);
    } else if hand.len() == 0 {
    } else {
        let h1 = hand.drop_first();
        assert(sorted_by_rank(h1)) by {
            assert forall|a: int, b: int|
                0 <= a < b < h1.len() implies rank_ord(h1[a].rank) <= rank_ord(h1[b].rank) by {
                assert(h1[a] == hand[a + 1]);
                assert(h1[b] == hand[b + 1]);
            }
        }
        if rank_ord(hand[0].rank) == ranks[0] {
            lemma_remove_matched_sorted(h1, ranks.drop_first(), rest);
            if rest.len() > 0 && h1.len() > 0 {
                assert(h1[0] == hand[1]);
                assert(rank_ord(hand[0].rank) <= rank_ord(hand[1].rank));
            }
        } else {
            match remove_matched(h1, ranks) {
                Some(r1) => {
                    lemma_remove_matched_sorted(h1, ranks, r1);
                    assert(rest == seq![hand[0]] + r1);
                    assert(rest[0] == hand[0]);
                    assert forall|a: int, b: int|
                        0 <= a < b < rest.len() implies rank_ord(rest[a].rank) <= rank_ord(
                        rest[b].rank,
                    ) by {
                        assert(rest[b] == r1[b - 1]);
                        if a == 0 {
                            assert(h1[0] == hand[1]);
                            assert(rank_ord(hand[0].rank) <= rank_ord(h1[0].rank));
                            assert(rank_ord(h1[0].rank) <= rank_ord(r1[0].rank));
                            assert(rank_ord(r1[0].rank) <= rank_ord(r1[b - 1].rank));
                        } else {
                            assert(rest[a] == r1[a - 1]);
                        }
                    }
                },
                None => {
                    assert(false);
                },
            }
        }
    }
}

/// A player's held cards, kept sorted ascending by rank. Grows only by game
/// actions outside this engine; shrinks only through [`Hand::subtract`].
pub struct Hand(Vec<Card>);

impl View for Hand {
    type V = Seq<Card>;

    closed spec fn view(&self) -> Seq<Card> {
        self.0@
    }
}

impl Hand {
    /// A hand holding the given cards, sorted ascending by rank.
    pub fn new(cards: Vec<Card>) -> (h: Hand)
        ensures
            sorted_by_rank(h@),
            h@.to_multiset() == cards@.to_multiset(),
            card_ranks(h@) == sorted_ranks(cards@),
    {
        Hand(sort_cards(&cards))
    }

    /// A hand built from aggregated `(suit, rank, count)` entries.
    pub fn from_agg(agg: Vec<(Suit, Rank, i32)>) -> (h: Hand)
        ensures
            sorted_by_rank(h@),
            h@.to_multiset() == agg_cards(agg@).to_multiset(),
            card_ranks(h@) == sorted_ranks(agg_cards(agg@)),
    {
        Hand::new(expand_agg(&agg))
    }

    /// Commit a played throw: remove its cards from the hand in rank order
    /// and enforce the base-3 and base-4 residual rules. Returns whether the
    /// removal succeeded; a failing call leaves the hand untouched.
    pub fn subtract(&mut self, set: &CardSet) -> (r: bool)
        requires
            set.wf(),
        ensures
            r == subtract_ok(old(self)@, set@),
            r ==> final(self)@ == subtract_result(old(self)@, set@),
            !r ==> final(self)@ == old(self)@,
            sorted_by_rank(old(self)@) ==> sorted_by_rank(final(self)@),
    {
        let ghost hand0 = self@;
        let ghost ranks = card_ranks(set@);
        let sc = set.cards();
        let n = self.0.len();
        let m = sc.len();
        let mut remain: Vec<Card> = Vec::new();
        let mut i: usize = 0;
        let mut j: usize = 0;
        proof {
            assert(hand0.skip(0) =~= hand0);
            assert(ranks.skip(0) =~= ranks);
            match remove_matched(hand0, ranks) {
                Some(rest) => {
                    assert(Seq::<Card>::empty() + rest =~= rest);
                },
                None => {},
            }
        }
        while i < n
            invariant
                i <= n,
                j <= m,
                n == hand0.len(),
                m == set@.len(),
                m == ranks.len(),
                sc@ == set@,
                self@ == hand0,
                hand0 == old(self)@,
                ranks == card_ranks(set@),
                match remove_matched(hand0.skip(i as int), ranks.skip(j as int)) {
                    Some(rest) => remove_matched(hand0, ranks) == Some(remain@ + rest),
                    None => remove_matched(hand0, ranks) is None,
                },
            decreases n - i,
        {
            let ghost hi = hand0.skip(i as int);
            let ghost rj = ranks.skip(j as int);
            proof {
                assert(hi.len() == n - i);
                assert(hi[0] == hand0[i as int]);
                assert(hi.drop_first() =~= hand0.skip(i as int + 1));
                if j < m {
                    assert(rj[0] == ranks[j as int]);
                    assert(rj.drop_first() =~= ranks.skip(j as int + 1));
                }
            }
            if j < m && rank_value(self.0[i].rank) == rank_value(sc[j].rank) {
                proof {
                    assert(rank_ord(hi[0].rank) == rj[0]);
                    assert(remove_matched(hi, rj) == remove_matched(
                        hand0.skip(i as int + 1),
                        ranks.skip(j as int + 1),
                    ));
                }
                j += 1;
            } else {
                let ghost rb = remain@;
                remain.push(self.0[i]);
                proof {
                    assert(remain@ =~= rb.push(hand0[i as int]));
                    if j == m {
                        assert(rj.len() == 0);
                        assert(remove_matched(hi, rj) == Some(hi));
                        assert(remove_matched(hand0.skip(i as int + 1), ranks.skip(j as int))
                            == Some(hand0.skip(i as int + 1)));
                        assert(rb + hi =~= remain@ + hand0.skip(i as int + 1));
                    } else {
                        assert(rank_ord(hi[0].rank) != rj[0]);
                        match remove_matched(hand0.skip(i as int + 1), ranks.skip(j as int)) {
                            Some(rest2) => {
                                assert(remove_matched(hi, rj) == Some(seq![hi[0]] + rest2));
                                assert(rb + (seq![hi[0]] + rest2) =~= remain@ + rest2);
                            },
                            None => {
                                assert(remove_matched(hi, rj) is None);
                            },
                        }
                    }
                }
            }
            i += 1;
        }
        proof {
            assert(hand0.skip(n as int).len() == 0);
        }
        if j < m {
            proof {
                assert(ranks.skip(j as int).len() > 0);
                assert(remove_matched(hand0.skip(n as int), ranks.skip(j as int)) is None);
            }
            return false;
        }
        proof {
            assert(ranks.skip(j as int).len() == 0);
            assert(remove_matched(hand0.skip(n as int), ranks.skip(j as int)) == Some(
                hand0.skip(n as int),
            ));
            assert(remain@ + hand0.skip(n as int) =~= remain@);
            assert(remove_matched(hand0, ranks) == Some(remain@));
        }
        let b0 = sc[0];
        if b0.rank == Rank::_3 && remain.len() > 0 {
            return false;
        }
        if b0.rank == Rank::_4 {
            let mut t: usize = 0;
            let rl = remain.len();
            while t < rl
                invariant
                    t <= rl,
                    rl == remain@.len(),
                    self@ == hand0,
                    hand0 == old(self)@,
                    ranks == card_ranks(set@),
                    set@[0].rank == Rank::_4,
                    remove_matched(hand0, ranks) == Some(remain@),
                    forall|k: int| 0 <= k < t ==> #[trigger] remain@[k].rank != Rank::_4,
                decreases rl - t,
            {
                if remain[t].rank == Rank::_4 {
                    return false;
                }
                t += 1;
            }
        }
        proof {
            if sorted_by_rank(hand0) {
                lemma_remove_matched_sorted(hand0, ranks, remain@);
            }
        }
        self.0 = remain;
        true
    }

    /// The hand's cards, in their held (sorted) order.
    pub fn to_vec(self) -> (r: Vec<Card>)
        ensures
            r@ == self@,
    {
        self.0
    }
}

} // verus!
