//! Validated throws: construction with wildcard normalization, bomb
//! classification, and the beats-comparison between two throws.

use vstd::prelude::*;

use crate::card::{
    agg_cards, card_ranks, expand_agg, lemma_map_values_to_multiset, ord_rank, rank_ord,
    rank_value, sort_cards, sorted_by_rank, sorted_ranks, Card, Rank, Suit,
};

verus! {

broadcast use crate::card::lemma_rank_ord_bij, crate::card::lemma_ord_rank_inv;

/// A sorted rank profile is a legal throw when it is non-empty, a base of
/// 3 or 4 excludes every rank above the ace, and every rank present is
/// either the base rank itself or at least the wildcard (a wildcard is
/// recolored down to the base; jokers may top any group).
pub open spec fn legal_ranks(sr: Seq<int>) -> bool {
    &&& sr.len() > 0
    &&& !((sr[0] == rank_ord(Rank::_3) || sr[0] == rank_ord(Rank::_4)) && sr.last() > rank_ord(
        Rank::_A,
    ))
    &&& forall|i: int| 0 <= i < sr.len() ==> #[trigger] sr[i] == sr[0] || sr[i] >= rank_ord(
        Rank::_2,
    )
}

/// Wildcard normalization of a sorted rank profile: when the base rank is
/// below the wildcard, every wildcard is recolored down to the base rank;
/// otherwise nothing changes.
pub open spec fn recolored_ranks(sr: Seq<int>) -> Seq<int> {
    if sr.len() > 0 && sr[0] < rank_ord(Rank::_2) {
        sr.map_values(
            |x: int|
                if x == rank_ord(Rank::_2) {
                    sr[0]
                } else {
                    x
                },
        )
    } else {
        sr
    }
}

/// One card after wildcard recoloring against the base ordinal `base`:
/// a wildcard takes the base rank, every other card is unchanged.
pub open spec fn recolor_card(c: Card, base: int) -> Card {
    if rank_ord(c.rank) == rank_ord(Rank::_2) && base < rank_ord(Rank::_2) {
        Card { suit: c.suit, rank: ord_rank(base) }
    } else {
        c
    }
}

/// A raw selection with every wildcard recolored against the selection's own
/// lowest rank.
pub open spec fn recolored_cards(s: Seq<Card>) -> Seq<Card> {
    s.map_values(|c: Card| recolor_card(c, sorted_ranks(s)[0]))
}

/// The base ordinal of a sorted card sequence: the ordinal of its first,
/// lowest card.
pub open spec fn base_ord(s: Seq<Card>) -> int {
    rank_ord(s[0].rank)
}

/// Shape of the card sequence inside a validated throw: non-empty, sorted
/// ascending, every rank equal to the base or at least the wildcard, a base
/// of 3 or 4 entirely uniform, and no wildcard left unrecolored when the
/// base sits below the wildcard.
pub open spec fn normalized(s: Seq<Card>) -> bool {
    &&& s.len() > 0
    &&& sorted_by_rank(s)
    &&& forall|i: int|
        0 <= i < s.len() ==> #[trigger] rank_ord(s[i].rank) == base_ord(s) || rank_ord(s[i].rank)
            >= rank_ord(Rank::_2)
    &&& (base_ord(s) <= rank_ord(Rank::_4) ==> forall|i: int|
        0 <= i < s.len() ==> #[trigger] rank_ord(s[i].rank) == base_ord(s))
    &&& (base_ord(s) < rank_ord(Rank::_2) ==> forall|i: int|
        0 <= i < s.len() ==> #[trigger] rank_ord(s[i].rank) != rank_ord(Rank::_2))
}

/// Bomb classification of a normalized throw, decided by its base rank and
/// size: a lone red joker never, a black joker or a wildcard group always,
/// aces and kings from two cards, queens from three, jacks from four, tens
/// from five, and any lower group only when a black joker rides on top.
pub open spec fn is_bomb(s: Seq<Card>) -> bool {
    match s[0].rank {
        Rank::_RJK => false,
        Rank::_BJK => true,
        Rank::_2 => true,
        Rank::_A | Rank::_K => s.len() > 1,
        Rank::_Q => s.len() > 2,
        Rank::_J => s.len() > 3,
        Rank::_10 => s.len() > 4,
        _ => exists|i: int| 0 <= i < s.len() && #[trigger] s[i].rank == Rank::_BJK,
    }
}

/// Strict elementwise rank domination over the first `n` positions.
pub open spec fn dominates_prefix(a: Seq<Card>, b: Seq<Card>, n: int) -> bool {
    forall|i: int| 0 <= i < n ==> rank_ord(a[i].rank) > rank_ord(b[i].rank)
}

/// When the throw `a` beats the throw `b`: either the same size with every
/// position strictly dominating, or exactly one card longer under the joker
/// overflow rule, where `b` ends in a red joker, `a` ends in two red jokers,
/// and the leading positions strictly dominate. Any other size relation
/// never beats.
pub open spec fn beats(a: Seq<Card>, b: Seq<Card>) -> bool {
    if a.len() == b.len() {
        dominates_prefix(a, b, a.len() as int)
    } else if a.len() == b.len() + 1 {
        &&& b.last().rank == Rank::_RJK
        &&& a.last().rank == Rank::_RJK
        &&& a[a.len() - 2].rank == Rank::_RJK
        &&& dominates_prefix(a, b, a.len() - 2)
    } else {
        false
    }
}

/// An immutable, validated throw: one legal play of cards, held sorted
/// ascending by effective rank with every wildcard already recolored.
pub struct CardSet(Vec<Card>);

impl View for CardSet {
    type V = Seq<Card>;

    closed spec fn view(&self) -> Seq<Card> {
        self.0@
    }
}

impl CardSet {
    /// Invariant of every constructed throw.
    pub open spec fn wf(&self) -> bool {
        normalized(self@)
    }

    /// Borrow the normalized, rank-sorted cards of the throw.
    pub fn cards(&self) -> (r: &Vec<Card>)
        ensures
            r@ == self@,
    {
        &self.0
    }

    /// Validate and normalize a raw selection into a throw.
    ///
    /// Fails exactly when the selection is empty or its sorted rank profile
    /// is not legal; otherwise the cards come back sorted ascending with
    /// every wildcard recolored to the base rank.
    pub fn new(cards: &Vec<Card>) -> (r: Option<CardSet>)
        ensures
            r is Some <==> legal_ranks(sorted_ranks(cards@)),
            r matches Some(cs) ==> {
                &&& cs.wf()
                &&& cs@.len() == cards@.len()
                &&& card_ranks(cs@) == recolored_ranks(sorted_ranks(cards@))
                &&& cs@.to_multiset() == recolored_cards(cards@).to_multiset()
            },
    {
        broadcast use vstd::seq_lib::group_to_multiset_ensures;

        if cards.len() == 0 {
            proof {
                let cr = card_ranks(cards@);
                cr.lemma_sort_ensures();
                assert(cr.len() == 0);
                assert(cr.to_multiset().len() == cr.len());
                assert(cr.sort().to_multiset().len() == cr.sort().len());
                assert(sorted_ranks(cards@).len() == 0);
            }
            return None;
        }
        let mut v = sort_cards(cards);
        let ghost sv = v@;
        let ghost sr = card_ranks(sv);
        let base = rank_value(v[0].rank);
        let last = rank_value(v[v.len() - 1].rank);
        if (base == 0 || base == 1) && last > 11 {
            proof {
                assert(sr[0] == base as int);
                assert(sr.last() == last as int);
                assert(!legal_ranks(sr));
            }
            return None;
        }
        let mut i: usize = 1;
        while i < v.len()
            invariant
                1 <= i <= sv.len(),
                v@.len() == sv.len(),
                sv.len() > 0,
                sorted_by_rank(sv),
                sr == card_ranks(sv),
                sr == sorted_ranks(cards@),
                base as int == rank_ord(sv[0].rank),
                !((base == 0 || base == 1) && rank_ord(sv[sv.len() - 1].rank) > 11),
                forall|k: int| i <= k < sv.len() ==> #[trigger] v@[k] == sv[k],
                forall|k: int| 0 <= k < i ==> #[trigger] v@[k] == recolor_card(sv[k], base as int),
                forall|k: int|
                    0 <= k < i ==> #[trigger] rank_ord(sv[k].rank) == base as int || rank_ord(
                        sv[k].rank,
                    ) >= 12,
            decreases sv.len() - i,
        {
            let pc = v[i - 1];
            let cc = v[i];
            let cur = rank_value(cc.rank);
            if cc.rank != pc.rank {
                if cur < 12 {
                    proof {
                        assert(cc == sv[i as int]);
                        assert(pc == recolor_card(sv[i - 1], base as int));
                        if cur as int == base as int {
                            assert(rank_ord(sv[0].rank) <= rank_ord(sv[i - 1].rank));
                            assert(rank_ord(sv[i - 1].rank) <= rank_ord(sv[i as int].rank));
                            assert(rank_ord(sv[i - 1].rank) == base as int);
                            assert(pc == sv[i - 1]);
                            assert(rank_ord(pc.rank) == rank_ord(cc.rank));
                            assert(pc.rank == cc.rank);
                            assert(false);
                        }
                        assert(sr[i as int] == rank_ord(sv[i as int].rank));
                        assert(sr[0] == base as int);
                        assert(!(sr[i as int] == sr[0] || sr[i as int] >= rank_ord(Rank::_2)));
                        assert(!legal_ranks(sr));
                    }
                    return None;
                }
                if cur == 12 {
                    v.set(i, Card { suit: cc.suit, rank: pc.rank });
                    proof {
                        assert(cc == sv[i as int]);
                        assert(cc.rank == Rank::_2);
                        assert(pc == recolor_card(sv[i - 1], base as int));
                        if sv[i - 1].rank == Rank::_2 && (base as int) < 12 {
                            assert(pc.rank == ord_rank(base as int));
                            assert(rank_ord(pc.rank) == base as int);
                        } else {
                            assert(pc == sv[i - 1]);
                            assert(rank_ord(pc.rank) == base as int || rank_ord(pc.rank) >= 12);
                            if rank_ord(pc.rank) >= 12 {
                                assert(rank_ord(sv[i - 1].rank) <= rank_ord(sv[i as int].rank));
                                assert(rank_ord(pc.rank) == 12);
                                assert(pc.rank == Rank::_2);
                                assert(base as int == 12);
                                assert(false);
                            }
                            assert(rank_ord(pc.rank) == base as int);
                            assert((base as int) < 12);
                            assert(pc.rank == ord_rank(base as int));
                        }
                        assert(v@[i as int] == recolor_card(sv[i as int], base as int));
                    }
                }
            } else {
                proof {
                    assert(cc == sv[i as int]);
                    assert(pc == recolor_card(sv[i - 1], base as int));
                    if cc.rank == Rank::_2 {
                        if (base as int) < 12 {
                            if sv[i - 1].rank == Rank::_2 {
                                assert(pc.rank == ord_rank(base as int));
                                assert(rank_ord(pc.rank) == base as int);
                                assert(rank_ord(pc.rank) < 12);
                                assert(false);
                            } else {
                                assert(pc == sv[i - 1]);
                                assert(rank_ord(pc.rank) == 12);
                                assert(pc.rank == Rank::_2);
                                assert(false);
                            }
                        }
                        assert(v@[i as int] == recolor_card(sv[i as int], base as int));
                    } else {
                        assert(v@[i as int] == recolor_card(sv[i as int], base as int));
                    }
                    if pc == sv[i - 1] {
                        assert(rank_ord(sv[i as int].rank) == rank_ord(sv[i - 1].rank));
                    } else {
                        assert(sv[i - 1].rank == Rank::_2 && (base as int) < 12);
                        assert(rank_ord(cc.rank) == base as int);
                    }
                }
            }
            i += 1;
        }
        proof {
            assert forall|k: int| 0 <= k < sv.len() implies #[trigger] rank_ord(v@[k].rank) == (
            if rank_ord(sv[k].rank) == 12 && (base as int) < 12 {
                base as int
            } else {
                rank_ord(sv[k].rank)
            }) by {
                assert(v@[k] == recolor_card(sv[k], base as int));
            }
            assert(legal_ranks(sr)) by {
                assert(sr.len() > 0);
                assert(sr[0] == base as int);
                assert(sr.last() == rank_ord(sv[sv.len() - 1].rank));
                assert forall|k: int| 0 <= k < sr.len() implies #[trigger] sr[k] == sr[0] || sr[k]
                    >= rank_ord(Rank::_2) by {
                    assert(rank_ord(sv[k].rank) == base as int || rank_ord(sv[k].rank) >= 12);
                }
            }
            assert(normalized(v@)) by {
                assert(v@.len() > 0);
                assert(rank_ord(v@[0].rank) == base as int);
                assert(base_ord(v@) == base as int);
                assert forall|a: int, b: int|
                    0 <= a < b < v@.len() implies rank_ord(v@[a].rank) <= rank_ord(v@[b].rank) by {
                    assert(rank_ord(sv[0].rank) <= rank_ord(sv[a].rank));
                    assert(rank_ord(sv[a].rank) <= rank_ord(sv[b].rank));
                    if rank_ord(sv[b].rank) == 12 && (base as int) < 12 {
                        if rank_ord(sv[a].rank) < 12 {
                            assert(rank_ord(sv[a].rank) == base as int);
                        }
                    }
                }
                assert forall|k: int|
                    0 <= k < v@.len() implies #[trigger] rank_ord(v@[k].rank) == base_ord(v@)
                    || rank_ord(v@[k].rank) >= rank_ord(Rank::_2) by {
                    assert(rank_ord(sv[k].rank) == base as int || rank_ord(sv[k].rank) >= 12);
                }
                if base_ord(v@) <= rank_ord(Rank::_4) {
                    assert forall|k: int|
                        0 <= k < v@.len() implies #[trigger] rank_ord(v@[k].rank) == base_ord(
                        v@,
                    ) by {
                        assert(rank_ord(sv[sv.len() - 1].rank) <= 11);
                        assert(rank_ord(sv[k].rank) <= rank_ord(sv[sv.len() - 1].rank));
                        assert(rank_ord(sv[k].rank) == base as int);
                    }
                }
                if base_ord(v@) < rank_ord(Rank::_2) {
                    assert forall|k: int|
                        0 <= k < v@.len() implies #[trigger] rank_ord(v@[k].rank) != rank_ord(
                        Rank::_2,
                    ) by {
                        assert(rank_ord(v@[k].rank) == (if rank_ord(sv[k].rank) == 12 && (
                        base as int) < 12 {
                            base as int
                        } else {
                            rank_ord(sv[k].rank)
                        }));
                    }
                }
            }
            assert(card_ranks(v@) =~= recolored_ranks(sr)) by {
                if (base as int) < 12 {
                    assert(sr[0] == base as int);
                    assert forall|k: int|
                        0 <= k < v@.len() implies card_ranks(v@)[k] == recolored_ranks(sr)[k] by {
                        assert(rank_ord(v@[k].rank) == (if rank_ord(sv[k].rank) == 12 && (
                        base as int) < 12 {
                            base as int
                        } else {
                            rank_ord(sv[k].rank)
                        }));
                        assert(sr[k] == rank_ord(sv[k].rank));
                    }
                } else {
                    assert forall|k: int|
                        0 <= k < v@.len() implies card_ranks(v@)[k] == recolored_ranks(sr)[k] by {
                        assert(v@[k] == recolor_card(sv[k], base as int));
                    }
                }
            }
            let f = |c: Card| recolor_card(c, base as int);
            assert(v@ =~= sv.map_values(f)) by {
                assert forall|k: int| 0 <= k < sv.len() implies v@[k] == sv.map_values(f)[k] by {
                    assert(v@[k] == recolor_card(sv[k], base as int));
                }
            }
            lemma_map_values_to_multiset(sv, cards@, f);
            assert(cards@.map_values(f) =~= recolored_cards(cards@)) by {
                assert(sorted_ranks(cards@)[0] == base as int);
                assert forall|k: int|
                    0 <= k < cards@.len() implies cards@.map_values(f)[k] == recolored_cards(
                    cards@,
                )[k] by {
                    assert(cards@.map_values(f)[k] == recolor_card(cards@[k], base as int));
                    assert(recolored_cards(cards@)[k] == recolor_card(
                        cards@[k],
                        sorted_ranks(cards@)[0],
                    ));
                }
            }
            assert(v@.to_multiset() == recolored_cards(cards@).to_multiset());
        }
        Some(CardSet(v))
    }

    /// Validate and normalize a selection given as aggregated
    /// `(suit, rank, count)` entries; behaves exactly as [`CardSet::new`] on
    /// the expanded cards.
    pub fn from_agg(agg: &Vec<(Suit, Rank, i32)>) -> (r: Option<CardSet>)
        ensures
            r is Some <==> legal_ranks(sorted_ranks(agg_cards(agg@))),
            r matches Some(cs) ==> {
                &&& cs.wf()
                &&& cs@.len() == agg_cards(agg@).len()
                &&& card_ranks(cs@) == recolored_ranks(sorted_ranks(agg_cards(agg@)))
                &&& cs@.to_multiset() == recolored_cards(agg_cards(agg@)).to_multiset()
            },
    {
        let cards = expand_agg(agg);
        CardSet::new(&cards)
    }

    /// Bomb classification of this throw.
    pub fn is_gouji(&self) -> (r: bool)
        requires
            self.wf(),
        ensures
            r == is_bomb(self@),
    {
        match self.0[0].rank {
            Rank::_RJK => false,
            Rank::_BJK => true,
            Rank::_2 => true,
            Rank::_A | Rank::_K => self.0.len() > 1,
            Rank::_Q => self.0.len() > 2,
            Rank::_J => self.0.len() > 3,
            Rank::_10 => self.0.len() > 4,
            _ => {
                let mut found = false;
                let mut i: usize = 0;
                while i < self.0.len()
                    invariant
                        i <= self@.len(),
                        found == exists|k: int|
                            0 <= k < i && #[trigger] self@[k].rank == Rank::_BJK,
                    decreases self@.len() - i,
                {
                    if self.0[i].rank == Rank::_BJK {
                        found = true;
                    }
                    i += 1;
                }
                found
            },
        }
    }

    /// Whether this throw legally beats the throw `other`.
    pub fn is_greater_than(&self, other: &CardSet) -> (r: bool)
        requires
            self.wf(),
            other.wf(),
        ensures
            r == beats(self@, other@),
    {
        let n = self.0.len();
        let m = other.0.len();
        if n == m {
            let mut i: usize = 0;
            while i < n
                invariant
                    i <= n,
                    n == self@.len(),
                    n == other@.len(),
                    forall|k: int|
                        0 <= k < i ==> rank_ord(#[trigger] self@[k].rank) > rank_ord(
                            other@[k].rank,
                        ),
                decreases n - i,
            {
                if rank_value(self.0[i].rank) <= rank_value(other.0[i].rank) {
                    return false;
                }
                i += 1;
            }
            true
        } else if m < n && n - m == 1 {
            if other.0[m - 1].rank != Rank::_RJK {
                return false;
            }
            if self.0[n - 1].rank != Rank::_RJK || self.0[n - 2].rank != Rank::_RJK {
                return false;
            }
            let mut i: usize = 0;
            while i < n - 2
                invariant
                    i <= n - 2,
                    2 <= n,
                    n == self@.len(),
                    n == other@.len() + 1,
                    forall|k: int|
                        0 <= k < i ==> rank_ord(#[trigger] self@[k].rank) > rank_ord(
                            other@[k].rank,
                        ),
                decreases n - 2 - i,
            {
                if rank_value(self.0[i].rank) <= rank_value(other.0[i].rank) {
                    return false;
                }
                i += 1;
            }
            true
        } else {
            false
        }
    }
}

} // verus!
