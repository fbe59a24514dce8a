//! Card primitives: suits, the game's rank order, single cards, and the
//! sorting and counting helpers that the rest of the engine builds on.

use vstd::prelude::*;

verus! {

/// The four playable suits, plus `NoSuit` for the jokers, which carry no
/// suit.
///
/// Suit never affects legality or strength; it exists only for card identity
/// and display.
#[derive(Clone, Copy, PartialEq, Eq, Structural)]
pub enum Suit {
    NoSuit,
    Club,
    Diamonds,
    Heart,
    Spade,
}

/// Card ranks in ascending strength.
///
/// The order departs from everyday card ranking: `_2` outranks `_A`, both
/// jokers outrank every numbered or face card, and `_RJK` (the red joker) is
/// the strongest single card. `_2` doubles as the wildcard that may be
/// recolored into a uniform group of any base rank above `_4`.
#[derive(Clone, Copy, PartialEq, Eq, Structural)]
pub enum Rank {
    _3,
    _4,
    _5,
    _6,
    _7,
    _8,
    _9,
    _10,
    _J,
    _Q,
    _K,
    _A,
    _2,
    _BJK,
    _RJK,
}

/// Ordinal position of a rank in the strength order: `_3` is lowest at 0,
/// `_RJK` highest at 14. Every comparison of strength goes through this
/// ordinal, never through face value.
pub open spec fn rank_ord(r: Rank) -> int {
    match r {
        Rank::_3 => 0,
        Rank::_4 => 1,
        Rank::_5 => 2,
        Rank::_6 => 3,
        Rank::_7 => 4,
        Rank::_8 => 5,
        Rank::_9 => 6,
        Rank::_10 => 7,
        Rank::_J => 8,
        Rank::_Q => 9,
        Rank::_K => 10,
        Rank::_A => 11,
        Rank::_2 => 12,
        Rank::_BJK => 13,
        Rank::_RJK => 14,
    }
}

/// The rank whose ordinal is `n`, for `0 <= n <= 14`.
pub open spec fn ord_rank(n: int) -> Rank {
    if n == 0 {
        Rank::_3
    } else if n == 1 {
        Rank::_4
    } else if n == 2 {
        Rank::_5
    } else if n == 3 {
        Rank::_6
    } else if n == 4 {
        Rank::_7
    } else if n == 5 {
        Rank::_8
    } else if n == 6 {
        Rank::_9
    } else if n == 7 {
        Rank::_10
    } else if n == 8 {
        Rank::_J
    } else if n == 9 {
        Rank::_Q
    } else if n == 10 {
        Rank::_K
    } else if n == 11 {
        Rank::_A
    } else if n == 12 {
        Rank::_2
    } else if n == 13 {
        Rank::_BJK
    } else {
        Rank::_RJK
    }
}

/// `rank_ord` is a bijection onto `0..=14` with inverse `ord_rank`.
pub broadcast proof fn lemma_rank_ord_bij(r: Rank)
    ensures
        0 <= #[trigger] rank_ord(r) <= 14,
        ord_rank(rank_ord(r)) == r,
{
    match r {
        Rank::_3 => {},
        Rank::_4 => {},
        Rank::_5 => {},
        Rank::_6 => {},
        Rank::_7 => {},
        Rank::_8 => {},
        Rank::_9 => {},
        Rank::_10 => {},
        Rank::_J => {},
        Rank::_Q => {},
        Rank::_K => {},
        Rank::_A => {},
        Rank::_2 => {},
        Rank::_BJK => {},
        Rank::_RJK => {},
    }
}

/// `ord_rank` is the inverse of `rank_ord` on `0..=14`.
pub broadcast proof fn lemma_ord_rank_inv(n: int)
    requires
        0 <= n <= 14,
    ensures
        rank_ord(#[trigger] ord_rank(n)) == n,
{
}

/// Ordinal of a rank as a machine integer, for executable comparisons.
pub fn rank_value(r: Rank) -> (v: u8)
    ensures
        v as int == rank_ord(r),
{
    match r {
        Rank::_3 => 0,
        Rank::_4 => 1,
        Rank::_5 => 2,
        Rank::_6 => 3,
        Rank::_7 => 4,
        Rank::_8 => 5,
        Rank::_9 => 6,
        Rank::_10 => 7,
        Rank::_J => 8,
        Rank::_Q => 9,
        Rank::_K => 10,
        Rank::_A => 11,
        Rank::_2 => 12,
        Rank::_BJK => 13,
        Rank::_RJK => 14,
    }
}

/// A playing card: a suit for identity and a rank for strength.
///
/// Equality (`==` in executable code) is rank-only: two cards of the same
/// rank but different suits are interchangeable wherever legality or
/// strength is decided, though they stay distinct values when a hand is
/// counted or reduced.
#[derive(Clone, Copy)]
pub struct Card {
    pub suit: Suit,
    pub rank: Rank,
}

impl Card {
    pub fn new(suit: Suit, rank: Rank) -> (c: Card)
        ensures
            c == (Card { suit, rank }),
    {
        Card { suit, rank }
    }
}

impl PartialEq for Card {
    fn eq(&self, other: &Card) -> (r: bool) {
        self.rank == other.rank
    }
}

impl vstd::std_specs::cmp::PartialEqSpecImpl for Card {
    open spec fn obeys_eq_spec() -> bool {
        true
    }

    open spec fn eq_spec(&self, other: &Card) -> bool {
        self.rank == other.rank
    }
}

/// The cards' ordinals, in sequence order.
pub open spec fn card_ranks(s: Seq<Card>) -> Seq<int> {
    s.map_values(|c: Card| rank_ord(c.rank))
}

/// Sorted ascending by rank ordinal.
pub open spec fn sorted_by_rank(s: Seq<Card>) -> bool {
    forall|i: int, j: int|
        0 <= i < j < s.len() ==> rank_ord(s[i].rank) <= rank_ord(s[j].rank)
}

/// The cards' ordinals after sorting ascending: the canonical rank profile
/// of a selection, independent of the order the cards were supplied in.
pub open spec fn sorted_ranks(s: Seq<Card>) -> Seq<int> {
    card_ranks(s).sort()
}

/// Inserting an element anywhere in a sequence adds it to the multiset of
/// the sequence's elements.
pub proof fn lemma_insert_to_multiset(s: Seq<Card>, i: int, c: Card)
    requires
        0 <= i <= s.len(),
    ensures
        s.insert(i, c).to_multiset() == s.to_multiset().insert(c),
{
    broadcast use vstd::seq_lib::group_to_multiset_ensures;
    broadcast use vstd::multiset::group_multiset_axioms;

    let s0 = s.subrange(0, i);
    let s1 = s.subrange(i, s.len() as int);
    assert(s =~= s0 + s1);
    vstd::seq_lib::lemma_multiset_commutative(s0.push(c), s1);
    vstd::seq_lib::lemma_multiset_commutative(s0, s1);
    assert(s0.push(c).to_multiset() =~= s0.to_multiset().insert(c));
    assert(s.insert(i, c).to_multiset() =~= s.to_multiset().insert(c));
}

/// Mapping a function over two sequences with equal element multisets gives
/// equal element multisets again.
pub proof fn lemma_map_values_to_multiset<A, B>(a: Seq<A>, b: Seq<A>, f: spec_fn(A) -> B)
    requires
        a.to_multiset() == b.to_multiset(),
    ensures
        a.map_values(f).to_multiset() == b.map_values(f).to_multiset(),
    decreases a.len(),
{
    broadcast use vstd::seq_lib::group_to_multiset_ensures;
    broadcast use vstd::multiset::group_multiset_axioms;

    if a.len() == 0 {
        assert(a.map_values(f) =~= Seq::<B>::empty());
        assert(a.to_multiset().len() == a.len());
        assert(b.to_multiset().len() == b.len());
        assert(b.len() == 0);
        assert(b.map_values(f) =~= Seq::<B>::empty());
    } else {
        let x = a[0];
        assert(a.contains(x));
        assert(b.to_multiset().count(x) > 0);
        assert(b.contains(x));
        let j = choose|j: int| 0 <= j < b.len() && b[j] == x;
        let a1 = a.remove(0);
        let b1 = b.remove(j);
        assert(a1.to_multiset() == a.to_multiset().remove(x));
        assert(b1.to_multiset() == b.to_multiset().remove(x));
        lemma_map_values_to_multiset(a1, b1, f);
        assert(a1.map_values(f) =~= a.map_values(f).remove(0));
        assert(b1.map_values(f) =~= b.map_values(f).remove(j));
        assert(a.map_values(f).remove(0).to_multiset() == a.map_values(f).to_multiset().remove(
            a.map_values(f)[0],
        ));
        assert(b.map_values(f).remove(j).to_multiset() == b.map_values(f).to_multiset().remove(
            b.map_values(f)[j],
        ));
        assert(a.map_values(f)[0] == f(x));
        assert(b.map_values(f)[j] == f(x));
        assert(a.map_values(f).contains(f(x)));
        assert(b.map_values(f).contains(f(x)));
        assert(a.map_values(f).to_multiset().count(f(x)) > 0);
        assert(b.map_values(f).to_multiset().count(f(x)) > 0);
        assert(a.map_values(f).to_multiset() =~= a1.map_values(f).to_multiset().insert(f(x)));
        assert(b.map_values(f).to_multiset() =~= b1.map_values(f).to_multiset().insert(f(x)));
        assert(a.map_values(f).to_multiset() =~= b.map_values(f).to_multiset());
    }
}

/// A rank-sorted permutation of `orig` carries exactly the sorted rank
/// profile of `orig`.
pub proof fn lemma_sorted_ranks_eq(sorted: Seq<Card>, orig: Seq<Card>)
    requires
        sorted_by_rank(sorted),
        sorted.to_multiset() == orig.to_multiset(),
    ensures
        card_ranks(sorted) == sorted_ranks(orig),
{
    let f = |c: Card| rank_ord(c.rank);
    let leq = |x: int, y: int| x <= y;
    lemma_map_values_to_multiset(sorted, orig, f);
    assert(card_ranks(sorted) =~= sorted.map_values(f));
    assert(card_ranks(orig) =~= orig.map_values(f));
    let sr = card_ranks(orig);
    sr.lemma_sort_ensures();
    assert(vstd::relations::sorted_by(card_ranks(sorted), leq)) by {
        assert forall|i: int, j: int|
            0 <= i < j < card_ranks(sorted).len() implies #[trigger] leq(
            card_ranks(sorted)[i],
            card_ranks(sorted)[j],
        ) by {
            assert(rank_ord(sorted[i].rank) <= rank_ord(sorted[j].rank));
        }
    }
    assert(vstd::relations::sorted_by(sr.sort(), leq)) by {
        assert forall|i: int, j: int| 0 <= i < j < sr.sort().len() implies #[trigger] leq(
            sr.sort()[i],
            sr.sort()[j],
        ) by {
            assert(vstd::relations::sorted_by(sr.sort(), |x: int, y: int| x <= y));
        }
    }
    assert(vstd::relations::total_ordering(leq));
    vstd::seq_lib::lemma_sorted_unique(card_ranks(sorted), sr.sort(), leq);
}

/// Cards contributed by one aggregated entry: `count` copies of the given
/// suit and rank (a non-positive count contributes nothing).
pub open spec fn card_copies(e: (Suit, Rank, i32)) -> Seq<Card> {
    Seq::new(
        if e.2 >= 0 {
            e.2 as nat
        } else {
            0
        },
        |i: int| Card { suit: e.0, rank: e.1 },
    )
}

/// All cards of an aggregated `(suit, rank, count)` list, in entry order.
pub open spec fn agg_cards(agg: Seq<(Suit, Rank, i32)>) -> Seq<Card>
    decreases agg.len(),
{
    if agg.len() == 0 {
        Seq::empty()
    } else {
        agg_cards(agg.drop_last()) + card_copies(agg.last())
    }
}

/// Expand an aggregated `(suit, rank, count)` list into individual cards.
pub(crate) fn expand_agg(agg: &Vec<(Suit, Rank, i32)>) -> (r: Vec<Card>)
    ensures
        r@ == agg_cards(agg@),
{
    let mut out: Vec<Card> = Vec::new();
    let mut k: usize = 0;
    while k < agg.len()
        invariant
            k <= agg@.len(),
            out@ == agg_cards(agg@.subrange(0, k as int)),
        decreases agg@.len() - k,
    {
        let e = agg[k];
        let ghost before = out@;
        let cnt = e.2;
        let mut c: i32 = 0;
        proof {
            assert(before + card_copies(e).take(0) =~= before);
        }
        while c < cnt
            invariant
                0 <= c,
                cnt == e.2,
                cnt >= 0 ==> c <= cnt,
                cnt < 0 ==> c == 0,
                out@ == before + card_copies(e).take(c as int),
            decreases cnt - c,
        {
            out.push(Card { suit: e.0, rank: e.1 });
            proof {
                assert(card_copies(e).take(c as int + 1) =~= card_copies(e).take(c as int).push(
                    card_copies(e)[c as int],
                ));
                assert(before + card_copies(e).take(c as int + 1) =~= (before + card_copies(
                    e,
                ).take(c as int)).push(card_copies(e)[c as int]));
            }
            c += 1;
        }
        proof {
            assert(card_copies(e).take(card_copies(e).len() as int) =~= card_copies(e));
            assert(out@ == before + card_copies(e));
            assert(agg@.subrange(0, k as int + 1).drop_last() =~= agg@.subrange(0, k as int));
            assert(agg@.subrange(0, k as int + 1).last() == agg@[k as int]);
        }
        k += 1;
    }
    proof {
        assert(agg@.subrange(0, agg@.len() as int) =~= agg@);
    }
    out
}

/// Sort cards ascending by rank. The result is a permutation of the input.
pub(crate) fn sort_cards(cards: &Vec<Card>) -> (r: Vec<Card>)
    ensures
        sorted_by_rank(r@),
        r@.to_multiset() == cards@.to_multiset(),
        r@.len() == cards@.len(),
        card_ranks(r@) == sorted_ranks(cards@),
{
    broadcast use vstd::seq_lib::group_to_multiset_ensures;

    let mut out: Vec<Card> = Vec::new();
    let mut k: usize = 0;
    while k < cards.len()
        invariant
            k <= cards@.len(),
            out@.len() == k,
            sorted_by_rank(out@),
            out@.to_multiset() == cards@.subrange(0, k as int).to_multiset(),
        decreases cards@.len() - k,
    {
        let c = cards[k];
        let ghost prev = out@;
        let mut p: usize = 0;
        while p < out.len() && rank_value(out[p].rank) <= rank_value(c.rank)
            invariant
                p <= out@.len(),
                out@ == prev,
                forall|t: int| 0 <= t < p ==> rank_ord(out@[t].rank) <= rank_ord(c.rank),
            decreases out@.len() - p,
        {
            p += 1;
        }
        proof {
            assert(p as int == prev.len() || rank_ord(prev[p as int].rank) > rank_ord(c.rank));
        }
        out.insert(p, c);
        proof {
            let pi = p as int;
            prev.insert_ensures(pi, c);
            assert forall|a: int, b: int|
                0 <= a < b < out@.len() implies rank_ord(out@[a].rank) <= rank_ord(
                out@[b].rank,
            ) by {
                if b < pi {
                    assert(out@[a] == prev[a]);
                    assert(out@[b] == prev[b]);
                } else if b == pi {
                    assert(out@[a] == prev[a]);
                    assert(out@[b] == c);
                } else {
                    assert(out@[b] == prev[b - 1]);
                    if a < pi {
                        assert(out@[a] == prev[a]);
                    } else if a == pi {
                        assert(out@[a] == c);
                        assert(pi < prev.len());
                        assert(rank_ord(c.rank) < rank_ord(prev[pi].rank));
                        assert(rank_ord(prev[pi].rank) <= rank_ord(prev[b - 1].rank));
                    } else {
                        assert(out@[a] == prev[a - 1]);
                    }
                }
            }
            lemma_insert_to_multiset(prev, pi, c);
            assert(cards@.subrange(0, k as int + 1) =~= cards@.subrange(0, k as int).push(
                cards@[k as int],
            ));
            vstd::seq_lib::to_multiset_build(cards@.subrange(0, k as int), cards@[k as int]);
        }
        k += 1;
    }
    proof {
        assert(cards@.subrange(0, cards@.len() as int) =~= cards@);
        lemma_sorted_ranks_eq(out@, cards@);
    }
    out
}

} // verus!
