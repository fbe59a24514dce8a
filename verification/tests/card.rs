use gouji::card::{Card, Rank, Suit};
use gouji::card_set::CardSet;
use gouji::hand::Hand;

#[test]
fn test_card_set_is_greater_than() {
    let set1 = CardSet::new(&vec![Card::new(Suit::Club, Rank::_4), Card::new(Suit::Diamonds, Rank::_4)]).unwrap();
    let set2 = CardSet::new(&vec![Card::new(Suit::Club, Rank::_3), Card::new(Suit::Diamonds, Rank::_3)]).unwrap();
    assert!(set1.is_greater_than(&set2));
    let set1 = CardSet::new(&vec![Card::new(Suit::Club, Rank::_5), Card::new(Suit::NoSuit, Rank::_BJK)]).unwrap();
    let set2 = CardSet::new(&vec![Card::new(Suit::Club, Rank::_3), Card::new(Suit::Diamonds, Rank::_3)]).unwrap();
    assert!(set1.is_greater_than(&set2));
    let set1 = CardSet::new(&vec![Card::new(Suit::Club, Rank::_5), Card::new(Suit::NoSuit, Rank::_RJK)]).unwrap();
    let set2 = CardSet::new(&vec![Card::new(Suit::Club, Rank::_3), Card::new(Suit::Diamonds, Rank::_3)]).unwrap();
    assert!(set1.is_greater_than(&set2));
    let set1 = CardSet::new(&vec![
        Card::new(Suit::Club, Rank::_5),
        Card::new(Suit::NoSuit, Rank::_RJK),
        Card::new(Suit::NoSuit, Rank::_RJK),
    ])
    .unwrap();
    let set2 = CardSet::new(&vec![Card::new(Suit::Club, Rank::_3), Card::new(Suit::Diamonds, Rank::_3)]).unwrap();
    assert!(!set1.is_greater_than(&set2));
    let set1 = CardSet::new(&vec![
        Card::new(Suit::Club, Rank::_6),
        Card::new(Suit::NoSuit, Rank::_RJK),
        Card::new(Suit::NoSuit, Rank::_RJK),
    ])
    .unwrap();
    let set2 = CardSet::new(&vec![Card::new(Suit::Club, Rank::_5), Card::new(Suit::NoSuit, Rank::_RJK)]).unwrap();
    assert!(set1.is_greater_than(&set2));
    let set1 = CardSet::new(&vec![
        Card::new(Suit::Club, Rank::_6),
        Card::new(Suit::NoSuit, Rank::_BJK),
        Card::new(Suit::NoSuit, Rank::_RJK),
    ])
    .unwrap();
    let set2 = CardSet::new(&vec![Card::new(Suit::Club, Rank::_5), Card::new(Suit::NoSuit, Rank::_RJK)]).unwrap();
    assert!(!set1.is_greater_than(&set2));
    let set1 = CardSet::new(&vec![
        Card::new(Suit::Club, Rank::_6),
        Card::new(Suit::NoSuit, Rank::_BJK),
        Card::new(Suit::NoSuit, Rank::_BJK),
    ])
    .unwrap();
    let set2 = CardSet::new(&vec![Card::new(Suit::Club, Rank::_5), Card::new(Suit::NoSuit, Rank::_RJK)]).unwrap();
    assert!(!set1.is_greater_than(&set2));
    let set1 = CardSet::new(&vec![
        Card::new(Suit::Club, Rank::_6),
        Card::new(Suit::NoSuit, Rank::_BJK),
        Card::new(Suit::NoSuit, Rank::_BJK),
    ])
    .unwrap();
    let set2 = CardSet::new(&vec![Card::new(Suit::Club, Rank::_5), Card::new(Suit::NoSuit, Rank::_BJK)]).unwrap();
    assert!(!set1.is_greater_than(&set2));
    let set1 = CardSet::new(&vec![
        Card::new(Suit::Club, Rank::_6),
        Card::new(Suit::Heart, Rank::_2),
        Card::new(Suit::NoSuit, Rank::_BJK),
    ])
    .unwrap();
    let set2 = CardSet::new(&vec![
        Card::new(Suit::Club, Rank::_5),
        Card::new(Suit::Heart, Rank::_5),
        Card::new(Suit::Diamonds, Rank::_5),
    ])
    .unwrap();
    assert!(set1.is_greater_than(&set2));
    let set1 = CardSet::new(&vec![
        Card::new(Suit::Club, Rank::_6),
        Card::new(Suit::Heart, Rank::_2),
        Card::new(Suit::NoSuit, Rank::_BJK),
    ])
    .unwrap();
    let set2 = CardSet::new(&vec![
        Card::new(Suit::Club, Rank::_5),
        Card::new(Suit::Heart, Rank::_5),
        Card::new(Suit::NoSuit, Rank::_BJK),
    ])
    .unwrap();
    assert!(!set1.is_greater_than(&set2));
    let set1 = CardSet::new(&vec![
        Card::new(Suit::Club, Rank::_6),
        Card::new(Suit::Heart, Rank::_2),
        Card::new(Suit::NoSuit, Rank::_RJK),
    ])
    .unwrap();
    let set2 = CardSet::new(&vec![
        Card::new(Suit::Club, Rank::_5),
        Card::new(Suit::Heart, Rank::_5),
        Card::new(Suit::NoSuit, Rank::_BJK),
    ])
    .unwrap();
    assert!(set1.is_greater_than(&set2));
    let set1 = CardSet::new(&vec![
        Card::new(Suit::Club, Rank::_6),
        Card::new(Suit::Heart, Rank::_2),
        Card::new(Suit::NoSuit, Rank::_RJK),
        Card::new(Suit::NoSuit, Rank::_RJK),
    ])
    .unwrap();
    let set2 = CardSet::new(&vec![
        Card::new(Suit::Club, Rank::_5),
        Card::new(Suit::Heart, Rank::_5),
        Card::new(Suit::NoSuit, Rank::_BJK),
    ])
    .unwrap();
    assert!(!set1.is_greater_than(&set2));
    let set1 = CardSet::new(&vec![
        Card::new(Suit::Club, Rank::_6),
        Card::new(Suit::Heart, Rank::_2),
        Card::new(Suit::NoSuit, Rank::_RJK),
        Card::new(Suit::NoSuit, Rank::_RJK),
    ])
    .unwrap();
    let set2 = CardSet::new(&vec![
        Card::new(Suit::Club, Rank::_5),
        Card::new(Suit::Heart, Rank::_5),
        Card::new(Suit::NoSuit, Rank::_RJK),
    ])
    .unwrap();
    assert!(set1.is_greater_than(&set2));
    let set1 = CardSet::new(&vec![
        Card::new(Suit::Heart, Rank::_2),
        Card::new(Suit::NoSuit, Rank::_BJK),
        Card::new(Suit::NoSuit, Rank::_RJK),
    ])
    .unwrap();
    let set2 = CardSet::new(&vec![
        Card::new(Suit::Club, Rank::_2),
        Card::new(Suit::Heart, Rank::_2),
        Card::new(Suit::Diamonds, Rank::_2),
    ])
    .unwrap();
    assert!(!set1.is_greater_than(&set2));
    let set1 = CardSet::new(&vec![
        Card::new(Suit::Heart, Rank::_2),
        Card::new(Suit::NoSuit, Rank::_BJK),
        Card::new(Suit::NoSuit, Rank::_RJK),
    ])
    .unwrap();
    let set2 = CardSet::new(&vec![
        Card::new(Suit::Club, Rank::_A),
        Card::new(Suit::Heart, Rank::_2),
        Card::new(Suit::Diamonds, Rank::_2),
    ])
    .unwrap();
    assert!(set1.is_greater_than(&set2));
    let set1 = CardSet::new(&vec![Card::new(Suit::NoSuit, Rank::_BJK), Card::new(Suit::NoSuit, Rank::_RJK)]).unwrap();
    let set2 = CardSet::new(&vec![Card::new(Suit::Club, Rank::_2), Card::new(Suit::Heart, Rank::_2)]).unwrap();
    assert!(set1.is_greater_than(&set2));
}

#[test]
fn test_is_gouji() {
    let set = CardSet::new(&vec![Card::new(Suit::Heart, Rank::_3), Card::new(Suit::Heart, Rank::_3)]).unwrap();
    assert!(!set.is_gouji());
    let set = CardSet::new(&vec![Card::new(Suit::Heart, Rank::_10); 4]).unwrap();
    assert!(!set.is_gouji());
    let set = CardSet::new(&vec![Card::new(Suit::Heart, Rank::_10); 5]).unwrap();
    assert!(set.is_gouji());
    let set = CardSet::new(&vec![Card::new(Suit::Heart, Rank::_J); 3]).unwrap();
    assert!(!set.is_gouji());
    let set = CardSet::new(&vec![Card::new(Suit::Heart, Rank::_J); 4]).unwrap();
    assert!(set.is_gouji());
    let set = CardSet::new(&vec![Card::new(Suit::Heart, Rank::_Q); 2]).unwrap();
    assert!(!set.is_gouji());
    let set = CardSet::new(&vec![Card::new(Suit::Heart, Rank::_Q); 3]).unwrap();
    assert!(set.is_gouji());
    let set = CardSet::new(&vec![Card::new(Suit::Heart, Rank::_K); 1]).unwrap();
    assert!(!set.is_gouji());
    let set = CardSet::new(&vec![Card::new(Suit::Heart, Rank::_K); 2]).unwrap();
    assert!(set.is_gouji());
    let set = CardSet::new(&vec![Card::new(Suit::Heart, Rank::_A); 1]).unwrap();
    assert!(!set.is_gouji());
    let set = CardSet::new(&vec![Card::new(Suit::Heart, Rank::_A); 2]).unwrap();
    assert!(set.is_gouji());
    let set = CardSet::new(&vec![Card::new(Suit::Heart, Rank::_10); 4]).unwrap();
    assert!(!set.is_gouji());
    let set = CardSet::from_agg(&vec![(Suit::Heart, Rank::_10, 3), (Suit::Heart, Rank::_2, 1)]).unwrap();
    assert!(!set.is_gouji());
    let set = CardSet::from_agg(&vec![(Suit::Heart, Rank::_10, 4), (Suit::Heart, Rank::_2, 1)]).unwrap();
    assert!(set.is_gouji());
    let set = CardSet::from_agg(&vec![(Suit::Heart, Rank::_J, 2), (Suit::Heart, Rank::_2, 1)]).unwrap();
    assert!(!set.is_gouji());
    let set = CardSet::from_agg(&vec![(Suit::Heart, Rank::_J, 3), (Suit::Heart, Rank::_2, 1)]).unwrap();
    assert!(set.is_gouji());
    let set = CardSet::from_agg(&vec![(Suit::Heart, Rank::_Q, 1), (Suit::Heart, Rank::_2, 1)]).unwrap();
    assert!(!set.is_gouji());
    let set = CardSet::from_agg(&vec![(Suit::Heart, Rank::_Q, 2), (Suit::Heart, Rank::_2, 1)]).unwrap();
    assert!(set.is_gouji());
    let set = CardSet::from_agg(&vec![(Suit::Heart, Rank::_K, 1), (Suit::Heart, Rank::_2, 1)]).unwrap();
    assert!(set.is_gouji());
    let set = CardSet::from_agg(&vec![(Suit::Heart, Rank::_A, 1), (Suit::Heart, Rank::_2, 1)]).unwrap();
    assert!(set.is_gouji());
    let set = CardSet::from_agg(&vec![(Suit::NoSuit, Rank::_BJK, 1)]).unwrap();
    assert!(set.is_gouji());
    let set = CardSet::from_agg(&vec![(Suit::NoSuit, Rank::_RJK, 1)]).unwrap();
    assert!(!set.is_gouji());
    let set = CardSet::from_agg(&vec![(Suit::Heart, Rank::_2, 1)]).unwrap();
    assert!(set.is_gouji());
    let set = CardSet::from_agg(&vec![(Suit::NoSuit, Rank::_BJK, 1), (Suit::Heart, Rank::_5, 1)]).unwrap();
    assert!(set.is_gouji());
}

#[test]
fn test_subtract() {
    let mut hand = Hand::from_agg(vec![(Suit::Heart, Rank::_3, 1), (Suit::Heart, Rank::_4, 1)]);
    let set = CardSet::from_agg(&vec![(Suit::Heart, Rank::_3, 1)]).unwrap();
    assert!(!hand.subtract(&set));
    let mut hand = Hand::from_agg(vec![(Suit::Heart, Rank::_3, 1), (Suit::Heart, Rank::_4, 1)]);
    let set = CardSet::from_agg(&vec![(Suit::Heart, Rank::_4, 1)]).unwrap();
    assert!(hand.subtract(&set));
    assert!(hand.to_vec() == vec![Card { suit: Suit::Heart, rank: Rank::_3 }]);
    let mut hand = Hand::from_agg(vec![(Suit::Heart, Rank::_3, 1), (Suit::Heart, Rank::_4, 2)]);
    let set = CardSet::from_agg(&vec![(Suit::Heart, Rank::_4, 1)]).unwrap();
    assert!(!hand.subtract(&set));
    let mut hand = Hand::from_agg(vec![(Suit::Heart, Rank::_3, 1), (Suit::Heart, Rank::_4, 2)]);
    let set = CardSet::from_agg(&vec![(Suit::Heart, Rank::_4, 2)]).unwrap();
    assert!(hand.subtract(&set));
    assert!(hand.to_vec() == vec![Card { suit: Suit::Heart, rank: Rank::_3 }]);
    let mut hand = Hand::from_agg(vec![(Suit::Heart, Rank::_3, 1), (Suit::Heart, Rank::_4, 2)]);
    let set = CardSet::from_agg(&vec![(Suit::Heart, Rank::_4, 3)]).unwrap();
    assert!(!hand.subtract(&set));
}
