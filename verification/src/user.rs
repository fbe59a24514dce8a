//! A seated player: the hand they hold and the decision of one play.

use vstd::prelude::*;

use crate::card::sorted_by_rank;
use crate::card_set::{beats, CardSet};
use crate::hand::{subtract_ok, subtract_result, Hand};

verus! {

/// Why a proposed play was refused.
#[derive(Clone, Copy, PartialEq, Eq, Structural)]
pub enum PlayError {
    /// The thrown set does not beat the set on the table.
    NotGreater,
    /// The thrown set cannot be removed from the player's hand, or removing
    /// it would leave a residual that the base-3 or base-4 rule forbids.
    InsufficientHand,
}

/// One seated player and the cards they still hold.
pub struct User {
    pub hand: Hand,
}

impl User {
    /// Decide one play: the thrown `set` must beat the `deck` set lying on
    /// the table and must then be removable from the player's hand. The hand
    /// changes only when the play is accepted.
    pub fn play(&mut self, deck: &CardSet, set: &CardSet) -> (r: Result<(), PlayError>)
        requires
            deck.wf(),
            set.wf(),
        ensures
            match r {
                Ok(_) => beats(set@, deck@) && subtract_ok(old(self).hand@, set@)
                    && final(self).hand@ == subtract_result(old(self).hand@, set@),
                Err(e) => final(self).hand@ == old(self).hand@ && (match e {
                    PlayError::NotGreater => !beats(set@, deck@),
                    PlayError::InsufficientHand => beats(set@, deck@) && !subtract_ok(
                        old(self).hand@,
                        set@,
                    ),
                }),
            },
            sorted_by_rank(old(self).hand@) ==> sorted_by_rank(final(self).hand@),
    {
        if set.is_greater_than(deck) {
            if !self.hand.subtract(set) {
                return Err(PlayError::InsufficientHand);
            }
            Ok(())
        } else {
            Err(PlayError::NotGreater)
        }
    }
}

} // verus!
