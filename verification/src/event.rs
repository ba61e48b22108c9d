//! Events: the ordered, animatable record of everything that happens at
//! the table.
//!
//! Every table transition returns the events it caused, in the order
//! they physically happened. Frontends replay them for animation;
//! concatenated across a session they form a complete game log. Events
//! never leak hidden information: the dealer's hole card appears only in
//! [`Event::HoleCardRevealed`].
use vstd::prelude::*;
use crate::card::Card;

verus! {

/// How a settled hand came out, from the player's point of view.
#[derive(Debug, Clone, Copy, PartialEq, Eq, Structural, Hash)]
pub enum HandOutcome {
    /// A natural blackjack, paid at the table's blackjack payout.
    Blackjack,
    /// Beat the dealer; paid 1:1.
    Win,
    /// Tied the dealer; the bet is returned.
    Push,
    /// Lost to the dealer's higher total or blackjack.
    Lose,
    /// Busted; the bet is lost regardless of the dealer's hand.
    Bust,
    /// Surrendered; half the bet (rounded down) is returned.
    Surrender,
}

/// One observable thing that happened at the table.
///
/// `seat` fields are seat indices; `hand` fields index into that seat's
/// hands after splits. Settlement `amount`s are the player's net win
/// (positive) or loss (negative) in whole dollars, excluding the returned
/// stake.
#[derive(Debug, Clone, Copy, PartialEq, Eq, Structural)]
pub enum Event {
    /// A seat placed (or replaced) its main bet.
    BetPlaced { seat: usize, amount: u32 },
    /// The discard pile was shuffled back into the shoe.
    ShoeShuffled,
    /// A card was burned face down after a shuffle.
    CardBurned,
    /// A card was dealt face up to a player hand.
    CardDealt { seat: usize, hand: usize, card: Card },
    /// A card was dealt face up to the dealer (the upcard or a draw).
    DealerCardDealt { card: Card },
    /// The dealer took a hole card face down. The card is not disclosed.
    HoleCardDealt,
    /// The dealer turned over the hole card.
    HoleCardRevealed { card: Card },
    /// A seat was dealt a natural blackjack.
    PlayerBlackjack { seat: usize },
    /// The dealer shows an ace; insurance is open to every seat with a bet.
    InsuranceOffered,
    /// A seat bought insurance for `amount`: half the main bet, rounded down.
    InsuranceTaken { seat: usize, amount: u32 },
    /// A seat declined insurance.
    InsuranceDeclined { seat: usize },
    /// An insurance bet was settled: `+2 * stake` on a dealer blackjack,
    /// `-stake` otherwise.
    InsuranceResolved { seat: usize, amount: i32 },
    /// The dealer checked the hole card for blackjack. When true the round
    /// ends immediately; when false play continues, the hole card hidden.
    DealerPeeked { blackjack: bool },
    /// A pair was split into two hands; the new hand is inserted directly
    /// after `hand`.
    HandSplit { seat: usize, hand: usize },
    /// A hand doubled down; `bet` is the new total bet on the hand.
    DoubledDown { seat: usize, hand: usize, bet: u32 },
    /// A hand stood, by choice or automatically (21, or a one-card split
    /// ace), on `total`.
    PlayerStood { seat: usize, hand: usize, total: u8 },
    /// A hand went over 21.
    HandBusted { seat: usize, hand: usize, total: u8 },
    /// A seat surrendered its hand.
    PlayerSurrendered { seat: usize },
    /// The dealer finished drawing and stood on `total`.
    DealerStood { total: u8 },
    /// The dealer busted with `total`.
    DealerBust { total: u8 },
    /// A hand was settled: how it came out and the net dollars won
    /// (positive) or lost (negative).
    HandSettled { seat: usize, hand: usize, outcome: HandOutcome, amount: i32 },
    /// The shoe's cut card has been passed; the next round starts from a
    /// fresh shuffle.
    CutCardReached,
    /// An AI player sat down at `seat`.
    PlayerArrived { seat: usize },
    /// The AI player at `seat` left the table.
    PlayerDeparted { seat: usize },
    /// A new dealer took over the table (and with it a new pace).
    DealerChanged,
}

} // verus!
