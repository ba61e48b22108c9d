//! Playing-card primitives: [`Suit`], [`Rank`], and [`Card`].
use vstd::prelude::*;

verus! {

/// One of the four French suits.
///
/// Suits never affect blackjack outcomes; they exist so frontends can
/// render real cards and so a shoe holds distinguishable, countable cards.
#[derive(Debug, Clone, Copy, PartialEq, Eq, Structural, PartialOrd, Ord, Hash)]
pub enum Suit {
    Clubs,
    Diamonds,
    Hearts,
    Spades,
}

impl Suit {
    /// All four suits, in ascending order.
    pub const ALL: [Suit; 4] = [Suit::Clubs, Suit::Diamonds, Suit::Hearts, Suit::Spades];
}

/// A card rank, `Two` through `Ace`.
#[derive(Debug, Clone, Copy, PartialEq, Eq, Structural, PartialOrd, Ord, Hash)]
pub enum Rank {
    Two,
    Three,
    Four,
    Five,
    Six,
    Seven,
    Eight,
    Nine,
    Ten,
    Jack,
    Queen,
    King,
    Ace,
}

/// The blackjack value of a rank, counting an ace as 11.
pub open spec fn rank_value(rank: Rank) -> u8 {
    match rank {
        Rank::Two => 2,
        Rank::Three => 3,
        Rank::Four => 4,
        Rank::Five => 5,
        Rank::Six => 6,
        Rank::Seven => 7,
        Rank::Eight => 8,
        Rank::Nine => 9,
        Rank::Ten | Rank::Jack | Rank::Queen | Rank::King => 10,
        Rank::Ace => 11,
    }
}

impl Rank {
    /// All thirteen ranks, in ascending order.
    pub const ALL: [Rank; 13] = [
        Rank::Two,
        Rank::Three,
        Rank::Four,
        Rank::Five,
        Rank::Six,
        Rank::Seven,
        Rank::Eight,
        Rank::Nine,
        Rank::Ten,
        Rank::Jack,
        Rank::Queen,
        Rank::King,
        Rank::Ace,
    ];

    /// The blackjack value of this rank, counting an ace as 11.
    ///
    /// Hand-value logic demotes aces from 11 to 1 as needed; see
    /// [`crate::hand::HandValue`].
    pub fn value(self) -> (v: u8)
        ensures
            v == rank_value(self),
    {
        match self {
            Rank::Two => 2,
            Rank::Three => 3,
            Rank::Four => 4,
            Rank::Five => 5,
            Rank::Six => 6,
            Rank::Seven => 7,
            Rank::Eight => 8,
            Rank::Nine => 9,
            Rank::Ten | Rank::Jack | Rank::Queen | Rank::King => 10,
            Rank::Ace => 11,
        }
    }

    /// True for the four ten-value ranks: ten, jack, queen, and king.
    pub fn is_ten_value(self) -> (b: bool)
        ensures
            b == (rank_value(self) == 10),
            b <==> (self == Rank::Ten || self == Rank::Jack || self == Rank::Queen
                || self == Rank::King),
    {
        self.value() == 10
    }

    /// True only for the ace.
    pub fn is_ace(self) -> (b: bool)
        ensures
            b == (self == Rank::Ace),
    {
        matches!(self, Rank::Ace)
    }
}

/// A single playing card: a [`Rank`] and a [`Suit`].
#[derive(Debug, Clone, Copy, PartialEq, Eq, Structural, PartialOrd, Ord, Hash)]
pub struct Card {
    /// The card's rank.
    pub rank: Rank,
    /// The card's suit.
    pub suit: Suit,
}

impl Card {
    /// Construct a card from a rank and suit.
    pub fn new(rank: Rank, suit: Suit) -> (c: Card)
        ensures
            c.rank == rank,
            c.suit == suit,
    {
        Card { rank, suit }
    }

    /// The blackjack value of this card, counting an ace as 11.
    pub fn value(self) -> (v: u8)
        ensures
            v == rank_value(self.rank),
    {
        self.rank.value()
    }
}

} // verus!
