//! Table rules: every knob a casino posts on the felt, frozen per shoe.
use vstd::prelude::*;

verus! {

/// How the dealer plays a soft 17.
#[derive(Debug, Clone, Copy, PartialEq, Eq, Structural, Hash)]
pub enum Soft17 {
    /// Dealer stands on all 17s ("S17").
    Stand,
    /// Dealer hits soft 17 ("H17").
    Hit,
}

/// The posted payout for a natural blackjack.
#[derive(Debug, Clone, Copy, PartialEq, Eq, Structural, Hash)]
pub enum BlackjackPayout {
    /// 3:2, the traditional full payout.
    ThreeToTwo,
    /// 6:5, the short payout.
    SixToFive,
}

/// Winnings for a natural on `bet`, excluding the returned stake, rounded
/// down to a whole dollar.
pub open spec fn spec_winnings(payout: BlackjackPayout, bet: int) -> int {
    match payout {
        BlackjackPayout::ThreeToTwo => bet * 3 / 2,
        BlackjackPayout::SixToFive => bet * 6 / 5,
    }
}

/// Whether the payout arithmetic on `bet` stays within `u32`.
pub open spec fn winnings_fit(payout: BlackjackPayout, bet: int) -> bool {
    match payout {
        BlackjackPayout::ThreeToTwo => bet * 3 <= u32::MAX,
        BlackjackPayout::SixToFive => bet * 6 <= u32::MAX,
    }
}

impl BlackjackPayout {
    /// Winnings for a natural on `bet`, excluding the returned stake,
    /// rounded down to a whole dollar.
    ///
    /// Bets that keep the payout integral (even-dollar bets at 3:2, $5
    /// multiples at 6:5) never round; any fractional payout rounds down,
    /// as a real cage would drop the odd fifty cents.
    pub fn winnings(self, bet: u32) -> (w: u32)
        requires
            winnings_fit(self, bet as int),
        ensures
            w == spec_winnings(self, bet as int),
    {
        match self {
            BlackjackPayout::ThreeToTwo => bet * 3 / 2,
            BlackjackPayout::SixToFive => bet * 6 / 5,
        }
    }
}

/// A fraction `numerator / denominator`, used for the cut-card
/// penetration: the part of the shoe dealt before a reshuffle is due.
#[derive(Debug, Clone, Copy, PartialEq, Eq, Structural, Hash)]
pub struct Fraction {
    /// The numerator.
    pub numerator: u32,
    /// The denominator.
    pub denominator: u32,
}

impl Fraction {
    /// Whether this is a penetration the shoe accepts: in `(0, 1]`.
    pub open spec fn is_penetration(self) -> bool {
        0 < self.numerator <= self.denominator
    }
}

/// The complete rule set for a table, frozen for the life of a shoe.
///
/// Everything the engine needs to adjudicate a round lives here;
/// frontends read these values out of every snapshot and never hardcode a
/// rule. Seats are numbered `0..seats`, with seat 0 dealt first.
#[derive(Debug, Clone, Copy, PartialEq, Eq, Structural)]
pub struct Rules {
    /// Number of standard decks in the shoe.
    pub decks: usize,
    /// Fraction of the shoe dealt before the cut card signals a reshuffle.
    pub penetration: Fraction,
    /// Whether the dealer stands on or hits soft 17.
    pub soft_17: Soft17,
    /// Payout for a natural blackjack.
    pub blackjack_payout: BlackjackPayout,
    /// Double down on any first two cards. When false, doubling is
    /// allowed only on hard totals of 9, 10, and 11.
    pub double_on_any_two: bool,
    /// Allow doubling down on a hand created by a split.
    pub double_after_split: bool,
    /// Maximum hands a single seat may hold through splitting; 4 means
    /// "resplit to four hands". Must be at least 1 (1 disables splitting).
    pub max_split_hands: usize,
    /// Split aces receive exactly one card each and stand automatically.
    pub split_aces_one_card: bool,
    /// Late surrender: give up half the bet as the first action on the
    /// initial two cards, only after the dealer has checked for blackjack.
    pub late_surrender: bool,
    /// Offer insurance when the dealer shows an ace.
    pub insurance_offered: bool,
    /// Minimum main bet in whole dollars.
    pub min_bet: u32,
    /// Maximum main bet in whole dollars.
    pub max_bet: u32,
    /// Number of player positions at the table. Seats without a bet sit out.
    pub seats: usize,
}

impl Rules {
    /// The canonical table this app ships with: six decks, 75%
    /// penetration, dealer stands on soft 17, blackjack pays 3:2, double on
    /// any two, double after split, resplit to four hands, split aces get
    /// one card, late surrender, insurance offered, $10-$500 limits, seven
    /// seats.
    pub fn canonical() -> (r: Rules)
        ensures
            r == spec_canonical(),
    {
        Rules {
            decks: 6,
            penetration: Fraction { numerator: 3, denominator: 4 },
            soft_17: Soft17::Stand,
            blackjack_payout: BlackjackPayout::ThreeToTwo,
            double_on_any_two: true,
            double_after_split: true,
            max_split_hands: 4,
            split_aces_one_card: true,
            late_surrender: true,
            insurance_offered: true,
            min_bet: 10,
            max_bet: 500,
            seats: 7,
        }
    }
}

/// The canonical rules, as a specification.
pub open spec fn spec_canonical() -> Rules {
    Rules {
        decks: 6,
        penetration: Fraction { numerator: 3, denominator: 4 },
        soft_17: Soft17::Stand,
        blackjack_payout: BlackjackPayout::ThreeToTwo,
        double_on_any_two: true,
        double_after_split: true,
        max_split_hands: 4,
        split_aces_one_card: true,
        late_surrender: true,
        insurance_offered: true,
        min_bet: 10,
        max_bet: 500,
        seats: 7,
    }
}

/// Even-dollar bets at 3:2 are paid exactly one and a half times over.
pub proof fn lemma_three_to_two_is_exact_on_even_bets(bet: int)
    requires
        bet >= 0,
        bet % 2 == 0,
    ensures
        2 * spec_winnings(BlackjackPayout::ThreeToTwo, bet) == 3 * bet,
{
}

/// Payouts never exceed the exact fraction: rounding is always down.
pub proof fn lemma_winnings_round_down(payout: BlackjackPayout, bet: int)
    requires
        bet >= 0,
    ensures
        payout == BlackjackPayout::ThreeToTwo ==> 2 * spec_winnings(payout, bet) <= 3 * bet < 2
            * spec_winnings(payout, bet) + 2,
        payout == BlackjackPayout::SixToFive ==> 5 * spec_winnings(payout, bet) <= 6 * bet < 5
            * spec_winnings(payout, bet) + 5,
{
}

} // verus!
