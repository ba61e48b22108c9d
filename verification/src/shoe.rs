//! A multi-deck dealing shoe with a cut card and an honest discard pile.
//!
//! Shuffles are driven by a seeded ChaCha8 generator (see
//! [`Shoe::from_seed`]), so tests and replays get identical shuffles every
//! time.
use vstd::prelude::*;
use rand_chacha::ChaCha8Rng;
use crate::card::{Card, Rank, Suit};
use crate::hand::{hard_total, lemma_hard_total_concat, lemma_hard_total_push};
use crate::rng::{seeded, shuffle_cards};
use crate::rules::Fraction;

verus! {

/// Number of cards in a single standard deck.
pub const DECK_SIZE: usize = 52;

/// The rank at position `i` of a suit's thirteen cards.
pub open spec fn rank_at(i: int) -> Rank {
    if i == 0 {
        Rank::Two
    } else if i == 1 {
        Rank::Three
    } else if i == 2 {
        Rank::Four
    } else if i == 3 {
        Rank::Five
    } else if i == 4 {
        Rank::Six
    } else if i == 5 {
        Rank::Seven
    } else if i == 6 {
        Rank::Eight
    } else if i == 7 {
        Rank::Nine
    } else if i == 8 {
        Rank::Ten
    } else if i == 9 {
        Rank::Jack
    } else if i == 10 {
        Rank::Queen
    } else if i == 11 {
        Rank::King
    } else {
        Rank::Ace
    }
}

/// The suit at position `i` of a deck's four suits.
pub open spec fn suit_at(i: int) -> Suit {
    if i == 0 {
        Suit::Clubs
    } else if i == 1 {
        Suit::Diamonds
    } else if i == 2 {
        Suit::Hearts
    } else {
        Suit::Spades
    }
}

/// The card at position `i` of a freshly opened stack of decks: deck after
/// deck, suit after suit, rank after rank.
pub open spec fn deck_card(i: int) -> Card {
    Card { rank: rank_at(i % 13), suit: suit_at((i / 13) % 4) }
}

/// `decks` freshly opened standard decks, in factory order.
pub open spec fn full_deck(decks: nat) -> Seq<Card> {
    Seq::new(decks * 52, |i: int| deck_card(i))
}

/// The first `n` cards of a factory-order stack.
pub open spec fn deck_prefix(n: nat) -> Seq<Card> {
    Seq::new(n, |i: int| deck_card(i))
}

/// The points of the first `n` cards of a factory-order stack, card by card.
pub open spec fn deck_run(n: nat) -> nat
    decreases n,
{
    if n == 0 {
        0
    } else {
        deck_run((n - 1) as nat) + crate::hand::hard_points(deck_card(n - 1))
    }
}

/// The first `n` cards are worth their card-by-card points.
pub proof fn lemma_deck_prefix_value(n: nat)
    ensures
        hard_total(deck_prefix(n)) == deck_run(n),
    decreases n,
{
    if n > 0 {
        let m = (n - 1) as nat;
        lemma_deck_prefix_value(m);
        assert(deck_prefix(n) =~= deck_prefix(m).push(deck_card(m as int)));
        lemma_hard_total_push(deck_prefix(m), deck_card(m as int));
    }
}

/// One deck, counted with aces as one, is worth 340 points: four suits
/// of 1 through 10 and three tens.
pub proof fn lemma_one_deck_value()
    ensures
        hard_total(deck_prefix(52)) == 340,
{
    lemma_deck_prefix_value(52);
    assert(deck_run(13) == 85) by {
        reveal_with_fuel(deck_run, 14);
    }
    assert(deck_run(26) == 170) by {
        reveal_with_fuel(deck_run, 14);
    }
    assert(deck_run(39) == 255) by {
        reveal_with_fuel(deck_run, 14);
    }
    assert(deck_run(52) == 340) by {
        reveal_with_fuel(deck_run, 14);
    }
}

/// Every deck of a factory-order stack is worth the same as the first.
pub proof fn lemma_deck_run_period(n: nat)
    ensures
        deck_run(n + 52) == deck_run(n) + 340,
    decreases n,
{
    if n == 0 {
        lemma_one_deck_value();
        lemma_deck_prefix_value(52);
    } else {
        let m = (n - 1) as nat;
        lemma_deck_run_period(m);
        assert((m + 52) % 13 == m % 13);
        assert(deck_card(m + 52int).rank == deck_card(m as int).rank);
        assert(deck_run(n + 52) == deck_run((m + 52) as nat) + crate::hand::hard_points(deck_card(m + 52int)));
    }
}

/// `decks` full decks are worth 340 points each, aces counted as one.
pub proof fn lemma_full_deck_value(decks: nat)
    ensures
        hard_total(full_deck(decks)) == 340 * decks,
    decreases decks,
{
    lemma_deck_prefix_value(decks * 52);
    assert(full_deck(decks) =~= deck_prefix(decks * 52));
    lemma_deck_run_value(decks);
}

/// The card-by-card points of `decks` decks.
pub proof fn lemma_deck_run_value(decks: nat)
    ensures
        deck_run(decks * 52) == 340 * decks,
    decreases decks,
{
    if decks > 0 {
        let d = (decks - 1) as nat;
        lemma_deck_run_value(d);
        lemma_deck_run_period(d * 52);
        assert(d * 52 + 52 == decks * 52);
    }
}

/// Cards dealt from a shoe of `capacity` cards before a cut card at
/// fraction `penetration` is reached: at least one card, so a cut card is
/// always reachable.
pub open spec fn spec_cut_index(capacity: nat, penetration: Fraction) -> nat {
    let k = (capacity * (penetration.numerator as nat)) / (penetration.denominator as nat);
    if k >= 1 {
        k
    } else {
        1
    }
}

/// The mathematical content of a shoe.
pub ghost struct ShoeView {
    /// Undealt cards; the next card to deal is the last element.
    pub cards: Seq<Card>,
    /// Cards returned to the shoe after being dealt (or burned).
    pub discards: Seq<Card>,
    /// Total cards the shoe was built with.
    pub capacity: nat,
    /// Number of cards dealt before the cut card is reached.
    pub cut_index: nat,
    /// The cut-card penetration, kept for reshuffles.
    pub penetration: Fraction,
}

impl ShoeView {
    /// Cards dealt (drawn or burned) since the last shuffle.
    pub open spec fn dealt(self) -> nat {
        if self.cards.len() <= self.capacity {
            (self.capacity - self.cards.len()) as nat
        } else {
            0
        }
    }

    /// Whether the cut card has been reached.
    pub open spec fn cut_reached(self) -> bool {
        self.dealt() >= self.cut_index
    }
}

/// A dealing shoe: several shuffled decks, a cut card, and a discard pile.
///
/// Life cycle per round: draw cards during play, return every card that
/// left the shoe with [`Shoe::discard`] (or burn cards directly with
/// [`Shoe::burn`]), and between rounds check [`Shoe::cut_card_reached`] to
/// decide whether to [`Shoe::reshuffle`]. Drawing past the cut card keeps
/// working — the cut card only signals that the *next* round should start
/// from a fresh shuffle.
///
/// The discard pile is real, not simulated: every card a player has seen
/// sits either in a hand or in the pile, and a reshuffle only recombines
/// cards the shoe actually holds. That makes card counting honest.
#[derive(Debug)]
pub struct Shoe {
    cards: Vec<Card>,
    discards: Vec<Card>,
    capacity: usize,
    cut_index: usize,
    penetration: Fraction,
    rng: ChaCha8Rng,
}

impl View for Shoe {
    type V = ShoeView;

    closed spec fn view(&self) -> ShoeView {
        ShoeView {
            cards: self.cards@,
            discards: self.discards@,
            capacity: self.capacity as nat,
            cut_index: self.cut_index as nat,
            penetration: self.penetration,
        }
    }
}

/// Cards dealt before the cut card, computed exactly.
fn cut_index(capacity: usize, penetration: Fraction) -> (k: usize)
    requires
        penetration.is_penetration(),
    ensures
        k == spec_cut_index(capacity as nat, penetration),
        k <= if capacity >= 1 { capacity as nat } else { 1 },
{
    proof {
        let c = capacity as int;
        let n = penetration.numerator as int;
        let d = penetration.denominator as int;
        assert(c * n / d <= c) by (nonlinear_arith)
            requires 0 < n <= d, c >= 0;
        assert(c * n <= u128::MAX) by (nonlinear_arith)
            requires 0 <= c <= usize::MAX, 0 <= n <= u32::MAX;
    }
    let k = (capacity as u128) * (penetration.numerator as u128) / (penetration.denominator as u128);
    if k >= 1 {
        k as usize
    } else {
        1
    }
}

fn deck_card_at(i: usize) -> (c: Card)
    ensures
        c == deck_card(i as int),
{
    let r = i % 13;
    let s = (i / 13) % 4;
    let rank = if r == 0 {
        Rank::Two
    } else if r == 1 {
        Rank::Three
    } else if r == 2 {
        Rank::Four
    } else if r == 3 {
        Rank::Five
    } else if r == 4 {
        Rank::Six
    } else if r == 5 {
        Rank::Seven
    } else if r == 6 {
        Rank::Eight
    } else if r == 7 {
        Rank::Nine
    } else if r == 8 {
        Rank::Ten
    } else if r == 9 {
        Rank::Jack
    } else if r == 10 {
        Rank::Queen
    } else if r == 11 {
        Rank::King
    } else {
        Rank::Ace
    };
    let suit = if s == 0 {
        Suit::Clubs
    } else if s == 1 {
        Suit::Diamonds
    } else if s == 2 {
        Suit::Hearts
    } else {
        Suit::Spades
    };
    Card::new(rank, suit)
}

impl Shoe {
    /// Build a shuffled shoe of `decks` standard decks with the cut card
    /// at `penetration` (the fraction of the shoe dealt before reshuffle;
    /// a typical casino value is 3/4).
    pub fn new(decks: usize, penetration: Fraction, rng: ChaCha8Rng) -> (shoe: Shoe)
        requires
            decks > 0,
            penetration.is_penetration(),
            decks * 104 <= usize::MAX,
        ensures
            shoe@.cards.to_multiset() == full_deck(decks as nat).to_multiset(),
            shoe@.cards.len() == decks * 52,
            shoe@.discards == Seq::<Card>::empty(),
            shoe@.capacity == decks * 52,
            shoe@.cut_index == spec_cut_index((decks * 52) as nat, penetration),
            shoe@.penetration == penetration,
    {
        let capacity = decks * DECK_SIZE;
        let mut cards: Vec<Card> = Vec::new();
        let mut i: usize = 0;
        while i < capacity
            invariant
                i <= capacity,
                capacity == decks * 52,
                cards@ == Seq::new(i as nat, |j: int| deck_card(j)),
            decreases capacity - i,
        {
            cards.push(deck_card_at(i));
            i = i + 1;
            proof {
                assert(cards@ =~= Seq::new(i as nat, |j: int| deck_card(j)));
            }
        }
        let mut rng = rng;
        let ghost fresh = cards@;
        shuffle_cards(&mut cards, &mut rng);
        proof {
            assert(fresh =~= full_deck(decks as nat));
        }
        Shoe {
            cards,
            discards: Vec::new(),
            capacity,
            cut_index: cut_index(capacity, penetration),
            penetration,
            rng,
        }
    }

    /// Build a shoe whose shuffles are driven by a ChaCha8 generator
    /// seeded from `seed`. The same seed always produces the same card
    /// sequence, which makes tests and replays deterministic.
    pub fn from_seed(decks: usize, penetration: Fraction, seed: u64) -> (shoe: Shoe)
        requires
            decks > 0,
            penetration.is_penetration(),
            decks * 104 <= usize::MAX,
        ensures
            shoe@.cards.to_multiset() == full_deck(decks as nat).to_multiset(),
            shoe@.cards.len() == decks * 52,
            shoe@.discards == Seq::<Card>::empty(),
            shoe@.capacity == decks * 52,
            shoe@.cut_index == spec_cut_index((decks * 52) as nat, penetration),
            shoe@.penetration == penetration,
    {
        Shoe::new(decks, penetration, seeded(seed))
    }

    /// Deal the next card, or `None` if the shoe is empty.
    ///
    /// Dealing continues past the cut card; the cut card only flags that a
    /// reshuffle is due between rounds.
    pub fn draw(&mut self) -> (card: Option<Card>)
        ensures
            old(self)@.cards.len() == 0 ==> card is None && final(self)@ == old(self)@,
            old(self)@.cards.len() > 0 ==> card == Some(old(self)@.cards.last()) && final(self)@
                == (ShoeView { cards: old(self)@.cards.drop_last(), ..old(self)@ }),
    {
        let card = self.cards.pop();
        proof {
            if old(self)@.cards.len() > 0 {
                assert(self@ == (ShoeView { cards: old(self)@.cards.drop_last(), ..old(self)@ }));
            } else {
                assert(self@ == old(self)@);
            }
        }
        card
    }

    /// Draw the next card and place it straight into the discard pile, as
    /// a dealer burns a card after shuffling. Returns the burned card, or
    /// `None` if the shoe is empty.
    pub fn burn(&mut self) -> (card: Option<Card>)
        ensures
            old(self)@.cards.len() == 0 ==> card is None && final(self)@ == old(self)@,
            old(self)@.cards.len() > 0 ==> card == Some(old(self)@.cards.last()) && final(self)@
                == (ShoeView {
                    cards: old(self)@.cards.drop_last(),
                    discards: old(self)@.discards.push(old(self)@.cards.last()),
                    ..old(self)@
                }),
    {
        match self.cards.pop() {
            Some(card) => {
                self.discards.push(card);
                proof {
                    assert(self@ == (ShoeView {
                        cards: old(self)@.cards.drop_last(),
                        discards: old(self)@.discards.push(old(self)@.cards.last()),
                        ..old(self)@
                    }));
                }
                Some(card)
            },
            None => {
                proof {
                    assert(self@ == old(self)@);
                }
                None
            },
        }
    }

    /// Return a dealt card to the discard pile at the end of a round.
    pub fn discard(&mut self, card: Card)
        ensures
            final(self)@ == (ShoeView { discards: old(self)@.discards.push(card), ..old(self)@ }),
    {
        self.discards.push(card);
        proof {
            assert(self@ == (ShoeView { discards: old(self)@.discards.push(card), ..old(self)@ }));
        }
    }

    /// Return several dealt cards to the discard pile at once, in order.
    pub fn discard_all(&mut self, cards: Vec<Card>)
        ensures
            final(self)@ == (ShoeView { discards: old(self)@.discards + cards@, ..old(self)@ }),
    {
        let mut cards = cards;
        let ghost added = cards@;
        self.discards.append(&mut cards);
        proof {
            assert(self@ == (ShoeView { discards: old(self)@.discards + added, ..old(self)@ }));
        }
    }

    /// Recombine the discard pile with the undealt cards and shuffle.
    ///
    /// Call this between rounds once the cut card has been reached, after
    /// every dealt card has been returned to the discard pile. Only cards
    /// the shoe holds are shuffled: cards still in hands stay out until
    /// they are discarded. The cut card goes a penetration fraction into
    /// the freshly shuffled stack; cards still in hands stay counted as
    /// dealt and do not move it.
    pub fn reshuffle(&mut self)
        requires
            old(self)@.capacity * 2 <= usize::MAX,
            old(self)@.penetration.is_penetration(),
        ensures
            final(self)@.cards.to_multiset() == old(self)@.cards.to_multiset().add(
                old(self)@.discards.to_multiset(),
            ),
            final(self)@.cards.len() == old(self)@.cards.len() + old(self)@.discards.len(),
            final(self)@.discards == Seq::<Card>::empty(),
            final(self)@.capacity == old(self)@.capacity,
            final(self)@.penetration == old(self)@.penetration,
            final(self)@.cut_index == final(self)@.dealt() + spec_cut_index(
                final(self)@.cards.len(),
                old(self)@.penetration,
            ),
    {
        let ghost before = self.cards@;
        let ghost pile = self.discards@;
        self.cards.append(&mut self.discards);
        proof {
            vstd::seq_lib::lemma_multiset_commutative(before, pile);
        }
        let dealt = self.cards_dealt();
        self.cut_index = dealt + cut_index(self.cards.len(), self.penetration);
        shuffle_cards(&mut self.cards, &mut self.rng);
    }

    /// True once the number of dealt cards has reached the cut card.
    pub fn cut_card_reached(&self) -> (b: bool)
        ensures
            b == self@.cut_reached(),
    {
        self.cards_dealt() >= self.cut_index
    }

    /// Number of cards dealt (drawn or burned) since the last shuffle.
    pub fn cards_dealt(&self) -> (n: usize)
        ensures
            n == self@.dealt(),
    {
        if self.cards.len() <= self.capacity {
            self.capacity - self.cards.len()
        } else {
            0
        }
    }

    /// Number of undealt cards left in the shoe.
    pub fn cards_remaining(&self) -> (n: usize)
        ensures
            n == self@.cards.len(),
    {
        self.cards.len()
    }

    /// Number of cards in the discard pile.
    pub fn discard_pile_size(&self) -> (n: usize)
        ensures
            n == self@.discards.len(),
    {
        self.discards.len()
    }

    /// The cards in the discard pile, oldest first. These are exactly the
    /// cards a counter has seen leave play.
    pub fn discards(&self) -> (d: &[Card])
        ensures
            d@ == self@.discards,
    {
        self.discards.as_slice()
    }

    /// Total cards the shoe was built with.
    pub fn capacity(&self) -> (n: usize)
        ensures
            n == self@.capacity,
    {
        self.capacity
    }

    /// The cut-card penetration this shoe was configured with.
    pub fn penetration(&self) -> (p: Fraction)
        ensures
            p == self@.penetration,
    {
        self.penetration
    }
}


impl Shoe {
    /// Open a fresh set of decks into an exhausted shoe: every card the
    /// shoe was built with, in factory order, shuffled. Used only when the
    /// shoe and the discard pile are both empty mid-round — every card is
    /// on the felt — so dealing can go on.
    pub fn replenish(&mut self)
        requires
            old(self)@.penetration.is_penetration(),
        ensures
            final(self)@.cards.to_multiset() == Seq::new(old(self)@.capacity, |j: int| deck_card(j)).to_multiset(),
            final(self)@.cards.len() == old(self)@.capacity,
            final(self)@.discards == old(self)@.discards,
            final(self)@.capacity == old(self)@.capacity,
            final(self)@.penetration == old(self)@.penetration,
            final(self)@.cut_index == old(self)@.cut_index,
    {
        let capacity = self.capacity;
        let mut cards: Vec<Card> = Vec::new();
        let mut i: usize = 0;
        while i < capacity
            invariant
                i <= capacity,
                cards@ == Seq::new(i as nat, |j: int| deck_card(j)),
            decreases capacity - i,
        {
            cards.push(deck_card_at(i));
            i = i + 1;
            proof {
                assert(cards@ =~= Seq::new(i as nat, |j: int| deck_card(j)));
            }
        }
        shuffle_cards(&mut cards, &mut self.rng);
        self.cards = cards;
    }
}
} // verus!
