//! Hand evaluation: best totals, soft/hard classification, and the
//! two-card predicates (blackjack, rank pair, value pair).
use vstd::prelude::*;
use crate::card::{Card, Rank, rank_value};

verus! {

/// The points a card contributes when every ace counts as 1.
pub open spec fn hard_points(card: Card) -> nat {
    if card.rank == Rank::Ace {
        1
    } else {
        rank_value(card.rank) as nat
    }
}

/// The hand's total with every ace counted as 1.
pub open spec fn hard_total(cards: Seq<Card>) -> nat
    decreases cards.len(),
{
    if cards.len() == 0 {
        0
    } else {
        hard_total(cards.drop_last()) + hard_points(cards.last())
    }
}

/// Whether any card of the hand is an ace.
pub open spec fn has_ace(cards: Seq<Card>) -> bool {
    exists|i: int| 0 <= i < cards.len() && #[trigger] cards[i].rank == Rank::Ace
}

/// Whether one ace can count as 11 without busting the hand.
pub open spec fn hand_soft(cards: Seq<Card>) -> bool {
    has_ace(cards) && hard_total(cards) + 10 <= 21
}

/// The best total of a hand: one ace promoted to 11 when that does not
/// bust, otherwise the all-aces-as-one total (capped at 255 so that it
/// fits a byte).
pub open spec fn hand_total(cards: Seq<Card>) -> u8 {
    if hand_soft(cards) {
        (hard_total(cards) + 10) as u8
    } else if hard_total(cards) <= 255 {
        hard_total(cards) as u8
    } else {
        255
    }
}

/// A two-card 21.
pub open spec fn spec_is_blackjack(cards: Seq<Card>) -> bool {
    cards.len() == 2 && hand_total(cards) == 21
}

/// Two cards of the same blackjack value.
pub open spec fn spec_is_value_pair(cards: Seq<Card>) -> bool {
    cards.len() == 2 && rank_value(cards[0].rank) == rank_value(cards[1].rank)
}

/// The hard total of a sequence grows by one card's points per card.
pub proof fn lemma_hard_total_push(cards: Seq<Card>, card: Card)
    ensures
        hard_total(cards.push(card)) == hard_total(cards) + hard_points(card),
{
    assert(cards.push(card).drop_last() =~= cards);
}

/// Two cards of a hand of two: the hard total is their sum.
pub proof fn lemma_hard_total_two(cards: Seq<Card>)
    requires
        cards.len() == 2,
    ensures
        hard_total(cards) == hard_points(cards[0]) + hard_points(cards[1]),
{
    let one = cards.drop_last();
    assert(one.len() == 1);
    assert(one.drop_last() =~= Seq::<Card>::empty());
    assert(hard_total(one.drop_last()) == 0);
    assert(one.last() == cards[0]);
    assert(hard_total(one) == hard_points(cards[0]));
}

/// A card is worth at most ten points with aces as one.
pub proof fn lemma_hard_points_bounded(card: Card)
    ensures
        1 <= hard_points(card) <= 10,
{
}

/// A run of cards counts at most ten points a card, aces as one.
pub proof fn lemma_hard_total_bounded(s: Seq<Card>)
    ensures
        hard_total(s) <= 10 * s.len(),
    decreases s.len(),
{
    if s.len() > 0 {
        lemma_hard_total_bounded(s.drop_last());
    }
}

/// The hard total of two runs of cards laid end to end is their sum.
pub proof fn lemma_hard_total_concat(a: Seq<Card>, b: Seq<Card>)
    ensures
        hard_total(a + b) == hard_total(a) + hard_total(b),
    decreases b.len(),
{
    if b.len() == 0 {
        assert(a + b =~= a);
    } else {
        lemma_hard_total_concat(a, b.drop_last());
        assert((a + b).drop_last() =~= a + b.drop_last());
        assert((a + b).last() == b.last());
    }
}

/// Taking one card out of a run lowers its hard total by that card's points.
pub proof fn lemma_hard_total_remove(s: Seq<Card>, i: int)
    requires
        0 <= i < s.len(),
    ensures
        hard_total(s) == hard_total(s.remove(i)) + hard_points(s[i]),
{
    let pre = s.subrange(0, i);
    let post = s.subrange(i + 1, s.len() as int);
    assert(s =~= pre.push(s[i]) + post);
    assert(s.remove(i) =~= pre + post);
    lemma_hard_total_concat(pre.push(s[i]), post);
    lemma_hard_total_concat(pre, post);
    lemma_hard_total_push(pre, s[i]);
}

/// The hard total depends only on which cards there are, not their order.
pub proof fn lemma_hard_total_multiset(a: Seq<Card>, b: Seq<Card>)
    requires
        a.to_multiset() == b.to_multiset(),
    ensures
        hard_total(a) == hard_total(b),
    decreases a.len(),
{
    broadcast use vstd::seq_lib::group_to_multiset_ensures;
    if a.len() == 0 {
        assert(b.to_multiset().len() == 0);
        assert(b.len() == 0);
    } else {
        let x = a.last();
        assert(a.to_multiset().count(x) > 0) by {
            assert(a =~= a.drop_last().push(x));
        }
        assert(b.contains(x));
        let j = choose|j: int| 0 <= j < b.len() && b[j] == x;
        let b2 = b.remove(j);
        assert(a =~= a.drop_last().push(x));
        assert(a.drop_last().to_multiset() =~= b2.to_multiset());
        lemma_hard_total_multiset(a.drop_last(), b2);
        lemma_hard_total_remove(b, j);
    }
}

/// A hand whose best total is under 21 counts at most 20 with aces as one.
pub proof fn lemma_hard_under_best(cards: Seq<Card>)
    ensures
        hand_total(cards) < 21 ==> hard_total(cards) <= 20,
{
}

/// The blackjack value of a set of cards.
///
/// Computed with [`HandValue::of`]. The value is the *best* legal reading
/// of the hand: aces count as 11 wherever that does not bust the hand,
/// otherwise as 1. A hand is *soft* when an ace is currently counted as 11
/// (so the hand cannot bust by taking one more card); otherwise *hard*.
#[derive(Debug, Clone, Copy, PartialEq, Eq, Structural, Hash)]
pub struct HandValue {
    total: u8,
    soft: bool,
}

impl HandValue {
    /// The best total, as a specification.
    pub closed spec fn spec_total(self) -> u8 {
        self.total
    }

    /// Whether an ace counts as 11, as a specification.
    pub closed spec fn spec_soft(self) -> bool {
        self.soft
    }

    /// Evaluate the cards of a hand. An empty slice is a hard 0.
    pub fn of(cards: &[Card]) -> (v: HandValue)
        ensures
            v.spec_total() == hand_total(cards@),
            v.spec_soft() == hand_soft(cards@),
    {
        let mut total: u32 = 0;
        let mut aces = false;
        let mut i: usize = 0;
        while i < cards.len()
            invariant
                i <= cards@.len(),
                total as int == if hard_total(cards@.subrange(0, i as int)) <= u32::MAX {
                    hard_total(cards@.subrange(0, i as int)) as int
                } else {
                    u32::MAX as int
                },
                aces == has_ace(cards@.subrange(0, i as int)),
            decreases cards.len() - i,
        {
            let card = cards[i];
            proof {
                let prefix = cards@.subrange(0, i as int);
                assert(cards@.subrange(0, i + 1) =~= prefix.push(card));
                lemma_hard_total_push(prefix, card);
                if has_ace(prefix.push(card)) && !has_ace(prefix) {
                    let j = choose|j: int| 0 <= j < prefix.push(card).len()
                        && #[trigger] prefix.push(card)[j].rank == Rank::Ace;
                    assert(j == prefix.len());
                }
                if has_ace(prefix) {
                    let j = choose|j: int| 0 <= j < prefix.len() && #[trigger] prefix[j].rank
                        == Rank::Ace;
                    assert(prefix.push(card)[j].rank == Rank::Ace);
                }
                if card.rank == Rank::Ace {
                    assert(prefix.push(card)[prefix.len() as int].rank == Rank::Ace);
                }
            }
            // Count every ace as 1 for now; promote one to 11 below if legal.
            if card.rank.is_ace() {
                aces = true;
                total = total.saturating_add(1);
            } else {
                total = total.saturating_add(card.value() as u32);
            }
            i += 1;
        }
        proof {
            assert(cards@.subrange(0, cards@.len() as int) =~= cards@);
        }
        // At most one ace can count as 11 (two would already total 22).
        if aces && total <= 11 {
            HandValue { total: (total + 10) as u8, soft: true }
        } else {
            HandValue { total: if total > 255 { 255 } else { total as u8 }, soft: false }
        }
    }

    /// The best total for the hand: the highest legal reading, or the
    /// minimum reading when every reading busts.
    #[verifier::when_used_as_spec(spec_total)]
    pub fn total(self) -> (t: u8)
        ensures
            t == self.spec_total(),
    {
        self.total
    }

    /// True when an ace is counted as 11 in [`HandValue::total`].
    #[verifier::when_used_as_spec(spec_soft)]
    pub fn is_soft(self) -> (b: bool)
        ensures
            b == self.spec_soft(),
    {
        self.soft
    }

    /// True when even the best total exceeds 21.
    pub fn is_bust(self) -> (b: bool)
        ensures
            b == (self.spec_total() > 21),
    {
        self.total > 21
    }
}

/// True when the cards are a *two-card* 21: an ace plus a ten-value card.
///
/// This is the primitive "natural" predicate only; whether a two-card 21
/// after a split still pays as blackjack is decided by the table.
pub fn is_blackjack(cards: &[Card]) -> (b: bool)
    ensures
        b == spec_is_blackjack(cards@),
{
    cards.len() == 2 && HandValue::of(cards).total() == 21
}

/// True when the hand is exactly two cards of the same [`Rank`].
pub fn is_rank_pair(cards: &[Card]) -> (b: bool)
    ensures
        b == (cards@.len() == 2 && cards@[0].rank == cards@[1].rank),
{
    cards.len() == 2 && cards[0].rank == cards[1].rank
}

/// True when the hand is exactly two cards of the same blackjack value.
/// Every rank pair is also a value pair.
pub fn is_value_pair(cards: &[Card]) -> (b: bool)
    ensures
        b == spec_is_value_pair(cards@),
{
    cards.len() == 2 && cards[0].value() == cards[1].value()
}

/// True when the hand is a pair of aces.
pub fn is_ace_pair(cards: &[Card]) -> (b: bool)
    ensures
        b == (cards@.len() == 2 && cards@[0].rank == Rank::Ace && cards@[1].rank == Rank::Ace),
{
    cards.len() == 2 && cards[0].rank.is_ace() && cards[1].rank.is_ace()
}

/// Every rank pair is a value pair.
pub proof fn lemma_rank_pair_is_value_pair(cards: Seq<Card>)
    requires
        cards.len() == 2,
        cards[0].rank == cards[1].rank,
    ensures
        spec_is_value_pair(cards),
{
}

/// A natural is exactly an ace and a ten-value card.
pub proof fn lemma_blackjack_is_ace_and_ten(cards: Seq<Card>)
    requires
        cards.len() == 2,
    ensures
        spec_is_blackjack(cards) <==> ((cards[0].rank == Rank::Ace && rank_value(cards[1].rank)
            == 10) || (cards[1].rank == Rank::Ace && rank_value(cards[0].rank) == 10)),
{
    lemma_hard_total_two(cards);
    if cards[0].rank == Rank::Ace || cards[1].rank == Rank::Ace {
        let j = if cards[0].rank == Rank::Ace { 0int } else { 1int };
        assert(cards[j].rank == Rank::Ace);
    }
}

} // verus!
