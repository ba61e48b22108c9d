//! Basic strategy for the canonical table: six decks, dealer stands on
//! soft 17, double after split, late surrender.
//!
//! The chart is data — cells over (hand, upcard) — resolved against what
//! the current hand may legally do, so the returned action is always
//! playable: when a cell says "double else hit" and doubling is
//! unavailable, the fallback is returned. Basic strategy never takes
//! insurance; callers offering insurance should decline.
use vstd::prelude::*;
use crate::action::ActionKind;
use crate::card::{Card, rank_value};
use crate::hand::{HandValue, hand_soft, hand_total, is_value_pair, spec_is_value_pair};

verus! {

/// Whether the chart splits a pair of cards worth `pair` against an
/// upcard worth `up` (ace counted as 11).
pub open spec fn chart_splits(pair: int, up: int) -> bool {
    if pair == 11 || pair == 8 {
        // Aces and eights, always.
        true
    } else if pair == 10 || pair == 5 {
        // Tens stand pat; fives play as a hard 10.
        false
    } else if pair == 9 {
        (2 <= up <= 6) || up == 8 || up == 9
    } else if pair == 7 {
        2 <= up <= 7
    } else if pair == 6 {
        2 <= up <= 6
    } else if pair == 4 {
        // 4-4 splits only where double-after-split makes it worthwhile.
        up == 5 || up == 6
    } else if pair == 2 || pair == 3 {
        2 <= up <= 7
    } else {
        false
    }
}

/// The chart's play for a soft `total` against `up`.
pub open spec fn chart_soft(total: int, up: int, can_double: bool) -> ActionKind {
    if 19 <= total <= 21 {
        ActionKind::Stand
    } else if total == 18 {
        if 3 <= up <= 6 && can_double {
            ActionKind::Double
        } else if 2 <= up <= 8 {
            ActionKind::Stand
        } else {
            ActionKind::Hit
        }
    } else if total == 17 && 3 <= up <= 6 && can_double {
        ActionKind::Double
    } else if (total == 15 || total == 16) && 4 <= up <= 6 && can_double {
        ActionKind::Double
    } else if (total == 13 || total == 14) && 5 <= up <= 6 && can_double {
        ActionKind::Double
    } else {
        ActionKind::Hit
    }
}

/// The chart's play for a hard `total` against `up`.
pub open spec fn chart_hard(total: int, up: int, can_double: bool) -> ActionKind {
    if total >= 17 {
        ActionKind::Stand
    } else if 13 <= total <= 16 && 2 <= up <= 6 {
        ActionKind::Stand
    } else if total == 12 && 4 <= up <= 6 {
        ActionKind::Stand
    } else if total == 11 && can_double {
        ActionKind::Double
    } else if total == 10 && up <= 9 && can_double {
        ActionKind::Double
    } else if total == 9 && 3 <= up <= 6 && can_double {
        ActionKind::Double
    } else {
        ActionKind::Hit
    }
}

/// The basic-strategy play: pairs first, then late surrender (hard 16
/// against 9, ten, or ace; hard 15 against ten), then the soft or hard
/// chart.
pub open spec fn spec_basic_strategy(
    cards: Seq<Card>,
    upcard: Card,
    can_double: bool,
    can_split: bool,
    can_surrender: bool,
) -> ActionKind {
    let up = rank_value(upcard.rank) as int;
    let total = hand_total(cards) as int;
    let soft = hand_soft(cards);
    if can_split && spec_is_value_pair(cards) && chart_splits(
        rank_value(cards[0].rank) as int,
        up,
    ) {
        ActionKind::Split
    } else if can_surrender && !soft && ((total == 16 && 9 <= up <= 11) || (total == 15 && up
        == 10)) {
        ActionKind::Surrender
    } else if soft {
        chart_soft(total, up, can_double)
    } else {
        chart_hard(total, up, can_double)
    }
}

/// A hard 10 doubles against every upcard worth 2 through 9 when doubling
/// is allowed, and otherwise — against a ten or an ace, or when doubling is
/// not on offer — takes a card. Whether splitting or surrendering is on
/// offer makes no difference to it.
pub proof fn lemma_hard_ten(
    cards: Seq<Card>,
    upcard: Card,
    can_double: bool,
    can_split: bool,
    can_surrender: bool,
)
    requires
        hand_total(cards) == 10,
        !hand_soft(cards),
    ensures
        can_double && 2 <= rank_value(upcard.rank) <= 9 ==> spec_basic_strategy(
            cards,
            upcard,
            can_double,
            can_split,
            can_surrender,
        ) == ActionKind::Double,
        !(can_double && 2 <= rank_value(upcard.rank) <= 9) ==> spec_basic_strategy(
            cards,
            upcard,
            can_double,
            can_split,
            can_surrender,
        ) == ActionKind::Hit,
{
    if spec_is_value_pair(cards) {
        crate::hand::lemma_hard_total_two(cards);
        assert(rank_value(cards[0].rank) == 5);
    }
}

/// Hard hands at the extremes: with no split on offer, a hard 17 or more
/// always stands and a hard 8 or less always takes a card, whatever the
/// upcard; a soft 19 or more always stands.
pub proof fn lemma_hard_extremes(
    cards: Seq<Card>,
    upcard: Card,
    can_double: bool,
    can_surrender: bool,
)
    ensures
        !hand_soft(cards) && hand_total(cards) >= 17 ==> spec_basic_strategy(
            cards,
            upcard,
            can_double,
            false,
            can_surrender,
        ) == ActionKind::Stand,
        !hand_soft(cards) && hand_total(cards) <= 8 ==> spec_basic_strategy(
            cards,
            upcard,
            can_double,
            false,
            can_surrender,
        ) == ActionKind::Hit,
        hand_soft(cards) && hand_total(cards) >= 19 ==> spec_basic_strategy(
            cards,
            upcard,
            can_double,
            false,
            can_surrender,
        ) == ActionKind::Stand,
{
}

/// The basic-strategy action for a hand against a dealer upcard, under the
/// canonical rules.
///
/// `can_double`, `can_split`, and `can_surrender` say what the table will
/// legally accept for this hand right now; cells whose first choice is
/// unavailable resolve to their fallback. The result is always one of
/// `Hit`, `Stand`, `Double`, `Split`, or `Surrender`, and never an
/// unavailable one.
pub fn basic_strategy(
    cards: &[Card],
    upcard: Card,
    can_double: bool,
    can_split: bool,
    can_surrender: bool,
) -> (k: ActionKind)
    ensures
        k == spec_basic_strategy(cards@, upcard, can_double, can_split, can_surrender),
        k == ActionKind::Hit || k == ActionKind::Stand || k == ActionKind::Double || k
            == ActionKind::Split || k == ActionKind::Surrender,
        k == ActionKind::Double ==> can_double,
        k == ActionKind::Split ==> can_split,
        k == ActionKind::Surrender ==> can_surrender,
{
    let up = upcard.value();  // 2..=11, ace counted as 11.
    // Pairs first. Splitting is by blackjack value, matching the engine:
    // any two ten-value cards are a (never split) pair.
    if can_split && is_value_pair(cards) {
        let pair = cards[0].value();
        let split = if pair == 11 || pair == 8 {
            true
        } else if pair == 10 || pair == 5 {
            false
        } else if pair == 9 {
            (2 <= up && up <= 6) || up == 8 || up == 9
        } else if pair == 7 {
            2 <= up && up <= 7
        } else if pair == 6 {
            2 <= up && up <= 6
        } else if pair == 4 {
            up == 5 || up == 6
        } else if pair == 2 || pair == 3 {
            2 <= up && up <= 7
        } else {
            false
        };
        if split {
            return ActionKind::Split;
        }
    }
    let value = HandValue::of(cards);
    let total = value.total();
    let soft = value.is_soft();
    // Late surrender: hard 16 against 9, ten, or ace; hard 15 against ten.
    if can_surrender && !soft && ((total == 16 && 9 <= up && up <= 11) || (total == 15 && up
        == 10)) {
        return ActionKind::Surrender;
    }
    if soft {
        if 19 <= total && total <= 21 {
            ActionKind::Stand
        } else if total == 18 {
            if 3 <= up && up <= 6 && can_double {
                ActionKind::Double
            } else if 2 <= up && up <= 8 {
                ActionKind::Stand
            } else {
                ActionKind::Hit
            }
        } else if total == 17 && 3 <= up && up <= 6 && can_double {
            ActionKind::Double
        } else if (total == 15 || total == 16) && 4 <= up && up <= 6 && can_double {
            ActionKind::Double
        } else if (total == 13 || total == 14) && 5 <= up && up <= 6 && can_double {
            ActionKind::Double
        } else {
            ActionKind::Hit
        }
    } else if total >= 17 {
        ActionKind::Stand
    } else if 13 <= total && total <= 16 && 2 <= up && up <= 6 {
        ActionKind::Stand
    } else if total == 12 && 4 <= up && up <= 6 {
        ActionKind::Stand
    } else if total == 11 && can_double {
        ActionKind::Double
    } else if total == 10 && up <= 9 && can_double {
        ActionKind::Double
    } else if total == 9 && 3 <= up && up <= 6 && can_double {
        ActionKind::Double
    } else {
        ActionKind::Hit
    }
}

} // verus!
