use blackjack::action::ActionKind;
use blackjack::card::{Card, Rank, Suit};
use blackjack::strategy::basic_strategy;


/// Build a hand from ranks alone, cycling suits so tests stay terse.
fn hand(ranks: &[Rank]) -> Vec<Card> {
    ranks
        .iter()
        .zip(Suit::ALL.iter().cycle())
        .map(|(&rank, &suit)| Card::new(rank, suit))
        .collect()
}

fn up(rank: Rank) -> Card {
    Card::new(rank, Suit::Spades)
}

/// The full first-decision context: double, split, and surrender all
/// available, as on any fresh two-card hand.
fn first_two(cards: &[Card], upcard: Rank) -> ActionKind {
    basic_strategy(cards, up(upcard), true, true, true)
}

#[test]
fn sixteen_vs_ten_surrenders_else_hits() {
    let cards = hand(&[Rank::Ten, Rank::Six]);
    assert_eq!(first_two(&cards, Rank::Ten), ActionKind::Surrender);
    assert_eq!(first_two(&cards, Rank::Nine), ActionKind::Surrender);
    assert_eq!(first_two(&cards, Rank::Ace), ActionKind::Surrender);
    // After a hit (or on a split hand) surrender is gone: hit.
    assert_eq!(
        basic_strategy(&cards, up(Rank::Ten), true, true, false),
        ActionKind::Hit
    );
}

#[test]
fn fifteen_surrenders_only_against_ten() {
    let cards = hand(&[Rank::Ten, Rank::Five]);
    assert_eq!(first_two(&cards, Rank::Ten), ActionKind::Surrender);
    assert_eq!(first_two(&cards, Rank::Nine), ActionKind::Hit);
    assert_eq!(first_two(&cards, Rank::Ace), ActionKind::Hit);
    assert_eq!(first_two(&cards, Rank::Six), ActionKind::Stand);
}

#[test]
fn soft_sixteen_never_surrenders() {
    let cards = hand(&[Rank::Ace, Rank::Five]);
    assert_eq!(first_two(&cards, Rank::Ten), ActionKind::Hit);
}

#[test]
fn eleven_doubles_against_everything_including_ace() {
    let cards = hand(&[Rank::Six, Rank::Five]);
    for upcard in Rank::ALL {
        assert_eq!(first_two(&cards, upcard), ActionKind::Double);
    }
    // Three cards to 11 cannot double: hit.
    let three = hand(&[Rank::Two, Rank::Four, Rank::Five]);
    assert_eq!(
        basic_strategy(&three, up(Rank::Ace), false, false, false),
        ActionKind::Hit
    );
}

#[test]
fn ten_doubles_through_nine_and_hits_the_rest() {
    let cards = hand(&[Rank::Six, Rank::Four]);
    assert_eq!(first_two(&cards, Rank::Nine), ActionKind::Double);
    assert_eq!(first_two(&cards, Rank::Ten), ActionKind::Hit);
    assert_eq!(first_two(&cards, Rank::Ace), ActionKind::Hit);
}

#[test]
fn nine_doubles_against_three_through_six() {
    let cards = hand(&[Rank::Five, Rank::Four]);
    assert_eq!(first_two(&cards, Rank::Two), ActionKind::Hit);
    assert_eq!(first_two(&cards, Rank::Three), ActionKind::Double);
    assert_eq!(first_two(&cards, Rank::Six), ActionKind::Double);
    assert_eq!(first_two(&cards, Rank::Seven), ActionKind::Hit);
}

#[test]
fn soft_nineteen_stands_even_against_six() {
    // A-8 vs 6: stand under S17 basic strategy.
    let cards = hand(&[Rank::Ace, Rank::Eight]);
    assert_eq!(first_two(&cards, Rank::Six), ActionKind::Stand);
    assert_eq!(first_two(&cards, Rank::Ten), ActionKind::Stand);
}

#[test]
fn soft_eighteen_cells() {
    let cards = hand(&[Rank::Ace, Rank::Seven]);
    assert_eq!(first_two(&cards, Rank::Two), ActionKind::Stand);
    assert_eq!(first_two(&cards, Rank::Three), ActionKind::Double);
    assert_eq!(first_two(&cards, Rank::Six), ActionKind::Double);
    assert_eq!(first_two(&cards, Rank::Seven), ActionKind::Stand);
    assert_eq!(first_two(&cards, Rank::Eight), ActionKind::Stand);
    assert_eq!(first_two(&cards, Rank::Nine), ActionKind::Hit);
    assert_eq!(first_two(&cards, Rank::Ten), ActionKind::Hit);
    assert_eq!(first_two(&cards, Rank::Ace), ActionKind::Hit);
    // When doubling is unavailable the 3-6 cells fall back to stand.
    assert_eq!(
        basic_strategy(&cards, up(Rank::Four), false, false, false),
        ActionKind::Stand
    );
}

#[test]
fn soft_seventeen_and_below_double_or_hit() {
    assert_eq!(
        first_two(&hand(&[Rank::Ace, Rank::Six]), Rank::Three),
        ActionKind::Double
    );
    assert_eq!(
        first_two(&hand(&[Rank::Ace, Rank::Six]), Rank::Two),
        ActionKind::Hit
    );
    assert_eq!(
        first_two(&hand(&[Rank::Ace, Rank::Four]), Rank::Four),
        ActionKind::Double
    );
    assert_eq!(
        first_two(&hand(&[Rank::Ace, Rank::Two]), Rank::Five),
        ActionKind::Double
    );
    assert_eq!(
        first_two(&hand(&[Rank::Ace, Rank::Two]), Rank::Four),
        ActionKind::Hit
    );
}

#[test]
fn eights_split_against_everything() {
    let cards = hand(&[Rank::Eight, Rank::Eight]);
    for upcard in Rank::ALL {
        assert_eq!(first_two(&cards, upcard), ActionKind::Split);
    }
    // With splitting exhausted, 16 vs ten surrenders (else hits).
    assert_eq!(
        basic_strategy(&cards, up(Rank::Ten), true, false, true),
        ActionKind::Surrender
    );
    assert_eq!(
        basic_strategy(&cards, up(Rank::Ten), false, false, false),
        ActionKind::Hit
    );
}

#[test]
fn tens_never_split() {
    for cards in [
        hand(&[Rank::Ten, Rank::Ten]),
        hand(&[Rank::King, Rank::Queen]),
    ] {
        for upcard in Rank::ALL {
            assert_eq!(first_two(&cards, upcard), ActionKind::Stand);
        }
    }
}

#[test]
fn aces_always_split_and_play_soft_twelve_otherwise() {
    let cards = hand(&[Rank::Ace, Rank::Ace]);
    for upcard in Rank::ALL {
        assert_eq!(first_two(&cards, upcard), ActionKind::Split);
    }
    assert_eq!(
        basic_strategy(&cards, up(Rank::Six), false, false, false),
        ActionKind::Hit
    );
}

#[test]
fn nines_split_except_against_seven_ten_and_ace() {
    let cards = hand(&[Rank::Nine, Rank::Nine]);
    assert_eq!(first_two(&cards, Rank::Six), ActionKind::Split);
    assert_eq!(first_two(&cards, Rank::Seven), ActionKind::Stand);
    assert_eq!(first_two(&cards, Rank::Eight), ActionKind::Split);
    assert_eq!(first_two(&cards, Rank::Nine), ActionKind::Split);
    assert_eq!(first_two(&cards, Rank::Ten), ActionKind::Stand);
    assert_eq!(first_two(&cards, Rank::Ace), ActionKind::Stand);
}

#[test]
fn low_pairs_follow_the_das_chart() {
    let sevens = hand(&[Rank::Seven, Rank::Seven]);
    assert_eq!(first_two(&sevens, Rank::Seven), ActionKind::Split);
    assert_eq!(first_two(&sevens, Rank::Eight), ActionKind::Hit);
    let sixes = hand(&[Rank::Six, Rank::Six]);
    assert_eq!(first_two(&sixes, Rank::Two), ActionKind::Split);
    assert_eq!(first_two(&sixes, Rank::Seven), ActionKind::Hit);
    let fives = hand(&[Rank::Five, Rank::Five]);
    assert_eq!(first_two(&fives, Rank::Nine), ActionKind::Double);
    assert_eq!(first_two(&fives, Rank::Ten), ActionKind::Hit);
    let fours = hand(&[Rank::Four, Rank::Four]);
    assert_eq!(first_two(&fours, Rank::Five), ActionKind::Split);
    assert_eq!(first_two(&fours, Rank::Four), ActionKind::Hit);
    let threes = hand(&[Rank::Three, Rank::Three]);
    assert_eq!(first_two(&threes, Rank::Seven), ActionKind::Split);
    assert_eq!(first_two(&threes, Rank::Eight), ActionKind::Hit);
    let twos = hand(&[Rank::Two, Rank::Two]);
    assert_eq!(first_two(&twos, Rank::Two), ActionKind::Split);
    assert_eq!(first_two(&twos, Rank::Eight), ActionKind::Hit);
}

#[test]
fn twelve_hits_the_deuce_and_trey_and_stands_on_four_through_six() {
    let cards = hand(&[Rank::Ten, Rank::Two]);
    assert_eq!(first_two(&cards, Rank::Two), ActionKind::Hit);
    assert_eq!(first_two(&cards, Rank::Three), ActionKind::Hit);
    assert_eq!(first_two(&cards, Rank::Four), ActionKind::Stand);
    assert_eq!(first_two(&cards, Rank::Five), ActionKind::Stand);
    assert_eq!(first_two(&cards, Rank::Six), ActionKind::Stand);
    assert_eq!(first_two(&cards, Rank::Seven), ActionKind::Hit);
}

#[test]
fn stiff_hands_stand_against_weak_upcards_and_hit_strong_ones() {
    let thirteen = hand(&[Rank::Ten, Rank::Three]);
    assert_eq!(first_two(&thirteen, Rank::Two), ActionKind::Stand);
    assert_eq!(first_two(&thirteen, Rank::Seven), ActionKind::Hit);
    let sixteen = hand(&[Rank::Ten, Rank::Six]);
    assert_eq!(first_two(&sixteen, Rank::Six), ActionKind::Stand);
    assert_eq!(first_two(&sixteen, Rank::Seven), ActionKind::Hit);
}

#[test]
fn seventeen_and_up_always_stand() {
    let cards = hand(&[Rank::Ten, Rank::Seven]);
    for upcard in Rank::ALL {
        assert_eq!(first_two(&cards, upcard), ActionKind::Stand);
    }
}

#[test]
fn the_returned_action_is_always_playable() {
    // Whatever the cell, a hand that can only hit or stand gets one of
    // those two.
    for a in Rank::ALL {
        for b in Rank::ALL {
            for upcard in Rank::ALL {
                let cards = hand(&[a, b]);
                let action = basic_strategy(&cards, up(upcard), false, false, false);
                assert!(matches!(action, ActionKind::Hit | ActionKind::Stand));
            }
        }
    }
}
