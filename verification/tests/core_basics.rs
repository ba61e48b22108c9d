use blackjack::action::{Action, ActionError, ActionKind};
use blackjack::card::{Card, Rank, Suit};
use blackjack::hand::{HandValue, is_ace_pair, is_blackjack, is_rank_pair, is_value_pair};
use blackjack::rules::{BlackjackPayout, Fraction, Rules, Soft17};
use blackjack::snapshot::Phase;
use blackjack::ENGINE_VERSION;

fn hand(ranks: &[Rank]) -> Vec<Card> {
    ranks
        .iter()
        .zip(Suit::ALL.iter().cycle())
        .map(|(&rank, &suit)| Card::new(rank, suit))
        .collect()
}

fn value(ranks: &[Rank]) -> HandValue {
    HandValue::of(&hand(ranks))
}

#[test]
fn engine_version_matches_crate() {
    assert_eq!(ENGINE_VERSION, "0.1.0");
}

#[test]
fn every_action_maps_to_its_kind() {
    let pairs = [
        (Action::PlaceBet(10), ActionKind::PlaceBet),
        (Action::Deal, ActionKind::Deal),
        (Action::Hit, ActionKind::Hit),
        (Action::Stand, ActionKind::Stand),
        (Action::Double, ActionKind::Double),
        (Action::Split, ActionKind::Split),
        (Action::Surrender, ActionKind::Surrender),
        (Action::TakeInsurance, ActionKind::TakeInsurance),
        (Action::DeclineInsurance, ActionKind::DeclineInsurance),
        (Action::NextRound, ActionKind::NextRound),
    ];
    for (action, kind) in pairs {
        assert_eq!(action.kind(), kind);
    }
}

#[test]
fn errors_render_useful_messages() {
    let err = ActionError::BetOutOfRange {
        bet: 5,
        min: 10,
        max: 500,
    };
    assert_eq!(
        err.to_string(),
        "bet $5 is outside the table limits $10-$500"
    );
}

#[test]
fn every_action_error_has_its_message() {
    assert_eq!(
        ActionError::SeatOutOfRange { seat: 9, seats: 7 }.to_string(),
        "seat 9 is out of range for a 7-seat table"
    );
    assert_eq!(
        ActionError::WrongPhase { action: ActionKind::Hit, phase: Phase::Betting }.to_string(),
        "Hit is not legal during the Betting phase"
    );
    assert_eq!(
        ActionError::OutOfTurn { seat: 2, active_seat: 0 }.to_string(),
        "seat 2 acted but seat 0 is active"
    );
    assert_eq!(ActionError::NoBetsPlaced.to_string(), "cannot deal with no bets placed");
    assert_eq!(
        ActionError::DoubleNotAllowed.to_string(),
        "doubling is not allowed on this hand"
    );
    assert_eq!(
        ActionError::SplitNotAllowed.to_string(),
        "splitting is not allowed on this hand"
    );
    assert_eq!(
        ActionError::SurrenderNotAllowed.to_string(),
        "surrender is not allowed on this hand"
    );
}

#[test]
fn rank_values_follow_blackjack_rules() {
    assert_eq!(Rank::Two.value(), 2);
    assert_eq!(Rank::Nine.value(), 9);
    assert_eq!(Rank::Ten.value(), 10);
    assert_eq!(Rank::Jack.value(), 10);
    assert_eq!(Rank::Queen.value(), 10);
    assert_eq!(Rank::King.value(), 10);
    assert_eq!(Rank::Ace.value(), 11);
}

#[test]
fn ten_value_ranks_are_exactly_the_four_broadway_tens() {
    let tens: Vec<Rank> = Rank::ALL.into_iter().filter(|r| r.is_ten_value()).collect();
    assert_eq!(tens, [Rank::Ten, Rank::Jack, Rank::Queen, Rank::King]);
}

#[test]
fn only_the_ace_is_an_ace() {
    let aces: Vec<Rank> = Rank::ALL.into_iter().filter(|r| r.is_ace()).collect();
    assert_eq!(aces, [Rank::Ace]);
}

#[test]
fn a_card_is_worth_its_rank() {
    assert_eq!(Card::new(Rank::Queen, Suit::Hearts).value(), 10);
    assert_eq!(Card::new(Rank::Ace, Suit::Clubs).value(), 11);
    assert_eq!(Card::new(Rank::Five, Suit::Spades).value(), 5);
}

#[test]
fn empty_hand_is_hard_zero() {
    let v = value(&[]);
    assert_eq!(v.total(), 0);
    assert!(!v.is_soft());
    assert!(!v.is_bust());
}

#[test]
fn hard_totals_without_aces() {
    let v = value(&[Rank::Ten, Rank::Seven]);
    assert_eq!(v.total(), 17);
    assert!(!v.is_soft());
    assert!(!v.is_bust());
}

#[test]
fn single_ace_hand_is_soft() {
    let v = value(&[Rank::Ace, Rank::Six]);
    assert_eq!(v.total(), 17);
    assert!(v.is_soft());
}

#[test]
fn ace_pair_is_soft_twelve() {
    let v = value(&[Rank::Ace, Rank::Ace]);
    assert_eq!(v.total(), 12);
    assert!(v.is_soft());
}

#[test]
fn ace_ace_nine_is_soft_twenty_one() {
    let v = value(&[Rank::Ace, Rank::Ace, Rank::Nine]);
    assert_eq!(v.total(), 21);
    assert!(v.is_soft());
}

#[test]
fn ace_demotes_to_one_when_eleven_would_bust() {
    let v = value(&[Rank::Ace, Rank::Six, Rank::Ten]);
    assert_eq!(v.total(), 17);
    assert!(!v.is_soft());
}

#[test]
fn many_aces_use_at_most_one_eleven() {
    let v = value(&[Rank::Ace, Rank::Ace, Rank::Ace, Rank::Ace]);
    assert_eq!(v.total(), 14);
    assert!(v.is_soft());

    let v = value(&[Rank::Ace, Rank::Ace, Rank::Ace, Rank::Nine]);
    assert_eq!(v.total(), 12);
    assert!(!v.is_soft());
}

#[test]
fn bust_hands_report_minimum_total() {
    let v = value(&[Rank::Ten, Rank::Nine, Rank::Five]);
    assert_eq!(v.total(), 24);
    assert!(v.is_bust());
    assert!(!v.is_soft());

    let v = value(&[Rank::Ten, Rank::Nine, Rank::Five, Rank::Ace]);
    assert_eq!(v.total(), 25);
    assert!(v.is_bust());
}

#[test]
fn twenty_one_at_exactly_two_cards_is_blackjack() {
    assert!(is_blackjack(&hand(&[Rank::Ace, Rank::King])));
    assert!(is_blackjack(&hand(&[Rank::Ten, Rank::Ace])));
}

#[test]
fn twenty_one_in_three_cards_is_not_blackjack() {
    let cards = hand(&[Rank::Seven, Rank::Seven, Rank::Seven]);
    assert_eq!(HandValue::of(&cards).total(), 21);
    assert!(!is_blackjack(&cards));
}

#[test]
fn two_card_non_twenty_one_is_not_blackjack() {
    assert!(!is_blackjack(&hand(&[Rank::Ten, Rank::Ten])));
    assert!(!is_blackjack(&hand(&[Rank::Ace, Rank::Nine])));
}

#[test]
fn rank_pairs_require_identical_ranks() {
    assert!(is_rank_pair(&hand(&[Rank::Eight, Rank::Eight])));
    assert!(is_rank_pair(&hand(&[Rank::Ace, Rank::Ace])));
    assert!(!is_rank_pair(&hand(&[Rank::King, Rank::Queen])));
    assert!(!is_rank_pair(&hand(&[Rank::Eight, Rank::Nine])));
}

#[test]
fn mixed_ten_value_cards_are_a_value_pair_but_not_a_rank_pair() {
    let king_queen = hand(&[Rank::King, Rank::Queen]);
    assert!(!is_rank_pair(&king_queen));
    assert!(is_value_pair(&king_queen));

    let ten_jack = hand(&[Rank::Ten, Rank::Jack]);
    assert!(!is_rank_pair(&ten_jack));
    assert!(is_value_pair(&ten_jack));
}

#[test]
fn every_rank_pair_is_a_value_pair() {
    for rank in Rank::ALL {
        let cards = hand(&[rank, rank]);
        assert!(is_rank_pair(&cards));
        assert!(is_value_pair(&cards));
    }
}

#[test]
fn pair_predicates_reject_non_two_card_hands() {
    assert!(!is_rank_pair(&hand(&[Rank::Eight])));
    assert!(!is_rank_pair(&hand(&[Rank::Eight, Rank::Eight, Rank::Eight])));
    assert!(!is_value_pair(&hand(&[Rank::King])));
    assert!(!is_value_pair(&hand(&[Rank::King, Rank::Queen, Rank::Ten])));
}

#[test]
fn ace_pair_predicate_matches_only_two_aces() {
    assert!(is_ace_pair(&hand(&[Rank::Ace, Rank::Ace])));
    assert!(!is_ace_pair(&hand(&[Rank::Ace, Rank::King])));
    assert!(!is_ace_pair(&hand(&[Rank::Ace, Rank::Ace, Rank::Ace])));
}

#[test]
fn canonical_rules_match_the_posted_table() {
    let rules = Rules::canonical();
    assert_eq!(rules.decks, 6);
    assert_eq!(rules.penetration, Fraction { numerator: 3, denominator: 4 });
    assert_eq!(rules.soft_17, Soft17::Stand);
    assert_eq!(rules.blackjack_payout, BlackjackPayout::ThreeToTwo);
    assert!(rules.double_on_any_two);
    assert!(rules.double_after_split);
    assert_eq!(rules.max_split_hands, 4);
    assert!(rules.split_aces_one_card);
    assert!(rules.late_surrender);
    assert!(rules.insurance_offered);
    assert_eq!(rules.min_bet, 10);
    assert_eq!(rules.max_bet, 500);
    assert_eq!(rules.seats, 7);
}

#[test]
fn three_to_two_pays_exactly_on_even_bets_and_rounds_down_on_odd() {
    let p = BlackjackPayout::ThreeToTwo;
    assert_eq!(p.winnings(10), 15);
    assert_eq!(p.winnings(20), 30);
    assert_eq!(p.winnings(500), 750);
    assert_eq!(p.winnings(15), 22);
    assert_eq!(p.winnings(1), 1);
}

#[test]
fn six_to_five_pays_exactly_on_five_dollar_multiples_and_rounds_down_otherwise() {
    let p = BlackjackPayout::SixToFive;
    assert_eq!(p.winnings(10), 12);
    assert_eq!(p.winnings(25), 30);
    assert_eq!(p.winnings(12), 14);
}
