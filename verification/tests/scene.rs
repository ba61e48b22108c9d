use blackjack::card::{Rank, Suit};
use blackjack::chips::{ChipStack, Denomination};
use blackjack::motion::SoundCue;
use blackjack::rules::{BlackjackPayout, Rules, Soft17};
use blackjack::event::HandOutcome;
use blackjack::scene::{
    bet_swept, chip_style, house_float, is_court, pile_chips, placard_lines, placard_notes,
    rack_piles, rank_label, suit_color, suit_glyph,
};
use blackjack::scene::{SeatLight, insurance_visible, seat_light};
use blackjack::snapshot::{ActiveHand, HandSnapshot, HandStatus, Phase};

#[test]
fn courts_are_exactly_jack_queen_king() {
    let courts: Vec<Rank> = Rank::ALL.into_iter().filter(|&r| is_court(r)).collect();
    assert_eq!(courts, [Rank::Jack, Rank::Queen, Rank::King]);
}

#[test]
fn rank_labels_match_card_printing() {
    assert_eq!(rank_label(Rank::Ace), "A");
    assert_eq!(rank_label(Rank::Ten), "10");
    assert_eq!(rank_label(Rank::Two), "2");
    assert_eq!(rank_label(Rank::King), "K");
}

#[test]
fn hearts_and_diamonds_are_red_clubs_and_spades_black() {
    assert_eq!(suit_color(Suit::Hearts), suit_color(Suit::Diamonds));
    assert_eq!(suit_color(Suit::Clubs), suit_color(Suit::Spades));
    assert_ne!(suit_color(Suit::Hearts), suit_color(Suit::Spades));
    let glyphs: Vec<&str> = Suit::ALL.into_iter().map(suit_glyph).collect();
    assert_eq!(glyphs, ["\u{2663}", "\u{2666}", "\u{2665}", "\u{2660}"]);
}

#[test]
fn chip_styles_are_distinct_per_denomination() {
    let bodies: Vec<&str> = Denomination::ALL
        .into_iter()
        .map(|d| chip_style(d).body)
        .collect();
    for (i, a) in bodies.iter().enumerate() {
        for b in &bodies[i + 1..] {
            assert_ne!(a, b);
        }
    }
}

#[test]
fn bet_piles_put_big_chips_on_the_bottom() {
    let pile = pile_chips(&ChipStack::change(85));
    assert_eq!(
        pile,
        [
            Denomination::TwentyFive,
            Denomination::TwentyFive,
            Denomination::TwentyFive,
            Denomination::Five,
            Denomination::Five,
        ]
    );
    assert_eq!(pile.len() as u32, ChipStack::change(85).chip_count());
    assert!(pile_chips(&ChipStack::new()).is_empty());
}

#[test]
fn rack_piles_split_tall_stacks() {
    let mut stack = ChipStack::new();
    stack.add_chips(Denomination::Five, 25);
    stack.add_chips(Denomination::Hundred, 3);
    let piles = rack_piles(&stack, 10);
    assert_eq!(
        piles,
        [
            (Denomination::Hundred, 3),
            (Denomination::Five, 10),
            (Denomination::Five, 10),
            (Denomination::Five, 5),
        ]
    );
    let total: u32 = piles.iter().map(|&(_, n)| n).sum();
    assert_eq!(total, stack.chip_count());
}

#[test]
fn placard_reads_the_canonical_rules() {
    let lines = placard_lines(&Rules::canonical());
    assert_eq!(
        lines,
        [
            "BLACKJACK PAYS 3 TO 2",
            "DEALER STANDS ON SOFT 17",
            "$10 MIN \u{2014} $500 MAX",
            "DOUBLE ON ANY TWO CARDS",
            "DOUBLE AFTER SPLIT",
            "LATE SURRENDER",
        ]
    );
}

#[test]
fn placard_reads_a_stingy_rule_set() {
    let rules = Rules {
        blackjack_payout: BlackjackPayout::SixToFive,
        soft_17: Soft17::Hit,
        double_on_any_two: false,
        double_after_split: false,
        late_surrender: false,
        min_bet: 25,
        max_bet: 1000,
        ..Rules::canonical()
    };
    let lines = placard_lines(&rules);
    assert_eq!(
        lines,
        [
            "BLACKJACK PAYS 6 TO 5",
            "DEALER HITS SOFT 17",
            "$25 MIN \u{2014} $1000 MAX",
            "DOUBLE ON 9 \u{00b7} 10 \u{00b7} 11 ONLY",
            "NO DOUBLE AFTER SPLIT",
            "NO SURRENDER",
        ]
    );
}

#[test]
fn placard_notes_read_the_posted_rules() {
    let generous = placard_notes(&Rules::canonical());
    assert!(generous[0].contains("stands on ace-6"));
    assert!(generous[1].contains("double after splitting"));
    assert!(generous[2].contains("Surrender after the peek"));
    assert!(generous[3].contains("2 to 1"));

    let stingy = placard_notes(&Rules {
        soft_17: Soft17::Hit,
        double_after_split: false,
        late_surrender: false,
        insurance_offered: false,
        ..Rules::canonical()
    });
    assert!(stingy[0].contains("hits ace-6"));
    assert_ne!(generous[0], stingy[0]);
    assert!(stingy[1].contains("No doubling"));
    assert!(stingy[2].contains("No surrender"));
    assert!(stingy[3].contains("No insurance"));
}

#[test]
fn only_the_riffle_leads_its_step() {
    assert!(SoundCue::Riffle.at_step_start());
    assert!(!SoundCue::CardSlide.at_step_start());
    assert!(!SoundCue::ChipClink.at_step_start());
}

#[test]
fn the_house_float_holds_nine_of_every_chip() {
    let float = house_float();
    for d in Denomination::ALL {
        assert_eq!(float.count(d), 9);
    }
    assert_eq!(float.total(), 9 * (1 + 5 + 25 + 100 + 500));
}

#[test]
fn only_lost_busted_and_surrendered_bets_are_swept() {
    let hand = |outcome: Option<HandOutcome>| HandSnapshot {
        cards: Vec::new(),
        bet: 10,
        doubled: false,
        from_split: false,
        status: HandStatus::Stood,
        total: 0,
        soft: false,
        outcome,
        payout: None,
    };
    assert!(bet_swept(&hand(Some(HandOutcome::Lose))));
    assert!(bet_swept(&hand(Some(HandOutcome::Bust))));
    assert!(bet_swept(&hand(Some(HandOutcome::Surrender))));
    assert!(!bet_swept(&hand(Some(HandOutcome::Win))));
    assert!(!bet_swept(&hand(Some(HandOutcome::Push))));
    assert!(!bet_swept(&hand(Some(HandOutcome::Blackjack))));
    assert!(!bet_swept(&hand(None)));
}

#[test]
fn only_the_seat_to_act_is_lit() {
    let active = Some(ActiveHand { seat: 2, hand: 1 });
    assert_eq!(seat_light(Phase::PlayerTurn, active, 2), SeatLight { active_hand: Some(1), circle_glow: false });
    assert_eq!(seat_light(Phase::PlayerTurn, active, 1), SeatLight { active_hand: None, circle_glow: false });
    assert_eq!(seat_light(Phase::InsuranceOffer, Some(ActiveHand { seat: 0, hand: 0 }), 0), SeatLight { active_hand: None, circle_glow: true });
    assert_eq!(seat_light(Phase::Betting, active, 2), SeatLight { active_hand: None, circle_glow: false });
    assert_eq!(seat_light(Phase::PlayerTurn, None, 0), SeatLight { active_hand: None, circle_glow: false });
    assert!(insurance_visible(Phase::InsuranceOffer));
    assert!(insurance_visible(Phase::PlayerTurn));
    assert!(!insurance_visible(Phase::RoundOver));
    assert!(!insurance_visible(Phase::Betting));
}
