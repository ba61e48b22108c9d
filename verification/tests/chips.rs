use blackjack::chips::{ChipColor, ChipError, ChipStack, Denomination, Rack, payout_chips};
use blackjack::rules::BlackjackPayout;

fn stack(chips: &[(Denomination, u32)]) -> ChipStack {
    let mut stack = ChipStack::new();
    for &(denomination, count) in chips {
        stack.add_chips(denomination, count);
    }
    stack
}

#[test]
fn denominations_have_standard_values_and_colors() {
    let expected = [
        (Denomination::One, 1, ChipColor::White, "white"),
        (Denomination::Five, 5, ChipColor::Red, "red"),
        (Denomination::TwentyFive, 25, ChipColor::Green, "green"),
        (Denomination::Hundred, 100, ChipColor::Black, "black"),
        (Denomination::FiveHundred, 500, ChipColor::Purple, "purple"),
    ];
    for (denomination, value, color, name) in expected {
        assert_eq!(denomination.value(), value);
        assert_eq!(denomination.color(), color);
        assert_eq!(denomination.color().name(), name);
        assert_eq!(denomination.color().to_string(), name);
    }
}

#[test]
fn denominations_order_by_value() {
    for pair in Denomination::ALL.windows(2) {
        assert!(pair[0] < pair[1]);
        assert!(pair[0].value() < pair[1].value());
    }
}

#[test]
fn denomination_names_and_indexes() {
    let names: Vec<&str> = Denomination::ALL.into_iter().map(|d| d.name()).collect();
    assert_eq!(names, ["One", "Five", "TwentyFive", "Hundred", "FiveHundred"]);
    for (i, d) in Denomination::ALL.into_iter().enumerate() {
        assert_eq!(d.index(), i);
    }
}

#[test]
fn change_for_zero_is_empty() {
    let stack = ChipStack::change(0);
    assert!(stack.is_empty());
    assert_eq!(stack.total(), 0);
    assert_eq!(stack.chip_count(), 0);
}

#[test]
fn change_breaks_down_greedily() {
    let stack = ChipStack::change(641);
    assert_eq!(stack.count(Denomination::FiveHundred), 1);
    assert_eq!(stack.count(Denomination::Hundred), 1);
    assert_eq!(stack.count(Denomination::TwentyFive), 1);
    assert_eq!(stack.count(Denomination::Five), 3);
    assert_eq!(stack.count(Denomination::One), 1);
    assert_eq!(stack.total(), 641);
    assert_eq!(stack.chip_count(), 7);
}

#[test]
fn change_uses_ones_below_five() {
    let stack = ChipStack::change(4);
    assert_eq!(stack.count(Denomination::One), 4);
    assert_eq!(stack.chip_count(), 4);
}

#[test]
fn every_canonical_blackjack_payout_is_physically_payable() {
    for bet in (10..=500).step_by(5) {
        let winnings = BlackjackPayout::ThreeToTwo.winnings(bet);
        let paid = payout_chips(&ChipStack::change(bet), winnings);
        assert_eq!(paid.total(), winnings, "bet ${bet}");
        if bet % 2 == 0 {
            assert_eq!(2 * winnings, 3 * bet, "bet ${bet}");
        }
    }
}

#[test]
fn even_money_payouts_mirror_the_bet_stack() {
    let bet = stack(&[(Denomination::TwentyFive, 1), (Denomination::Five, 1)]);
    let paid = payout_chips(&bet, 30);
    assert_eq!(paid, bet);
    let natural = payout_chips(&bet, 45);
    assert_eq!(natural.total(), 45);
    assert_eq!(natural.count(Denomination::TwentyFive), 1);
    assert_eq!(natural.count(Denomination::Five), 4);
}

#[test]
fn color_up_exchanges_small_chips_for_large() {
    let messy = stack(&[(Denomination::Five, 5), (Denomination::One, 5)]);
    let tidy = messy.color_up();
    assert_eq!(tidy.total(), 30);
    assert_eq!(tidy.chip_count(), 2);
    assert_eq!(tidy.count(Denomination::TwentyFive), 1);
    assert_eq!(tidy.count(Denomination::Five), 1);
}

#[test]
fn withdraw_takes_largest_chips_first() {
    let mut rack = ChipStack::change(155);
    let taken = rack.withdraw(105).unwrap();
    assert_eq!(taken.total(), 105);
    assert_eq!(taken.count(Denomination::Hundred), 1);
    assert_eq!(taken.count(Denomination::Five), 1);
    assert_eq!(rack.total(), 50);
}

#[test]
fn withdraw_breaks_chips_when_it_must() {
    let mut rack = stack(&[(Denomination::Hundred, 1)]);
    let taken = rack.withdraw(10).unwrap();
    assert_eq!(taken.total(), 10);
    assert_eq!(taken.count(Denomination::Five), 2);
    assert_eq!(rack.total(), 90);
    assert_eq!(rack.count(Denomination::TwentyFive), 3);
    assert_eq!(rack.count(Denomination::Five), 3);
}

#[test]
fn withdraw_beyond_the_stack_fails_without_mutation() {
    let mut rack = ChipStack::change(75);
    let before = rack.clone();
    assert_eq!(
        rack.withdraw(100),
        Err(ChipError::InsufficientValue {
            requested: 100,
            available: 75,
        })
    );
    assert_eq!(rack, before);
}

#[test]
fn remove_beyond_the_count_fails_without_mutation() {
    let mut rack = stack(&[(Denomination::Five, 2)]);
    let before = rack.clone();
    assert_eq!(
        rack.remove_chips(Denomination::Five, 3),
        Err(ChipError::InsufficientChips {
            denomination: Denomination::Five,
            requested: 3,
            available: 2,
        })
    );
    assert_eq!(rack, before);
    rack.remove_chips(Denomination::Five, 2).unwrap();
    assert!(rack.is_empty());
}

#[test]
fn stacks_merge_and_add() {
    let mut left = ChipStack::change(30);
    left.merge(ChipStack::change(70));
    assert_eq!(left.total(), 100);
    let sum = ChipStack::change(500) + ChipStack::change(125);
    assert_eq!(sum.total(), 625);
    let mut accumulated = ChipStack::new();
    accumulated += ChipStack::change(15);
    assert_eq!(accumulated.total(), 15);
    let mut merged = ChipStack::change(500);
    merged.merge(ChipStack::change(125));
    assert_eq!(ChipStack::change(500) + ChipStack::change(125), merged);
}

#[test]
fn iteration_walks_every_chip_smallest_first() {
    let stack = stack(&[(Denomination::TwentyFive, 1), (Denomination::Five, 2)]);
    assert_eq!(
        stack.iter(),
        [(Denomination::Five, 2), (Denomination::TwentyFive, 1)]
    );
    let chips: Vec<Denomination> = stack.chips();
    assert_eq!(
        chips,
        [Denomination::Five, Denomination::Five, Denomination::TwentyFive]
    );
    assert_eq!(ChipStack::from_chips(&chips), stack);
}

#[test]
fn rack_bets_and_receives() {
    let mut rack = Rack::with_bankroll(200);
    let bet = rack.place_bet(25).unwrap();
    assert_eq!(bet.total(), 25);
    assert_eq!(rack.total(), 175);
    rack.receive(ChipStack::change(50));
    assert_eq!(rack.total(), 225);
    assert_eq!(
        rack.place_bet(1000),
        Err(ChipError::InsufficientValue {
            requested: 1000,
            available: 225,
        })
    );
}

#[test]
fn tray_settlement_pays_wins_and_keeps_losses() {
    let mut tray = Rack::with_bankroll(1000);
    let returned = tray.settle(ChipStack::change(25), 25).unwrap();
    assert_eq!(returned.total(), 50);
    assert_eq!(tray.total(), 975);
    let returned = tray.settle(ChipStack::change(25), -25).unwrap();
    assert!(returned.is_empty());
    assert_eq!(tray.total(), 1000);
    let returned = tray.settle(ChipStack::change(25), -13).unwrap();
    assert_eq!(returned.total(), 12);
    assert_eq!(tray.total(), 1013);
    let returned = tray.settle(ChipStack::change(25), 0).unwrap();
    assert_eq!(returned.total(), 25);
    assert_eq!(tray.total(), 1013);
}

#[test]
fn a_short_tray_keeps_the_swept_bet() {
    let mut tray = Rack::with_bankroll(10);
    let result = tray.settle(ChipStack::change(25), 25);
    assert!(matches!(result, Err(ChipError::InsufficientValue { requested: 50, available: 35 })));
    assert_eq!(tray.total(), 35);
}

#[test]
fn rack_colors_up_in_place() {
    let mut rack = Rack::from_chips(ChipStack::from_chips(&[
        Denomination::One,
        Denomination::One,
        Denomination::One,
        Denomination::One,
        Denomination::One,
    ]));
    rack.color_up();
    assert_eq!(rack.total(), 5);
    assert_eq!(rack.chips().count(Denomination::Five), 1);
    assert_eq!(rack.chips().chip_count(), 1);
}

#[test]
fn chip_errors_render_useful_messages() {
    assert_eq!(
        ChipError::InsufficientValue {
            requested: 100,
            available: 75,
        }
        .to_string(),
        "cannot withdraw $100 from a $75 stack"
    );
    assert_eq!(
        ChipError::InsufficientChips {
            denomination: Denomination::Five,
            requested: 3,
            available: 2,
        }
        .to_string(),
        "cannot remove 3 Five chips from a stack holding 2"
    );
}
