
use blackjack::action::{Action, ActionKind};
use blackjack::card::{Card, Rank, Suit};
use blackjack::display::DisplayState;
use blackjack::event::Event;
use blackjack::life::{Awaiting, TableLife};
use blackjack::rules::Rules;
use blackjack::snapshot::{Phase, Snapshot};
use blackjack::strategy::basic_strategy;
use blackjack::table::Table;
use rand::SeedableRng;
use rand_chacha::ChaCha8Rng;

/// Strip the fields the event stream cannot carry: phase, active
/// hand, and legal actions rest between transitions; the cut card's
/// mid-round position is engine-internal until [`Event::CutCardReached`].
/// All are corrected by [`DisplayState::adopt`] at queue end.
fn animatable(mut snapshot: Snapshot) -> Snapshot {
    snapshot.phase = Phase::Betting;
    snapshot.active = None;
    snapshot.legal_actions.clear();
    snapshot.shoe.cut_card_reached = false;
    snapshot
}

#[test]
fn events_patch_cards_bets_and_the_shoe() {
    let table = Table::from_seed(Rules::canonical(), 3);
    let mut display = DisplayState::new();
    display.adopt(table.snapshot());
    let before = display.snapshot().unwrap().shoe;

    display.apply(&Event::BetPlaced {
        seat: 2,
        amount: 25,
    });
    assert_eq!(display.snapshot().unwrap().seats[2].bet, Some(25));

    let card = Card::new(Rank::Ace, Suit::Spades);
    display.apply(&Event::CardDealt {
        seat: 2,
        hand: 0,
        card,
    });
    let snapshot = display.snapshot().unwrap();
    let hand = &snapshot.seats[2].hands[0];
    assert_eq!(hand.cards, vec![card]);
    assert_eq!(hand.bet, 25);
    assert_eq!(hand.total, 11);
    assert!(hand.soft);
    assert_eq!(snapshot.shoe.cards_remaining, before.cards_remaining - 1);
    assert_eq!(snapshot.shoe.cards_dealt, before.cards_dealt + 1);
}

#[test]
fn the_hole_card_reveal_completes_the_dealer_total() {
    let table = Table::from_seed(Rules::canonical(), 3);
    let mut display = DisplayState::new();
    display.adopt(table.snapshot());
    display.apply(&Event::DealerCardDealt {
        card: Card::new(Rank::King, Suit::Hearts),
    });
    display.apply(&Event::HoleCardDealt);
    let dealer = &display.snapshot().unwrap().dealer;
    assert!(dealer.hole_card_dealt && dealer.total.is_none());
    display.apply(&Event::HoleCardRevealed {
        card: Card::new(Rank::Seven, Suit::Clubs),
    });
    let dealer = &display.snapshot().unwrap().dealer;
    assert_eq!(dealer.hole_card, Some(Card::new(Rank::Seven, Suit::Clubs)));
    assert_eq!(dealer.total, Some(17));
}

#[test]
fn clearing_the_felt_sends_every_card_to_the_discard_tray() {
    let table = Table::from_seed(Rules::canonical(), 3);
    let mut display = DisplayState::new();
    display.adopt(table.snapshot());
    let discard_before = display.snapshot().unwrap().shoe.discard_pile_size;
    display.apply(&Event::BetPlaced {
        seat: 0,
        amount: 10,
    });
    for card in [
        Card::new(Rank::Five, Suit::Clubs),
        Card::new(Rank::Nine, Suit::Hearts),
    ] {
        display.apply(&Event::CardDealt {
            seat: 0,
            hand: 0,
            card,
        });
    }
    display.apply(&Event::DealerCardDealt {
        card: Card::new(Rank::Two, Suit::Spades),
    });
    display.apply(&Event::HoleCardDealt);
    display.clear_felt();
    let snapshot = display.snapshot().unwrap();
    assert!(snapshot.seats.iter().all(|seat| seat.hands.is_empty()));
    assert!(snapshot.seats.iter().all(|seat| seat.bet.is_none()));
    assert!(snapshot.dealer.upcard.is_none());
    assert_eq!(snapshot.shoe.discard_pile_size, discard_before + 4);
}

/// The strong property: drive whole seeded rounds through
/// [`TableLife`] and check that replaying each step's events over
/// the display reproduces the step's final snapshot, transition by
/// transition, for every animatable field.
#[test]
fn replaying_events_reproduces_engine_snapshots_across_seeded_rounds() {
    for seed in 0..4u64 {
        let mut life = TableLife::new(
            Rules::canonical(),
            3,
            ChaCha8Rng::seed_from_u64(seed),
            ChaCha8Rng::seed_from_u64(seed.wrapping_add(1000)),
        );
        let mut display = DisplayState::new();
        display.adopt(life.snapshot());
        let mut settled_hands = 0u32;
        let mut splits = 0u32;
        for _ in 0..600 {
            let step = match life.awaiting() {
                Awaiting::Engine => life.advance(),
                Awaiting::HumanBet => life
                    .human_apply(Action::PlaceBet(10))
                    .expect("the minimum bet is legal"),
                Awaiting::HumanInsurance => life
                    .human_apply(Action::DeclineInsurance)
                    .expect("declining insurance is legal"),
                Awaiting::HumanTurn => {
                    let snapshot = life.snapshot();
                    let active = snapshot.active.expect("a turn has an active hand");
                    let hand = &snapshot.seats[active.seat].hands[active.hand];
                    let legal = &snapshot.legal_actions;
                    let choice = basic_strategy(
                        &hand.cards,
                        snapshot.dealer.upcard.expect("dealt rounds have an upcard"),
                        legal.contains(&ActionKind::Double),
                        legal.contains(&ActionKind::Split),
                        legal.contains(&ActionKind::Surrender),
                    );
                    let action = match choice {
                        ActionKind::Hit => Action::Hit,
                        ActionKind::Stand => Action::Stand,
                        ActionKind::Double => Action::Double,
                        ActionKind::Split => Action::Split,
                        ActionKind::Surrender => Action::Surrender,
                        _ => Action::Stand,
                    };
                    life.human_apply(action).expect("basic strategy is legal")
                }
            };
            for event in &step.events {
                match event {
                    Event::HandSettled { .. } => settled_hands += 1,
                    Event::HandSplit { .. } => splits += 1,
                    _ => {}
                }
            }
            if display.needs_clear(&step.snapshot) {
                display.clear_felt();
            }
            for event in &step.events {
                display.apply(event);
            }
            assert_eq!(
                animatable(display.snapshot().unwrap().clone()),
                animatable(step.snapshot.clone()),
                "seed {seed}: display diverged after events {:?}",
                step.events
            );
            display.adopt(step.snapshot);
        }
        assert!(settled_hands > 20, "seed {seed} settled too few hands");
        let _ = splits; // Splits occur on some seeds; coverage, not a guarantee.
    }
}

fn fresh_display() -> DisplayState {
    let table = Table::from_seed(Rules::canonical(), 3);
    let mut display = DisplayState::new();
    display.adopt(table.snapshot());
    display
}

#[test]
fn nothing_shows_before_the_first_adopt() {
    let mut display = DisplayState::new();
    assert!(display.snapshot().is_none());
    let event = Event::BetPlaced { seat: 0, amount: 10 };
    assert!(display.accepts(&event));
    display.apply(&event);
    assert!(display.snapshot().is_none());
    display.clear_felt();
    assert!(display.snapshot().is_none());
}

#[test]
fn a_split_moves_the_second_card_to_a_new_hand() {
    let mut display = fresh_display();
    display.apply(&Event::BetPlaced { seat: 1, amount: 20 });
    for card in [Card::new(Rank::Eight, Suit::Clubs), Card::new(Rank::Eight, Suit::Hearts)] {
        display.apply(&Event::CardDealt { seat: 1, hand: 0, card });
    }
    assert_eq!(display.snapshot().unwrap().seats[1].hands[0].total, 16);
    display.apply(&Event::HandSplit { seat: 1, hand: 0 });
    let hands = &display.snapshot().unwrap().seats[1].hands;
    assert_eq!(hands.len(), 2);
    assert_eq!(hands[0].cards, vec![Card::new(Rank::Eight, Suit::Clubs)]);
    assert_eq!(hands[1].cards, vec![Card::new(Rank::Eight, Suit::Hearts)]);
    assert!(hands[0].from_split && hands[1].from_split);
    assert_eq!(hands[0].total, 8);
    assert_eq!(hands[1].total, 8);
    assert_eq!(hands[1].bet, 20);
}

#[test]
fn surrender_marks_the_playing_hand_and_settlement_folds_in_insurance() {
    let mut display = fresh_display();
    display.apply(&Event::BetPlaced { seat: 0, amount: 20 });
    for card in [Card::new(Rank::Ten, Suit::Clubs), Card::new(Rank::Six, Suit::Hearts)] {
        display.apply(&Event::CardDealt { seat: 0, hand: 0, card });
    }
    display.apply(&Event::InsuranceResolved { seat: 0, amount: -10 });
    display.apply(&Event::PlayerSurrendered { seat: 0 });
    assert_eq!(
        display.snapshot().unwrap().seats[0].hands[0].status,
        blackjack::snapshot::HandStatus::Surrendered
    );
    display.apply(&Event::HandSettled {
        seat: 0,
        hand: 0,
        outcome: blackjack::event::HandOutcome::Surrender,
        amount: -10,
    });
    let snapshot = display.snapshot().unwrap();
    assert_eq!(snapshot.seats[0].round_net, Some(-20));
    assert_eq!(snapshot.seats[0].hands[0].payout, Some(-10));
    assert_eq!(snapshot.phase, Phase::RoundOver);
}

#[test]
fn events_naming_missing_seats_or_hands_are_not_accepted() {
    let display = fresh_display();
    assert!(!display.accepts(&Event::BetPlaced { seat: 7, amount: 10 }));
    assert!(!display.accepts(&Event::PlayerStood { seat: 0, hand: 0, total: 17 }));
    assert!(display.accepts(&Event::CardDealt {
        seat: 0,
        hand: 0,
        card: Card::new(Rank::Two, Suit::Clubs),
    }));
}

#[test]
fn the_shuffle_returns_the_discards_to_the_shoe() {
    let mut display = fresh_display();
    let before = display.snapshot().unwrap().shoe;
    display.apply(&Event::ShoeShuffled);
    let after = display.snapshot().unwrap().shoe;
    assert_eq!(after.cards_remaining, before.cards_remaining + before.discard_pile_size);
    assert_eq!(after.discard_pile_size, 0);
    assert_eq!(after.cards_dealt, before.cards_dealt - before.discard_pile_size);
    display.apply(&Event::CardBurned);
    let burned = display.snapshot().unwrap().shoe;
    assert_eq!(burned.discard_pile_size, 1);
    assert_eq!(burned.cards_dealt, after.cards_dealt + 1);
}
