
use blackjack::action::Action;
use blackjack::card::{Card, Rank, Suit};
use blackjack::display::DisplayState;
use blackjack::event::{Event, HandOutcome};
use blackjack::life::Pace;
use blackjack::motion::{Patch, SoundCue, Spot, StepKind, Visual, plan_transition, queue_duration_ms};
use blackjack::rules::{Fraction, Rules};
use blackjack::snapshot::Phase;
use blackjack::table::{Table, Transition};

/// The Measured dealer's numbers, the default until #12 wires real
/// pace through.
fn measured() -> Pace {
    Pace {
        card_ms: 400,
        decision_ms: 700,
        reveal_ms: 700,
        settlement_ms: 500,
        between_rounds_ms: 2200,
    }
}

fn brisk() -> Pace {
    Pace {
        card_ms: 220,
        decision_ms: 350,
        reveal_ms: 450,
        settlement_ms: 300,
        between_rounds_ms: 1200,
    }
}

fn leisurely() -> Pace {
    Pace {
        card_ms: 650,
        decision_ms: 1200,
        reveal_ms: 1000,
        settlement_ms: 800,
        between_rounds_ms: 3500,
    }
}

/// A dealt round with bets on seats 1 and 4, from a fixed seed.
fn dealt_round(seed: u64) -> (DisplayState, Transition) {
    let mut table = Table::from_seed(Rules::canonical(), seed);
    let mut display = DisplayState::new();
    display.adopt(table.snapshot());
    for seat in [1usize, 4] {
        let transition = table.apply(seat, Action::PlaceBet(25)).unwrap();
        let mut planning = display.clone();
        plan_transition(&mut planning, &transition, measured());
        display = planning;
    }
    let deal = table.apply(0, Action::Deal).unwrap();
    (display, deal)
}

#[test]
fn a_card_dealt_flies_from_the_shoe_to_its_seat_frame() {
    let (mut display, deal) = dealt_round(7);
    let steps = plan_transition(&mut display, &deal, measured());
    let first_card = steps
        .iter()
        .find_map(|step| match (&step.kind, &step.patch) {
            (
                StepKind::Fly { visual, from, to },
                Patch::Event(Event::CardDealt { seat, card, .. }),
            ) => Some((*visual, *from, *to, *seat, *card)),
            _ => None,
        })
        .expect("a deal deals cards");
    let (visual, from, to, seat, card) = first_card;
    assert_eq!(visual, Visual::Card(card));
    assert_eq!(from, Spot::Shoe);
    // Casino order: the first card goes to the lowest betting seat.
    assert_eq!(seat, 1);
    let expected = Spot::SeatCard {
        seats: 7,
        seat: 1,
        hand_count: 1,
        hand: 0,
        index: 0,
        cards: 1,
        sideways: false,
    };
    assert_eq!(to, expected);
}

#[test]
fn every_event_gets_its_own_nonzero_beat() {
    let (mut display, deal) = dealt_round(7);
    let steps = plan_transition(&mut display, &deal, measured());
    // One step per event plus the adopt step, no batching.
    assert_eq!(steps.len(), deal.events.len() + 1);
    for step in &steps[..steps.len() - 1] {
        assert!(
            step.duration_ms > 0 || matches!(step.patch, Patch::Event(Event::CutCardReached)),
            "instant step for {step:?}"
        );
    }
    assert!(matches!(steps.last().unwrap().patch, Patch::Adopt(_)));
    assert_eq!(steps.last().unwrap().duration_ms, 0);
}

#[test]
fn card_beats_run_at_the_dealers_card_pace() {
    let (mut display, deal) = dealt_round(7);
    let steps = plan_transition(&mut display, &deal, measured());
    for step in &steps {
        if let Patch::Event(Event::CardDealt { .. } | Event::HoleCardDealt) = step.patch {
            assert_eq!(step.duration_ms, measured().card_ms);
        }
    }
}

#[test]
fn a_brisk_dealer_is_felt_next_to_a_leisurely_one() {
    let (display, deal) = dealt_round(7);
    let quick = plan_transition(&mut display.clone(), &deal, brisk());
    let slow = plan_transition(&mut display.clone(), &deal, leisurely());
    let quick_ms = queue_duration_ms(&quick);
    let slow_ms = queue_duration_ms(&slow);
    assert!(
        slow_ms >= 2 * quick_ms,
        "leisurely ({slow_ms}ms) must dawdle over brisk ({quick_ms}ms)"
    );
    // And the arithmetic is a plain sum of the step durations.
    assert_eq!(
        quick_ms,
        quick.iter().map(|s| u64::from(s.duration_ms)).sum::<u64>()
    );
}

#[test]
fn settlement_sweeps_losers_to_the_tray_and_pays_winners_from_it() {
    // Play a full seeded round to settlement with standing players.
    let mut table = Table::from_seed(Rules::canonical(), 11);
    let mut display = DisplayState::new();
    display.adopt(table.snapshot());
    let apply = |display: &mut DisplayState, transition: &Transition| {
        plan_transition(display, transition, measured())
    };
    for seat in [1usize, 4] {
        let t = table.apply(seat, Action::PlaceBet(25)).unwrap();
        apply(&mut display, &t);
    }
    let t = table.apply(0, Action::Deal).unwrap();
    apply(&mut display, &t);
    let mut settle_steps = Vec::new();
    for _ in 0..32 {
        let snapshot = table.snapshot();
        if snapshot.phase == Phase::RoundOver {
            break;
        }
        let seat = snapshot.active.expect("mid-round has an active seat").seat;
        let t = table.apply(seat, Action::Stand).unwrap();
        settle_steps.extend(apply(&mut display, &t));
    }
    let mut saw_settlement = false;
    for step in &settle_steps {
        let Patch::Event(Event::HandSettled {
            outcome, amount, ..
        }) = step.patch
        else {
            continue;
        };
        saw_settlement = true;
        match outcome {
            HandOutcome::Lose | HandOutcome::Bust | HandOutcome::Surrender => {
                let StepKind::Fly { visual, to, .. } = step.kind else {
                    panic!("a lost bet must fly");
                };
                assert_eq!(visual, Visual::Chips(amount.unsigned_abs()));
                assert_eq!(to, Spot::DealerTray);
            }
            HandOutcome::Win | HandOutcome::Blackjack => {
                let StepKind::Fly { visual, from, .. } = step.kind else {
                    panic!("a payout must fly");
                };
                assert_eq!(visual, Visual::Chips(amount.unsigned_abs()));
                assert_eq!(from, Spot::DealerTray);
            }
            HandOutcome::Push => {
                assert!(matches!(step.kind, StepKind::Pause));
            }
        }
        assert_eq!(step.sound.is_some(), outcome != HandOutcome::Push);
    }
    assert!(saw_settlement, "the round must settle");
}

#[test]
fn the_next_round_sweep_and_shuffle_ritual() {
    // Force the cut card by exhausting a single-deck shoe.
    let rules = Rules {
        decks: 1,
        penetration: Fraction { numerator: 1, denominator: 20 },
        ..Rules::canonical()
    };
    let mut table = Table::from_seed(rules, 3);
    let mut display = DisplayState::new();
    display.adopt(table.snapshot());
    let run =
        |display: &mut DisplayState, t: &Transition| plan_transition(display, t, measured());
    let t = table.apply(2, Action::PlaceBet(25)).unwrap();
    run(&mut display, &t);
    let t = table.apply(0, Action::Deal).unwrap();
    run(&mut display, &t);
    for _ in 0..16 {
        let snapshot = table.snapshot();
        if snapshot.phase == Phase::RoundOver {
            break;
        }
        let seat = snapshot.active.unwrap().seat;
        let t = table.apply(seat, Action::Stand).unwrap();
        run(&mut display, &t);
    }
    let next = table.apply(0, Action::NextRound).unwrap();
    assert!(
        next.events.contains(&Event::ShoeShuffled),
        "the tiny shoe forces a reshuffle"
    );
    let steps = run(&mut display, &next);
    // The silent felt clear becomes a sweep to the discard tray...
    assert!(matches!(
        (&steps[0].kind, &steps[0].patch),
        (StepKind::Fly { to, .. }, Patch::ClearFelt) if *to == Spot::Discard
    ));
    // ...followed by a breather, the riffle at the shoe, and the
    // burn card sliding to the discard tray.
    let shuffle = steps
        .iter()
        .find(|s| matches!(s.patch, Patch::Event(Event::ShoeShuffled)))
        .unwrap();
    assert!(matches!(shuffle.kind, StepKind::Shimmer));
    assert_eq!(shuffle.sound, Some(SoundCue::Riffle));
    assert!(shuffle.sound.unwrap().at_step_start());
    let burn = steps
        .iter()
        .find(|s| matches!(s.patch, Patch::Event(Event::CardBurned)))
        .unwrap();
    assert!(matches!(
        burn.kind,
        StepKind::Fly { visual: Visual::Back, to, .. } if to == Spot::Discard
    ));
    // The display ends exactly at the authoritative snapshot.
    assert_eq!(display.snapshot().unwrap(), &next.snapshot);
}

#[test]
fn the_hole_card_reveal_flips_at_the_turn() {
    let (mut display, deal) = dealt_round(7);
    plan_transition(&mut display, &deal, measured());
    // Synthesize a reveal against the dealt display state.
    let hole = Card::new(Rank::Nine, Suit::Clubs);
    let reveal = Transition {
        snapshot: {
            let mut s = deal.snapshot.clone();
            s.dealer.hole_card = Some(hole);
            s
        },
        events: vec![Event::HoleCardRevealed { card: hole }],
    };
    let steps = plan_transition(&mut display.clone(), &reveal, measured());
    let flip = &steps[0];
    assert!(matches!(flip.kind, StepKind::Flip { card, .. } if card == hole));
    assert_eq!(flip.duration_ms, measured().reveal_ms);
    assert!(flip.patch_at_turn);
}

#[test]
fn bets_slide_in_from_the_rail_with_a_clink() {
    let mut table = Table::from_seed(Rules::canonical(), 5);
    let mut display = DisplayState::new();
    display.adopt(table.snapshot());
    let t = table.apply(4, Action::PlaceBet(60)).unwrap();
    let steps = plan_transition(&mut display, &t, measured());
    let StepKind::Fly { visual, from, to } = steps[0].kind else {
        panic!("a bet slides");
    };
    assert_eq!(visual, Visual::Chips(60));
    assert_eq!(steps[0].sound, Some(SoundCue::ChipClink));
    assert_eq!(to, Spot::Bet { seats: 7, seat: 4, hand_count: 1, hand: 0 });
    // Chips come from the player's side of the circle.
    assert_eq!(from, Spot::SeatEntry { seats: 7, seat: 4 });
}
