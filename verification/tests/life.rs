
use blackjack::action::{Action, ActionError};
use blackjack::event::Event;
use blackjack::life::{Awaiting, MAX_OPPONENTS, PacePersona, TableLife};
use blackjack::rules::Rules;
use blackjack::snapshot::Phase;

const HUMAN: usize = 3;

fn life(seed: u64) -> TableLife {
    TableLife::from_seed(Rules::canonical(), HUMAN, seed)
}

/// Drive `rounds` complete rounds with the human sitting out,
/// returning every event in order.
fn run_rounds(life: &mut TableLife, rounds: u64) -> Vec<Event> {
    life.human_sit_out();
    let target = life.rounds_played() + rounds;
    let mut events = Vec::new();
    let mut beats = 0u64;
    while life.rounds_played() < target {
        beats += 1;
        assert!(beats < 1_000_000, "simulation stopped making progress");
        let step = life.advance();
        assert_eq!(
            step.awaiting,
            Awaiting::Engine,
            "a sitting-out human must never be waited on"
        );
        assert!(
            step.snapshot.seats[HUMAN].bet.is_none(),
            "the human seat must never bet on its own"
        );
        events.extend(step.events);
    }
    events
}

#[test]
fn population_stays_in_bounds_with_arrivals_and_departures() {
    for seed in [1, 2, 42] {
        let mut life = life(seed);
        life.human_sit_out();
        let mut arrivals = 0usize;
        let mut departures = 0usize;
        let mut per_round_counts: Vec<usize> = Vec::new();
        let mut beats = 0u64;
        while life.rounds_played() < 400 {
            beats += 1;
            assert!(beats < 1_000_000, "simulation stopped making progress");
            let before = life.rounds_played();
            let step = life.advance();
            for event in &step.events {
                match event {
                    Event::PlayerArrived { .. } => arrivals += 1,
                    Event::PlayerDeparted { .. } => departures += 1,
                    _ => {}
                }
            }
            let opponents = life.opponent_seats().len();
            assert!(
                opponents <= MAX_OPPONENTS,
                "seed {seed}: too many opponents"
            );
            assert!(
                life.opponent_seats().iter().all(|&s| s != HUMAN),
                "an AI player took the human seat"
            );
            if life.rounds_played() > before {
                per_round_counts.push(opponents);
            }
        }
        assert!(arrivals > 5, "seed {seed}: arrivals never happened");
        assert!(departures > 5, "seed {seed}: departures never happened");
        // Steady state: typically two to five opponents. Skip the
        // opening rounds while the crowd builds.
        let settled = &per_round_counts[50..];
        let mean = settled.iter().sum::<usize>() as f64 / settled.len() as f64;
        assert!(
            (2.0..=5.0).contains(&mean),
            "seed {seed}: mean opponents {mean} outside the typical band"
        );
        assert!(
            settled.iter().all(|&n| n >= 1),
            "seed {seed}: the table went completely empty at steady state"
        );
    }
}

#[test]
fn same_seed_replays_identically() {
    let mut a = life(9);
    let mut b = life(9);
    let events_a = run_rounds(&mut a, 150);
    let events_b = run_rounds(&mut b, 150);
    assert_eq!(events_a, events_b);
    assert_eq!(a.opponent_seats(), b.opponent_seats());
    assert_eq!(a.snapshot(), b.snapshot());
    assert_eq!(a.pace(), b.pace());
}

#[test]
fn different_seeds_diverge() {
    let mut a = life(10);
    let mut b = life(11);
    let events_a = run_rounds(&mut a, 50);
    let events_b = run_rounds(&mut b, 50);
    assert_ne!(events_a, events_b);
}

#[test]
fn dealers_rotate_every_so_often() {
    let mut l = life(5);
    let events = run_rounds(&mut l, 300);
    let changes = events
        .iter()
        .filter(|e| matches!(e, Event::DealerChanged))
        .count();
    // Tenure is 12-24 rounds, so 300 rounds sees roughly 12-25 changes.
    assert!(
        (5..=40).contains(&changes),
        "expected periodic dealer changes, saw {changes}"
    );
    let pace = l.pace();
    assert!(pace.card_ms > 0 && pace.between_rounds_ms > 0);
    assert!(
        PacePersona::ALL.iter().any(|p| p.pace() == pace),
        "pace must always be one of the dealer personas"
    );
}

#[test]
fn ai_bets_respect_the_table_limits() {
    let mut l = life(21);
    let events = run_rounds(&mut l, 100);
    let rules = Rules::canonical();
    let mut bets = 0;
    for event in events {
        if let Event::BetPlaced { seat, amount } = event {
            assert_ne!(seat, HUMAN);
            assert!(amount >= rules.min_bet, "AI bet {amount} below minimum");
            assert!(amount <= rules.max_bet, "AI bet {amount} above maximum");
            bets += 1;
        }
    }
    assert!(bets > 100, "expected plenty of AI bets");
}

#[test]
fn the_human_seat_is_driven_from_outside() {
    let mut l = life(77);
    let mut human_rounds = 0u64;
    let mut beats = 0u64;
    while l.rounds_played() < 20 {
        beats += 1;
        assert!(beats < 1_000_000, "simulation stopped making progress");
        let awaiting = l.awaiting();
        match awaiting {
            Awaiting::Engine => {
                l.advance();
            }
            Awaiting::HumanBet => {
                let step = l.human_apply(Action::PlaceBet(10)).unwrap();
                assert!(step.events.contains(&Event::BetPlaced {
                    seat: HUMAN,
                    amount: 10
                }));
                human_rounds += 1;
            }
            Awaiting::HumanInsurance => {
                l.human_apply(Action::DeclineInsurance).unwrap();
            }
            Awaiting::HumanTurn => {
                let snapshot = l.snapshot();
                assert_eq!(snapshot.active.unwrap().seat, HUMAN);
                l.human_apply(Action::Stand).unwrap();
            }
        }
    }
    assert_eq!(
        human_rounds, 20,
        "the human should be asked to bet each round"
    );
}

#[test]
fn human_actions_are_validated_by_the_table() {
    let mut l = life(78);
    // Betting has not even opened for the human yet (housekeeping
    // pending), but bet validation is the table's as usual.
    while l.awaiting() == Awaiting::Engine {
        l.advance();
    }
    assert_eq!(l.awaiting(), Awaiting::HumanBet);
    let err = l.human_apply(Action::PlaceBet(5)).unwrap_err();
    assert_eq!(
        err,
        ActionError::BetOutOfRange {
            bet: 5,
            min: 10,
            max: 500
        }
    );
    // Hitting during betting is refused and changes nothing.
    assert!(matches!(
        l.human_apply(Action::Hit),
        Err(ActionError::WrongPhase { .. })
    ));
    assert_eq!(l.awaiting(), Awaiting::HumanBet);
}

#[test]
fn sitting_out_is_sticky_until_the_next_bet() {
    let mut l = life(80);
    run_rounds(&mut l, 5);
    assert!(l.human_sitting_out());
    // A completed round leaves the table back in betting, so rejoining
    // is one bet away.
    assert_eq!(l.snapshot().phase, Phase::Betting);
    l.human_apply(Action::PlaceBet(25)).unwrap();
    assert!(!l.human_sitting_out());
}

#[test]
fn table_level_actions_route_through_advance() {
    let mut l = life(81);
    // Deal/NextRound from the human are redirected to the
    // orchestrator's own sequencing rather than hitting the table raw.
    let step = l.human_apply(Action::Deal).unwrap();
    // The first beat is housekeeping: the opening crowd arrives.
    assert!(
        step.events
            .iter()
            .any(|e| matches!(e, Event::PlayerArrived { .. }))
    );
}

