use blackjack::action::{Action, ActionError, ActionKind};
use blackjack::backend::InProcessBackend;
use blackjack::chips::{ChipStack, Denomination};
use blackjack::life::Awaiting;
use blackjack::session::{BackendError, SessionArc, SessionStatus, buy_in, cut_buy_in};
use blackjack::rules::Rules;
use blackjack::snapshot::Phase;
use blackjack::staging::{rack_after_staging, stage_add, stage_ready, stage_units};
use rand::SeedableRng;
use rand_chacha::ChaCha8Rng;

#[test]
fn backend_errors_render_useful_messages() {
    let err = BackendError::Rejected(ActionError::WrongPhase {
        action: ActionKind::Hit,
        phase: Phase::Betting,
    });
    assert_eq!(
        err.to_string(),
        "action rejected: Hit is not legal during the Betting phase"
    );
    assert_eq!(
        BackendError::NoSession.to_string(),
        "no session has been started"
    );
    assert_eq!(
        BackendError::InsufficientChips {
            requested: 500,
            available: 240,
        }
        .to_string(),
        "the rack cannot cover $500 (it holds $240)"
    );
    assert_eq!(
        BackendError::NotBetweenRounds.to_string(),
        "walking away is only possible between rounds"
    );
    assert_eq!(BackendError::SessionOver.to_string(), "the session is over");
}

#[test]
fn action_errors_convert_into_backend_errors() {
    let err: BackendError = ActionError::NoBetsPlaced.into();
    assert_eq!(err, BackendError::Rejected(ActionError::NoBetsPlaced));
}

#[test]
fn buy_ins_stay_in_bounds_with_varied_cuts() {
    let mut rng = ChaCha8Rng::seed_from_u64(7);
    let mut totals = std::collections::HashSet::new();
    let mut saw_black = false;
    let mut saw_untidy = false;
    for _ in 0..200 {
        let stack = buy_in(&mut rng);
        let total = stack.total();
        assert!((220..=380).contains(&total), "buy-in ${total} out of range");
        assert_eq!(total % 5, 0, "buy-in ${total} is not a $5 step");
        assert_eq!(stack.count(Denomination::One), 0, "no white chips at buy-in");
        totals.insert(total);
        saw_black |= stack.count(Denomination::Hundred) > 0;
        saw_untidy |= stack != ChipStack::change(total);
    }
    assert!(totals.len() > 10, "buy-in amounts barely vary");
    assert!(saw_black, "no buy-in ever carried a black chip");
    assert!(saw_untidy, "every buy-in was the cage's minimal cut");
}

#[test]
fn buy_ins_land_in_the_documented_band_in_five_dollar_steps() {
    let mut rng = ChaCha8Rng::seed_from_u64(99);
    for _ in 0..500 {
        let stack = buy_in(&mut rng);
        let total = stack.total();
        assert!((220..=380).contains(&total), "buy-in ${total} out of band");
        assert_eq!(total % 5, 0, "buy-in ${total} is not a $5 step");
        assert!(!stack.is_empty());
    }
}

#[test]
fn buy_in_cuts_vary_not_always_clean_change() {
    let mut rng = ChaCha8Rng::seed_from_u64(7);
    let mut tidy = 0u32;
    let mut with_black = 0u32;
    let mut red_heavy = 0u32;
    const N: u32 = 400;
    for _ in 0..N {
        let stack = buy_in(&mut rng);
        if stack == ChipStack::change(stack.total()) {
            tidy += 1;
        }
        if stack.count(Denomination::Hundred) > 0 {
            with_black += 1;
        }
        if stack.count(Denomination::Five) >= 15 {
            red_heavy += 1;
        }
    }
    assert!(tidy > 0, "the cage's clean cut never appeared");
    assert!(tidy < N, "every stack was clean change");
    assert!(with_black > 0, "no stack ever carried a black chip");
    assert!(red_heavy > 0, "no stack was ever $5-heavy");
}

#[test]
fn each_buy_in_cut_is_worth_the_amount() {
    let tidy = cut_buy_in(300, 0);
    assert_eq!(tidy, ChipStack::change(300));
    let red = cut_buy_in(300, 1);
    assert_eq!(red.total(), 300);
    assert_eq!(red.count(Denomination::Five), 30);
    let green = cut_buy_in(300, 2);
    assert_eq!(green.total(), 300);
    assert_eq!(green.count(Denomination::TwentyFive), 8);
    let black = cut_buy_in(300, 3);
    assert_eq!(black.total(), 300);
    assert_eq!(black.count(Denomination::Hundred), 2);
    assert_eq!(black.count(Denomination::Five), 20);
}

#[test]
fn sessions_arrive_mid_life_and_replay_per_seed() {
    for seed in [0, 1, 42] {
        let a = SessionArc::from_seed(seed);
        let b = SessionArc::from_seed(seed);
        assert!(
            (2..=6).contains(&a.rounds_played()),
            "seed {seed}: warm-up played {} rounds",
            a.rounds_played()
        );
        assert_eq!(a.view(), b.view(), "seed {seed}: views diverged");
        let snapshot = &a.view().transition.snapshot;
        assert!(
            snapshot.shoe.cards_dealt > 0,
            "seed {seed}: the shoe was not burned in"
        );
        assert_eq!(a.view().status, SessionStatus::Playing);
    }
    assert_ne!(
        SessionArc::from_seed(3).view(),
        SessionArc::from_seed(4).view(),
        "different seeds produced identical sessions"
    );
}

#[test]
fn the_session_views_rack_feeds_staging_directly() {
    let mut session = SessionArc::from_seed(12);
    let mut view = session.view();
    let mut beats = 0u32;
    while view.awaiting == Awaiting::Engine && view.status == SessionStatus::Playing {
        beats += 1;
        assert!(beats < 100_000, "session never rested on the human");
        view = session.advance();
    }
    assert_eq!(view.awaiting, Awaiting::HumanBet);

    let rack = view.rack.clone();
    let min = view.transition.snapshot.rules.min_bet;
    let max = view.transition.snapshot.rules.max_bet;
    let staged = stage_units(1, min, max, &rack);
    assert!(stage_ready(staged.total(), min, max));
    let visible = rack_after_staging(&rack, &staged);
    assert_eq!(visible.total(), rack.total() - staged.total());

    let denomination = rack.iter()[0].0;
    let mut staged = ChipStack::new();
    for _ in 0..rack.count(denomination) {
        let next = stage_add(&staged, denomination, u32::MAX, &rack);
        assert_ne!(next, staged, "an available chip was refused");
        staged = next;
    }
    let refused = stage_add(&staged, denomination, u32::MAX, &rack);
    assert_eq!(refused, staged, "staging exceeded the rack");
}

/// Pump a session until it rests on the human.
fn rest_on_human(session: &mut SessionArc) {
    let mut beats = 0u32;
    while session.view().awaiting == Awaiting::Engine {
        beats += 1;
        assert!(beats < 100_000, "session never rested on the human");
        session.advance();
    }
}

#[test]
fn a_bet_moves_chips_from_the_rack_and_conserves_wealth() {
    let mut session = SessionArc::from_seed(5);
    rest_on_human(&mut session);
    let before = session.view().rack.total();
    let view = session.human_action(Action::PlaceBet(20)).unwrap();
    assert_eq!(view.rack.total(), before - 20);
    let seat = view.transition.snapshot.seats.len() / 2;
    assert_eq!(view.transition.snapshot.seats[seat].bet, Some(20));
}

#[test]
fn a_bet_the_rack_cannot_cover_is_refused() {
    let mut session = SessionArc::with_buy_in(8, ChipStack::change(15), 2);
    rest_on_human(&mut session);
    let before = session.view();
    assert_eq!(
        session.human_action(Action::PlaceBet(20)),
        Err(BackendError::InsufficientChips { requested: 20, available: 15 })
    );
    assert_eq!(session.view(), before);
}

#[test]
fn an_illegal_bet_is_rejected_by_the_table() {
    let mut session = SessionArc::from_seed(6);
    rest_on_human(&mut session);
    assert_eq!(
        session.human_action(Action::PlaceBet(5)),
        Err(BackendError::Rejected(ActionError::BetOutOfRange { bet: 5, min: 10, max: 500 }))
    );
}

#[test]
fn walking_away_between_rounds_cashes_the_rack_out() {
    let mut session = SessionArc::from_seed(14);
    rest_on_human(&mut session);
    let dollars = session.view().rack.total();
    let view = session.walk_away().unwrap();
    assert_eq!(view.status, SessionStatus::CashedOut { dollars });
    assert_eq!(view.rack, ChipStack::change(dollars));
    assert_eq!(session.walk_away(), Err(BackendError::SessionOver));
    assert_eq!(session.human_action(Action::PlaceBet(10)), Err(BackendError::SessionOver));
}

#[test]
fn walking_away_with_a_bet_down_is_refused() {
    let mut session = SessionArc::from_seed(15);
    rest_on_human(&mut session);
    session.human_action(Action::PlaceBet(10)).unwrap();
    assert_eq!(session.walk_away(), Err(BackendError::NotBetweenRounds));
}

#[test]
fn every_call_before_start_is_no_session() {
    let mut backend = InProcessBackend::new();
    assert_eq!(backend.view(), Err(BackendError::NoSession));
    assert_eq!(backend.advance(), Err(BackendError::NoSession));
    assert_eq!(
        backend.human_action(Action::PlaceBet(10)),
        Err(BackendError::NoSession)
    );
    assert_eq!(backend.walk_away(), Err(BackendError::NoSession));
}

#[test]
fn start_session_opens_a_playing_mid_life_table() {
    let mut backend = InProcessBackend::new();
    let view = backend.start_session(2024).unwrap();
    assert_eq!(view.status, SessionStatus::Playing);
    assert!(view.transition.events.is_empty());
    assert!(view.rack.total() > 0);
    assert!(view.transition.snapshot.shoe.cards_dealt > 0);
}

#[test]
fn advance_moves_the_table_and_view_does_not() {
    let mut backend = InProcessBackend::new();
    let opened = backend.start_session(31).unwrap();
    let viewed = backend.view().unwrap();
    assert_eq!(opened, viewed);
    let mut beats = 0;
    loop {
        beats += 1;
        assert!(beats < 1_000, "advance stopped making progress");
        let view = backend.advance().unwrap();
        if !view.transition.events.is_empty() {
            break;
        }
    }
}

#[test]
fn start_session_replaces_any_existing_session() {
    let mut backend = InProcessBackend::new();
    backend.start_session(40).unwrap();
    backend.advance().unwrap();
    let fresh = backend.start_session(41).unwrap();
    assert_eq!(fresh, backend.view().unwrap());
}

#[test]
fn a_pinned_buy_in_starts_with_exactly_those_chips() {
    let mut backend = InProcessBackend::new();
    let chips = ChipStack::change(15);
    let view = backend.start_session_with_buy_in(8, chips, 2).unwrap();
    assert_eq!(view.rack, chips);
    assert_eq!(view.status, SessionStatus::Playing);
    assert!(view.transition.events.is_empty());
}

#[test]
fn a_started_session_seats_the_player_with_a_buy_in_at_canonical_rules() {
    for seed in 0..6u64 {
        let mut backend = InProcessBackend::new();
        let v = backend.start_session(seed).unwrap();
        let total = v.rack.total();
        assert!((220..=380).contains(&total));
        assert_eq!(total % 5, 0);
        assert_eq!(v.status, SessionStatus::Playing);
        assert_eq!(v.transition.snapshot.rules, Rules::canonical());
        assert_eq!(v.transition.snapshot.seats.len(), Rules::canonical().seats);
    }
}
