
use blackjack::action::{Action, ActionError, ActionKind};
use blackjack::event::Event;
use blackjack::rules::Rules;
use blackjack::snapshot::Phase;
use blackjack::table::Table;
use blackjack::shoe::Shoe;
use blackjack::card::Card;

fn table(seed: u64) -> Table {
    Table::from_seed(Rules::canonical(), seed)
}

#[test]
fn a_new_table_opens_in_betting_with_one_burned_card() {
    let t = table(0);
    let snap = t.snapshot();
    assert_eq!(snap.phase, Phase::Betting);
    assert_eq!(snap.seats.len(), 7);
    assert_eq!(snap.shoe.cards_dealt, 1);
    assert_eq!(snap.shoe.discard_pile_size, 1);
    assert_eq!(snap.legal_actions, [ActionKind::PlaceBet]);
}

#[test]
fn deal_becomes_legal_once_a_bet_is_down() {
    let mut t = table(0);
    let transition = t.apply(0, Action::PlaceBet(10)).unwrap();
    assert_eq!(
        transition.events,
        [Event::BetPlaced {
            seat: 0,
            amount: 10
        }]
    );
    assert_eq!(
        transition.snapshot.legal_actions,
        [ActionKind::PlaceBet, ActionKind::Deal]
    );
}

#[test]
fn bets_outside_table_limits_are_rejected() {
    let mut t = table(0);
    assert_eq!(
        t.apply(0, Action::PlaceBet(5)),
        Err(ActionError::BetOutOfRange {
            bet: 5,
            min: 10,
            max: 500
        })
    );
    assert_eq!(
        t.apply(0, Action::PlaceBet(501)),
        Err(ActionError::BetOutOfRange {
            bet: 501,
            min: 10,
            max: 500
        })
    );
}

#[test]
fn dealing_with_no_bets_is_rejected() {
    let mut t = table(0);
    assert_eq!(t.apply(0, Action::Deal), Err(ActionError::NoBetsPlaced));
}

#[test]
fn seat_indexes_are_bounds_checked() {
    let mut t = table(0);
    assert_eq!(
        t.apply(7, Action::PlaceBet(10)),
        Err(ActionError::SeatOutOfRange { seat: 7, seats: 7 })
    );
}

#[test]
fn dealing_gives_two_cards_per_bettor_and_the_dealer() {
    let mut t = table(0);
    t.apply(1, Action::PlaceBet(10)).unwrap();
    t.apply(4, Action::PlaceBet(25)).unwrap();
    let transition = t.apply(0, Action::Deal).unwrap();
    let snap = transition.snapshot;
    assert_eq!(snap.seats[1].hands[0].cards.len(), 2);
    assert_eq!(snap.seats[4].hands[0].cards.len(), 2);
    assert!(snap.seats[0].hands.is_empty());
    assert!(snap.dealer.upcard.is_some());
    assert!(snap.dealer.hole_card_dealt);
    assert_eq!(snap.dealer.hole_card, None, "hole card must stay hidden");
    assert_eq!(snap.dealer.total, None);
    // 1 burn + 4 player cards + 2 dealer cards.
    assert_eq!(snap.shoe.cards_dealt, 7);
}

#[test]
fn out_of_turn_actions_are_rejected_without_mutation() {
    let mut t = table(0);
    t.apply(1, Action::PlaceBet(10)).unwrap();
    t.apply(4, Action::PlaceBet(10)).unwrap();
    let dealt = t.apply(0, Action::Deal).unwrap();
    if dealt.snapshot.phase != Phase::PlayerTurn {
        return; // Insurance or dealer blackjack round; other seeds cover this.
    }
    let active = dealt.snapshot.active.unwrap().seat;
    let other = if active == 1 { 4 } else { 1 };
    let before = t.snapshot();
    let err = t.apply(other, Action::Hit).unwrap_err();
    assert_eq!(
        err,
        ActionError::OutOfTurn {
            seat: other,
            active_seat: active
        }
    );
    assert_eq!(t.snapshot(), before);
}

#[test]
fn wrong_phase_actions_are_rejected_without_mutation() {
    let mut t = table(0);
    let before = t.snapshot();
    for action in [
        Action::Hit,
        Action::Stand,
        Action::Double,
        Action::Split,
        Action::Surrender,
        Action::TakeInsurance,
        Action::DeclineInsurance,
        Action::NextRound,
    ] {
        let err = t.apply(0, action).unwrap_err();
        assert_eq!(
            err,
            ActionError::WrongPhase {
                action: action.kind(),
                phase: Phase::Betting
            }
        );
        assert_eq!(t.snapshot(), before);
    }
}


#[test]
fn the_deal_goes_round_twice_from_the_top_of_the_shoe() {
    let rules = Rules::canonical();
    let mut shoe = Shoe::from_seed(rules.decks, rules.penetration, 31);
    shoe.burn().unwrap();
    let next: Vec<Card> = (0..6).map(|_| shoe.draw().unwrap()).collect();

    let mut t = Table::from_seed(rules, 31);
    t.apply(1, Action::PlaceBet(10)).unwrap();
    t.apply(4, Action::PlaceBet(25)).unwrap();
    let transition = t.apply(0, Action::Deal).unwrap();
    let snap = transition.snapshot;
    assert_eq!(snap.seats[1].hands[0].cards, [next[0], next[3]]);
    assert_eq!(snap.seats[4].hands[0].cards, [next[1], next[4]]);
    assert_eq!(snap.dealer.upcard, Some(next[2]));
    assert_eq!(
        &transition.events[..6],
        [
            Event::CardDealt { seat: 1, hand: 0, card: next[0] },
            Event::CardDealt { seat: 4, hand: 0, card: next[1] },
            Event::DealerCardDealt { card: next[2] },
            Event::CardDealt { seat: 1, hand: 0, card: next[3] },
            Event::CardDealt { seat: 4, hand: 0, card: next[4] },
            Event::HoleCardDealt,
        ]
    );
}

fn cards_on_felt(snap: &blackjack::snapshot::Snapshot) -> usize {
    let seats: usize = snap
        .seats
        .iter()
        .map(|s| s.hands.iter().map(|h| h.cards.len()).sum::<usize>())
        .sum();
    let dealer = snap.dealer.upcard.iter().count()
        + usize::from(snap.dealer.hole_card_dealt)
        + snap.dealer.draws.len();
    seats + dealer
}

#[test]
fn every_card_is_in_the_shoe_the_pile_or_on_the_felt() {
    let mut t = table(77);
    for _round in 0..40 {
        t.apply(2, Action::PlaceBet(25)).unwrap();
        t.apply(5, Action::PlaceBet(10)).unwrap();
        let mut snap = t.apply(0, Action::Deal).unwrap().snapshot;
        loop {
            let total = snap.shoe.cards_remaining + snap.shoe.discard_pile_size + cards_on_felt(&snap);
            assert_eq!(total, 6 * 52);
            if snap.phase == Phase::RoundOver {
                break;
            }
            let seat = snap.active.map(|a| a.seat).unwrap_or(0);
            let action = if snap.legal_actions.contains(&ActionKind::DeclineInsurance) {
                Action::DeclineInsurance
            } else {
                Action::Stand
            };
            snap = t.apply(seat, action).unwrap().snapshot;
        }
        let snap = t.apply(0, Action::NextRound).unwrap().snapshot;
        assert_eq!(snap.shoe.cards_remaining + snap.shoe.discard_pile_size, 6 * 52);
    }
}

#[test]
fn a_hit_deals_the_next_card_of_the_shoe() {
    let mut checked = 0;
    for seed in 0..40u64 {
        let rules = Rules::canonical();
        let mut shoe = Shoe::from_seed(rules.decks, rules.penetration, seed);
        shoe.burn().unwrap();
        let next: Vec<Card> = (0..5).map(|_| shoe.draw().unwrap()).collect();
        let mut t = Table::from_seed(rules, seed);
        t.apply(1, Action::PlaceBet(10)).unwrap();
        let snap = t.apply(0, Action::Deal).unwrap().snapshot;
        if snap.phase != Phase::PlayerTurn {
            continue;
        }
        let transition = t.apply(1, Action::Hit).unwrap();
        assert_eq!(
            transition.events[0],
            Event::CardDealt { seat: 1, hand: 0, card: next[4] }
        );
        assert_eq!(transition.snapshot.seats[1].hands[0].cards[2], next[4]);
        checked += 1;
    }
    assert!(checked > 0);
}
