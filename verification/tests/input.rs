use blackjack::action::ActionKind;
use blackjack::chips::{ChipStack, Denomination};
use blackjack::gesture::{Intent, StrokeOutcome, test_ctx};
use blackjack::help::help_lights;
use blackjack::input::{KeyOutcome, key_outcome, stage_after, stroke_stage};
use blackjack::keyboard::KeyCommand;
use blackjack::rules::Rules;
use blackjack::snapshot::Phase;
use blackjack::table::Table;

fn deep_rack() -> ChipStack {
    let mut rack = ChipStack::new();
    rack.add_chips(Denomination::Five, 40);
    rack.add_chips(Denomination::TwentyFive, 20);
    rack
}

#[test]
fn bet_keys_reshape_the_stage_only_while_betting() {
    let rack = deep_rack();
    let betting = test_ctx(Phase::Betting, &[ActionKind::PlaceBet], false);
    let staged = ChipStack::new();
    match key_outcome(&betting, KeyCommand::BetUp, &staged, &rack) {
        KeyOutcome::Stage(s) => assert_eq!(s.total(), 10),
        other => panic!("bet up should stage, got {other:?}"),
    }
    match key_outcome(&betting, KeyCommand::BetUnits(5), &staged, &rack) {
        KeyOutcome::Stage(s) => assert_eq!(s.total(), 50),
        other => panic!("units should stage, got {other:?}"),
    }
    let playing = test_ctx(Phase::PlayerTurn, &[ActionKind::Hit, ActionKind::Stand], true);
    assert_eq!(key_outcome(&playing, KeyCommand::BetUp, &staged, &rack), KeyOutcome::Nothing);
    assert_eq!(key_outcome(&playing, KeyCommand::BetUnits(3), &staged, &rack), KeyOutcome::Nothing);
    assert_eq!(
        key_outcome(&playing, KeyCommand::Hit, &staged, &rack),
        KeyOutcome::Intent(Intent::Hit)
    );
    assert_eq!(key_outcome(&playing, KeyCommand::Split, &staged, &rack), KeyOutcome::Nothing);
}

#[test]
fn enter_posts_the_staged_total() {
    let rack = deep_rack();
    let betting = test_ctx(Phase::Betting, &[ActionKind::PlaceBet], false);
    let staged = ChipStack::change(35);
    assert_eq!(
        key_outcome(&betting, KeyCommand::Confirm, &staged, &rack),
        KeyOutcome::Intent(Intent::ConfirmBet(35))
    );
    assert!(betting.settle_ready(35));
    assert!(!betting.settle_ready(5));
    let playing = test_ctx(Phase::PlayerTurn, &[ActionKind::Hit], true);
    assert!(!playing.settle_ready(35));
}

#[test]
fn strokes_add_and_remove_staged_chips() {
    let rack = deep_rack();
    let betting = test_ctx(Phase::Betting, &[ActionKind::PlaceBet], false);
    let staged = stroke_stage(&betting, StrokeOutcome::StageAdd(Denomination::TwentyFive), &ChipStack::new(), &rack);
    assert_eq!(staged.count(Denomination::TwentyFive), 1);
    let fewer = stroke_stage(&betting, StrokeOutcome::StageRemove(Denomination::TwentyFive), &staged, &rack);
    assert!(fewer.is_empty());
    let same = stroke_stage(&betting, StrokeOutcome::Nothing, &staged, &rack);
    assert_eq!(same, staged);
    let refused = stroke_stage(&betting, StrokeOutcome::StageAdd(Denomination::Hundred), &staged, &rack);
    assert_eq!(refused, staged, "the rack holds no black chips");
}

#[test]
fn the_stage_clears_once_the_bet_posts() {
    let mut table = Table::from_seed(Rules::canonical(), 2);
    let staged = ChipStack::change(25);
    let open = table.snapshot();
    assert_eq!(stage_after(&open, 3, &staged), staged);
    let posted = table.apply(3, blackjack::action::Action::PlaceBet(25)).unwrap().snapshot;
    assert!(stage_after(&posted, 3, &staged).is_empty());
    assert_eq!(stage_after(&posted, 2, &staged), staged);
}

#[test]
fn dimming_follows_legal_actions_during_the_player_turn() {
    let legal = [ActionKind::Hit, ActionKind::Stand, ActionKind::Double];
    let lights = help_lights(&test_ctx(Phase::PlayerTurn, &legal, true));
    assert!(!lights.hit);
    assert!(!lights.stand);
    assert!(!lights.double);
    assert!(lights.split);
    assert!(lights.surrender);
    assert!(lights.bet_circle);
    assert!(lights.insurance);
    assert!(lights.rack_leave);
    assert!(!lights.keys);
    let idle = help_lights(&test_ctx(Phase::PlayerTurn, &legal, false));
    assert!(idle.hit && idle.stand && idle.double && idle.split && idle.surrender);
}

#[test]
fn dimming_in_betting_and_insurance_phases() {
    let betting = help_lights(&test_ctx(Phase::Betting, &[ActionKind::PlaceBet], false));
    assert!(!betting.bet_circle);
    assert!(!betting.rack_leave);
    assert!(betting.hit);
    assert!(betting.insurance);

    let legal = [ActionKind::TakeInsurance, ActionKind::DeclineInsurance];
    let offer = help_lights(&test_ctx(Phase::InsuranceOffer, &legal, true));
    assert!(!offer.insurance);
    assert!(offer.bet_circle);
    let idle = help_lights(&test_ctx(Phase::InsuranceOffer, &legal, false));
    assert!(idle.insurance);

    let over = help_lights(&test_ctx(Phase::RoundOver, &[ActionKind::NextRound], false));
    assert!(!over.rack_leave);
}
