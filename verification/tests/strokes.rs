use blackjack::action::ActionKind;
use blackjack::chips::Denomination;
use blackjack::gesture::{
    DropZone, Intent, StrokeOutcome, TapSpot, bet_chip_drop, chips_mean_something, rack_drop,
    tap_outcome, test_ctx, walks_away, wave_outcome,
};
use blackjack::input::SettleClock;
use blackjack::rules::Rules;
use blackjack::snapshot::Phase;

fn spot(on_felt: bool, band: bool, circle: bool, hand: bool) -> TapSpot {
    TapSpot { on_felt, in_insurance_band: band, in_bet_circle: circle, in_hand_zone: hand }
}

#[test]
fn rack_chips_land_by_zone_and_signal() {
    let betting = test_ctx(Phase::Betting, &[ActionKind::PlaceBet], false);
    assert!(chips_mean_something(&betting));
    assert_eq!(rack_drop(&betting, DropZone::BetCircle, Denomination::Five), StrokeOutcome::StageAdd(Denomination::Five));
    assert_eq!(rack_drop(&betting, DropZone::DoubleSide, Denomination::Five), StrokeOutcome::Nothing);
    let turn = test_ctx(Phase::PlayerTurn, &[ActionKind::Hit, ActionKind::Stand, ActionKind::Double], true);
    assert_eq!(rack_drop(&turn, DropZone::DoubleSide, Denomination::One), StrokeOutcome::Intent(Intent::Double));
    assert_eq!(rack_drop(&turn, DropZone::SplitBehind, Denomination::One), StrokeOutcome::Nothing);
    assert_eq!(rack_drop(&turn, DropZone::Off, Denomination::One), StrokeOutcome::Nothing);
    let not_mine = test_ctx(Phase::PlayerTurn, &[ActionKind::Hit, ActionKind::Double], false);
    assert!(!chips_mean_something(&not_mine));
    assert_eq!(rack_drop(&not_mine, DropZone::DoubleSide, Denomination::One), StrokeOutcome::Nothing);
    let insurance = test_ctx(Phase::InsuranceOffer, &[ActionKind::TakeInsurance, ActionKind::DeclineInsurance], true);
    assert_eq!(rack_drop(&insurance, DropZone::InsuranceBand, Denomination::One), StrokeOutcome::Intent(Intent::TakeInsurance));
}

#[test]
fn staged_chips_come_off_only_outside_the_circle() {
    let betting = test_ctx(Phase::Betting, &[ActionKind::PlaceBet], false);
    assert_eq!(bet_chip_drop(&betting, true, Denomination::Five), StrokeOutcome::StageRemove(Denomination::Five));
    assert_eq!(bet_chip_drop(&betting, false, Denomination::Five), StrokeOutcome::Nothing);
    let over = test_ctx(Phase::RoundOver, &[ActionKind::NextRound], false);
    assert_eq!(bet_chip_drop(&over, true, Denomination::Five), StrokeOutcome::Nothing);
}

#[test]
fn taps_mean_what_the_phase_allows() {
    let min = Rules::canonical().min_bet;
    let betting = test_ctx(Phase::Betting, &[ActionKind::PlaceBet], false);
    assert_eq!(tap_outcome(&betting, spot(true, false, true, false), min), StrokeOutcome::Intent(Intent::ConfirmBet(min)));
    assert_eq!(tap_outcome(&betting, spot(true, false, true, false), 0), StrokeOutcome::Nothing);
    assert_eq!(tap_outcome(&betting, spot(true, false, false, false), min), StrokeOutcome::Nothing);
    let insurance = test_ctx(Phase::InsuranceOffer, &[ActionKind::TakeInsurance, ActionKind::DeclineInsurance], true);
    assert_eq!(tap_outcome(&insurance, spot(true, false, false, false), 0), StrokeOutcome::Intent(Intent::DeclineInsurance));
    assert_eq!(tap_outcome(&insurance, spot(true, true, false, false), 0), StrokeOutcome::Nothing);
    let turn = test_ctx(Phase::PlayerTurn, &[ActionKind::Hit, ActionKind::Stand], true);
    assert_eq!(tap_outcome(&turn, spot(true, false, false, true), 0), StrokeOutcome::Intent(Intent::Hit));
    let over = test_ctx(Phase::RoundOver, &[ActionKind::NextRound], false);
    assert_eq!(tap_outcome(&over, spot(true, false, false, false), 0), StrokeOutcome::Intent(Intent::NextRound));
    assert_eq!(tap_outcome(&over, spot(false, false, false, false), 0), StrokeOutcome::Nothing);
}

#[test]
fn waves_stand_or_surrender_and_racking_up_walks_away() {
    let turn = test_ctx(Phase::PlayerTurn, &[ActionKind::Hit, ActionKind::Stand, ActionKind::Surrender], true);
    assert_eq!(wave_outcome(&turn, true, false), StrokeOutcome::Intent(Intent::Stand));
    assert_eq!(wave_outcome(&turn, false, true), StrokeOutcome::Intent(Intent::Surrender));
    assert_eq!(wave_outcome(&turn, false, false), StrokeOutcome::Nothing);
    assert!(!walks_away(&turn, true, true));
    let over = test_ctx(Phase::RoundOver, &[ActionKind::NextRound], false);
    assert!(walks_away(&over, true, true));
    assert!(!walks_away(&over, false, true));
}

#[test]
fn a_settle_timer_posts_only_if_nothing_moved() {
    let min = Rules::canonical().min_bet;
    let betting = test_ctx(Phase::Betting, &[ActionKind::PlaceBet], false);
    let mut clock = SettleClock::new();
    let armed = clock.bump();
    assert_eq!(armed, 1);
    assert_eq!(clock.fires(armed, false, &betting, min), Some(Intent::ConfirmBet(min)));
    assert_eq!(clock.fires(armed, true, &betting, min), None);
    let later = clock.bump();
    assert_eq!(clock.fires(armed, false, &betting, min), None);
    assert_eq!(clock.fires(later, false, &betting, 0), None);
}
