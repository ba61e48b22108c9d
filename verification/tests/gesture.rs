use blackjack::action::{Action, ActionKind};
use blackjack::gesture::{GestureCtx, Intent, human_seat, resolve, test_ctx};
use blackjack::rules::Rules;
use blackjack::snapshot::Phase;
use blackjack::table::Table;

#[test]
fn resolve_regates_every_intent() {
    let ctx = test_ctx(
        Phase::PlayerTurn,
        &[ActionKind::Hit, ActionKind::Stand],
        true,
    );
    assert_eq!(resolve(&ctx, Intent::Hit), Some(Action::Hit));
    assert_eq!(resolve(&ctx, Intent::Stand), Some(Action::Stand));
    assert_eq!(resolve(&ctx, Intent::Double), None);
    assert_eq!(resolve(&ctx, Intent::Split), None);
    assert_eq!(resolve(&ctx, Intent::Surrender), None);
    assert_eq!(resolve(&ctx, Intent::ConfirmBet(50)), None);
    assert_eq!(resolve(&ctx, Intent::NextRound), None);
    let ctx_bet = test_ctx(Phase::Betting, &[ActionKind::PlaceBet], false);
    assert_eq!(resolve(&ctx_bet, Intent::WalkAway), None);
    assert_eq!(
        resolve(&ctx_bet, Intent::ConfirmBet(50)),
        Some(Action::PlaceBet(50))
    );
    assert_eq!(resolve(&ctx_bet, Intent::ConfirmBet(5)), None);
    assert_eq!(resolve(&ctx_bet, Intent::ConfirmBet(10_000)), None);
}

#[test]
fn resolve_needs_the_humans_turn_for_seat_decisions() {
    let idle = test_ctx(Phase::PlayerTurn, &[ActionKind::Hit, ActionKind::Stand], false);
    assert_eq!(resolve(&idle, Intent::Hit), None);
    assert_eq!(resolve(&idle, Intent::Stand), None);
    let offer = [ActionKind::TakeInsurance, ActionKind::DeclineInsurance];
    let mine = test_ctx(Phase::InsuranceOffer, &offer, true);
    assert_eq!(resolve(&mine, Intent::TakeInsurance), Some(Action::TakeInsurance));
    assert_eq!(resolve(&mine, Intent::DeclineInsurance), Some(Action::DeclineInsurance));
    let theirs = test_ctx(Phase::InsuranceOffer, &offer, false);
    assert_eq!(resolve(&theirs, Intent::TakeInsurance), None);
    let over = test_ctx(Phase::RoundOver, &[ActionKind::NextRound], false);
    assert_eq!(resolve(&over, Intent::NextRound), Some(Action::NextRound));
}

#[test]
fn human_seat_is_the_center_seat() {
    let snapshot = Table::from_seed(Rules::canonical(), 0).snapshot();
    assert_eq!(human_seat(&snapshot), 3);
    let ctx = GestureCtx::from_snapshot(&snapshot, 3);
    assert_eq!(ctx.phase, Phase::Betting);
    assert_eq!(ctx.min_bet, 10);
    assert_eq!(ctx.max_bet, 500);
    assert!(ctx.allows(ActionKind::PlaceBet));
    assert!(!ctx.human_active);
    assert_eq!(ctx.human_seat, 3);
}
