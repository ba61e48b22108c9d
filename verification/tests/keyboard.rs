
use blackjack::action::ActionKind;
use blackjack::gesture::{Intent, test_ctx};
use blackjack::keyboard::{KEY_ROW_1, KEY_ROW_2, KeyCommand, command_intent, is_help_key, key_command, releases_help_key};
use blackjack::snapshot::Phase;

#[test]
fn the_key_map_is_the_documented_one() {
    let pairs = [
        ("h", KeyCommand::Hit),
        ("H", KeyCommand::Hit),
        ("s", KeyCommand::Stand),
        ("d", KeyCommand::Double),
        ("p", KeyCommand::Split),
        ("r", KeyCommand::Surrender),
        ("y", KeyCommand::InsuranceYes),
        ("n", KeyCommand::InsuranceNo),
        ("Enter", KeyCommand::Confirm),
        ("+", KeyCommand::BetUp),
        ("=", KeyCommand::BetUp),
        ("ArrowUp", KeyCommand::BetUp),
        ("-", KeyCommand::BetDown),
        ("_", KeyCommand::BetDown),
        ("ArrowDown", KeyCommand::BetDown),
        ("w", KeyCommand::WalkAway),
        ("1", KeyCommand::BetUnits(1)),
        ("9", KeyCommand::BetUnits(9)),
    ];
    for (key, command) in pairs {
        assert_eq!(key_command(key), Some(command), "{key}");
    }
    for dead in ["q", "0", "10", "Escape", " ", "F1", "Tab"] {
        assert_eq!(key_command(dead), None, "{dead}");
    }
}

#[test]
fn hand_keys_gate_on_turn_and_legality() {
    let legal = [ActionKind::Hit, ActionKind::Stand, ActionKind::Double];
    let ctx = test_ctx(Phase::PlayerTurn, &legal, true);
    assert_eq!(command_intent(&ctx, KeyCommand::Hit, 0), Some(Intent::Hit));
    assert_eq!(
        command_intent(&ctx, KeyCommand::Double, 0),
        Some(Intent::Double)
    );
    // Split is not legal (no pair): the key is dead.
    assert_eq!(command_intent(&ctx, KeyCommand::Split, 0), None);
    // Not the human's turn: everything is dead.
    let ctx_idle = test_ctx(Phase::PlayerTurn, &legal, false);
    assert_eq!(command_intent(&ctx_idle, KeyCommand::Hit, 0), None);
    // Wrong phase entirely.
    let ctx_bet = test_ctx(Phase::Betting, &[ActionKind::PlaceBet], false);
    assert_eq!(command_intent(&ctx_bet, KeyCommand::Hit, 0), None);
}

#[test]
fn enter_posts_bets_and_advances_rounds() {
    let ctx_bet = test_ctx(Phase::Betting, &[ActionKind::PlaceBet], false);
    assert_eq!(
        command_intent(&ctx_bet, KeyCommand::Confirm, 50),
        Some(Intent::ConfirmBet(50))
    );
    // An unready stage does not post.
    assert_eq!(command_intent(&ctx_bet, KeyCommand::Confirm, 0), None);
    assert_eq!(command_intent(&ctx_bet, KeyCommand::Confirm, 5), None);
    let ctx_over = test_ctx(Phase::RoundOver, &[ActionKind::NextRound], false);
    assert_eq!(
        command_intent(&ctx_over, KeyCommand::Confirm, 0),
        Some(Intent::NextRound)
    );
    let ctx_play = test_ctx(
        Phase::PlayerTurn,
        &[ActionKind::Hit, ActionKind::Stand],
        true,
    );
    assert_eq!(command_intent(&ctx_play, KeyCommand::Confirm, 0), None);
}

#[test]
fn insurance_keys_answer_only_the_humans_open_offer() {
    let legal = [ActionKind::TakeInsurance, ActionKind::DeclineInsurance];
    let ctx = test_ctx(Phase::InsuranceOffer, &legal, true);
    assert_eq!(
        command_intent(&ctx, KeyCommand::InsuranceYes, 0),
        Some(Intent::TakeInsurance)
    );
    assert_eq!(
        command_intent(&ctx, KeyCommand::InsuranceNo, 0),
        Some(Intent::DeclineInsurance)
    );
    let ctx_idle = test_ctx(Phase::InsuranceOffer, &legal, false);
    assert_eq!(command_intent(&ctx_idle, KeyCommand::InsuranceYes, 0), None);
    assert_eq!(command_intent(&ctx_idle, KeyCommand::InsuranceNo, 0), None);
}

#[test]
fn walk_away_and_bet_adjust_keys() {
    let ctx_bet = test_ctx(Phase::Betting, &[ActionKind::PlaceBet], false);
    assert_eq!(
        command_intent(&ctx_bet, KeyCommand::WalkAway, 0),
        Some(Intent::WalkAway)
    );
    let ctx_play = test_ctx(
        Phase::PlayerTurn,
        &[ActionKind::Hit, ActionKind::Stand],
        true,
    );
    assert_eq!(command_intent(&ctx_play, KeyCommand::WalkAway, 0), None);
    // Bet adjustments never emit intents; the overlay applies them
    // to the stage directly.
    assert_eq!(command_intent(&ctx_bet, KeyCommand::BetUp, 0), None);
    assert_eq!(command_intent(&ctx_bet, KeyCommand::BetDown, 20), None);
    assert_eq!(command_intent(&ctx_bet, KeyCommand::BetUnits(5), 0), None);
}

#[test]
fn help_holds_on_question_mark_and_f1_only() {
    assert!(is_help_key("?"));
    assert!(is_help_key("F1"));
    for key in ["h", "s", "/", "Shift", "Enter", "F2", " "] {
        assert!(!is_help_key(key), "{key}");
    }
}

#[test]
fn release_accepts_the_shifted_key_coming_apart() {
    for key in ["?", "/", "F1", "Shift"] {
        assert!(releases_help_key(key), "{key}");
    }
    for key in ["h", "s", "d", "p", "r", "y", "n", "w", "Enter"] {
        assert!(!releases_help_key(key), "{key}");
    }
}

#[test]
fn non_ascii_keys_are_dead() {
    assert_eq!(key_command("\u{e9}"), None);
    assert_eq!(key_command("H\u{e9}"), None);
    assert!(!is_help_key("\u{bf}"));
    assert!(!releases_help_key("\u{bf}"));
}

#[test]
fn the_cheat_rows_cover_the_documented_key_map() {
    let rows = format!("{KEY_ROW_1} {KEY_ROW_2}");
    for key in ["H ", "S ", "D ", "P ", "R ", "Y/N", "Enter", "W "] {
        assert!(rows.contains(key), "{key}");
    }
    for word in [
        "hit",
        "stand",
        "double",
        "split",
        "surrender",
        "insurance",
        "post",
        "walk away",
    ] {
        assert!(rows.contains(word), "{word}");
    }
}
