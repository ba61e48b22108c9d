
use blackjack::chips::{ChipStack, Denomination};
use blackjack::staging::{rack_after_staging, stage_add, stage_nudge, stage_ready, stage_remove, stage_top, stage_units};

const MIN: u32 = 10;
const MAX: u32 = 500;

/// A roomy rack that never constrains: the pre-#12 behavior.
fn deep_rack() -> ChipStack {
    let mut rack = ChipStack::new();
    rack.add_chips(Denomination::One, 50);
    rack.add_chips(Denomination::Five, 50);
    rack.add_chips(Denomination::TwentyFive, 50);
    rack.add_chips(Denomination::Hundred, 50);
    rack
}

#[test]
fn adds_clamp_at_the_table_maximum() {
    let rack = deep_rack();
    let mut staged = ChipStack::new();
    for _ in 0..4 {
        staged = stage_add(&staged, Denomination::Hundred, MAX, &rack);
    }
    assert_eq!(staged.total(), 400);
    // One more black chip fits exactly.
    staged = stage_add(&staged, Denomination::Hundred, MAX, &rack);
    assert_eq!(staged.total(), 500);
    // Anything more is refused, even a white chip.
    let refused = stage_add(&staged, Denomination::One, MAX, &rack);
    assert_eq!(refused.total(), 500);
    assert_eq!(refused, staged);
}

#[test]
fn adds_stop_at_the_rack_chips() {
    // Two red chips in the rack: the third add is refused.
    let mut rack = ChipStack::new();
    rack.add_chips(Denomination::Five, 2);
    let mut staged = ChipStack::new();
    staged = stage_add(&staged, Denomination::Five, MAX, &rack);
    staged = stage_add(&staged, Denomination::Five, MAX, &rack);
    assert_eq!(staged.total(), 10);
    let refused = stage_add(&staged, Denomination::Five, MAX, &rack);
    assert_eq!(refused, staged);
    // A denomination the rack never held is refused outright.
    let refused = stage_add(&staged, Denomination::Hundred, MAX, &rack);
    assert_eq!(refused, staged);
}

#[test]
fn the_visible_rack_depletes_as_the_stage_grows() {
    let mut rack = ChipStack::new();
    rack.add_chips(Denomination::Five, 3);
    rack.add_chips(Denomination::TwentyFive, 1);
    let mut staged = ChipStack::new();
    staged.add_chips(Denomination::Five, 2);
    let visible = rack_after_staging(&rack, &staged);
    assert_eq!(visible.count(Denomination::Five), 1);
    assert_eq!(visible.count(Denomination::TwentyFive), 1);
    assert_eq!(visible.total(), rack.total() - staged.total());
    // An empty stage leaves the rack untouched.
    assert_eq!(rack_after_staging(&rack, &ChipStack::new()), rack);
}

#[test]
fn the_visible_rack_survives_broken_change() {
    // The rack is one black chip; a keyboard cut staged $10 as two
    // red chips the rack never held. The view shows the $90 of
    // change the break produced, not a panic.
    let mut rack = ChipStack::new();
    rack.add_chips(Denomination::Hundred, 1);
    let staged = stage_units(1, MIN, MAX, &rack);
    assert_eq!(staged.total(), 10);
    assert_eq!(staged.count(Denomination::Five), 2);
    let visible = rack_after_staging(&rack, &staged);
    assert_eq!(visible.total(), 90);
}

#[test]
fn removes_only_present_denominations() {
    let mut staged = ChipStack::new();
    staged.add_chips(Denomination::TwentyFive, 2);
    // Removing a denomination that is not there changes nothing —
    // the stage never makes change.
    assert_eq!(stage_remove(&staged, Denomination::Five), staged);
    let less = stage_remove(&staged, Denomination::TwentyFive);
    assert_eq!(less.total(), 25);
}

#[test]
fn the_top_chip_is_the_smallest_denomination() {
    let mut staged = ChipStack::new();
    staged.add_chips(Denomination::Hundred, 1);
    staged.add_chips(Denomination::Five, 2);
    assert_eq!(stage_top(&staged), Some(Denomination::Five));
    assert_eq!(stage_top(&ChipStack::new()), None);
}

#[test]
fn nudges_snap_to_the_limits() {
    let rack = deep_rack();
    // Up from empty: the minimum.
    let staged = stage_nudge(&ChipStack::new(), true, MIN, MAX, &rack);
    assert_eq!(staged.total(), MIN);
    // Up again: one increment more.
    let staged = stage_nudge(&staged, true, MIN, MAX, &rack);
    assert_eq!(staged.total(), 2 * MIN);
    // Down twice: back through the minimum to empty.
    let staged = stage_nudge(&staged, false, MIN, MAX, &rack);
    assert_eq!(staged.total(), MIN);
    let staged = stage_nudge(&staged, false, MIN, MAX, &rack);
    assert_eq!(staged.total(), 0);
    // Down from an off-increment stage never lands below the
    // minimum while chips remain.
    let odd = ChipStack::change(15);
    assert_eq!(stage_nudge(&odd, false, MIN, MAX, &rack).total(), MIN);
    // Up saturates at the maximum.
    let big = ChipStack::change(MAX);
    assert_eq!(stage_nudge(&big, true, MIN, MAX, &rack).total(), MAX);
}

#[test]
fn nudges_saturate_at_the_rack() {
    // $35 in the rack: nudging up walks 10, 20, 30, 35 and stops.
    let rack = ChipStack::change(35);
    let mut staged = ChipStack::new();
    for expected in [10, 20, 30, 35, 35] {
        staged = stage_nudge(&staged, true, MIN, MAX, &rack);
        assert_eq!(staged.total(), expected);
    }
    // A rack below the minimum can never nudge up a postable stage.
    let broke = ChipStack::change(5);
    assert!(stage_nudge(&ChipStack::new(), true, MIN, MAX, &broke).is_empty());
}

#[test]
fn unit_shortcuts_cap_at_the_maximum_and_the_rack() {
    let rack = deep_rack();
    assert_eq!(stage_units(1, MIN, MAX, &rack).total(), 10);
    assert_eq!(stage_units(9, MIN, MAX, &rack).total(), 90);
    assert_eq!(stage_units(99, MIN, MAX, &rack).total(), MAX);
    // The rack caps below the table maximum.
    let thin = ChipStack::change(45);
    assert_eq!(stage_units(9, MIN, MAX, &thin).total(), 45);
    // A rack below the minimum stages nothing at all.
    let broke = ChipStack::change(5);
    assert!(stage_units(9, MIN, MAX, &broke).is_empty());
}

#[test]
fn keyboard_cuts_come_from_the_rack_chips() {
    // A green-only rack cuts $50 as two greens, not as change the
    // rack does not hold.
    let mut rack = ChipStack::new();
    rack.add_chips(Denomination::TwentyFive, 4);
    let staged = stage_units(5, MIN, MAX, &rack);
    assert_eq!(staged.total(), 50);
    assert_eq!(staged.count(Denomination::TwentyFive), 2);
    assert_eq!(staged.chip_count(), 2);
}

#[test]
fn readiness_is_exactly_the_table_limits() {
    assert!(!stage_ready(0, MIN, MAX));
    assert!(!stage_ready(MIN - 1, MIN, MAX));
    assert!(stage_ready(MIN, MIN, MAX));
    assert!(stage_ready(MAX, MIN, MAX));
    assert!(!stage_ready(MAX + 1, MIN, MAX));
}
