//! Bet staging: the UI-local pile of chips building up in the betting
//! circle before it is posted as one `PlaceBet`.
//!
//! All pure functions over [`ChipStack`]s. Every function takes the
//! human's real rack: the stage is cut from those chips and nothing else.
//! The invariants:
//!
//! - the staged total never exceeds the table maximum **or the rack** —
//!   adds and cuts beyond either are refused;
//! - a chip can be dragged in only while an unstaged chip of that
//!   denomination remains in the rack ([`rack_after_staging`]);
//! - only denominations actually present in the stage can be dragged
//!   back out — the stage never "makes change" on removal;
//! - keyboard cuts ([`stage_nudge`], [`stage_units`]) withdraw from the
//!   rack's actual chips, breaking a larger chip when they must, exactly
//!   as posting the bet would ([`Rack::place_bet`](crate::chips::Rack::place_bet));
//! - a stage is postable ([`stage_ready`]) only in `[min_bet, max_bet]`.
//!
//! When the rack cannot cover the table minimum, no stage can ever
//! become postable — betting is impossible, and the session layer turns
//! that into game over.
use vstd::prelude::*;
use crate::chips::{ChipStack, Counts, Denomination, denom_value, withdraw_counts};

verus! {

/// Whether every chip of `staged` is one the rack holds.
pub open spec fn chips_within(staged: Counts, rack: Counts) -> bool {
    &&& staged.ones <= rack.ones
    &&& staged.fives <= rack.fives
    &&& staged.twenty_fives <= rack.twenty_fives
    &&& staged.hundreds <= rack.hundreds
    &&& staged.five_hundreds <= rack.five_hundreds
}

/// `rack` with the chips of `staged` taken out, chip for chip.
pub open spec fn chips_minus(rack: Counts, staged: Counts) -> Counts {
    Counts {
        ones: (rack.ones - staged.ones) as nat,
        fives: (rack.fives - staged.fives) as nat,
        twenty_fives: (rack.twenty_fives - staged.twenty_fives) as nat,
        hundreds: (rack.hundreds - staged.hundreds) as nat,
        five_hundreds: (rack.five_hundreds - staged.five_hundreds) as nat,
    }
}

/// The rack as the player sees it while staging: the staged chips taken
/// out chip for chip when the rack holds them all; otherwise the staged
/// value withdrawn (showing the change a broken chip produced); a stage
/// worth more than the rack leaves the rack as it is.
pub open spec fn spec_rack_after_staging(rack: Counts, staged: Counts) -> Counts {
    if chips_within(staged, rack) {
        chips_minus(rack, staged)
    } else if staged.total() <= rack.total() {
        withdraw_counts(rack, staged.total()).0
    } else {
        rack
    }
}

/// The rack as the player sees it while staging: the real rack minus
/// the chips already staged. This is what renders on the rail and what
/// can be grabbed.
///
/// When the stage holds exactly chips the rack has, they are removed
/// chip for chip. A keyboard cut may have broken a large chip
/// ([`stage_nudge`]); then the view falls back to withdrawing the staged
/// value, showing the change the break produced.
pub fn rack_after_staging(rack: &ChipStack, staged: &ChipStack) -> (v: ChipStack)
    ensures
        v@ == spec_rack_after_staging(rack@, staged@),
{
    let mut rest = *rack;
    let mut all_present = true;
    let mut i: usize = 0;
    while i < 5
        invariant
            i <= 5,
            all_present ==> forall|j: int|
                0 <= j < i ==> staged@.get(#[trigger] Denomination::ALL[j]) <= rack@.get(
                    Denomination::ALL[j],
                ),
            all_present ==> forall|d: Denomination| #[trigger] rest@.get(d) == if (exists|j: int|
                0 <= j < i && Denomination::ALL[j] == d) {
                rack@.get(d) - staged@.get(d)
            } else {
                rack@.get(d) as int
            },
            !all_present ==> !chips_within(staged@, rack@),
        decreases 5 - i,
    {
        if all_present {
            let d = Denomination::ALL[i];
            let n = staged.count(d);
            let ghost before = rest@;
            match rest.remove_chips(d, n) {
                Ok(()) => {
                    proof {
                        assert forall|e: Denomination| #[trigger] rest@.get(e) == if (exists|j: int|
                            0 <= j < i + 1 && Denomination::ALL[j] == e) {
                            rack@.get(e) - staged@.get(e)
                        } else {
                            rack@.get(e) as int
                        } by {
                            if e == d {
                                assert(Denomination::ALL[i as int] == e);
                            } else {
                                assert(rest@.get(e) == before.get(e));
                                if exists|j: int| 0 <= j < i + 1 && Denomination::ALL[j] == e {
                                    let j = choose|j: int| 0 <= j < i + 1 && Denomination::ALL[j] == e;
                                    assert(j != i);
                                }
                            }
                        }
                    }
                },
                Err(_) => {
                    all_present = false;
                    proof {
                        assert(Denomination::ALL[i as int] == d);
                        assert(rest@.get(d) == rack@.get(d));
                    }
                },
            }
        }
        i = i + 1;
    }
    if all_present {
        proof {
            assert(Denomination::ALL[0] == Denomination::One);
            assert(Denomination::ALL[1] == Denomination::Five);
            assert(Denomination::ALL[2] == Denomination::TwentyFive);
            assert(Denomination::ALL[3] == Denomination::Hundred);
            assert(Denomination::ALL[4] == Denomination::FiveHundred);
            assert(rest@.get(Denomination::One) == rack@.ones - staged@.ones);
            assert(rest@.get(Denomination::Five) == rack@.fives - staged@.fives);
            assert(rest@.get(Denomination::TwentyFive) == rack@.twenty_fives - staged@.twenty_fives);
            assert(rest@.get(Denomination::Hundred) == rack@.hundreds - staged@.hundreds);
            assert(rest@.get(Denomination::FiveHundred) == rack@.five_hundreds - staged@.five_hundreds);
            assert(chips_within(staged@, rack@));
        }
        return rest;
    }
    let mut rest = *rack;
    match rest.withdraw(staged.total()) {
        Ok(_) => rest,
        // A stage worth more than the rack cannot arise through this
        // module; the untouched rack renders instead.
        Err(_) => *rack,
    }
}

/// Add one chip of `denomination` to the stage, refusing (returning the
/// stage unchanged) if that would push past `max_bet` or if no unstaged
/// chip of that denomination remains in `rack`.
pub fn stage_add(staged: &ChipStack, denomination: Denomination, max_bet: u32, rack: &ChipStack) -> (s: ChipStack)
    ensures
        ({
            let added = spec_rack_after_staging(rack@, staged@).get(denomination) > 0
                && staged@.total() + denom_value(denomination) <= max_bet;
            &&& added ==> s@ == staged@.set(denomination, staged@.get(denomination) + 1)
            &&& !added ==> s == *staged
        }),
        s@.total() <= max_bet || s == *staged,
{
    let mut next = *staged;
    let available = rack_after_staging(rack, staged).count(denomination) > 0;
    if available && staged.total() as u64 + denomination.value() as u64 <= max_bet as u64 {
        next.add_chips(denomination, 1);
    }
    next
}

/// Remove one chip of `denomination` from the stage, if present — the
/// stage never makes change.
pub fn stage_remove(staged: &ChipStack, denomination: Denomination) -> (s: ChipStack)
    ensures
        staged@.get(denomination) > 0 ==> s@ == staged@.set(
            denomination,
            (staged@.get(denomination) - 1) as nat,
        ),
        staged@.get(denomination) == 0 ==> s == *staged,
{
    let mut next = *staged;
    let _ = next.remove_chips(denomination, 1);
    next
}

/// The stage's top chip — the smallest denomination present, since
/// piles cut largest-on-the-bottom — or `None` for an empty stage.
pub fn stage_top(staged: &ChipStack) -> (t: Option<Denomination>)
    ensures
        match t {
            Some(d) => staged@.get(d) > 0 && forall|e: Denomination|
                denom_value(e) < denom_value(d) ==> staged@.get(e) == 0,
            None => staged@ == Counts::empty(),
        },
{
    let mut i: usize = 0;
    while i < 5
        invariant
            i <= 5,
            forall|j: int| 0 <= j < i ==> staged@.get(#[trigger] Denomination::ALL[j]) == 0,
        decreases 5 - i,
    {
        let d = Denomination::ALL[i];
        if staged.count(d) > 0 {
            proof {
                assert forall|e: Denomination| denom_value(e) < denom_value(d) implies staged@.get(e) == 0 by {
                    if e == Denomination::One {
                        assert(staged@.get(Denomination::ALL[0]) == 0);
                    } else if e == Denomination::Five {
                        assert(staged@.get(Denomination::ALL[1]) == 0);
                    } else if e == Denomination::TwentyFive {
                        assert(staged@.get(Denomination::ALL[2]) == 0);
                    } else if e == Denomination::Hundred {
                        assert(staged@.get(Denomination::ALL[3]) == 0);
                    }
                }
            }
            return Some(d);
        }
        i = i + 1;
    }
    proof {
        assert(staged@.get(Denomination::ALL[0]) == 0);
        assert(staged@.get(Denomination::ALL[1]) == 0);
        assert(staged@.get(Denomination::ALL[2]) == 0);
        assert(staged@.get(Denomination::ALL[3]) == 0);
        assert(staged@.get(Denomination::ALL[4]) == 0);
    }
    None
}

/// The chips cut for `target` dollars from the rack's actual chips:
/// exactly what posting the bet would withdraw, or nothing when the rack
/// cannot cover it.
pub open spec fn spec_stage_cut(rack: Counts, target: nat) -> Counts {
    if target <= rack.total() {
        withdraw_counts(rack, target).1
    } else {
        Counts::empty()
    }
}

/// Cut exactly `target` dollars from the rack's actual chips (breaking a
/// larger chip when needed, as the cage would). An impossible cut stages
/// nothing.
pub fn stage_cut(rack: &ChipStack, target: u32) -> (s: ChipStack)
    ensures
        s@ == spec_stage_cut(rack@, target as nat),
        target <= rack@.total() ==> s@.total() == target,
{
    let mut remaining = *rack;
    match remaining.withdraw(target) {
        Ok(taken) => taken,
        Err(_) => ChipStack::new(),
    }
}

/// The total a nudge aims for: up from empty lands on the minimum, up
/// again adds one minimum, capped at the maximum or the rack (nothing
/// when the rack cannot cover the minimum); down drops one minimum but
/// never below it while chips remain, and clears from the minimum.
pub open spec fn nudge_target(total: int, up: bool, min_bet: int, max_bet: int, rack_total: int) -> int {
    let cap = if max_bet < rack_total {
        max_bet
    } else {
        rack_total
    };
    if up {
        if cap < min_bet {
            0
        } else if total + min_bet < min_bet {
            min_bet
        } else if total + min_bet > cap {
            cap
        } else {
            total + min_bet
        }
    } else if total > min_bet {
        let down = if total - min_bet > min_bet {
            total - min_bet
        } else {
            min_bet
        };
        if down < cap {
            down
        } else {
            cap
        }
    } else {
        0
    }
}

/// Nudge the staged amount by one table-minimum increment (up or down)
/// and recut it from the rack's chips.
///
/// Going up from an empty stage lands on the minimum; coming down from
/// (or through) the minimum clears the stage; the maximum — or the
/// rack's total, whichever is smaller — caps the top. A rack below the
/// table minimum can never nudge up to a postable stage.
pub fn stage_nudge(staged: &ChipStack, up: bool, min_bet: u32, max_bet: u32, rack: &ChipStack) -> (s: ChipStack)
    ensures
        s@ == spec_stage_cut(
            rack@,
            nudge_target(
                staged@.total() as int,
                up,
                min_bet as int,
                max_bet as int,
                rack@.total() as int,
            ) as nat,
        ),
        s@.total() == nudge_target(
            staged@.total() as int,
            up,
            min_bet as int,
            max_bet as int,
            rack@.total() as int,
        ),
        s@.total() <= max_bet,
        s@.total() <= rack@.total(),
{
    let rack_total = rack.total();
    let cap = if max_bet < rack_total {
        max_bet
    } else {
        rack_total
    };
    let total = staged.total();
    let target: u32 = if up {
        if cap < min_bet {
            0
        } else {
            let raised = total as u64 + min_bet as u64;
            if raised > cap as u64 {
                cap
            } else {
                raised as u32
            }
        }
    } else if total > min_bet {
        let down = if total - min_bet > min_bet {
            total - min_bet
        } else {
            min_bet
        };
        if down < cap {
            down
        } else {
            cap
        }
    } else {
        0
    };
    stage_cut(rack, target)
}

/// Set the stage to `units` table minimums (the number-key shortcut),
/// capped at the maximum and at the rack's total, cut from the rack's
/// chips. A rack below the table minimum stages nothing.
pub fn stage_units(units: u32, min_bet: u32, max_bet: u32, rack: &ChipStack) -> (s: ChipStack)
    requires
        units * min_bet <= u32::MAX,
    ensures
        ({
            let capped = if units * min_bet < max_bet {
                units * min_bet
            } else {
                max_bet as int
            };
            let target = if capped < rack@.total() {
                capped
            } else {
                rack@.total() as int
            };
            &&& target < min_bet ==> s@ == Counts::empty()
            &&& target >= min_bet ==> s@ == spec_stage_cut(rack@, target as nat) && s@.total()
                == target
        }),
{
    let product = units * min_bet;
    let capped = if product < max_bet {
        product
    } else {
        max_bet
    };
    let rack_total = rack.total();
    let target = if capped < rack_total {
        capped
    } else {
        rack_total
    };
    if target < min_bet {
        return ChipStack::new();
    }
    stage_cut(rack, target)
}

/// Whether a staged amount is postable under the table limits.
pub fn stage_ready(total: u32, min_bet: u32, max_bet: u32) -> (b: bool)
    ensures
        b == (min_bet <= total <= max_bet),
{
    min_bet <= total && total <= max_bet
}

} // verus!
