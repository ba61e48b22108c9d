//! AI player personas: hidden archetypes with distinct, imperfect styles.
//!
//! Archetypes are flavor the player senses across rounds — the timid
//! tourist, the reckless plunger — never a label the UI shows or a knob
//! anyone configures. Every decision is a pure function of (archetype,
//! hand, upcard, legal actions, random draws), so play is fully
//! deterministic under a seeded generator.
use vstd::prelude::*;
use rand_chacha::ChaCha8Rng;
use crate::action::{Action, ActionKind, spec_kind};
use crate::card::{Card, rank_value};
use crate::hand::{is_value_pair, spec_is_value_pair};
use crate::rng::next_u32;
use crate::snapshot::HandSnapshot;
use crate::strategy::{basic_strategy, spec_basic_strategy};

verus! {

/// A hidden play style. Which archetype sits in which seat is never
/// exposed to the UI.
#[derive(Debug, Clone, Copy, PartialEq, Eq, Structural)]
pub enum Archetype {
    /// Plays perfect basic strategy for the canonical rules.
    ByTheBook,
    /// Never doubles or splits, stands too early against strong upcards,
    /// and buys insurance out of fear.
    Timid,
    /// Hits too long, splits tens, and doubles wildly.
    Reckless,
    /// Plays folk rules: never hit against a "bust card", always double
    /// eleven, only split aces and eights, never surrender.
    Superstitious,
}

impl Archetype {
    /// Every archetype, for arrival rolls.
    pub const ALL: [Archetype; 4] = [
        Archetype::ByTheBook,
        Archetype::Timid,
        Archetype::Reckless,
        Archetype::Superstitious,
    ];
}

/// Whether `kind` is among the legal actions.
pub fn has(legal: &[ActionKind], kind: ActionKind) -> (b: bool)
    ensures
        b == legal@.contains(kind),
{
    let mut i: usize = 0;
    while i < legal.len()
        invariant
            i <= legal@.len(),
            forall|j: int| 0 <= j < i ==> legal@[j] != kind,
        decreases legal.len() - i,
    {
        if legal[i] == kind {
            return true;
        }
        i = i + 1;
    }
    false
}

/// The action a basic-strategy kind stands for (a hit for anything else).
pub open spec fn book_action(kind: ActionKind) -> Action {
    match kind {
        ActionKind::Stand => Action::Stand,
        ActionKind::Double => Action::Double,
        ActionKind::Split => Action::Split,
        ActionKind::Surrender => Action::Surrender,
        _ => Action::Hit,
    }
}

/// Stand or hit.
pub open spec fn stand_or_hit(stand: bool) -> Action {
    if stand {
        Action::Stand
    } else {
        Action::Hit
    }
}

/// The reckless gut double: any soft hand up to 18, hard 8 through 11.
pub open spec fn gut_double(total: u8, soft: bool) -> bool {
    if soft {
        total <= 18
    } else {
        8 <= total <= 11
    }
}

/// Whether a reckless player rolls for a hunch double: a stiff hard 12
/// through 16 when doubling is open and splitting is not.
pub open spec fn rolls_for_hunch(archetype: Archetype, total: u8, soft: bool, legal: Seq<ActionKind>) -> bool {
    &&& archetype == Archetype::Reckless
    &&& !legal.contains(ActionKind::Split)
    &&& legal.contains(ActionKind::Double)
    &&& !soft
    &&& 12 <= total <= 16
}

/// The archetype's play for a hand of `cards` (best total `total`, soft
/// or not) against `upcard`, given the legal actions; `hunch` is whether
/// a reckless player's roll for a stiff-hand double came up.
pub open spec fn persona_play(
    archetype: Archetype,
    cards: Seq<Card>,
    total: u8,
    soft: bool,
    upcard: Card,
    legal: Seq<ActionKind>,
    hunch: bool,
) -> Action {
    let up = rank_value(upcard.rank);
    match archetype {
        Archetype::ByTheBook => book_action(
            spec_basic_strategy(
                cards,
                upcard,
                legal.contains(ActionKind::Double),
                legal.contains(ActionKind::Split),
                legal.contains(ActionKind::Surrender),
            ),
        ),
        Archetype::Timid => stand_or_hit(
            if soft {
                total >= 18
            } else if up >= 7 {
                total >= 14
            } else {
                total >= 12
            },
        ),
        Archetype::Reckless => if legal.contains(ActionKind::Split) {
            Action::Split
        } else if legal.contains(ActionKind::Double) && (gut_double(total, soft) || (!soft && 12
            <= total <= 16 && hunch)) {
            Action::Double
        } else {
            stand_or_hit(
                if soft {
                    total >= 19
                } else {
                    total >= 18
                },
            )
        },
        Archetype::Superstitious => if legal.contains(ActionKind::Split) && spec_is_value_pair(
            cards,
        ) && (rank_value(cards[0].rank) == 11 || rank_value(cards[0].rank) == 8) {
            Action::Split
        } else if legal.contains(ActionKind::Double) && !soft && total == 11 {
            Action::Double
        } else {
            stand_or_hit(
                if soft {
                    total >= 18
                } else if 2 <= up <= 6 {
                    total >= 12
                } else {
                    total >= 17
                },
            )
        },
    }
}

/// The play for `hand` against `upcard` once any hunch roll is known.
///
/// The result is always drawn from `legal` whenever hit and stand are
/// there, as they always are during a player turn.
pub fn decide_with_hunch(
    archetype: Archetype,
    hand: &HandSnapshot,
    upcard: Card,
    legal: &[ActionKind],
    hunch: bool,
) -> (a: Action)
    ensures
        a == persona_play(archetype, hand.cards@, hand.total, hand.soft, upcard, legal@, hunch),
        legal@.contains(ActionKind::Hit) && legal@.contains(ActionKind::Stand) ==> legal@.contains(
            spec_kind(a),
        ),
{
    let up = upcard.value();
    match archetype {
        Archetype::ByTheBook => {
            let kind = basic_strategy(
                hand.cards.as_slice(),
                upcard,
                has(legal, ActionKind::Double),
                has(legal, ActionKind::Split),
                has(legal, ActionKind::Surrender),
            );
            match kind {
                ActionKind::Stand => Action::Stand,
                ActionKind::Double => Action::Double,
                ActionKind::Split => Action::Split,
                ActionKind::Surrender => Action::Surrender,
                _ => Action::Hit,
            }
        },
        Archetype::Timid => {
            // No doubles, no splits, no surrender; just careful standing.
            // Against a strong upcard the book says draw to 17, but nerves
            // give out at 14; against a weak one, any 12 freezes.
            let stand = if hand.soft {
                hand.total >= 18
            } else if up >= 7 {
                hand.total >= 14
            } else {
                hand.total >= 12
            };
            if stand {
                Action::Stand
            } else {
                Action::Hit
            }
        },
        Archetype::Reckless => {
            // Any pair splits — tens included.
            if has(legal, ActionKind::Split) {
                return Action::Split;
            }
            if has(legal, ActionKind::Double) {
                let by_the_gut = if hand.soft {
                    hand.total <= 18
                } else {
                    8 <= hand.total && hand.total <= 11
                };
                // And every so often a stiff hand doubles on a hunch.
                let wild = !hand.soft && 12 <= hand.total && hand.total <= 16 && hunch;
                if by_the_gut || wild {
                    return Action::Double;
                }
            }
            // Draw far too long: hard 17 is "one more card" territory.
            let stand = if hand.soft {
                hand.total >= 19
            } else {
                hand.total >= 18
            };
            if stand {
                Action::Stand
            } else {
                Action::Hit
            }
        },
        Archetype::Superstitious => {
            // "Only ever split aces and eights."
            if has(legal, ActionKind::Split) && is_value_pair(hand.cards.as_slice()) && (
            hand.cards[0].value() == 11 || hand.cards[0].value() == 8) {
                return Action::Split;
            }
            // "Always double eleven — it's lucky."
            if has(legal, ActionKind::Double) && !hand.soft && hand.total == 11 {
                return Action::Double;
            }
            // "Never hit against a bust card": any 12 stands vs 2-6.
            // Surrender is bad luck, so it never happens.
            let stand = if hand.soft {
                hand.total >= 18
            } else if 2 <= up && up <= 6 {
                hand.total >= 12
            } else {
                hand.total >= 17
            };
            if stand {
                Action::Stand
            } else {
                Action::Hit
            }
        },
    }
}

/// Decide the play for `hand` against `upcard`.
///
/// `legal` must be the table's legal actions for the hand, already
/// filtered for what the player can afford (a double or split costs
/// another bet). The returned action is always drawn from `legal`; hit
/// and stand are always available during a player turn. The generator is
/// consulted only for a reckless player's stiff-hand hunch, one draw in
/// four of which doubles.
pub fn decide(
    archetype: Archetype,
    hand: &HandSnapshot,
    upcard: Card,
    legal: &[ActionKind],
    rng: &mut ChaCha8Rng,
) -> (a: Action)
    ensures
        !rolls_for_hunch(archetype, hand.total, hand.soft, legal@) ==> a == persona_play(
            archetype,
            hand.cards@,
            hand.total,
            hand.soft,
            upcard,
            legal@,
            false,
        ),
        rolls_for_hunch(archetype, hand.total, hand.soft, legal@) ==> a == Action::Double || a
            == persona_play(archetype, hand.cards@, hand.total, hand.soft, upcard, legal@, false),
        legal@.contains(ActionKind::Hit) && legal@.contains(ActionKind::Stand) ==> legal@.contains(
            spec_kind(a),
        ),
{
    let rolls = archetype == Archetype::Reckless && !(has(legal, ActionKind::Split)) && has(
        legal,
        ActionKind::Double,
    ) && !hand.soft && 12 <= hand.total && hand.total <= 16;
    let hunch = if rolls {
        next_u32(rng).is_multiple_of(4)
    } else {
        false
    };
    decide_with_hunch(archetype, hand, upcard, legal, hunch)
}

/// Whether the archetype buys insurance when offered (and affordable):
/// never by the book or when reckless, always when timid, and on a
/// superstitious whim — one draw in three — otherwise. Only the
/// superstitious consult the generator.
pub fn decide_insurance(archetype: Archetype, rng: &mut ChaCha8Rng) -> (b: bool)
    ensures
        archetype == Archetype::ByTheBook || archetype == Archetype::Reckless ==> !b,
        archetype == Archetype::Timid ==> b,
{
    match archetype {
        // The book says never; the plunger thinks it's a sucker bet too.
        Archetype::ByTheBook | Archetype::Reckless => false,
        // Anything to feel safe.
        Archetype::Timid => true,
        // Depends how the ace feels tonight.
        Archetype::Superstitious => next_u32(rng).is_multiple_of(3),
    }
}

/// `2^k`.
pub open spec fn two_to(k: nat) -> nat
    decreases k,
{
    if k == 0 {
        1
    } else {
        2 * two_to((k - 1) as nat)
    }
}

fn power_of_two(k: u32) -> (p: u32)
    requires
        k <= 5,
    ensures
        p == two_to(k as nat),
        p >= 1,
{
    proof {
        reveal_with_fuel(two_to, 6);
    }
    match k {
        0 => 1,
        1 => 2,
        2 => 4,
        3 => 8,
        4 => 16,
        _ => 32,
    }
}

/// The bet an archetype wants before the table limits and bankroll apply.
pub open spec fn desired_bet(archetype: Archetype, base: u32, streak: i32, min: u32) -> int {
    match archetype {
        Archetype::ByTheBook => base as int,
        Archetype::Timid => if streak < 0 {
            base as int / two_to(if -streak < 4 {
                (-streak) as nat
            } else {
                4
            }) as int
        } else {
            base as int
        },
        Archetype::Reckless => if streak > 0 {
            let v = base * two_to(if streak < 5 {
                streak as nat
            } else {
                5
            });
            if v > u32::MAX {
                u32::MAX as int
            } else {
                v
            }
        } else {
            base as int
        },
        Archetype::Superstitious => if streak >= 1 {
            let v = base * (streak + 1);
            if v > u32::MAX {
                u32::MAX as int
            } else {
                v
            }
        } else if streak == 0 {
            base as int
        } else {
            min as int
        },
    }
}

/// A timid player halves the bet for each consecutive loss, at most four
/// times: after one loss half the habitual bet, after two a quarter,
/// after three an eighth, and after four or more a sixteenth; after a win
/// or a push the habitual bet. Each further loss, up to the fourth,
/// halves the bet again.
pub proof fn lemma_timid_halves_per_loss(base: u32, streak: i32, min: u32)
    requires
        streak > i32::MIN,
    ensures
        streak >= 0 ==> desired_bet(Archetype::Timid, base, streak, min) == base,
        streak == -1 ==> desired_bet(Archetype::Timid, base, streak, min) == base / 2,
        streak == -2 ==> desired_bet(Archetype::Timid, base, streak, min) == base / 4,
        streak == -3 ==> desired_bet(Archetype::Timid, base, streak, min) == base / 8,
        streak <= -4 ==> desired_bet(Archetype::Timid, base, streak, min) == base / 16,
        -4 < streak <= 0 ==> desired_bet(Archetype::Timid, base, (streak - 1) as i32, min) == desired_bet(
            Archetype::Timid,
            base,
            streak,
            min,
        ) / 2,
{
    reveal_with_fuel(two_to, 5);
    assert(base as int / 4 / 2 == base as int / 8);
    assert(base as int / 2 / 2 == base as int / 4);
    assert(base as int / 8 / 2 == base as int / 16);
}

/// The other temperaments: by the book bets the habitual bet whatever
/// the streak; reckless doubles it for each consecutive win, at most five
/// times (and never past the largest bet a `u32` holds); superstitious
/// bets it times the win streak plus one when hot, the habitual bet after
/// a push, and the table minimum when cold.
pub proof fn lemma_temperaments(base: u32, streak: i32, min: u32)
    ensures
        desired_bet(Archetype::ByTheBook, base, streak, min) == base,
        streak <= 0 ==> desired_bet(Archetype::Reckless, base, streak, min) == base,
        0 <= streak < 5 && 2 * desired_bet(Archetype::Reckless, base, streak, min) <= u32::MAX ==> desired_bet(
            Archetype::Reckless,
            base,
            (streak + 1) as i32,
            min,
        ) == 2 * desired_bet(Archetype::Reckless, base, streak, min),
        streak >= 5 ==> desired_bet(Archetype::Reckless, base, streak, min) == desired_bet(
            Archetype::Reckless,
            base,
            5,
            min,
        ),
        streak >= 1 && base * (streak + 1) <= u32::MAX ==> desired_bet(Archetype::Superstitious, base, streak, min)
            == base * (streak + 1),
        streak == 0 ==> desired_bet(Archetype::Superstitious, base, streak, min) == base,
        streak < 0 ==> desired_bet(Archetype::Superstitious, base, streak, min) == min,
{
    reveal_with_fuel(two_to, 6);
    if 0 <= streak < 5 {
        let k = streak as nat;
        assert(two_to(k + 1) == 2 * two_to(k));
        assert(base * two_to(k + 1) == 2 * (base * two_to(k))) by (nonlinear_arith)
            requires two_to(k + 1) == 2 * two_to(k);
    }
}

/// A wanted bet within the table limits and the bankroll is the bet
/// placed; limits and bankroll only ever pull a bet back inside them.
pub proof fn lemma_bet_within_limits_stands(desired: int, bankroll: u32, min: u32, max: u32)
    ensures
        min <= desired <= max && desired <= bankroll ==> clamped_bet(desired, bankroll, min, max) == desired,
{
}

/// `desired` clamped to `[min, max(min, min(max, bankroll))]`.
pub open spec fn clamped_bet(desired: int, bankroll: u32, min: u32, max: u32) -> int {
    let cap = if max < bankroll {
        max as int
    } else {
        bankroll as int
    };
    let upper = if cap < min {
        min as int
    } else {
        cap
    };
    if desired < min {
        min as int
    } else if desired > upper {
        upper
    } else {
        desired
    }
}

/// The archetype's bet for the coming round, clamped to the table limits
/// and the player's bankroll.
///
/// `base` is the player's habitual bet (chosen at arrival), `streak` the
/// current run: positive for consecutive winning rounds, negative for
/// losing ones, zero after a push. By the book bets flat; timid halves the
/// bet per loss (at most four halvings); reckless doubles it per win (at
/// most five doublings); superstitious multiplies it by the win streak
/// plus one and retreats to the minimum when cold. The bet is never below
/// `min`, never above `max` when `min <= max`, and never above the
/// bankroll when the bankroll covers the minimum.
pub fn bet_size(archetype: Archetype, base: u32, streak: i32, bankroll: u32, min: u32, max: u32) -> (bet: u32)
    requires
        streak != i32::MIN,
    ensures
        bet as int == clamped_bet(desired_bet(archetype, base, streak, min), bankroll, min, max),
        min <= bet,
        min <= max ==> bet <= max,
        min <= bankroll ==> bet <= bankroll,
{
    let desired: u32 = match archetype {
        // Flat, always.
        Archetype::ByTheBook => base,
        // Scared money: halve the bet for every consecutive loss.
        Archetype::Timid => {
            if streak < 0 {
                let losses: i32 = -streak;
                let k: u32 = if losses < 4 {
                    losses as u32
                } else {
                    4
                };
                base / power_of_two(k)
            } else {
                base
            }
        },
        // Press it: double the bet for every consecutive win.
        Archetype::Reckless => {
            if streak > 0 {
                let k: u32 = if streak < 5 {
                    streak as u32
                } else {
                    5
                };
                match base.checked_mul(power_of_two(k)) {
                    Some(v) => v,
                    None => u32::MAX,
                }
            } else {
                base
            }
        },
        // Ride hot streaks up, retreat to the minimum when cold.
        Archetype::Superstitious => {
            if streak >= 1 {
                match base.checked_mul(streak as u32 + 1) {
                    Some(v) => v,
                    None => u32::MAX,
                }
            } else if streak == 0 {
                base
            } else {
                min
            }
        },
    };
    let cap = if max < bankroll {
        max
    } else {
        bankroll
    };
    let upper = if cap < min {
        min
    } else {
        cap
    };
    if desired < min {
        min
    } else if desired > upper {
        upper
    } else {
        desired
    }
}

} // verus!
