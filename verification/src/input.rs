//! The input layer's decisions: what a key press or a recognized stroke
//! does to the staged bet, when the stage is cleared, and when a resting
//! stage posts on its own.
//!
//! The frontend owns the pointer and keyboard plumbing and the timers;
//! every choice it makes about the stage is one of these functions.
use vstd::prelude::*;
use crate::action::ActionKind;
use crate::chips::{ChipStack, Counts, denom_value};
use crate::gesture::{GestureCtx, Intent, StrokeOutcome, betting_is_open, ctx_allows};
use crate::keyboard::{KeyCommand, command_intent, spec_command_intent};
use crate::snapshot::{Phase, Snapshot};
use crate::staging::{
    nudge_target, spec_rack_after_staging, spec_stage_cut, stage_add, stage_nudge, stage_ready,
    stage_remove, stage_units,
};

verus! {

/// What a key press amounts to once gated.
#[derive(Debug, Clone, Copy, PartialEq, Eq, Structural)]
pub enum KeyOutcome {
    /// The staged bet becomes this stack.
    Stage(ChipStack),
    /// An intent to hand to the app.
    Intent(Intent),
    /// A dead key right now.
    Nothing,
}

/// The key is one of the bet-adjustment keys.
pub open spec fn adjusts_bet(command: KeyCommand) -> bool {
    command is BetUp || command is BetDown || command is BetUnits
}

impl GestureCtx {
    /// Whether a resting stage of `staged_total` dollars posts on its
    /// own: betting is open and the amount is within the table limits.
    pub fn settle_ready(&self, staged_total: u32) -> (b: bool)
        ensures
            b == (betting_is_open(*self) && self.min_bet <= staged_total <= self.max_bet),
    {
        self.betting_open() && stage_ready(staged_total, self.min_bet, self.max_bet)
    }
}

/// The settle timer's clock: every staging change and every pointer
/// press moves it on, so a timer armed before either finds it moved.
#[derive(Debug, Clone, Copy, PartialEq, Eq, Structural, Default)]
pub struct SettleClock {
    /// The generation the latest timer was armed with.
    pub generation: u64,
}

impl SettleClock {
    /// A clock no timer has been armed on.
    pub fn new() -> (c: SettleClock)
        ensures
            c.generation == 0,
    {
        SettleClock { generation: 0 }
    }

    /// Something moved: every timer armed so far is stale. Returns the
    /// generation to arm the next timer with.
    pub fn bump(&mut self) -> (g: u64)
        requires
            old(self).generation < u64::MAX,
        ensures
            final(self).generation == old(self).generation + 1,
            g == final(self).generation,
    {
        self.generation = self.generation + 1;
        self.generation
    }

    /// A timer armed with `armed` fired: it posts the resting stage of
    /// `staged_total` dollars only if nothing moved since it was armed,
    /// no drag is under way, and the stage is postable.
    pub fn fires(&self, armed: u64, dragging: bool, ctx: &GestureCtx, staged_total: u32) -> (i: Option<Intent>)
        ensures
            i == (if armed == self.generation && !dragging && betting_is_open(*ctx) && ctx.min_bet
                <= staged_total <= ctx.max_bet {
                Some(Intent::ConfirmBet(staged_total))
            } else {
                None::<Intent>
            }),
    {
        if armed != self.generation || dragging {
            return None;
        }
        if ctx.settle_ready(staged_total) {
            Some(Intent::ConfirmBet(staged_total))
        } else {
            None
        }
    }
}

/// The staged bet once a new snapshot lands: it lives only while betting
/// is open and the human's bet is not yet posted.
pub fn stage_after(snapshot: &Snapshot, human_seat: usize, staged: &ChipStack) -> (s: ChipStack)
    requires
        human_seat < snapshot.seats@.len(),
    ensures
        (snapshot.phase != Phase::Betting || snapshot.seats@[human_seat as int].bet is Some)
            ==> s@ == Counts::empty(),
        !(snapshot.phase != Phase::Betting || snapshot.seats@[human_seat as int].bet is Some)
            ==> s == *staged,
{
    if snapshot.phase != Phase::Betting || snapshot.seats[human_seat].bet.is_some() {
        ChipStack::new()
    } else {
        *staged
    }
}

/// What a decoded key does under `ctx`: the bet-adjustment keys reshape
/// the stage while betting is open (and are dead otherwise); every other
/// key is gated exactly as the pointer recognizers gate strokes.
pub fn key_outcome(ctx: &GestureCtx, command: KeyCommand, staged: &ChipStack, rack: &ChipStack) -> (o: KeyOutcome)
    requires
        command matches KeyCommand::BetUnits(units) ==> units * ctx.min_bet <= u32::MAX,
    ensures
        adjusts_bet(command) && !betting_is_open(*ctx) ==> o == KeyOutcome::Nothing,
        command is BetUp && betting_is_open(*ctx) ==> (o matches KeyOutcome::Stage(s) && s@
            == spec_stage_cut(
            rack@,
            nudge_target(
                staged@.total() as int,
                true,
                ctx.min_bet as int,
                ctx.max_bet as int,
                rack@.total() as int,
            ) as nat,
        )),
        command is BetDown && betting_is_open(*ctx) ==> (o matches KeyOutcome::Stage(s) && s@
            == spec_stage_cut(
            rack@,
            nudge_target(
                staged@.total() as int,
                false,
                ctx.min_bet as int,
                ctx.max_bet as int,
                rack@.total() as int,
            ) as nat,
        )),
        command is BetUnits && betting_is_open(*ctx) ==> (o matches KeyOutcome::Stage(s)
            && s@.total() <= ctx.max_bet && s@.total() <= rack@.total()),
        command matches KeyCommand::BetUnits(units) ==> (betting_is_open(*ctx) ==> {
            let capped = if units * ctx.min_bet < ctx.max_bet {
                units * ctx.min_bet
            } else {
                ctx.max_bet as int
            };
            let target = if capped < rack@.total() {
                capped
            } else {
                rack@.total() as int
            };
            &&& target < ctx.min_bet ==> (o matches KeyOutcome::Stage(s) && s@ == Counts::empty())
            &&& target >= ctx.min_bet ==> (o matches KeyOutcome::Stage(s) && s@ == spec_stage_cut(
                rack@,
                target as nat,
            ))
        }),
        !adjusts_bet(command) ==> match spec_command_intent(*ctx, command, staged@.total() as u32) {
            Some(i) => o == KeyOutcome::Intent(i),
            None => o == KeyOutcome::Nothing,
        },
{
    let betting_open = ctx.betting_open();
    match command {
        KeyCommand::BetUp | KeyCommand::BetDown => {
            if betting_open {
                let up = match command {
                    KeyCommand::BetUp => true,
                    _ => false,
                };
                KeyOutcome::Stage(stage_nudge(staged, up, ctx.min_bet, ctx.max_bet, rack))
            } else {
                KeyOutcome::Nothing
            }
        },
        KeyCommand::BetUnits(units) => {
            if betting_open {
                let s = stage_units(units, ctx.min_bet, ctx.max_bet, rack);
                KeyOutcome::Stage(s)
            } else {
                KeyOutcome::Nothing
            }
        },
        _ => match command_intent(ctx, command, staged.total()) {
            Some(intent) => KeyOutcome::Intent(intent),
            None => KeyOutcome::Nothing,
        },
    }
}

/// What a recognized stroke does to the stage: a chip dropped in the
/// circle is added (within the table maximum and the rack's chips), a
/// chip dragged out is removed; anything else leaves the stage alone.
pub fn stroke_stage(ctx: &GestureCtx, outcome: StrokeOutcome, staged: &ChipStack, rack: &ChipStack) -> (s: ChipStack)
    ensures
        outcome matches StrokeOutcome::StageAdd(d) ==> {
            let added = spec_rack_after_staging(rack@, staged@).get(d) > 0 && staged@.total()
                + denom_value(d) <= ctx.max_bet;
            &&& added ==> s@ == staged@.set(d, staged@.get(d) + 1)
            &&& !added ==> s == *staged
        },
        outcome matches StrokeOutcome::StageRemove(d) ==> (staged@.get(d) > 0 ==> s@ == staged@.set(
            d,
            (staged@.get(d) - 1) as nat,
        )) && (staged@.get(d) == 0 ==> s == *staged),
        !(outcome is StageAdd || outcome is StageRemove) ==> s == *staged,
{
    match outcome {
        StrokeOutcome::StageAdd(d) => stage_add(staged, d, ctx.max_bet, rack),
        StrokeOutcome::StageRemove(d) => stage_remove(staged, d),
        _ => *staged,
    }
}

} // verus!
