//! Which help-overlay annotations are lit: an annotation for a gesture
//! that is meaningless right now dims but never vanishes, so the
//! vocabulary always reads as a whole. The lettering and where it sits
//! on the glass belong to the renderer.
use vstd::prelude::*;
use crate::action::ActionKind;
use crate::gesture::{GestureCtx, betting_is_open, hand_signal_open, insurance_signal_open, is_between_rounds};

verus! {

/// Whether each help annotation is dimmed, in lettering order.
#[derive(Debug, Clone, Copy, PartialEq, Eq, Structural)]
pub struct HelpLights {
    /// The betting circle: dimmed unless betting is open.
    pub bet_circle: bool,
    /// Tap for a card.
    pub hit: bool,
    /// Wave it off.
    pub stand: bool,
    /// Chips beside the bet.
    pub double: bool,
    /// Chips behind the bet.
    pub split: bool,
    /// The surrender line.
    pub surrender: bool,
    /// Chips on the insurance line.
    pub insurance: bool,
    /// Dragging the rack off the felt.
    pub rack_leave: bool,
    /// The keyboard cheat rows: never dimmed.
    pub keys: bool,
}

/// The dimming the legality check implies: a note is lit only while its gesture
/// could actually do something.
pub open spec fn spec_help_lights(ctx: GestureCtx) -> HelpLights {
    HelpLights {
        bet_circle: !betting_is_open(ctx),
        hit: !hand_signal_open(ctx, ActionKind::Hit),
        stand: !hand_signal_open(ctx, ActionKind::Stand),
        double: !hand_signal_open(ctx, ActionKind::Double),
        split: !hand_signal_open(ctx, ActionKind::Split),
        surrender: !hand_signal_open(ctx, ActionKind::Surrender),
        insurance: !insurance_signal_open(ctx, ActionKind::TakeInsurance),
        rack_leave: !is_between_rounds(ctx),
        keys: false,
    }
}

/// Which annotations are dimmed under `ctx`, read off the same gate the
/// recognizers apply.
pub fn help_lights(ctx: &GestureCtx) -> (l: HelpLights)
    ensures
        l == spec_help_lights(*ctx),
{
    HelpLights {
        bet_circle: !ctx.betting_open(),
        hit: !ctx.hand_signal(ActionKind::Hit),
        stand: !ctx.hand_signal(ActionKind::Stand),
        double: !ctx.hand_signal(ActionKind::Double),
        split: !ctx.hand_signal(ActionKind::Split),
        surrender: !ctx.hand_signal(ActionKind::Surrender),
        insurance: !ctx.insurance_signal(ActionKind::TakeInsurance),
        rack_leave: !ctx.between_rounds(),
        keys: false,
    }
}

} // verus!
