//! Gesture vocabulary and the legality gate behind every input.
//!
//! The safety invariant of the whole input layer lives here: an intent
//! resolves to an engine action only when the corresponding
//! [`ActionKind`] is in the current snapshot's `legal_actions` **and**
//! the decision belongs to the human seat. A misread is a no-op, never a
//! wrong action.
//!
//! Where strokes land on the felt is floating-point geometry and stays
//! with the rendering layer; this module holds the plain data it
//! yields, and the legality test applied to it.
use vstd::prelude::*;
use crate::action::{Action, ActionKind, spec_kind};
use crate::chips::Denomination;
use crate::rules::{Rules, spec_canonical};
use crate::snapshot::{Phase, Snapshot};
use crate::staging::stage_ready;

verus! {

/// Where a chip (or tap) landed relative to a seat.
#[derive(Debug, Clone, Copy, PartialEq, Eq, Structural)]
pub enum DropZone {
    /// Inside the betting circle.
    BetCircle,
    /// The double zone beside the circle.
    DoubleSide,
    /// The split zone directly behind the circle, toward the player.
    SplitBehind,
    /// On the insurance band.
    InsuranceBand,
    /// Nowhere meaningful.
    Off,
}

/// What the pointer picked up at the start of a drag.
#[derive(Debug, Clone, Copy, PartialEq, Eq, Structural)]
pub enum Grab {
    /// A chip of this denomination from the human's rack.
    Rack(Denomination),
    /// The top chip of the staged bet, lifted out of the circle.
    Bet(Denomination),
}

/// A high-level interaction the input layer asks the app to perform.
///
/// Intents carry no engine coupling: the app maps them to [`Action`]s
/// through [`resolve`] (the legality gate) or handles them itself
/// (`WalkAway`).
#[derive(Debug, Clone, Copy, PartialEq, Eq, Structural)]
pub enum Intent {
    /// Post the staged bet of this many dollars (and start the round).
    ConfirmBet(u32),
    /// Take one more card.
    Hit,
    /// Stand.
    Stand,
    /// Double down.
    Double,
    /// Split the pair.
    Split,
    /// Surrender the hand.
    Surrender,
    /// Buy insurance.
    TakeInsurance,
    /// Decline insurance.
    DeclineInsurance,
    /// Clear the finished round.
    NextRound,
    /// Leave the table.
    WalkAway,
}

/// What a completed stroke amounts to.
#[derive(Debug, Clone, Copy, PartialEq, Eq, Structural)]
pub enum StrokeOutcome {
    /// An intent to hand to the app.
    Intent(Intent),
    /// Add one chip of this denomination to the staged bet (UI-local).
    StageAdd(Denomination),
    /// Remove one chip of this denomination from the staged bet
    /// (UI-local).
    StageRemove(Denomination),
    /// Ambiguous or dead input: do nothing.
    Nothing,
}

/// Whether chips lifted from the rack could mean something now: a staged
/// bet, a double or a split, insurance, or walking away.
pub fn chips_mean_something(ctx: &GestureCtx) -> (b: bool)
    ensures
        b == (betting_is_open(*ctx) || hand_signal_open(*ctx, ActionKind::Double) || hand_signal_open(
            *ctx,
            ActionKind::Split,
        ) || insurance_signal_open(*ctx, ActionKind::TakeInsurance) || is_between_rounds(*ctx)),
{
    ctx.betting_open() || ctx.hand_signal(ActionKind::Double) || ctx.hand_signal(ActionKind::Split)
        || ctx.insurance_signal(ActionKind::TakeInsurance) || ctx.between_rounds()
}

/// What dropping a rack chip of `d` in `zone` amounts to: into the circle
/// it joins the staged bet while betting is open; beside it doubles,
/// behind it splits, and on the band it buys insurance, each only when
/// that signal is the human's to give.
pub open spec fn spec_rack_drop(ctx: GestureCtx, zone: DropZone, d: Denomination) -> StrokeOutcome {
    match zone {
        DropZone::BetCircle => if betting_is_open(ctx) {
            StrokeOutcome::StageAdd(d)
        } else {
            StrokeOutcome::Nothing
        },
        DropZone::DoubleSide => if hand_signal_open(ctx, ActionKind::Double) {
            StrokeOutcome::Intent(Intent::Double)
        } else {
            StrokeOutcome::Nothing
        },
        DropZone::SplitBehind => if hand_signal_open(ctx, ActionKind::Split) {
            StrokeOutcome::Intent(Intent::Split)
        } else {
            StrokeOutcome::Nothing
        },
        DropZone::InsuranceBand => if insurance_signal_open(ctx, ActionKind::TakeInsurance) {
            StrokeOutcome::Intent(Intent::TakeInsurance)
        } else {
            StrokeOutcome::Nothing
        },
        DropZone::Off => StrokeOutcome::Nothing,
    }
}

/// What dropping a rack chip of `d` in `zone` amounts to.
pub fn rack_drop(ctx: &GestureCtx, zone: DropZone, d: Denomination) -> (o: StrokeOutcome)
    ensures
        o == spec_rack_drop(*ctx, zone, d),
{
    match zone {
        DropZone::BetCircle => if ctx.betting_open() {
            StrokeOutcome::StageAdd(d)
        } else {
            StrokeOutcome::Nothing
        },
        DropZone::DoubleSide => if ctx.hand_signal(ActionKind::Double) {
            StrokeOutcome::Intent(Intent::Double)
        } else {
            StrokeOutcome::Nothing
        },
        DropZone::SplitBehind => if ctx.hand_signal(ActionKind::Split) {
            StrokeOutcome::Intent(Intent::Split)
        } else {
            StrokeOutcome::Nothing
        },
        DropZone::InsuranceBand => if ctx.insurance_signal(ActionKind::TakeInsurance) {
            StrokeOutcome::Intent(Intent::TakeInsurance)
        } else {
            StrokeOutcome::Nothing
        },
        DropZone::Off => StrokeOutcome::Nothing,
    }
}

/// Dropping the staged bet's top chip (`d`): outside the circle, while
/// betting is open, it comes off the bet; anywhere else it goes back.
pub fn bet_chip_drop(ctx: &GestureCtx, outside_circle: bool, d: Denomination) -> (o: StrokeOutcome)
    ensures
        o == (if betting_is_open(*ctx) && outside_circle {
            StrokeOutcome::StageRemove(d)
        } else {
            StrokeOutcome::Nothing
        }),
{
    if ctx.betting_open() && outside_circle {
        StrokeOutcome::StageRemove(d)
    } else {
        StrokeOutcome::Nothing
    }
}

/// Where a tap landed, as the renderer's hit tests found it.
#[derive(Debug, Clone, Copy, PartialEq, Eq, Structural)]
pub struct TapSpot {
    /// On the felt at all.
    pub on_felt: bool,
    /// On the insurance band.
    pub in_insurance_band: bool,
    /// Inside the human's betting circle.
    pub in_bet_circle: bool,
    /// In the zone behind the human's cards.
    pub in_hand_zone: bool,
}

/// What a tap amounts to: declining insurance on the open felt away from
/// the band; posting a staged bet within the limits by tapping the
/// circle; a hit behind the cards; the next round on the settled felt.
pub open spec fn spec_tap_outcome(ctx: GestureCtx, spot: TapSpot, staged_total: u32) -> StrokeOutcome {
    match ctx.phase {
        Phase::InsuranceOffer => if insurance_signal_open(ctx, ActionKind::DeclineInsurance) && spot.on_felt
            && !spot.in_insurance_band {
            StrokeOutcome::Intent(Intent::DeclineInsurance)
        } else {
            StrokeOutcome::Nothing
        },
        Phase::Betting => if betting_is_open(ctx) && spot.in_bet_circle && ctx.min_bet <= staged_total
            <= ctx.max_bet {
            StrokeOutcome::Intent(Intent::ConfirmBet(staged_total))
        } else {
            StrokeOutcome::Nothing
        },
        Phase::PlayerTurn => if hand_signal_open(ctx, ActionKind::Hit) && spot.in_hand_zone {
            StrokeOutcome::Intent(Intent::Hit)
        } else {
            StrokeOutcome::Nothing
        },
        Phase::RoundOver => if ctx_allows(ctx, ActionKind::NextRound) && spot.on_felt {
            StrokeOutcome::Intent(Intent::NextRound)
        } else {
            StrokeOutcome::Nothing
        },
    }
}

/// What a tap at `spot` amounts to, with `staged_total` dollars staged.
pub fn tap_outcome(ctx: &GestureCtx, spot: TapSpot, staged_total: u32) -> (o: StrokeOutcome)
    ensures
        o == spec_tap_outcome(*ctx, spot, staged_total),
{
    match ctx.phase {
        Phase::InsuranceOffer => if ctx.insurance_signal(ActionKind::DeclineInsurance) && spot.on_felt
            && !spot.in_insurance_band {
            StrokeOutcome::Intent(Intent::DeclineInsurance)
        } else {
            StrokeOutcome::Nothing
        },
        Phase::Betting => if ctx.betting_open() && spot.in_bet_circle && stage_ready(
            staged_total,
            ctx.min_bet,
            ctx.max_bet,
        ) {
            StrokeOutcome::Intent(Intent::ConfirmBet(staged_total))
        } else {
            StrokeOutcome::Nothing
        },
        Phase::PlayerTurn => if ctx.hand_signal(ActionKind::Hit) && spot.in_hand_zone {
            StrokeOutcome::Intent(Intent::Hit)
        } else {
            StrokeOutcome::Nothing
        },
        Phase::RoundOver => if ctx.allows(ActionKind::NextRound) && spot.on_felt {
            StrokeOutcome::Intent(Intent::NextRound)
        } else {
            StrokeOutcome::Nothing
        },
    }
}

/// What a horizontal wave amounts to: across the cards it stands, along
/// the band behind the bet it surrenders, each when the human may.
pub fn wave_outcome(ctx: &GestureCtx, across_cards: bool, behind_bet: bool) -> (o: StrokeOutcome)
    ensures
        o == (if hand_signal_open(*ctx, ActionKind::Stand) && across_cards {
            StrokeOutcome::Intent(Intent::Stand)
        } else if hand_signal_open(*ctx, ActionKind::Surrender) && behind_bet {
            StrokeOutcome::Intent(Intent::Surrender)
        } else {
            StrokeOutcome::Nothing
        }),
{
    if ctx.hand_signal(ActionKind::Stand) && across_cards {
        StrokeOutcome::Intent(Intent::Stand)
    } else if ctx.hand_signal(ActionKind::Surrender) && behind_bet {
        StrokeOutcome::Intent(Intent::Surrender)
    } else {
        StrokeOutcome::Nothing
    }
}

/// Whether a drag from the rack off the felt's bottom edge walks away:
/// only between rounds.
pub fn walks_away(ctx: &GestureCtx, from_rack: bool, off_the_edge: bool) -> (b: bool)
    ensures
        b == (is_between_rounds(*ctx) && from_rack && off_the_edge),
{
    ctx.between_rounds() && from_rack && off_the_edge
}

/// The seat the UI treats as the human's: the center seat.
pub fn human_seat(snapshot: &Snapshot) -> (s: usize)
    ensures
        s == snapshot.seats@.len() / 2,
{
    snapshot.seats.len() / 2
}

/// Everything the legality gate needs to know about the current
/// snapshot, read once per event.
#[derive(Debug, Clone, PartialEq, Eq)]
pub struct GestureCtx {
    /// The current phase.
    pub phase: Phase,
    /// The snapshot's authoritative legal-action set.
    pub legal: Vec<ActionKind>,
    /// The human's seat index.
    pub human_seat: usize,
    /// Whether the engine is waiting on the human seat specifically.
    pub human_active: bool,
    /// Table minimum bet.
    pub min_bet: u32,
    /// Table maximum bet.
    pub max_bet: u32,
}

/// The engine accepts `kind` right now.
pub open spec fn ctx_allows(ctx: GestureCtx, kind: ActionKind) -> bool {
    ctx.legal@.contains(kind)
}

/// A hand signal (`kind`) is the human's to give: their turn, and legal.
pub open spec fn hand_signal_open(ctx: GestureCtx, kind: ActionKind) -> bool {
    ctx.phase == Phase::PlayerTurn && ctx.human_active && ctx_allows(ctx, kind)
}

/// The insurance decision (`kind`) rests with the human.
pub open spec fn insurance_signal_open(ctx: GestureCtx, kind: ActionKind) -> bool {
    ctx.phase == Phase::InsuranceOffer && ctx.human_active && ctx_allows(ctx, kind)
}

/// The human may stage and post bets.
pub open spec fn betting_is_open(ctx: GestureCtx) -> bool {
    ctx.phase == Phase::Betting && ctx_allows(ctx, ActionKind::PlaceBet)
}

/// The table is between rounds.
pub open spec fn is_between_rounds(ctx: GestureCtx) -> bool {
    ctx.phase == Phase::Betting || ctx.phase == Phase::RoundOver
}

/// The engine action an intent stands for under `ctx`, if it passes the
/// gate.
pub open spec fn spec_resolve(ctx: GestureCtx, intent: Intent) -> Option<Action> {
    match intent {
        Intent::ConfirmBet(amount) => if betting_is_open(ctx) && ctx.min_bet <= amount
            <= ctx.max_bet {
            Some(Action::PlaceBet(amount))
        } else {
            None
        },
        Intent::Hit => if hand_signal_open(ctx, ActionKind::Hit) {
            Some(Action::Hit)
        } else {
            None
        },
        Intent::Stand => if hand_signal_open(ctx, ActionKind::Stand) {
            Some(Action::Stand)
        } else {
            None
        },
        Intent::Double => if hand_signal_open(ctx, ActionKind::Double) {
            Some(Action::Double)
        } else {
            None
        },
        Intent::Split => if hand_signal_open(ctx, ActionKind::Split) {
            Some(Action::Split)
        } else {
            None
        },
        Intent::Surrender => if hand_signal_open(ctx, ActionKind::Surrender) {
            Some(Action::Surrender)
        } else {
            None
        },
        Intent::TakeInsurance => if insurance_signal_open(ctx, ActionKind::TakeInsurance) {
            Some(Action::TakeInsurance)
        } else {
            None
        },
        Intent::DeclineInsurance => if insurance_signal_open(ctx, ActionKind::DeclineInsurance) {
            Some(Action::DeclineInsurance)
        } else {
            None
        },
        Intent::NextRound => if ctx.phase == Phase::RoundOver && ctx_allows(
            ctx,
            ActionKind::NextRound,
        ) {
            Some(Action::NextRound)
        } else {
            None
        },
        Intent::WalkAway => None,
    }
}

fn copy_kinds(kinds: &Vec<ActionKind>) -> (v: Vec<ActionKind>)
    ensures
        v@ == kinds@,
{
    let mut v: Vec<ActionKind> = Vec::new();
    let mut i: usize = 0;
    while i < kinds.len()
        invariant
            i <= kinds@.len(),
            v@ == kinds@.subrange(0, i as int),
        decreases kinds@.len() - i,
    {
        v.push(kinds[i]);
        i = i + 1;
        proof {
            assert(v@ =~= kinds@.subrange(0, i as int));
        }
    }
    proof {
        assert(kinds@.subrange(0, kinds@.len() as int) =~= kinds@);
    }
    v
}

impl GestureCtx {
    /// Build the context for `human_seat` from a snapshot.
    pub fn from_snapshot(snapshot: &Snapshot, human_seat: usize) -> (ctx: GestureCtx)
        ensures
            ctx.phase == snapshot.phase,
            ctx.legal@ == snapshot.legal_actions@,
            ctx.human_seat == human_seat,
            ctx.human_active == (snapshot.active matches Some(a) && a.seat == human_seat),
            ctx.min_bet == snapshot.rules.min_bet,
            ctx.max_bet == snapshot.rules.max_bet,
    {
        let human_active = match snapshot.active {
            Some(a) => a.seat == human_seat,
            None => false,
        };
        GestureCtx {
            phase: snapshot.phase,
            legal: copy_kinds(&snapshot.legal_actions),
            human_seat,
            human_active,
            min_bet: snapshot.rules.min_bet,
            max_bet: snapshot.rules.max_bet,
        }
    }

    /// Whether the engine will accept this action kind right now.
    pub fn allows(&self, kind: ActionKind) -> (b: bool)
        ensures
            b == ctx_allows(*self, kind),
    {
        let mut i: usize = 0;
        while i < self.legal.len()
            invariant
                i <= self.legal@.len(),
                forall|j: int| 0 <= j < i ==> self.legal@[j] != kind,
            decreases self.legal@.len() - i,
        {
            if self.legal[i] == kind {
                return true;
            }
            i = i + 1;
        }
        false
    }

    /// Whether a hand-signal action (`kind`) is available to the human:
    /// their turn, and the action legal.
    pub fn hand_signal(&self, kind: ActionKind) -> (b: bool)
        ensures
            b == hand_signal_open(*self, kind),
    {
        self.phase == Phase::PlayerTurn && self.human_active && self.allows(kind)
    }

    /// Whether the insurance decision (`kind`) rests with the human.
    pub fn insurance_signal(&self, kind: ActionKind) -> (b: bool)
        ensures
            b == insurance_signal_open(*self, kind),
    {
        self.phase == Phase::InsuranceOffer && self.human_active && self.allows(kind)
    }

    /// Whether the human may stage and post bets right now.
    pub fn betting_open(&self) -> (b: bool)
        ensures
            b == betting_is_open(*self),
    {
        self.phase == Phase::Betting && self.allows(ActionKind::PlaceBet)
    }

    /// Whether the table is between rounds (walking away is meaningful).
    pub fn between_rounds(&self) -> (b: bool)
        ensures
            b == is_between_rounds(*self),
    {
        self.phase == Phase::Betting || self.phase == Phase::RoundOver
    }
}

/// A context for tests and tools, built without a snapshot: the human
/// sits at seat 3 under the canonical table limits.
pub fn test_ctx(phase: Phase, legal: &[ActionKind], human_active: bool) -> (ctx: GestureCtx)
    ensures
        ctx.phase == phase,
        ctx.legal@ == legal@,
        ctx.human_seat == 3,
        ctx.human_active == human_active,
        ctx.min_bet == spec_canonical().min_bet,
        ctx.max_bet == spec_canonical().max_bet,
{
    let rules = Rules::canonical();
    let mut v: Vec<ActionKind> = Vec::new();
    let mut i: usize = 0;
    while i < legal.len()
        invariant
            i <= legal@.len(),
            v@ == legal@.subrange(0, i as int),
        decreases legal@.len() - i,
    {
        v.push(legal[i]);
        i = i + 1;
        proof {
            assert(v@ =~= legal@.subrange(0, i as int));
        }
    }
    proof {
        assert(legal@.subrange(0, legal@.len() as int) =~= legal@);
    }
    GestureCtx {
        phase,
        legal: v,
        human_seat: 3,
        human_active,
        min_bet: rules.min_bet,
        max_bet: rules.max_bet,
    }
}

/// Map an intent to the engine action it stands for, re-checking
/// legality against the context. `None` means "do not submit anything"
/// (including [`Intent::WalkAway`], which is not an engine action).
pub fn resolve(ctx: &GestureCtx, intent: Intent) -> (a: Option<Action>)
    ensures
        a == spec_resolve(*ctx, intent),
{
    match intent {
        Intent::ConfirmBet(amount) => if ctx.betting_open() && stage_ready(
            amount,
            ctx.min_bet,
            ctx.max_bet,
        ) {
            Some(Action::PlaceBet(amount))
        } else {
            None
        },
        Intent::Hit => if ctx.hand_signal(ActionKind::Hit) {
            Some(Action::Hit)
        } else {
            None
        },
        Intent::Stand => if ctx.hand_signal(ActionKind::Stand) {
            Some(Action::Stand)
        } else {
            None
        },
        Intent::Double => if ctx.hand_signal(ActionKind::Double) {
            Some(Action::Double)
        } else {
            None
        },
        Intent::Split => if ctx.hand_signal(ActionKind::Split) {
            Some(Action::Split)
        } else {
            None
        },
        Intent::Surrender => if ctx.hand_signal(ActionKind::Surrender) {
            Some(Action::Surrender)
        } else {
            None
        },
        Intent::TakeInsurance => if ctx.insurance_signal(ActionKind::TakeInsurance) {
            Some(Action::TakeInsurance)
        } else {
            None
        },
        Intent::DeclineInsurance => if ctx.insurance_signal(ActionKind::DeclineInsurance) {
            Some(Action::DeclineInsurance)
        } else {
            None
        },
        Intent::NextRound => if ctx.phase == Phase::RoundOver && ctx.allows(
            ActionKind::NextRound,
        ) {
            Some(Action::NextRound)
        } else {
            None
        },
        Intent::WalkAway => None,
    }
}

/// Whatever resolves is legal: the resolved action's kind is in the
/// snapshot's legal-action set, and every seat decision (anything but
/// posting a bet or clearing the round) is the human's to make because
/// the engine is waiting on the human seat.
pub proof fn lemma_resolve_is_gated(ctx: GestureCtx, intent: Intent)
    ensures
        spec_resolve(ctx, intent) matches Some(a) ==> {
            &&& ctx.legal@.contains(spec_kind(a))
            &&& !(a is PlaceBet || a is NextRound) ==> ctx.human_active
            &&& a is PlaceBet ==> ctx.phase == Phase::Betting
        },
        intent is WalkAway ==> spec_resolve(ctx, intent) is None,
{
}

} // verus!
