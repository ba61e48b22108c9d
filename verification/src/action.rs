//! Player and table actions, and the typed errors returned when an action
//! is illegal.
use vstd::prelude::*;
use crate::snapshot::{Phase, phase_name};
use crate::text::{decimal, push_decimal};

verus! {

/// Everything a player (or the table) can ask the engine to do.
///
/// Table-level actions (`Deal` and `NextRound`) may be issued with any
/// valid seat index; all other actions must come from the seat the engine
/// says is active.
#[derive(Debug, Clone, Copy, PartialEq, Eq, Structural, Hash)]
pub enum Action {
    /// Place (or replace) this seat's main bet for the coming round, in
    /// whole dollars. Legal only during betting.
    PlaceBet(u32),
    /// Close betting and deal the round. Legal once a seat has a bet.
    Deal,
    /// Take one more card on the active hand.
    Hit,
    /// Stand on the active hand.
    Stand,
    /// Double the bet on the active two-card hand, take exactly one more
    /// card, and stand.
    Double,
    /// Split the active two-card pair into two hands.
    Split,
    /// Late surrender: forfeit the hand and recover half the bet.
    Surrender,
    /// Buy insurance for half the main bet (rounded down).
    TakeInsurance,
    /// Decline the insurance offer.
    DeclineInsurance,
    /// Clear the finished round and return to betting, reshuffling if the
    /// cut card was reached. Legal only when the round is over.
    NextRound,
}

/// An [`Action`] stripped of its payload, used to describe which actions
/// are legal and to report errors.
#[derive(Debug, Clone, Copy, PartialEq, Eq, Structural, Hash)]
pub enum ActionKind {
    PlaceBet,
    Deal,
    Hit,
    Stand,
    Double,
    Split,
    Surrender,
    TakeInsurance,
    DeclineInsurance,
    NextRound,
}

/// The payload-free kind of an action.
pub open spec fn spec_kind(action: Action) -> ActionKind {
    match action {
        Action::PlaceBet(_) => ActionKind::PlaceBet,
        Action::Deal => ActionKind::Deal,
        Action::Hit => ActionKind::Hit,
        Action::Stand => ActionKind::Stand,
        Action::Double => ActionKind::Double,
        Action::Split => ActionKind::Split,
        Action::Surrender => ActionKind::Surrender,
        Action::TakeInsurance => ActionKind::TakeInsurance,
        Action::DeclineInsurance => ActionKind::DeclineInsurance,
        Action::NextRound => ActionKind::NextRound,
    }
}

impl Action {
    /// The payload-free kind of this action, as used in legal-action sets.
    pub fn kind(self) -> (k: ActionKind)
        ensures
            k == spec_kind(self),
    {
        match self {
            Action::PlaceBet(_) => ActionKind::PlaceBet,
            Action::Deal => ActionKind::Deal,
            Action::Hit => ActionKind::Hit,
            Action::Stand => ActionKind::Stand,
            Action::Double => ActionKind::Double,
            Action::Split => ActionKind::Split,
            Action::Surrender => ActionKind::Surrender,
            Action::TakeInsurance => ActionKind::TakeInsurance,
            Action::DeclineInsurance => ActionKind::DeclineInsurance,
            Action::NextRound => ActionKind::NextRound,
        }
    }
}

/// The kind's name, as it reads in messages.
pub open spec fn kind_name(kind: ActionKind) -> Seq<char> {
    match kind {
        ActionKind::PlaceBet => "PlaceBet"@,
        ActionKind::Deal => "Deal"@,
        ActionKind::Hit => "Hit"@,
        ActionKind::Stand => "Stand"@,
        ActionKind::Double => "Double"@,
        ActionKind::Split => "Split"@,
        ActionKind::Surrender => "Surrender"@,
        ActionKind::TakeInsurance => "TakeInsurance"@,
        ActionKind::DeclineInsurance => "DeclineInsurance"@,
        ActionKind::NextRound => "NextRound"@,
    }
}

impl ActionKind {
    /// The kind's name, as it reads in messages.
    pub fn name(self) -> (s: &'static str)
        ensures
            s@ == kind_name(self),
    {
        match self {
            ActionKind::PlaceBet => "PlaceBet",
            ActionKind::Deal => "Deal",
            ActionKind::Hit => "Hit",
            ActionKind::Stand => "Stand",
            ActionKind::Double => "Double",
            ActionKind::Split => "Split",
            ActionKind::Surrender => "Surrender",
            ActionKind::TakeInsurance => "TakeInsurance",
            ActionKind::DeclineInsurance => "DeclineInsurance",
            ActionKind::NextRound => "NextRound",
        }
    }
}

/// Why an action was rejected.
///
/// An illegal action never mutates the table: the caller gets one of
/// these and the state is exactly as it was.
#[derive(Debug, Clone, Copy, PartialEq, Eq, Structural)]
pub enum ActionError {
    /// The seat index is not on this table.
    SeatOutOfRange { seat: usize, seats: usize },
    /// The action is not valid in the current phase.
    WrongPhase { action: ActionKind, phase: Phase },
    /// The action came from a seat other than the active one.
    OutOfTurn { seat: usize, active_seat: usize },
    /// The bet is outside the table limits.
    BetOutOfRange { bet: u32, min: u32, max: u32 },
    /// `Deal` with no bets on the felt.
    NoBetsPlaced,
    /// Doubling is not allowed on this hand under the table rules.
    DoubleNotAllowed,
    /// Splitting is not allowed on this hand under the table rules.
    SplitNotAllowed,
    /// Surrender is not allowed on this hand under the table rules.
    SurrenderNotAllowed,
}

/// The human-readable message for an action error.
pub open spec fn action_error_message(err: ActionError) -> Seq<char> {
    match err {
        ActionError::SeatOutOfRange { seat, seats } => "seat "@ + decimal(seat as nat)
            + " is out of range for a "@ + decimal(seats as nat) + "-seat table"@,
        ActionError::WrongPhase { action, phase } => kind_name(action)
            + " is not legal during the "@ + phase_name(phase) + " phase"@,
        ActionError::OutOfTurn { seat, active_seat } => "seat "@ + decimal(seat as nat)
            + " acted but seat "@ + decimal(active_seat as nat) + " is active"@,
        ActionError::BetOutOfRange { bet, min, max } => "bet $"@ + decimal(bet as nat)
            + " is outside the table limits $"@ + decimal(min as nat) + "-$"@ + decimal(
            max as nat,
        ),
        ActionError::NoBetsPlaced => "cannot deal with no bets placed"@,
        ActionError::DoubleNotAllowed => "doubling is not allowed on this hand"@,
        ActionError::SplitNotAllowed => "splitting is not allowed on this hand"@,
        ActionError::SurrenderNotAllowed => "surrender is not allowed on this hand"@,
    }
}

impl ActionError {
    /// The error as a human-readable message.
    pub fn to_string(&self) -> (s: String)
        ensures
            s@ == action_error_message(*self),
    {
        match *self {
            ActionError::SeatOutOfRange { seat, seats } => {
                let mut s = String::from_str("seat ");
                push_decimal(&mut s, seat as u64);
                s.append(" is out of range for a ");
                push_decimal(&mut s, seats as u64);
                s.append("-seat table");
                s
            },
            ActionError::WrongPhase { action, phase } => {
                let mut s = String::from_str(action.name());
                s.append(" is not legal during the ");
                s.append(phase.name());
                s.append(" phase");
                s
            },
            ActionError::OutOfTurn { seat, active_seat } => {
                let mut s = String::from_str("seat ");
                push_decimal(&mut s, seat as u64);
                s.append(" acted but seat ");
                push_decimal(&mut s, active_seat as u64);
                s.append(" is active");
                s
            },
            ActionError::BetOutOfRange { bet, min, max } => {
                let mut s = String::from_str("bet $");
                push_decimal(&mut s, bet as u64);
                s.append(" is outside the table limits $");
                push_decimal(&mut s, min as u64);
                s.append("-$");
                push_decimal(&mut s, max as u64);
                s
            },
            ActionError::NoBetsPlaced => String::from_str("cannot deal with no bets placed"),
            ActionError::DoubleNotAllowed => String::from_str(
                "doubling is not allowed on this hand",
            ),
            ActionError::SplitNotAllowed => String::from_str(
                "splitting is not allowed on this hand",
            ),
            ActionError::SurrenderNotAllowed => String::from_str(
                "surrender is not allowed on this hand",
            ),
        }
    }
}

} // verus!
