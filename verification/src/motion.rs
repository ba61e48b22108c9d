//! The choreographer: turn a transition's event list into a timed
//! animation queue.
//!
//! [`plan_transition`] walks the events in engine order and emits one
//! [`TimedStep`] per event (a card flying from the shoe, chips sliding
//! to the tray, a pause for a decision) with durations taken from the
//! dealer's [`Pace`]. Every step carries the display patch that lands
//! when it completes, so the scene advances one event at a time, and the
//! final step of every plan adopts the authoritative snapshot.
//!
//! Where things sit on screen is floating-point geometry and belongs to
//! the rendering side: steps name their endpoints as [`Spot`]s, and the
//! renderer places them.
use vstd::prelude::*;
use crate::card::Card;
use crate::display::{
    DisplayState, Shown, ShownDealer, copy_snapshot, felt_cards, fits, resized, shown, spec_apply,
    spec_clear, spec_needs_clear,
};
use crate::event::{Event, HandOutcome};
use crate::life::Pace;
use crate::snapshot::Snapshot;
use crate::table::Transition;

verus! {

/// What the transient animation layer shows while a step plays.
#[derive(Debug, Clone, Copy, PartialEq, Eq, Structural)]
pub enum Visual {
    /// A face-up card.
    Card(Card),
    /// A face-down card.
    Back,
    /// A pile of chips worth this many dollars.
    Chips(u32),
    /// The shuffle's riffle shimmer at the shoe.
    Shimmer,
}

/// One synthesized table sound.
#[derive(Debug, Clone, Copy, PartialEq, Eq, Structural, Hash)]
pub enum SoundCue {
    /// A card leaving the shoe and hitting the felt: a soft noise swish.
    CardSlide,
    /// Chips settling: a short, bright filtered tick.
    ChipClink,
    /// The shuffle: a longer riffle of noise.
    Riffle,
}

impl SoundCue {
    /// Whether the cue plays when its step begins rather than when it
    /// completes. The riffle accompanies the whole shuffle; slides and
    /// clinks mark the moment the object lands.
    pub fn at_step_start(self) -> (b: bool)
        ensures
            b == (self == SoundCue::Riffle),
    {
        match self {
            SoundCue::Riffle => true,
            _ => false,
        }
    }
}

/// A named place on the felt an animated object leaves from or lands
/// on. The renderer turns each into scene coordinates.
#[derive(Debug, Clone, Copy, PartialEq, Eq, Structural)]
pub enum Spot {
    /// The dealing shoe, at its resting angle.
    Shoe,
    /// The discard tray.
    Discard,
    /// The dealer's chip tray.
    DealerTray,
    /// The origin of the dealer's card row.
    DealerHand,
    /// Card `index` of a dealer row of `cards` cards.
    DealerCard { index: usize, cards: usize },
    /// Card `index` of a hand of `cards` cards: hand `hand` of
    /// `hand_count` at `seat` of a `seats`-seat table, turned sideways
    /// for a double-down card.
    SeatCard {
        seats: usize,
        seat: usize,
        hand_count: usize,
        hand: usize,
        index: usize,
        cards: usize,
        sideways: bool,
    },
    /// The center of a hand's fan.
    SeatHand { seats: usize, seat: usize, hand_count: usize, hand: usize },
    /// Where a hand's bet pile sits.
    Bet { seats: usize, seat: usize, hand_count: usize, hand: usize },
    /// Where a hand's payout is pushed to.
    Payout { seats: usize, seat: usize, hand_count: usize, hand: usize },
    /// A seat's spot on the insurance line.
    InsuranceLine { seats: usize, seat: usize },
    /// Where a seat's chips enter the felt, at the rail.
    SeatEntry { seats: usize, seat: usize },
}

/// The motion a step performs.
#[derive(Debug, Clone, Copy, PartialEq, Eq, Structural)]
pub enum StepKind {
    /// Move `visual` from `from` to `to`.
    Fly { visual: Visual, from: Spot, to: Spot },
    /// Flip the dealer's hole card in place to show `card`.
    Flip { card: Card, at: Spot },
    /// The shuffle shimmer at the shoe.
    Shimmer,
    /// Nothing moves; the table breathes (a decision, a peek).
    Pause,
}

/// The display change a step commits.
#[derive(Debug, Clone, PartialEq)]
pub enum Patch {
    /// Apply one engine event to the display state.
    Event(Event),
    /// Sweep the felt clean (the engine's silent `NextRound` clear).
    ClearFelt,
    /// Adopt the authoritative end-of-transition snapshot.
    Adopt(Box<Snapshot>),
    /// No display change.
    NoChange,
}

/// One entry in the animation queue.
#[derive(Debug, Clone, PartialEq)]
pub struct TimedStep {
    /// The motion to play.
    pub kind: StepKind,
    /// How long the step runs.
    pub duration_ms: u32,
    /// Whether `patch` lands halfway through (the flip's reveal at the
    /// turn) rather than at the end.
    pub patch_at_turn: bool,
    /// The display change the step commits.
    pub patch: Patch,
    /// The step's sound, if any (see [`SoundCue::at_step_start`]).
    pub sound: Option<SoundCue>,
}

/// A step where nothing moves.
pub open spec fn pause_step(duration_ms: u32, patch: Patch) -> TimedStep {
    TimedStep { kind: StepKind::Pause, duration_ms, patch_at_turn: false, patch, sound: None }
}

/// A card flying out of the shoe to `to`.
pub open spec fn card_fly_step(visual: Visual, to: Spot, duration_ms: u32, patch: Patch) -> TimedStep {
    TimedStep {
        kind: StepKind::Fly { visual, from: Spot::Shoe, to },
        duration_ms,
        patch_at_turn: false,
        patch,
        sound: Some(SoundCue::CardSlide),
    }
}

/// Chips sliding between two spots; a zero-dollar slide is a silent
/// pause of the same length.
pub open spec fn chip_fly_step(from: Spot, to: Spot, amount: u32, duration_ms: u32, patch: Patch) -> TimedStep {
    if amount == 0 {
        pause_step(duration_ms, patch)
    } else {
        TimedStep {
            kind: StepKind::Fly { visual: Visual::Chips(amount), from, to },
            duration_ms,
            patch_at_turn: false,
            patch,
            sound: Some(SoundCue::ChipClink),
        }
    }
}

/// How many dealer cards lie on the felt (a face-down hole card counts).
pub open spec fn dealer_count(d: ShownDealer) -> int {
    (if d.upcard is Some { 1int } else { 0 }) + (if d.hole_card is Some || d.hole_card_dealt {
        1int
    } else {
        0
    }) + d.draws.len()
}

/// The magnitude of a signed dollar amount.
pub open spec fn magnitude(amount: i32) -> u32 {
    if amount < 0 {
        (-amount) as u32
    } else {
        amount as u32
    }
}

/// The step that plays `e` against the display `d` (the display before
/// the event).
pub open spec fn spec_plan_event(d: Shown, e: Event, pace: Pace) -> TimedStep {
    let seats = d.seats.len() as usize;
    let patch = Patch::Event(e);
    match e {
        Event::BetPlaced { seat, amount } => chip_fly_step(
            Spot::SeatEntry { seats, seat },
            Spot::Bet { seats, seat, hand_count: 1, hand: 0 },
            amount,
            pace.settlement_ms,
            patch,
        ),
        Event::ShoeShuffled => TimedStep {
            kind: StepKind::Shimmer,
            duration_ms: (2 * pace.reveal_ms) as u32,
            patch_at_turn: false,
            patch,
            sound: Some(SoundCue::Riffle),
        },
        Event::CardBurned => card_fly_step(Visual::Back, Spot::Discard, pace.card_ms, patch),
        Event::CardDealt { seat, hand, card } => {
            let hands = d.seats[seat as int].hands;
            let hand_count = if hands.len() > hand + 1 {
                hands.len() as usize
            } else {
                (hand + 1) as usize
            };
            let cards_after = if hand < hands.len() {
                hands[hand as int].cards.len() + 1
            } else {
                1
            };
            let sideways = hand < hands.len() && hands[hand as int].doubled;
            card_fly_step(
                Visual::Card(card),
                Spot::SeatCard {
                    seats,
                    seat,
                    hand_count,
                    hand,
                    index: (cards_after - 1) as usize,
                    cards: cards_after as usize,
                    sideways,
                },
                pace.card_ms,
                patch,
            )
        },
        Event::DealerCardDealt { card } => {
            let n = dealer_count(d.dealer);
            card_fly_step(
                Visual::Card(card),
                Spot::DealerCard { index: n as usize, cards: (n + 1) as usize },
                pace.card_ms,
                patch,
            )
        },
        Event::HoleCardDealt => card_fly_step(
            Visual::Back,
            Spot::DealerCard { index: 1, cards: 2 },
            pace.card_ms,
            patch,
        ),
        Event::HoleCardRevealed { card } => {
            let n = dealer_count(d.dealer);
            TimedStep {
                kind: StepKind::Flip {
                    card,
                    at: Spot::DealerCard {
                        index: 1,
                        cards: if n > 2 {
                            n as usize
                        } else {
                            2
                        },
                    },
                },
                duration_ms: pace.reveal_ms,
                patch_at_turn: true,
                patch,
                sound: Some(SoundCue::CardSlide),
            }
        },
        Event::PlayerBlackjack { .. } => pause_step(pace.reveal_ms, patch),
        Event::InsuranceOffered => pause_step(pace.decision_ms, patch),
        Event::InsuranceTaken { seat, amount } => chip_fly_step(
            Spot::Bet { seats, seat, hand_count: 1, hand: 0 },
            Spot::InsuranceLine { seats, seat },
            amount,
            pace.settlement_ms,
            patch,
        ),
        Event::InsuranceDeclined { .. } => pause_step(pace.decision_ms, patch),
        Event::InsuranceResolved { seat, amount } => if amount < 0 {
            chip_fly_step(
                Spot::InsuranceLine { seats, seat },
                Spot::DealerTray,
                magnitude(amount),
                pace.settlement_ms,
                patch,
            )
        } else {
            chip_fly_step(
                Spot::DealerTray,
                Spot::InsuranceLine { seats, seat },
                magnitude(amount),
                pace.settlement_ms,
                patch,
            )
        },
        Event::DealerPeeked { .. } => pause_step(pace.reveal_ms, patch),
        Event::HandSplit { seat, hand } => {
            let hands = d.seats[seat as int].hands;
            let hand_count = hands.len() as usize;
            let visual = if hand < hands.len() && hands[hand as int].cards.len() > 1 {
                Visual::Card(hands[hand as int].cards[1])
            } else {
                Visual::Back
            };
            TimedStep {
                kind: StepKind::Fly {
                    visual,
                    from: Spot::SeatCard {
                        seats,
                        seat,
                        hand_count,
                        hand,
                        index: 1,
                        cards: 2,
                        sideways: false,
                    },
                    to: Spot::SeatCard {
                        seats,
                        seat,
                        hand_count: (hand_count + 1) as usize,
                        hand: (hand + 1) as usize,
                        index: 0,
                        cards: 1,
                        sideways: false,
                    },
                },
                duration_ms: pace.card_ms,
                patch_at_turn: false,
                patch,
                sound: Some(SoundCue::CardSlide),
            }
        },
        Event::DoubledDown { seat, hand, bet } => {
            let hands = d.seats[seat as int].hands;
            let hand_count = if hands.len() > 1 {
                hands.len() as usize
            } else {
                1
            };
            let already = if hand < hands.len() {
                hands[hand as int].bet
            } else {
                0
            };
            chip_fly_step(
                Spot::SeatEntry { seats, seat },
                Spot::Bet { seats, seat, hand_count, hand },
                if bet > already {
                    (bet - already) as u32
                } else {
                    0
                },
                pace.settlement_ms,
                patch,
            )
        },
        Event::PlayerStood { .. } => pause_step(pace.decision_ms, patch),
        Event::HandBusted { seat, hand, .. } => {
            let hands = d.seats[seat as int].hands;
            let hand_count = if hands.len() > 1 {
                hands.len() as usize
            } else {
                1
            };
            TimedStep {
                kind: StepKind::Fly {
                    visual: Visual::Back,
                    from: Spot::SeatHand { seats, seat, hand_count, hand },
                    to: Spot::Discard,
                },
                duration_ms: pace.settlement_ms,
                patch_at_turn: false,
                patch,
                sound: Some(SoundCue::CardSlide),
            }
        },
        Event::PlayerSurrendered { .. } => pause_step(pace.decision_ms, patch),
        Event::DealerStood { .. } => pause_step(pace.decision_ms, patch),
        Event::DealerBust { .. } => pause_step(pace.decision_ms, patch),
        Event::HandSettled { seat, hand, outcome, amount } => {
            let hands = d.seats[seat as int].hands;
            let hand_count = if hands.len() > 1 {
                hands.len() as usize
            } else {
                1
            };
            match outcome {
                HandOutcome::Lose | HandOutcome::Bust | HandOutcome::Surrender => chip_fly_step(
                    Spot::Bet { seats, seat, hand_count, hand },
                    Spot::DealerTray,
                    magnitude(amount),
                    pace.settlement_ms,
                    patch,
                ),
                HandOutcome::Win | HandOutcome::Blackjack => chip_fly_step(
                    Spot::DealerTray,
                    Spot::Payout { seats, seat, hand_count, hand },
                    magnitude(amount),
                    pace.settlement_ms,
                    patch,
                ),
                HandOutcome::Push => pause_step(pace.settlement_ms, patch),
            }
        },
        Event::CutCardReached => pause_step(0, patch),
        Event::PlayerArrived { .. } => pause_step(pace.settlement_ms, patch),
        Event::PlayerDeparted { .. } => pause_step(pace.settlement_ms, patch),
        Event::DealerChanged => pause_step(pace.reveal_ms, patch),
    }
}

/// Whether an event can be planned against `d`: it fits the display,
/// and the counts the step is built from stay in range.
pub open spec fn plannable(d: Shown, net: Seq<i32>, e: Event, pace: Pace) -> bool {
    &&& fits(d, net, e)
    &&& 2 * pace.reveal_ms <= u32::MAX
    &&& dealer_count(d.dealer) + 1 <= usize::MAX
    &&& match e {
        Event::CardDealt { seat, hand, .. } => hand < d.seats[seat as int].hands.len()
            ==> d.seats[seat as int].hands[hand as int].cards.len() < usize::MAX,
        Event::HandSplit { seat, .. } => d.seats[seat as int].hands.len() < usize::MAX,
        _ => true,
    }
}

fn pause(duration_ms: u32, patch: Patch) -> (s: TimedStep)
    ensures
        s == pause_step(duration_ms, patch),
{
    TimedStep { kind: StepKind::Pause, duration_ms, patch_at_turn: false, patch, sound: None }
}

fn card_fly(visual: Visual, to: Spot, duration_ms: u32, patch: Patch) -> (s: TimedStep)
    ensures
        s == card_fly_step(visual, to, duration_ms, patch),
{
    TimedStep {
        kind: StepKind::Fly { visual, from: Spot::Shoe, to },
        duration_ms,
        patch_at_turn: false,
        patch,
        sound: Some(SoundCue::CardSlide),
    }
}

fn chip_fly(from: Spot, to: Spot, amount: u32, duration_ms: u32, patch: Patch) -> (s: TimedStep)
    ensures
        s == chip_fly_step(from, to, amount, duration_ms, patch),
{
    if amount == 0 {
        return pause(duration_ms, patch);
    }
    TimedStep {
        kind: StepKind::Fly { visual: Visual::Chips(amount), from, to },
        duration_ms,
        patch_at_turn: false,
        patch,
        sound: Some(SoundCue::ChipClink),
    }
}

fn unsigned_abs(amount: i32) -> (m: u32)
    ensures
        m == magnitude(amount),
{
    if amount < 0 {
        if amount == i32::MIN {
            2147483648u32
        } else {
            (-amount) as u32
        }
    } else {
        amount as u32
    }
}

/// Plan one event against the display state *before* that event.
/// Without a snapshot (never, in practice: sessions open with an
/// event-free transition) every event is a silent pause.
pub fn plan_event(state: &DisplayState, event: &Event, pace: Pace) -> (s: TimedStep)
    requires
        state.showing() matches Some(d) ==> plannable(d, state.ledger(), *event, pace),
    ensures
        state.showing() is None ==> s == pause_step(0, Patch::Event(*event)),
        state.showing() matches Some(d) ==> s == spec_plan_event(d, *event, pace),
{
    let snapshot = match state.snapshot() {
        Some(s) => s,
        None => return pause(0, Patch::Event(*event)),
    };
    let ghost d = shown(*snapshot);
    let seats = snapshot.seats.len();
    let patch = Patch::Event(*event);
    match *event {
        Event::BetPlaced { seat, amount } => chip_fly(
            Spot::SeatEntry { seats, seat },
            Spot::Bet { seats, seat, hand_count: 1, hand: 0 },
            amount,
            pace.settlement_ms,
            patch,
        ),
        Event::ShoeShuffled => TimedStep {
            kind: StepKind::Shimmer,
            duration_ms: 2 * pace.reveal_ms,
            patch_at_turn: false,
            patch,
            sound: Some(SoundCue::Riffle),
        },
        Event::CardBurned => card_fly(Visual::Back, Spot::Discard, pace.card_ms, patch),
        Event::CardDealt { seat, hand, card } => {
            let n = snapshot.seats[seat].hands.len();
            proof {
                assert(d.seats[seat as int].hands.len() == n);
            }
            let hand_count = if n > hand + 1 {
                n
            } else {
                hand + 1
            };
            let cards_after = if hand < n {
                proof {
                    assert(d.seats[seat as int].hands[hand as int].cards.len()
                        == snapshot.seats@[seat as int].hands@[hand as int].cards@.len());
                }
                snapshot.seats[seat].hands[hand].cards.len() + 1
            } else {
                1
            };
            let sideways = hand < n && snapshot.seats[seat].hands[hand].doubled;
            proof {
                if hand < n {
                    assert(d.seats[seat as int].hands[hand as int].doubled
                        == snapshot.seats@[seat as int].hands@[hand as int].doubled);
                }
            }
            card_fly(
                Visual::Card(card),
                Spot::SeatCard {
                    seats,
                    seat,
                    hand_count,
                    hand,
                    index: cards_after - 1,
                    cards: cards_after,
                    sideways,
                },
                pace.card_ms,
                patch,
            )
        },
        Event::DealerCardDealt { card } => {
            let n = dealer_shown(snapshot);
            card_fly(Visual::Card(card), Spot::DealerCard { index: n, cards: n + 1 }, pace.card_ms, patch)
        },
        Event::HoleCardDealt => card_fly(
            Visual::Back,
            Spot::DealerCard { index: 1, cards: 2 },
            pace.card_ms,
            patch,
        ),
        Event::HoleCardRevealed { card } => {
            let n = dealer_shown(snapshot);
            TimedStep {
                kind: StepKind::Flip {
                    card,
                    at: Spot::DealerCard {
                        index: 1,
                        cards: if n > 2 {
                            n
                        } else {
                            2
                        },
                    },
                },
                duration_ms: pace.reveal_ms,
                patch_at_turn: true,
                patch,
                sound: Some(SoundCue::CardSlide),
            }
        },
        Event::PlayerBlackjack { .. } => pause(pace.reveal_ms, patch),
        Event::InsuranceOffered => pause(pace.decision_ms, patch),
        Event::InsuranceTaken { seat, amount } => chip_fly(
            Spot::Bet { seats, seat, hand_count: 1, hand: 0 },
            Spot::InsuranceLine { seats, seat },
            amount,
            pace.settlement_ms,
            patch,
        ),
        Event::InsuranceDeclined { .. } => pause(pace.decision_ms, patch),
        Event::InsuranceResolved { seat, amount } => if amount < 0 {
            chip_fly(
                Spot::InsuranceLine { seats, seat },
                Spot::DealerTray,
                unsigned_abs(amount),
                pace.settlement_ms,
                patch,
            )
        } else {
            chip_fly(
                Spot::DealerTray,
                Spot::InsuranceLine { seats, seat },
                unsigned_abs(amount),
                pace.settlement_ms,
                patch,
            )
        },
        Event::DealerPeeked { .. } => pause(pace.reveal_ms, patch),
        Event::HandSplit { seat, hand } => {
            let hand_count = snapshot.seats[seat].hands.len();
            proof {
                assert(d.seats[seat as int].hands.len() == hand_count);
            }
            let visual = if hand < hand_count && snapshot.seats[seat].hands[hand].cards.len() > 1 {
                proof {
                    assert(d.seats[seat as int].hands[hand as int].cards
                        == snapshot.seats@[seat as int].hands@[hand as int].cards@);
                }
                Visual::Card(snapshot.seats[seat].hands[hand].cards[1])
            } else {
                proof {
                    if hand < hand_count {
                        assert(d.seats[seat as int].hands[hand as int].cards.len()
                            == snapshot.seats@[seat as int].hands@[hand as int].cards@.len());
                    }
                }
                Visual::Back
            };
            TimedStep {
                kind: StepKind::Fly {
                    visual,
                    from: Spot::SeatCard {
                        seats,
                        seat,
                        hand_count,
                        hand,
                        index: 1,
                        cards: 2,
                        sideways: false,
                    },
                    to: Spot::SeatCard {
                        seats,
                        seat,
                        hand_count: hand_count + 1,
                        hand: hand + 1,
                        index: 0,
                        cards: 1,
                        sideways: false,
                    },
                },
                duration_ms: pace.card_ms,
                patch_at_turn: false,
                patch,
                sound: Some(SoundCue::CardSlide),
            }
        },
        Event::DoubledDown { seat, hand, bet } => {
            let n = snapshot.seats[seat].hands.len();
            proof {
                assert(d.seats[seat as int].hands.len() == n);
            }
            let hand_count = if n > 1 {
                n
            } else {
                1
            };
            let already = if hand < n {
                proof {
                    assert(d.seats[seat as int].hands[hand as int].bet
                        == snapshot.seats@[seat as int].hands@[hand as int].bet);
                }
                snapshot.seats[seat].hands[hand].bet
            } else {
                0
            };
            chip_fly(
                Spot::SeatEntry { seats, seat },
                Spot::Bet { seats, seat, hand_count, hand },
                bet.saturating_sub(already),
                pace.settlement_ms,
                patch,
            )
        },
        Event::PlayerStood { .. } => pause(pace.decision_ms, patch),
        Event::HandBusted { seat, hand, .. } => {
            let n = snapshot.seats[seat].hands.len();
            proof {
                assert(d.seats[seat as int].hands.len() == n);
            }
            let hand_count = if n > 1 {
                n
            } else {
                1
            };
            TimedStep {
                kind: StepKind::Fly {
                    visual: Visual::Back,
                    from: Spot::SeatHand { seats, seat, hand_count, hand },
                    to: Spot::Discard,
                },
                duration_ms: pace.settlement_ms,
                patch_at_turn: false,
                patch,
                sound: Some(SoundCue::CardSlide),
            }
        },
        Event::PlayerSurrendered { .. } => pause(pace.decision_ms, patch),
        Event::DealerStood { .. } => pause(pace.decision_ms, patch),
        Event::DealerBust { .. } => pause(pace.decision_ms, patch),
        Event::HandSettled { seat, hand, outcome, amount } => {
            let n = snapshot.seats[seat].hands.len();
            proof {
                assert(d.seats[seat as int].hands.len() == n);
            }
            let hand_count = if n > 1 {
                n
            } else {
                1
            };
            match outcome {
                HandOutcome::Lose | HandOutcome::Bust | HandOutcome::Surrender => chip_fly(
                    Spot::Bet { seats, seat, hand_count, hand },
                    Spot::DealerTray,
                    unsigned_abs(amount),
                    pace.settlement_ms,
                    patch,
                ),
                HandOutcome::Win | HandOutcome::Blackjack => chip_fly(
                    Spot::DealerTray,
                    Spot::Payout { seats, seat, hand_count, hand },
                    unsigned_abs(amount),
                    pace.settlement_ms,
                    patch,
                ),
                HandOutcome::Push => pause(pace.settlement_ms, patch),
            }
        },
        Event::CutCardReached => pause(0, patch),
        Event::PlayerArrived { .. } => pause(pace.settlement_ms, patch),
        Event::PlayerDeparted { .. } => pause(pace.settlement_ms, patch),
        Event::DealerChanged => pause(pace.reveal_ms, patch),
    }
}

/// How many dealer cards lie on a snapshot's felt.
fn dealer_shown(snapshot: &Snapshot) -> (n: usize)
    requires
        dealer_count(shown(*snapshot).dealer) + 1 <= usize::MAX,
    ensures
        n == dealer_count(shown(*snapshot).dealer),
{
    let dealer = &snapshot.dealer;
    let mut n: usize = dealer.draws.len();
    if dealer.upcard.is_some() {
        n = n + 1;
    }
    if dealer.hole_card.is_some() || dealer.hole_card_dealt {
        n = n + 1;
    }
    n
}

/// The steps that play `events` one by one from display `d` with
/// insurance ledger `net`, the display advancing past each event as it
/// is planned.
pub open spec fn plan_events(d: Option<Shown>, net: Seq<i32>, events: Seq<Event>, pace: Pace) -> Seq<TimedStep>
    decreases events.len(),
{
    if events.len() == 0 {
        Seq::empty()
    } else {
        let e = events[0];
        match d {
            None => seq![pause_step(0, Patch::Event(e))] + plan_events(None, net, events.drop_first(), pace),
            Some(x) => {
                let r = spec_apply(x, resized(net, x.seats.len()), e);
                seq![spec_plan_event(x, e, pace)] + plan_events(Some(r.0), r.1, events.drop_first(), pace)
            },
        }
    }
}

/// Whether every event of `events` can be planned and applied in turn.
pub open spec fn replayable(d: Option<Shown>, net: Seq<i32>, events: Seq<Event>, pace: Pace) -> bool
    decreases events.len(),
{
    if events.len() == 0 {
        true
    } else {
        match d {
            None => true,
            Some(x) => {
                let r = spec_apply(x, resized(net, x.seats.len()), events[0]);
                plannable(x, net, events[0], pace) && replayable(Some(r.0), r.1, events.drop_first(), pace)
            },
        }
    }
}

/// The dealer sweeping a settled round to the discard tray.
pub open spec fn sweep_step(pace: Pace) -> TimedStep {
    TimedStep {
        kind: StepKind::Fly { visual: Visual::Back, from: Spot::DealerHand, to: Spot::Discard },
        duration_ms: pace.settlement_ms,
        patch_at_turn: false,
        patch: Patch::ClearFelt,
        sound: Some(SoundCue::CardSlide),
    }
}

/// Whether planning `transition` from this display first sweeps the felt.
pub open spec fn sweeps_first(d: Option<Shown>, transition: Transition) -> bool {
    d matches Some(x) && spec_needs_clear(x, shown(transition.snapshot))
}

/// The display and ledger the events are planned from: after the sweep,
/// when there is one.
pub open spec fn planning_start(d: Option<Shown>, net: Seq<i32>, transition: Transition) -> (Option<Shown>, Seq<i32>) {
    if sweeps_first(d, transition) {
        (Some(spec_clear(d->0)), Seq::new(net.len(), |i: int| 0i32))
    } else {
        (d, net)
    }
}

/// Plan the animation queue for one transition.
///
/// `state` is the *planning* display state: the state the scene will
/// show once everything already queued has played. It is advanced to
/// the transition's final snapshot as a side effect, so consecutive
/// transitions queue seamlessly, never dropping events and never
/// batching them into an instant jump.
pub fn plan_transition(state: &mut DisplayState, transition: &Transition, pace: Pace) -> (steps: Vec<TimedStep>)
    requires
        sweeps_first(old(state).showing(), *transition) ==> (old(state).showing()->0).shoe.discard_pile_size
            + felt_cards(old(state).showing()->0) <= usize::MAX,
        replayable(
            planning_start(old(state).showing(), old(state).ledger(), *transition).0,
            planning_start(old(state).showing(), old(state).ledger(), *transition).1,
            transition.events@,
            pace,
        ),
    ensures
        ({
            let start = planning_start(old(state).showing(), old(state).ledger(), *transition);
            let head = if sweeps_first(old(state).showing(), *transition) {
                seq![sweep_step(pace), pause_step(pace.between_rounds_ms / 2, Patch::NoChange)]
            } else {
                Seq::empty()
            };
            let planned = plan_events(start.0, start.1, transition.events@, pace);
            &&& steps@.len() == head.len() + planned.len() + 1
            &&& steps@.subrange(0, (head.len() + planned.len()) as int) == head + planned
            &&& steps@.last() matches TimedStep {
                kind: StepKind::Pause,
                duration_ms: 0,
                patch_at_turn: false,
                patch: Patch::Adopt(adopted),
                sound: None,
            } && shown(*adopted) == shown(transition.snapshot)
        }),
        final(state).showing() == Some(shown(transition.snapshot)),
{
    let ghost start = planning_start(state.showing(), state.ledger(), *transition);
    let mut steps: Vec<TimedStep> = Vec::new();
    if state.needs_clear(&transition.snapshot) {
        steps.push(TimedStep {
            kind: StepKind::Fly { visual: Visual::Back, from: Spot::DealerHand, to: Spot::Discard },
            duration_ms: pace.settlement_ms,
            patch_at_turn: false,
            patch: Patch::ClearFelt,
            sound: Some(SoundCue::CardSlide),
        });
        steps.push(pause(pace.between_rounds_ms / 2, Patch::NoChange));
        state.clear_felt();
    }
    let ghost head = steps@;
    let events = &transition.events;
    let n = events.len();
    let mut i: usize = 0;
    proof {
        assert(events@.subrange(0, n as int) =~= events@);
        assert(steps@ + plan_events(state.showing(), state.ledger(), events@.subrange(0, n as int), pace)
            =~= head + plan_events(start.0, start.1, events@, pace));
    }
    while i < n
        invariant
            i <= n,
            n == events@.len(),
            events == &transition.events,
            steps@ + plan_events(state.showing(), state.ledger(), events@.subrange(i as int, n as int), pace)
                == head + plan_events(start.0, start.1, events@, pace),
            replayable(state.showing(), state.ledger(), events@.subrange(i as int, n as int), pace),
        decreases n - i,
    {
        let ghost rest = events@.subrange(i as int, n as int);
        let ghost next = events@.subrange(i + 1, n as int);
        proof {
            assert(rest.drop_first() =~= next);
            assert(rest[0] == events@[i as int]);
        }
        let ghost before = steps@;
        let ghost d = state.showing();
        let ghost net = state.ledger();
        let step = plan_event(state, &events[i], pace);
        steps.push(step);
        state.apply(&events[i]);
        proof {
            assert(steps@ == before.push(step));
            assert(plan_events(d, net, rest, pace) =~= seq![step] + plan_events(
                state.showing(),
                state.ledger(),
                next,
                pace,
            ));
            assert(steps@ + plan_events(state.showing(), state.ledger(), next, pace) =~= before
                + plan_events(d, net, rest, pace));
        }
        i = i + 1;
    }
    proof {
        assert(events@.subrange(n as int, n as int) =~= Seq::<Event>::empty());
        assert(steps@ =~= head + plan_events(start.0, start.1, events@, pace));
    }
    let adopted = copy_snapshot(&transition.snapshot);
    steps.push(pause(0, Patch::Adopt(Box::new(adopted))));
    state.adopt(copy_snapshot(&transition.snapshot));
    proof {
        let total = head + plan_events(start.0, start.1, events@, pace);
        assert(steps@.subrange(0, total.len() as int) =~= total);
    }
    steps
}

/// The total running time of a queue of steps.
pub open spec fn queue_ms(steps: Seq<TimedStep>) -> int
    decreases steps.len(),
{
    if steps.len() == 0 {
        0
    } else {
        queue_ms(steps.drop_last()) + steps.last().duration_ms
    }
}

/// Total running time of a queue in milliseconds.
pub fn queue_duration_ms(steps: &[TimedStep]) -> (ms: u64)
    requires
        queue_ms(steps@) <= u64::MAX,
    ensures
        ms == queue_ms(steps@),
{
    let mut total: u64 = 0;
    let mut i: usize = 0;
    while i < steps.len()
        invariant
            i <= steps@.len(),
            queue_ms(steps@) <= u64::MAX,
            total == queue_ms(steps@.subrange(0, i as int)),
        decreases steps@.len() - i,
    {
        proof {
            let next = steps@.subrange(0, i + 1);
            assert(next.drop_last() =~= steps@.subrange(0, i as int));
            lemma_queue_prefix(steps@, i + 1);
        }
        total = total + steps[i].duration_ms as u64;
        i = i + 1;
    }
    proof {
        assert(steps@.subrange(0, steps@.len() as int) =~= steps@);
    }
    total
}

proof fn lemma_queue_prefix(steps: Seq<TimedStep>, k: int)
    requires
        0 <= k <= steps.len(),
    ensures
        queue_ms(steps.subrange(0, k)) <= queue_ms(steps),
    decreases steps.len(),
{
    if k < steps.len() {
        assert(steps.drop_last().subrange(0, k) =~= steps.subrange(0, k));
        lemma_queue_prefix(steps.drop_last(), k);
    } else {
        assert(steps.subrange(0, k) =~= steps);
    }
}

} // verus!
