//! The table: a multi-seat blackjack round state machine that owns the
//! shoe and adjudicates every rule.
//!
//! A [`Table`] runs round after round against one shoe under one frozen
//! [`Rules`]. Every state change goes through [`Table::apply`], which
//! either rejects the action with a typed [`ActionError`] — mutating
//! nothing — or performs it and returns a [`Transition`]: the full new
//! [`Snapshot`] plus the ordered [`Event`]s that occurred.
//!
//! A round moves betting → dealing → insurance offer (dealer ace up) →
//! dealer peek (ace or ten up; American hole-card game) → player turns
//! (seat 0 first, hands left to right) → dealer turn → settlement. Only
//! the phases needing a decision rest ([`Phase`]); the rest happen
//! atomically inside `apply` and are reported as events.
use vstd::prelude::*;
use vstd::multiset::Multiset;
use rand_chacha::ChaCha8Rng;
use crate::action::{Action, ActionError, ActionKind, spec_kind};
use crate::card::{Card, Rank, rank_value};
use crate::event::{Event, HandOutcome};
use crate::hand::{
    HandValue, hand_soft, hand_total, hard_total, is_blackjack, is_value_pair, spec_is_blackjack,
    spec_is_value_pair,
};
use crate::rng::seeded;
use crate::rules::{BlackjackPayout, Rules, Soft17, spec_winnings};
use crate::shoe::{Shoe, ShoeView, deck_card, full_deck};
use crate::snapshot::{
    ActiveHand, DealerSnapshot, HandSnapshot, HandStatus, Insurance, Phase, SeatSnapshot,
    ShoeStatus, Snapshot,
};

verus! {

/// The result of a successful [`Table::apply`]: the new complete view of
/// the table and the ordered events that produced it.
#[derive(Debug, Clone, PartialEq, Eq)]
pub struct Transition {
    /// The full table state after the action.
    pub snapshot: Snapshot,
    /// What happened, in order, for animation and the game log.
    pub events: Vec<Event>,
}

// ----------------------------------------------------------------------
// The mathematical model of a table.
// ----------------------------------------------------------------------

/// One player hand and its bet.
pub ghost struct HandModel {
    pub cards: Seq<Card>,
    pub bet: u32,
    pub doubled: bool,
    pub from_split: bool,
    pub status: HandStatus,
    pub outcome: Option<HandOutcome>,
    pub payout: Option<i32>,
}

/// One seat's state for the current round.
pub ghost struct SeatModel {
    pub bet: Option<u32>,
    pub insurance: Insurance,
    /// Net insurance result, folded into `round_net` at settlement.
    pub insurance_net: i32,
    pub hands: Seq<HandModel>,
    pub round_net: Option<i32>,
}

/// The whole table.
pub ghost struct TableModel {
    pub rules: Rules,
    pub shoe: ShoeView,
    pub seats: Seq<SeatModel>,
    /// Dealer cards: index 0 the upcard, index 1 the hole card, then draws.
    pub dealer: Seq<Card>,
    pub hole_revealed: bool,
    pub phase: Phase,
    /// The seat/hand awaiting a decision (insurance or play).
    pub active: Option<(usize, usize)>,
    /// Fresh sets of decks opened because every card was out on the felt
    /// at once when one more was needed; never, at a table within its
    /// bounds.
    pub opened: nat,
}

/// A fresh hand for `bet`, awaiting its cards.
pub open spec fn fresh_hand(bet: u32) -> HandModel {
    HandModel {
        cards: Seq::empty(),
        bet,
        doubled: false,
        from_split: false,
        status: HandStatus::Playing,
        outcome: None,
        payout: None,
    }
}

/// A seat with nothing on the felt.
pub open spec fn empty_seat() -> SeatModel {
    SeatModel {
        bet: None,
        insurance: Insurance::NotOffered,
        insurance_net: 0,
        hands: Seq::empty(),
        round_net: None,
    }
}

/// Rules the engine can run: at least one seat and deck, a sane
/// penetration and split limit, `0 < min_bet <= max_bet`, limits small
/// enough that every payout and round net fits the engine's integers,
/// and enough decks that the felt can never hold them all: every hand
/// stops by 30 points (aces as one) and the dealer by 26, while a deck is
/// worth 340, so a full table of split hands never empties the shoe and
/// the discard pile together.
pub open spec fn rules_ok(r: Rules) -> bool {
    &&& r.seats > 0
    &&& 0 < r.min_bet <= r.max_bet
    &&& r.max_split_hands >= 1
    &&& r.decks > 0
    &&& r.penetration.is_penetration()
    &&& r.decks * 104 <= usize::MAX
    &&& (3 * r.max_split_hands + 1) * r.max_bet <= i32::MAX
    &&& r.seats * r.max_split_hands * 30 + 26 < r.decks * 340
}

/// The hand-level bounds every state keeps: an undoubled hand carries at
/// most the table maximum, a doubled hand twice that and at least three
/// cards.
pub open spec fn hand_base(h: HandModel, r: Rules) -> bool {
    &&& !h.doubled ==> h.bet <= r.max_bet
    &&& h.doubled ==> h.bet <= 2 * r.max_bet && h.cards.len() >= 3
    &&& h.status == HandStatus::Blackjack ==> !h.doubled
    &&& hard_total(h.cards) <= 30
}

/// The seat-level bounds every state keeps.
pub open spec fn seat_base(s: SeatModel, r: Rules) -> bool {
    &&& s.bet matches Some(b) ==> r.min_bet <= b <= r.max_bet
    &&& s.bet is None ==> s.hands.len() == 0 && s.insurance == Insurance::NotOffered
        && s.insurance_net == 0 && s.round_net is None
    &&& s.hands.len() <= r.max_split_hands
    &&& forall|i: int| 0 <= i < s.hands.len() ==> #[trigger] hand_base(s.hands[i], r)
    &&& s.insurance matches Insurance::Taken { amount } ==> s.bet is Some && amount == s.bet->0
        / 2
    &&& -(r.max_bet as int) <= s.insurance_net <= r.max_bet
}

/// The table-level bounds every state keeps.
pub open spec fn base(m: TableModel) -> bool {
    &&& rules_ok(m.rules)
    &&& m.seats.len() == m.rules.seats
    &&& forall|i: int| 0 <= i < m.seats.len() ==> #[trigger] seat_base(m.seats[i], m.rules)
    &&& m.shoe.capacity == m.rules.decks * 52
    &&& m.shoe.penetration == m.rules.penetration
    &&& hard_total(m.dealer) <= 26
}

/// Every hand still in play with two cards or more is under 21: a hand
/// that reaches 21 stands and one past it busts.
pub open spec fn hands_live(m: TableModel) -> bool {
    forall|i: int, k: int|
        0 <= i < m.seats.len() && 0 <= k < m.seats[i].hands.len() && (#[trigger] m.seats[i].hands[k]).status
            == HandStatus::Playing && m.seats[i].hands[k].cards.len() >= 2 ==> hand_total(
            m.seats[i].hands[k].cards,
        ) < 21
}

/// The insurance result of a seat: 2:1 winnings on a dealer blackjack,
/// the stake lost otherwise, nothing without a stake.
pub open spec fn insurance_result(ins: Insurance, dealer_blackjack: bool) -> int {
    match ins {
        Insurance::Taken { amount } => if dealer_blackjack {
            2 * amount
        } else {
            -amount
        },
        _ => 0,
    }
}

/// How a hand settles against the dealer's final cards, and the net
/// dollars it wins or loses: naturals pay the table's blackjack payout;
/// wins pay 1:1; pushes return the bet; busts and losses forfeit the bet
/// (doubled hands forfeit the doubled bet); surrender recovers `bet / 2`
/// rounded down. A hand still playing lost to a dealer blackjack.
pub open spec fn settle_hand(h: HandModel, dealer: Seq<Card>, r: Rules) -> (HandOutcome, int) {
    let bet = h.bet as int;
    match h.status {
        HandStatus::Surrendered => (HandOutcome::Surrender, -(bet - bet / 2)),
        HandStatus::Bust => (HandOutcome::Bust, -bet),
        HandStatus::Blackjack => if spec_is_blackjack(dealer) {
            (HandOutcome::Push, 0)
        } else {
            (HandOutcome::Blackjack, spec_winnings(r.blackjack_payout, bet))
        },
        HandStatus::Playing => (HandOutcome::Lose, -bet),
        HandStatus::Stood => {
            let total = hand_total(h.cards) as int;
            let dealer_total = hand_total(dealer) as int;
            if dealer_total > 21 || total > dealer_total {
                (HandOutcome::Win, bet)
            } else if total == dealer_total {
                (HandOutcome::Push, 0)
            } else {
                (HandOutcome::Lose, -bet)
            }
        },
    }
}

/// Late surrender is the first decision on the initial two cards: it is
/// accepted only from the seat whose turn it is, on that seat's single,
/// unsplit hand holding exactly two cards, at a table that offers it; and
/// at a table in play it is listed among the legal actions exactly then.
/// A hand that has taken a card can never be surrendered.
pub proof fn lemma_surrender_only_on_first_two_cards(m: TableModel, seat: usize)
    ensures
        spec_apply_error(m, seat, Action::Surrender) is None ==> {
            &&& m.phase == Phase::PlayerTurn
            &&& seat == active_seat(m)
            &&& m.rules.late_surrender
            &&& m.seats[seat as int].hands.len() == 1
            &&& m.seats[seat as int].hands[active_hand(m) as int].cards.len() == 2
            &&& !m.seats[seat as int].hands[active_hand(m) as int].from_split
        },
        wf(m) && spec_legal(m).contains(ActionKind::Surrender) ==> {
            &&& m.phase == Phase::PlayerTurn
            &&& m.rules.late_surrender
            &&& m.seats[active_seat(m) as int].hands.len() == 1
            &&& m.seats[active_seat(m) as int].hands[active_hand(m) as int].cards.len() == 2
        },
{
    if wf(m) {
        lemma_legal_actions_exact(m, ActionKind::Surrender);
        if m.phase == Phase::PlayerTurn {
            assert(acting_seat(m) == active_seat(m));
        }
    }
}

/// A natural never loses money: against a dealer natural it pushes for
/// nothing, and otherwise it wins at least even money (exactly three for
/// two at a 3:2 table).
pub proof fn lemma_natural_never_loses(h: HandModel, dealer: Seq<Card>, r: Rules)
    requires
        h.status == HandStatus::Blackjack,
    ensures
        settle_hand(h, dealer, r).1 >= 0,
        spec_is_blackjack(dealer) ==> settle_hand(h, dealer, r).0 == HandOutcome::Push && settle_hand(
            h,
            dealer,
            r,
        ).1 == 0,
        !spec_is_blackjack(dealer) ==> settle_hand(h, dealer, r).0 == HandOutcome::Blackjack && settle_hand(
            h,
            dealer,
            r,
        ).1 >= h.bet,
        !spec_is_blackjack(dealer) && r.blackjack_payout == BlackjackPayout::ThreeToTwo ==> settle_hand(
            h,
            dealer,
            r,
        ).1 == 3 * (h.bet as int) / 2,
{
}

/// What every other hand settles for: a bust loses its bet; a surrender
/// gives back half the bet (rounded down) and loses the rest; a hand left
/// playing when the dealer's natural ends the round loses its bet; a hand
/// that stood wins even money when the dealer busts or it beats the
/// dealer's total, pushes on a tie, and loses its bet otherwise.
pub proof fn lemma_settlement_pays(h: HandModel, dealer: Seq<Card>, r: Rules)
    ensures
        h.status == HandStatus::Bust ==> settle_hand(h, dealer, r).1 == -(h.bet as int),
        h.status == HandStatus::Surrendered ==> settle_hand(h, dealer, r).1 == h.bet as int / 2 - h.bet as int,
        h.status == HandStatus::Playing ==> settle_hand(h, dealer, r).1 == -(h.bet as int),
        h.status == HandStatus::Stood && (hand_total(dealer) > 21 || hand_total(h.cards) > hand_total(dealer))
            ==> settle_hand(h, dealer, r).1 == h.bet as int,
        h.status == HandStatus::Stood && hand_total(dealer) <= 21 && hand_total(h.cards) == hand_total(dealer)
            ==> settle_hand(h, dealer, r).1 == 0,
        h.status == HandStatus::Stood && hand_total(dealer) <= 21 && hand_total(h.cards) < hand_total(dealer)
            ==> settle_hand(h, dealer, r).1 == -(h.bet as int),
{
}

/// The net of the first hands of a seat.
pub open spec fn hands_net(hands: Seq<HandModel>, dealer: Seq<Card>, r: Rules) -> int
    decreases hands.len(),
{
    if hands.len() == 0 {
        0
    } else {
        hands_net(hands.drop_last(), dealer, r) + settle_hand(hands.last(), dealer, r).1
    }
}

/// A settled seat: every hand carries its outcome and payout, and the
/// round net is the insurance result plus every hand's net.
pub open spec fn seat_settled(s: SeatModel, dealer: Seq<Card>, r: Rules) -> bool {
    s.bet is Some ==> {
        &&& forall|i: int|
            0 <= i < s.hands.len() ==> (#[trigger] s.hands[i]).outcome == Some(
                settle_hand(s.hands[i], dealer, r).0,
            ) && s.hands[i].payout == Some(settle_hand(s.hands[i], dealer, r).1 as i32)
        &&& s.insurance_net == insurance_result(s.insurance, spec_is_blackjack(dealer))
        &&& s.round_net == Some((s.insurance_net + hands_net(s.hands, dealer, r)) as i32)
    }
}

/// Whether the dealer must draw to `cards`: below 17, or on a soft 17
/// when the rules have the dealer hit it.
pub open spec fn dealer_must_hit(cards: Seq<Card>, r: Rules) -> bool {
    hand_total(cards) < 17 || (hand_total(cards) == 17 && hand_soft(cards) && r.soft_17
        == Soft17::Hit)
}

/// A hand the dealer must hit counts at most 16 with aces as one.
pub proof fn lemma_must_hit_hard(cards: Seq<Card>, r: Rules)
    requires
        dealer_must_hit(cards, r),
    ensures
        hard_total(cards) <= 16,
{
}

/// The dealer drew only when the rules said to: every hand the dealer
/// held after the first two cards and before the last was a must-hit
/// hand.
pub open spec fn dealer_drew_by_the_rules(dealer: Seq<Card>, r: Rules) -> bool {
    &&& dealer.len() >= 2
    &&& forall|k: int| 2 <= k < dealer.len() ==> #[trigger] dealer_must_hit(dealer.subrange(0, k), r)
}

/// Some player hand stood (and so awaited the dealer's hand).
pub open spec fn any_stood(seats: Seq<SeatModel>) -> bool {
    exists|i: int, k: int|
        0 <= i < seats.len() && 0 <= k < seats[i].hands.len() && (#[trigger] seats[i].hands[k]).status
            == HandStatus::Stood
}

/// The full invariant of a resting table: its bounds and phase, and
/// every card of the decks opened accounted for.
pub open spec fn wf(m: TableModel) -> bool {
    &&& wf_core(m)
    &&& cards_kept(m)
}

/// The invariant of a resting table, phase by phase.
pub open spec fn wf_core(m: TableModel) -> bool {
    &&& base(m)
    &&& match m.phase {
        Phase::Betting => {
            &&& m.dealer.len() == 0
            &&& m.active is None
            &&& !m.hole_revealed
            &&& forall|i: int|
                0 <= i < m.seats.len() ==> (#[trigger] m.seats[i]).hands.len() == 0
                    && m.seats[i].insurance == Insurance::NotOffered && m.seats[i].insurance_net
                    == 0 && m.seats[i].round_net is None
        },
        Phase::InsuranceOffer => {
            &&& m.dealer.len() == 2
            &&& !m.hole_revealed
            &&& m.active matches Some((s, h)) && h == 0 && s < m.seats.len() && m.seats[s as int].bet
                is Some && m.seats[s as int].insurance == Insurance::Pending
            &&& forall|i: int| 0 <= i < m.seats.len() ==> (#[trigger] m.seats[i]).insurance_net == 0
            &&& hands_live(m)
        },
        Phase::PlayerTurn => {
            &&& hands_live(m)
            &&& m.dealer.len() == 2
            &&& !m.hole_revealed
            &&& !spec_is_blackjack(m.dealer)
            &&& m.active matches Some((s, h)) && s < m.seats.len() && m.seats[s as int].bet is Some
                && h < m.seats[s as int].hands.len() && m.seats[s as int].hands[h as int].status
                == HandStatus::Playing && m.seats[s as int].hands[h as int].cards.len() >= 2
            &&& forall|i: int|
                0 <= i < m.seats.len() ==> (#[trigger] m.seats[i]).insurance_net
                    == insurance_result(m.seats[i].insurance, false)
        },
        Phase::RoundOver => {
            &&& m.active is None
            &&& forall|i: int|
                0 <= i < m.seats.len() ==> #[trigger] seat_settled(m.seats[i], m.dealer, m.rules)
            &&& dealer_drew_by_the_rules(m.dealer, m.rules)
            &&& any_stood(m.seats) ==> !dealer_must_hit(m.dealer, m.rules)
        },
    }
}

/// Whether `(seat, hand)` may double: a two-card hand, after a split only
/// if the rules allow it, on any two cards or else a hard 9, 10, or 11.
pub open spec fn spec_can_double(m: TableModel, seat: int, hand: int) -> bool {
    let h = m.seats[seat].hands[hand];
    &&& h.cards.len() == 2
    &&& !(h.from_split && !m.rules.double_after_split)
    &&& (m.rules.double_on_any_two || (!hand_soft(h.cards) && 9 <= hand_total(h.cards) <= 11))
}

/// Whether `(seat, hand)` may split: below the split-hand cap, and a pair
/// by blackjack value (any two ten-value cards split).
pub open spec fn spec_can_split(m: TableModel, seat: int, hand: int) -> bool {
    m.seats[seat].hands.len() < m.rules.max_split_hands && spec_is_value_pair(
        m.seats[seat].hands[hand].cards,
    )
}

/// Whether `(seat, hand)` may surrender: late surrender offered, and the
/// seat's single, unsplit, two-card hand.
pub open spec fn spec_can_surrender(m: TableModel, seat: int, hand: int) -> bool {
    &&& m.rules.late_surrender
    &&& m.seats[seat].hands.len() == 1
    &&& m.seats[seat].hands[hand].cards.len() == 2
    &&& !m.seats[seat].hands[hand].from_split
}

/// Whether any seat has a bet down.
pub open spec fn any_bet(m: TableModel) -> bool {
    exists|i: int| 0 <= i < m.seats.len() && (#[trigger] m.seats[i]).bet is Some
}

/// The seat the table waits on (0 when none).
pub open spec fn active_seat(m: TableModel) -> usize {
    match m.active {
        Some((s, _)) => s,
        None => 0,
    }
}

/// The hand the table waits on (0 when none).
pub open spec fn active_hand(m: TableModel) -> usize {
    match m.active {
        Some((_, h)) => h,
        None => 0,
    }
}

/// Exactly the action kinds the table accepts next.
pub open spec fn spec_legal(m: TableModel) -> Seq<ActionKind> {
    match m.phase {
        Phase::Betting => if any_bet(m) {
            seq![ActionKind::PlaceBet, ActionKind::Deal]
        } else {
            seq![ActionKind::PlaceBet]
        },
        Phase::InsuranceOffer => seq![ActionKind::TakeInsurance, ActionKind::DeclineInsurance],
        Phase::PlayerTurn => {
            let s = active_seat(m) as int;
            let h = active_hand(m) as int;
            seq![ActionKind::Hit, ActionKind::Stand] + (if spec_can_double(m, s, h) {
                seq![ActionKind::Double]
            } else {
                Seq::empty()
            }) + (if spec_can_split(m, s, h) {
                seq![ActionKind::Split]
            } else {
                Seq::empty()
            }) + (if spec_can_surrender(m, s, h) {
                seq![ActionKind::Surrender]
            } else {
                Seq::empty()
            })
        },
        Phase::RoundOver => seq![ActionKind::NextRound],
    }
}

/// Why `action` from `seat` would be rejected, checked in order: the seat
/// must exist, the phase must fit the action, play and insurance must come
/// from the active seat, bets must be within the limits, dealing needs a
/// bet, and doubles, splits, and surrenders must be allowed on the hand.
pub open spec fn spec_apply_error(m: TableModel, seat: usize, action: Action) -> Option<ActionError> {
    let wrong = Some(ActionError::WrongPhase { action: spec_kind(action), phase: m.phase });
    let active_seat = active_seat(m);
    let active_hand = active_hand(m);
    let out_of_turn = Some(ActionError::OutOfTurn { seat, active_seat });
    if seat >= m.rules.seats {
        Some(ActionError::SeatOutOfRange { seat, seats: m.rules.seats })
    } else {
        match action {
            Action::PlaceBet(amount) => if m.phase != Phase::Betting {
                wrong
            } else if amount < m.rules.min_bet || amount > m.rules.max_bet {
                Some(
                    ActionError::BetOutOfRange {
                        bet: amount,
                        min: m.rules.min_bet,
                        max: m.rules.max_bet,
                    },
                )
            } else {
                None
            },
            Action::Deal => if m.phase != Phase::Betting {
                wrong
            } else if !any_bet(m) {
                Some(ActionError::NoBetsPlaced)
            } else {
                None
            },
            Action::TakeInsurance | Action::DeclineInsurance => if m.phase
                != Phase::InsuranceOffer {
                wrong
            } else if seat != active_seat {
                out_of_turn
            } else {
                None
            },
            Action::NextRound => if m.phase != Phase::RoundOver {
                wrong
            } else {
                None
            },
            _ => if m.phase != Phase::PlayerTurn {
                wrong
            } else if seat != active_seat {
                out_of_turn
            } else {
                match action {
                    Action::Double => if !spec_can_double(
                        m,
                        active_seat as int,
                        active_hand as int,
                    ) {
                        Some(ActionError::DoubleNotAllowed)
                    } else {
                        None
                    },
                    Action::Split => if !spec_can_split(m, active_seat as int, active_hand as int) {
                        Some(ActionError::SplitNotAllowed)
                    } else {
                        None
                    },
                    Action::Surrender => if !spec_can_surrender(
                        m,
                        active_seat as int,
                        active_hand as int,
                    ) {
                        Some(ActionError::SurrenderNotAllowed)
                    } else {
                        None
                    },
                    _ => None,
                }
            },
        }
    }
}

// ----------------------------------------------------------------------
// The executable state.
// ----------------------------------------------------------------------

/// One player hand and its bet.
#[derive(Debug)]
struct HandState {
    cards: Vec<Card>,
    bet: u32,
    doubled: bool,
    from_split: bool,
    status: HandStatus,
    outcome: Option<HandOutcome>,
    payout: Option<i32>,
}

impl View for HandState {
    type V = HandModel;

    closed spec fn view(&self) -> HandModel {
        HandModel {
            cards: self.cards@,
            bet: self.bet,
            doubled: self.doubled,
            from_split: self.from_split,
            status: self.status,
            outcome: self.outcome,
            payout: self.payout,
        }
    }
}

impl HandState {
    fn new(bet: u32) -> (h: HandState)
        ensures
            h@ == fresh_hand(bet),
    {
        HandState {
            cards: Vec::new(),
            bet,
            doubled: false,
            from_split: false,
            status: HandStatus::Playing,
            outcome: None,
            payout: None,
        }
    }

    fn value(&self) -> (v: HandValue)
        ensures
            v.spec_total() == hand_total(self.cards@),
            v.spec_soft() == hand_soft(self.cards@),
    {
        HandValue::of(self.cards.as_slice())
    }
}

/// One seat's state for the current round.
#[derive(Debug)]
struct SeatState {
    bet: Option<u32>,
    insurance: Insurance,
    insurance_net: i32,
    hands: Vec<HandState>,
    round_net: Option<i32>,
}

/// The models of a vector of hands.
spec fn hand_models(hands: Seq<HandState>) -> Seq<HandModel> {
    hands.map_values(|h: HandState| h@)
}

impl View for SeatState {
    type V = SeatModel;

    closed spec fn view(&self) -> SeatModel {
        SeatModel {
            bet: self.bet,
            insurance: self.insurance,
            insurance_net: self.insurance_net,
            hands: hand_models(self.hands@),
            round_net: self.round_net,
        }
    }
}

impl SeatState {
    fn new() -> (s: SeatState)
        ensures
            s@ == empty_seat(),
    {
        let s = SeatState {
            bet: None,
            insurance: Insurance::NotOffered,
            insurance_net: 0,
            hands: Vec::new(),
            round_net: None,
        };
        proof {
            assert(s@.hands =~= Seq::<HandModel>::empty());
        }
        s
    }

    fn clear(&mut self)
        ensures
            final(self)@ == empty_seat(),
    {
        *self = SeatState::new();
    }
}

/// The models of a vector of seats.
spec fn seat_models(seats: Seq<SeatState>) -> Seq<SeatModel> {
    seats.map_values(|s: SeatState| s@)
}

/// A multi-seat blackjack table: one shoe, one rule set, rounds forever.
///
/// The shoe's shuffles come from a seeded generator so tests and replays
/// can pin them; see [`Table::from_seed`]. Who controls each seat is
/// outside the engine's concern — a seat is active or it is not, and
/// [`Table::apply`] accepts actions for whichever seat the phase says may
/// act.
pub struct Table {
    rules: Rules,
    shoe: Shoe,
    seats: Vec<SeatState>,
    dealer: Vec<Card>,
    hole_revealed: bool,
    phase: Phase,
    active: Option<(usize, usize)>,
    opened: Ghost<nat>,
}

impl View for Table {
    type V = TableModel;

    closed spec fn view(&self) -> TableModel {
        TableModel {
            rules: self.rules,
            shoe: self.shoe@,
            seats: seat_models(self.seats@),
            dealer: self.dealer@,
            hole_revealed: self.hole_revealed,
            phase: self.phase,
            active: self.active,
            opened: self.opened@,
        }
    }
}


/// The table with seat `s` replaced.
pub open spec fn upd_seat(m: TableModel, s: int, seat: SeatModel) -> TableModel {
    TableModel { seats: m.seats.update(s, seat), ..m }
}

/// The table with hand `h` of seat `s` replaced.
pub open spec fn upd_hand(m: TableModel, s: int, h: int, hand: HandModel) -> TableModel {
    upd_seat(m, s, SeatModel { hands: m.seats[s].hands.update(h, hand), ..m.seats[s] })
}

/// The visible snapshot of one hand.
pub open spec fn hand_snapshot_of(h: HandModel, snap: HandSnapshot) -> bool {
    &&& snap.cards@ == h.cards
    &&& snap.bet == h.bet
    &&& snap.doubled == h.doubled
    &&& snap.from_split == h.from_split
    &&& snap.status == h.status
    &&& snap.total == hand_total(h.cards)
    &&& snap.soft == hand_soft(h.cards)
    &&& snap.outcome == h.outcome
    &&& snap.payout == h.payout
}

/// The visible snapshot of one seat.
pub open spec fn seat_snapshot_of(s: SeatModel, snap: SeatSnapshot) -> bool {
    &&& snap.bet == s.bet
    &&& snap.insurance == s.insurance
    &&& snap.round_net == s.round_net
    &&& snap.hands@.len() == s.hands.len()
    &&& forall|i: int|
        0 <= i < s.hands.len() ==> #[trigger] hand_snapshot_of(s.hands[i], snap.hands@[i])
}

/// The snapshot shows exactly what a player at the table can see: every
/// seat, the dealer's upcard, the hole card only once revealed (and the
/// dealer total only then), shoe depth, the active hand, and the legal
/// actions.
pub open spec fn snapshot_of(m: TableModel, snap: Snapshot) -> bool {
    &&& snap.rules == m.rules
    &&& snap.phase == m.phase
    &&& snap.seats@.len() == m.seats.len()
    &&& forall|i: int|
        0 <= i < m.seats.len() ==> #[trigger] seat_snapshot_of(m.seats[i], snap.seats@[i])
    &&& snap.dealer.upcard == (if m.dealer.len() > 0 {
        Some(m.dealer[0])
    } else {
        None
    })
    &&& snap.dealer.hole_card == (if m.hole_revealed && m.dealer.len() > 1 {
        Some(m.dealer[1])
    } else {
        None
    })
    &&& snap.dealer.hole_card_dealt == (m.dealer.len() >= 2)
    &&& snap.dealer.draws@ == (if m.dealer.len() > 2 {
        m.dealer.subrange(2, m.dealer.len() as int)
    } else {
        Seq::empty()
    })
    &&& snap.dealer.total == (if m.hole_revealed {
        Some(hand_total(m.dealer))
    } else {
        None
    })
    &&& snap.active == (match m.active {
        Some((s, h)) => Some(ActiveHand { seat: s, hand: h }),
        None => None,
    })
    &&& snap.shoe.cards_dealt == m.shoe.dealt()
    &&& snap.shoe.cards_remaining == m.shoe.cards.len()
    &&& snap.shoe.discard_pile_size == m.shoe.discards.len()
    &&& snap.shoe.cut_card_reached == m.shoe.cut_reached()
    &&& snap.legal_actions@ == spec_legal(m)
}

fn copy_cards(cards: &Vec<Card>) -> (v: Vec<Card>)
    ensures
        v@ == cards@,
{
    let mut v: Vec<Card> = Vec::new();
    let mut i: usize = 0;
    while i < cards.len()
        invariant
            i <= cards@.len(),
            v@ == cards@.subrange(0, i as int),
        decreases cards.len() - i,
    {
        v.push(cards[i]);
        i = i + 1;
        proof {
            assert(v@ =~= cards@.subrange(0, i as int));
        }
    }
    proof {
        assert(v@ =~= cards@);
    }
    v
}

fn hand_snapshot(hand: &HandState) -> (snap: HandSnapshot)
    ensures
        hand_snapshot_of(hand@, snap),
{
    let value = hand.value();
    HandSnapshot {
        cards: copy_cards(&hand.cards),
        bet: hand.bet,
        doubled: hand.doubled,
        from_split: hand.from_split,
        status: hand.status,
        total: value.total(),
        soft: value.is_soft(),
        outcome: hand.outcome,
        payout: hand.payout,
    }
}

fn seat_snapshot(seat: &SeatState) -> (snap: SeatSnapshot)
    ensures
        seat_snapshot_of(seat@, snap),
{
    let mut hands: Vec<HandSnapshot> = Vec::new();
    let mut i: usize = 0;
    while i < seat.hands.len()
        invariant
            i <= seat.hands@.len(),
            hands@.len() == i,
            forall|j: int|
                0 <= j < i ==> #[trigger] hand_snapshot_of(seat@.hands[j], hands@[j]),
        decreases seat.hands.len() - i,
    {
        let snap = hand_snapshot(&seat.hands[i]);
        hands.push(snap);
        i = i + 1;
    }
    SeatSnapshot { bet: seat.bet, insurance: seat.insurance, hands, round_net: seat.round_net }
}

impl Table {
    /// Open a table: build and shuffle the shoe from `rules`, burn one
    /// card, and open betting.
    pub fn new(rules: Rules, rng: ChaCha8Rng) -> (t: Table)
        requires
            rules_ok(rules),
        ensures
            wf(t@),
            t@.rules == rules,
            t@.phase == Phase::Betting,
            forall|i: int| 0 <= i < t@.seats.len() ==> t@.seats[i] == empty_seat(),
            t@.shoe.discards.len() == 1,
            t@.shoe.cards.len() + 1 == rules.decks * 52,
            t@.opened == 0,
    {
        let mut shoe = Shoe::new(rules.decks, rules.penetration, rng);
        let ghost fresh = shoe@.cards;
        let _ = shoe.burn();
        proof {
            assert(shoe@.cards + shoe@.discards =~= fresh);
        }
        let mut seats: Vec<SeatState> = Vec::new();
        let mut i: usize = 0;
        while i < rules.seats
            invariant
                i <= rules.seats,
                seats@.len() == i,
                forall|j: int| 0 <= j < i ==> (#[trigger] seats@[j])@ == empty_seat(),
            decreases rules.seats - i,
        {
            seats.push(SeatState::new());
            i = i + 1;
        }
        let t = Table {
            rules,
            shoe,
            seats,
            dealer: Vec::new(),
            hole_revealed: false,
            phase: Phase::Betting,
            active: None,
            opened: Ghost(0),
        };
        proof {
            assert forall|j: int| 0 <= j < t@.seats.len() implies t@.seats[j] == empty_seat() by {
                assert(t@.seats[j] == seats@[j]@);
            }
            assert forall|j: int| 0 <= j < t@.seats.len() implies (#[trigger] t@.seats[j]).hands.len() == 0 by {
                assert(t@.seats[j] == empty_seat());
            }
            lemma_seats_cards_empty(t@.seats);
            assert(felt_cards(t@) =~= Seq::<Card>::empty());
            assert(t@.shoe.cards + t@.shoe.discards + felt_cards(t@) =~= fresh);
            let d = t@.rules.decks;
            let o = t@.opened;
            assert(d * (1 + o) == d) by (nonlinear_arith)
                requires o == 0;
        }
        t
    }

    /// Open a table whose shoe is seeded from `seed`, for deterministic
    /// tests and replays. The same rules and seed always produce the same
    /// cards.
    pub fn from_seed(rules: Rules, seed: u64) -> (t: Table)
        requires
            rules_ok(rules),
        ensures
            wf(t@),
            t@.rules == rules,
            t@.phase == Phase::Betting,
            forall|i: int| 0 <= i < t@.seats.len() ==> t@.seats[i] == empty_seat(),
            t@.shoe.discards.len() == 1,
            t@.shoe.cards.len() + 1 == rules.decks * 52,
            t@.opened == 0,
    {
        Table::new(rules, seeded(seed))
    }

    /// The frozen rules this table plays by.
    pub fn rules(&self) -> (r: &Rules)
        ensures
            *r == self@.rules,
    {
        &self.rules
    }

    /// The current resting phase.
    pub fn phase(&self) -> (p: Phase)
        ensures
            p == self@.phase,
    {
        self.phase
    }

    fn can_double(&self, seat: usize, hand: usize) -> (b: bool)
        requires
            seat < self@.seats.len(),
            hand < self@.seats[seat as int].hands.len(),
        ensures
            b == spec_can_double(self@, seat as int, hand as int),
    {
        assert(self.seats@[seat as int]@ == self@.seats[seat as int]);
        assert(self.seats@[seat as int].hands@[hand as int]@ == self@.seats[seat as int].hands[hand as int]);
        let state = &self.seats[seat].hands[hand];
        if state.cards.len() != 2 {
            return false;
        }
        if state.from_split && !self.rules.double_after_split {
            return false;
        }
        if self.rules.double_on_any_two {
            return true;
        }
        let value = state.value();
        !value.is_soft() && 9 <= value.total() && value.total() <= 11
    }

    fn can_split(&self, seat: usize, hand: usize) -> (b: bool)
        requires
            seat < self@.seats.len(),
            hand < self@.seats[seat as int].hands.len(),
        ensures
            b == spec_can_split(self@, seat as int, hand as int),
    {
        assert(self.seats@[seat as int]@ == self@.seats[seat as int]);
        assert(self.seats@[seat as int].hands@[hand as int]@ == self@.seats[seat as int].hands[hand as int]);
        // Splitting is by blackjack value: any two ten-value cards are a
        // splittable pair, as at most multi-deck shoes.
        self.seats[seat].hands.len() < self.rules.max_split_hands && is_value_pair(
            self.seats[seat].hands[hand].cards.as_slice(),
        )
    }

    fn can_surrender(&self, seat: usize, hand: usize) -> (b: bool)
        requires
            seat < self@.seats.len(),
            hand < self@.seats[seat as int].hands.len(),
        ensures
            b == spec_can_surrender(self@, seat as int, hand as int),
    {
        assert(self.seats@[seat as int]@ == self@.seats[seat as int]);
        assert(self.seats@[seat as int].hands@[hand as int]@ == self@.seats[seat as int].hands[hand as int]);
        self.rules.late_surrender && self.seats[seat].hands.len() == 1
            && self.seats[seat].hands[hand].cards.len() == 2
            && !self.seats[seat].hands[hand].from_split
    }

    fn any_bet(&self) -> (b: bool)
        ensures
            b == any_bet(self@),
    {
        let mut i: usize = 0;
        while i < self.seats.len()
            invariant
                i <= self.seats@.len(),
                forall|j: int| 0 <= j < i ==> (#[trigger] self@.seats[j]).bet is None,
            decreases self.seats.len() - i,
        {
            assert(self.seats@[i as int]@ == self@.seats[i as int]);
            if self.seats[i].bet.is_some() {
                return true;
            }
            i = i + 1;
        }
        false
    }

    /// Exactly the action kinds [`Table::apply`] will accept next. Never
    /// empty: even a finished round accepts `NextRound`.
    pub fn legal_actions(&self) -> (v: Vec<ActionKind>)
        requires
            wf(self@),
        ensures
            v@ == spec_legal(self@),
            v@.len() >= 1,
            forall|k: ActionKind|
                #[trigger] v@.contains(k) <==> spec_apply_error(self@, acting_seat(self@), concrete_action(self@, k))
                    is None,
    {
        let v = self.legal_list();
        proof {
            assert forall|k: ActionKind|
                #[trigger] v@.contains(k) <==> spec_apply_error(self@, acting_seat(self@), concrete_action(self@, k))
                    is None by {
                lemma_legal_actions_exact(self@, k);
            }
        }
        v
    }

    fn legal_list(&self) -> (v: Vec<ActionKind>)
        requires
            wf(self@),
        ensures
            v@ == spec_legal(self@),
            v@.len() >= 1,
    {
        match self.phase {
            Phase::Betting => {
                let mut legal = vec![ActionKind::PlaceBet];
                if self.any_bet() {
                    legal.push(ActionKind::Deal);
                }
                proof {
                    assert(legal@ =~= spec_legal(self@));
                }
                legal
            },
            Phase::InsuranceOffer => {
                let legal = vec![ActionKind::TakeInsurance, ActionKind::DeclineInsurance];
                proof {
                    assert(legal@ =~= spec_legal(self@));
                }
                legal
            },
            Phase::PlayerTurn => {
                let (seat, hand) = match self.active {
                    Some(a) => a,
                    None => (0, 0),
                };
                let mut legal = vec![ActionKind::Hit, ActionKind::Stand];
                let ghost base = legal@;
                let d = self.can_double(seat, hand);
                if d {
                    legal.push(ActionKind::Double);
                }
                let ghost after_double = legal@;
                let sp = self.can_split(seat, hand);
                if sp {
                    legal.push(ActionKind::Split);
                }
                let ghost after_split = legal@;
                let su = self.can_surrender(seat, hand);
                if su {
                    legal.push(ActionKind::Surrender);
                }
                proof {
                    let dd = if d { seq![ActionKind::Double] } else { Seq::<ActionKind>::empty() };
                    let ss = if sp { seq![ActionKind::Split] } else { Seq::<ActionKind>::empty() };
                    let uu = if su { seq![ActionKind::Surrender] } else { Seq::<ActionKind>::empty() };
                    assert(after_double =~= base + dd);
                    assert(after_split =~= base + dd + ss);
                    assert(legal@ =~= base + dd + ss + uu);
                }
                legal
            },
            Phase::RoundOver => {
                let legal = vec![ActionKind::NextRound];
                proof {
                    assert(legal@ =~= spec_legal(self@));
                }
                legal
            },
        }
    }

    /// The complete visible state of the table right now.
    pub fn snapshot(&self) -> (snap: Snapshot)
        requires
            wf(self@),
        ensures
            snapshot_of(self@, snap),
    {
        let mut seats: Vec<SeatSnapshot> = Vec::new();
        let mut i: usize = 0;
        while i < self.seats.len()
            invariant
                i <= self.seats@.len(),
                seats@.len() == i,
                forall|j: int|
                    0 <= j < i ==> #[trigger] seat_snapshot_of(self@.seats[j], seats@[j]),
            decreases self.seats.len() - i,
        {
            assert(self.seats@[i as int]@ == self@.seats[i as int]);
            let snap = seat_snapshot(&self.seats[i]);
            seats.push(snap);
            i = i + 1;
        }
        let upcard = if self.dealer.len() > 0 { Some(self.dealer[0]) } else { None };
        let hole_card = if self.hole_revealed && self.dealer.len() > 1 {
            Some(self.dealer[1])
        } else {
            None
        };
        let mut draws: Vec<Card> = Vec::new();
        let mut k: usize = 2;
        while k < self.dealer.len()
            invariant
                2 <= k,
                k <= self.dealer@.len() || self.dealer@.len() < 2,
                draws@ == if self.dealer@.len() > 2 { self.dealer@.subrange(2, k as int) } else { Seq::empty() },
            decreases self.dealer.len() - k,
        {
            draws.push(self.dealer[k]);
            k = k + 1;
            proof {
                assert(draws@ =~= self.dealer@.subrange(2, k as int));
            }
        }
        proof {
            if self.dealer@.len() > 2 {
                assert(k == self.dealer@.len());
            }
        }
        let total = if self.hole_revealed {
            Some(HandValue::of(self.dealer.as_slice()).total())
        } else {
            None
        };
        let active = match self.active {
            Some((seat, hand)) => Some(ActiveHand { seat, hand }),
            None => None,
        };
        Snapshot {
            rules: self.rules,
            phase: self.phase,
            seats,
            dealer: DealerSnapshot {
                upcard,
                hole_card,
                hole_card_dealt: self.dealer.len() >= 2,
                draws,
                total,
            },
            active,
            shoe: ShoeStatus {
                cards_dealt: self.shoe.cards_dealt(),
                cards_remaining: self.shoe.cards_remaining(),
                discard_pile_size: self.shoe.discard_pile_size(),
                cut_card_reached: self.shoe.cut_card_reached(),
            },
            legal_actions: self.legal_actions(),
        }
    }
}

/// Replacing a hand twice keeps only the second replacement.
pub proof fn lemma_upd_hand_twice(m: TableModel, s: int, h: int, x: HandModel, y: HandModel)
    requires
        0 <= s < m.seats.len(),
        0 <= h < m.seats[s].hands.len(),
    ensures
        upd_hand(upd_hand(m, s, h, x), s, h, y) == upd_hand(m, s, h, y),
{
    let a = upd_hand(upd_hand(m, s, h, x), s, h, y);
    let b = upd_hand(m, s, h, y);
    assert(a.seats[s].hands =~= b.seats[s].hands);
    assert(a.seats =~= b.seats);
}

/// Replacing a hand by itself changes nothing.
pub proof fn lemma_upd_hand_same(m: TableModel, s: int, h: int)
    requires
        0 <= s < m.seats.len(),
        0 <= h < m.seats[s].hands.len(),
    ensures
        upd_hand(m, s, h, m.seats[s].hands[h]) == m,
{
    let a = upd_hand(m, s, h, m.seats[s].hands[h]);
    assert(a.seats[s].hands =~= m.seats[s].hands);
    assert(a.seats =~= m.seats);
}

/// How a hand may change while a round plays on: its bet and flags stay,
/// cards are only added (and a hand of two or more cards gets no more
/// without a decision), and a finished hand stays finished.
pub open spec fn hand_progressed(a: HandModel, b: HandModel) -> bool {
    &&& b.bet == a.bet
    &&& b.doubled == a.doubled
    &&& b.from_split == a.from_split
    &&& a.cards.len() <= b.cards.len()
    &&& b.cards.subrange(0, a.cards.len() as int) == a.cards
    &&& a.cards.len() >= 2 ==> b.cards == a.cards
    &&& a.status != HandStatus::Playing ==> b.status == a.status
}

/// How a seat may change while a round plays on: bet, insurance, and the
/// number of hands stay; each hand progresses.
pub open spec fn seat_progressed(a: SeatModel, b: SeatModel) -> bool {
    &&& b.bet == a.bet
    &&& b.insurance == a.insurance
    &&& b.hands.len() == a.hands.len()
    &&& forall|k: int| 0 <= k < a.hands.len() ==> #[trigger] hand_progressed(a.hands[k], b.hands[k])
}

/// How the table may change while a round plays on without a decision:
/// same rules and seats, every seat progresses, and the dealer only draws.
pub open spec fn progressed(a: TableModel, b: TableModel) -> bool {
    &&& b.rules == a.rules
    &&& b.seats.len() == a.seats.len()
    &&& forall|i: int| 0 <= i < a.seats.len() ==> #[trigger] seat_progressed(a.seats[i], b.seats[i])
    &&& a.dealer.len() <= b.dealer.len()
    &&& b.dealer.subrange(0, a.dealer.len() as int) == a.dealer
}

/// A hand whose cards, bet, flags, and status are unchanged progressed.
pub proof fn lemma_hand_progressed_same(a: HandModel, b: HandModel)
    requires
        b.cards == a.cards,
        b.bet == a.bet,
        b.doubled == a.doubled,
        b.from_split == a.from_split,
        b.status == a.status,
    ensures
        hand_progressed(a, b),
{
    assert(b.cards.subrange(0, a.cards.len() as int) =~= a.cards);
}

/// Progress composes.
pub proof fn lemma_hand_progressed_trans(a: HandModel, b: HandModel, c: HandModel)
    requires
        hand_progressed(a, b),
        hand_progressed(b, c),
    ensures
        hand_progressed(a, c),
{
    assert(c.cards.subrange(0, a.cards.len() as int) =~= b.cards.subrange(0, a.cards.len() as int));
}

/// Progress composes.
pub proof fn lemma_progressed_trans(a: TableModel, b: TableModel, c: TableModel)
    requires
        progressed(a, b),
        progressed(b, c),
    ensures
        progressed(a, c),
{
    assert forall|i: int| 0 <= i < a.seats.len() implies #[trigger] seat_progressed(a.seats[i], c.seats[i]) by {
        assert(seat_progressed(a.seats[i], b.seats[i]));
        assert(seat_progressed(b.seats[i], c.seats[i]));
        assert forall|k: int| 0 <= k < a.seats[i].hands.len() implies #[trigger] hand_progressed(a.seats[i].hands[k], c.seats[i].hands[k]) by {
            assert(hand_progressed(a.seats[i].hands[k], b.seats[i].hands[k]));
            assert(hand_progressed(b.seats[i].hands[k], c.seats[i].hands[k]));
            lemma_hand_progressed_trans(a.seats[i].hands[k], b.seats[i].hands[k], c.seats[i].hands[k]);
        }
    }
    assert(c.dealer.subrange(0, a.dealer.len() as int) =~= b.dealer.subrange(0, a.dealer.len() as int));
}

/// A table whose rules, seats, and dealer cards are unchanged progressed.
pub proof fn lemma_progressed_same(a: TableModel, b: TableModel)
    requires
        b.rules == a.rules,
        b.seats == a.seats,
        b.dealer == a.dealer,
    ensures
        progressed(a, b),
{
    assert forall|i: int| 0 <= i < a.seats.len() implies #[trigger] seat_progressed(a.seats[i], b.seats[i]) by {
        assert forall|k: int| 0 <= k < a.seats[i].hands.len() implies #[trigger] hand_progressed(a.seats[i].hands[k], b.seats[i].hands[k]) by {
            lemma_hand_progressed_same(a.seats[i].hands[k], b.seats[i].hands[k]);
        }
    }
    assert(b.dealer.subrange(0, a.dealer.len() as int) =~= a.dealer);
}

/// Only the shoe changed.
pub open spec fn same_but_shoe(a: TableModel, b: TableModel) -> bool {
    b == TableModel { shoe: b.shoe, opened: b.opened, ..a }
}

/// `b` extends `a`: events are only ever appended.
pub open spec fn extends(a: Seq<Event>, b: Seq<Event>) -> bool {
    a.len() <= b.len() && b.subrange(0, a.len() as int) == a
}

/// Appending keeps the record.
pub proof fn lemma_extends_trans(a: Seq<Event>, b: Seq<Event>, c: Seq<Event>)
    requires
        extends(a, b),
        extends(b, c),
    ensures
        extends(a, c),
{
    assert(c.subrange(0, a.len() as int) =~= b.subrange(0, a.len() as int));
}

/// Pushing extends.
pub proof fn lemma_extends_push(a: Seq<Event>, e: Event)
    ensures
        extends(a, a.push(e)),
{
    assert(a.push(e).subrange(0, a.len() as int) =~= a);
}

/// Every sequence extends itself.
pub proof fn lemma_extends_refl(a: Seq<Event>)
    ensures
        extends(a, a),
{
    assert(a.subrange(0, a.len() as int) =~= a);
}

impl Table {
    fn take_seat(&mut self, i: usize) -> (s: SeatState)
        requires
            i < old(self)@.seats.len(),
        ensures
            s@ == old(self)@.seats[i as int],
            final(self)@ == upd_seat(old(self)@, i as int, empty_seat()),
    {
        let mut s = SeatState::new();
        self.seats.set_and_swap(i, &mut s);
        proof {
            assert(self@.seats =~= old(self)@.seats.update(i as int, empty_seat()));
        }
        s
    }

    fn put_seat(&mut self, i: usize, s: SeatState)
        requires
            i < old(self)@.seats.len(),
        ensures
            final(self)@ == upd_seat(old(self)@, i as int, s@),
    {
        let ghost sv = s@;
        self.seats.set(i, s);
        proof {
            assert(self@.seats =~= old(self)@.seats.update(i as int, sv));
        }
    }

    fn take_hand(&mut self, seat: usize, hand: usize) -> (h: HandState)
        requires
            seat < old(self)@.seats.len(),
            hand < old(self)@.seats[seat as int].hands.len(),
        ensures
            h@ == old(self)@.seats[seat as int].hands[hand as int],
            final(self)@ == upd_hand(old(self)@, seat as int, hand as int, fresh_hand(0)),
    {
        let mut s = self.take_seat(seat);
        let mut h = HandState::new(0);
        s.hands.set_and_swap(hand, &mut h);
        proof {
            assert(s@.hands =~= old(self)@.seats[seat as int].hands.update(hand as int, fresh_hand(0)));
        }
        self.put_seat(seat, s);
        proof {
            assert(self@.seats =~= upd_hand(old(self)@, seat as int, hand as int, fresh_hand(0)).seats);
        }
        h
    }

    fn put_hand(&mut self, seat: usize, hand: usize, h: HandState)
        requires
            seat < old(self)@.seats.len(),
            hand < old(self)@.seats[seat as int].hands.len(),
        ensures
            final(self)@ == upd_hand(old(self)@, seat as int, hand as int, h@),
    {
        let ghost hv = h@;
        let mut s = self.take_seat(seat);
        s.hands.set(hand, h);
        proof {
            assert(s@.hands =~= old(self)@.seats[seat as int].hands.update(hand as int, hv));
        }
        self.put_seat(seat, s);
        proof {
            assert(self@.seats =~= upd_hand(old(self)@, seat as int, hand as int, hv).seats);
        }
    }

    fn set_hand_status(&mut self, seat: usize, hand: usize, status: HandStatus)
        requires
            seat < old(self)@.seats.len(),
            hand < old(self)@.seats[seat as int].hands.len(),
        ensures
            final(self)@ == upd_hand(
                old(self)@,
                seat as int,
                hand as int,
                HandModel { status, ..old(self)@.seats[seat as int].hands[hand as int] },
            ),
    {
        let mut h = self.take_hand(seat, hand);
        h.status = status;
        self.put_hand(seat, hand, h);
        proof {
            lemma_upd_hand_twice(
                old(self)@,
                seat as int,
                hand as int,
                fresh_hand(0),
                HandModel { status, ..old(self)@.seats[seat as int].hands[hand as int] },
            );
        }
    }

    /// Draw a card, shuffling the discard pile back in if the shoe runs
    /// dry mid-round (the cut card normally prevents this). At a table
    /// that holds its decks the felt never holds every card (see
    /// `lemma_never_dry`); only a table out of its bounds would have a
    /// fresh set of decks opened here.
    fn draw_card(&mut self, events: &mut Vec<Event>) -> (c: Card)
        requires
            base(old(self)@),
        ensures
            same_but_shoe(old(self)@, final(self)@),
            old(self)@.shoe.cards.len() > 0 ==> c == old(self)@.shoe.cards.last()
                && final(self)@.shoe.cards == old(self)@.shoe.cards.drop_last()
                && final(self)@.shoe.discards == old(self)@.shoe.discards
                && final(events)@ == old(events)@ && final(self)@.opened == old(self)@.opened,
            final(self)@.shoe.capacity == old(self)@.shoe.capacity,
            final(self)@.shoe.penetration == old(self)@.shoe.penetration,
            extends(old(events)@, final(events)@),
            drew_from_shoe(old(self)@, final(self)@, c),
            drew_only(old(self)@, final(self)@),
            old(self)@.shoe.cards.len() + old(self)@.shoe.discards.len() > 0 ==> final(self)@.opened
                == old(self)@.opened,
    {
        proof { lemma_extends_refl(events@); }
        let ghost m0 = self@;
        match self.shoe.draw() {
            Some(card) => {
                assert(self@ == TableModel { shoe: self@.shoe, ..old(self)@ });
                proof {
                    lemma_draw_top(m0.shoe.cards, m0.shoe.discards);
                    assert(shoe_held(m0).add(refill(m0, self@)) =~= shoe_held(m0));
                }
                return card;
            },
            None => {},
        }
        self.shoe.reshuffle();
        let ghost m1 = self@;
        proof {
            vstd::seq_lib::lemma_multiset_commutative(m0.shoe.cards, m0.shoe.discards);
            assert(m1.shoe.cards + m1.shoe.discards =~= m1.shoe.cards);
            assert(shoe_held(m1) =~= shoe_held(m0));
        }
        proof { lemma_extends_push(events@, Event::ShoeShuffled); }
        events.push(Event::ShoeShuffled);
        match self.shoe.draw() {
            Some(card) => {
                assert(self@ == TableModel { shoe: self@.shoe, ..old(self)@ });
                proof {
                    lemma_draw_top(m1.shoe.cards, m1.shoe.discards);
                    assert(shoe_held(m0).add(refill(m0, self@)) =~= shoe_held(m0));
                }
                card
            },
            None => {
                proof {
                    if cards_kept(m0) {
                        lemma_never_dry(m0);
                    }
                }
                self.shoe.replenish();
                self.opened = Ghost((self.opened@ + 1) as nat);
                let ghost m2 = self@;
                proof {
                    let d = m0.rules.decks as nat;
                    assert(m2.shoe.cards.to_multiset() == full_deck(d).to_multiset()) by {
                        assert(Seq::new(m0.shoe.capacity, |j: int| deck_card(j)) =~= full_deck(d));
                    }
                    assert(m2.shoe.cards + m2.shoe.discards =~= m2.shoe.cards);
                    assert(m0.shoe.cards + m0.shoe.discards =~= Seq::<Card>::empty());
                    assert(shoe_held(m2) =~= shoe_held(m0).add(full_deck(d).to_multiset()));
                }
                match self.shoe.draw() {
                    Some(card) => {
                        assert(self@ == TableModel { shoe: self@.shoe, opened: self@.opened, ..old(self)@ });
                        proof {
                            lemma_draw_top(m2.shoe.cards, m2.shoe.discards);
                            assert(shoe_held(m0).add(refill(m0, self@)) =~= shoe_held(m2));
                        }
                        card
                    },
                    None => {
                        proof {
                            assert(false);
                        }
                        Card::new(Rank::Two, crate::card::Suit::Clubs)
                    },
                }
            },
        }
    }
}

/// The net of a seat's hands grows one hand at a time.
pub proof fn lemma_hands_net_step(hands: Seq<HandModel>, k: int, dealer: Seq<Card>, r: Rules)
    requires
        0 <= k < hands.len(),
    ensures
        hands_net(hands.subrange(0, k + 1), dealer, r) == hands_net(hands.subrange(0, k), dealer, r)
            + settle_hand(hands[k], dealer, r).1,
{
    assert(hands.subrange(0, k + 1).drop_last() =~= hands.subrange(0, k));
}

/// Settlement reads only cards, bet, and status: recording outcomes does
/// not change a seat's net.
pub proof fn lemma_hands_net_congruent(a: Seq<HandModel>, b: Seq<HandModel>, dealer: Seq<Card>, r: Rules)
    requires
        a.len() == b.len(),
        forall|i: int|
            0 <= i < a.len() ==> (#[trigger] a[i]).cards == b[i].cards && a[i].bet == b[i].bet
                && a[i].status == b[i].status,
    ensures
        hands_net(a, dealer, r) == hands_net(b, dealer, r),
    decreases a.len(),
{
    if a.len() > 0 {
        lemma_hands_net_congruent(a.drop_last(), b.drop_last(), dealer, r);
        assert(a.last() == a[a.len() - 1]);
    }
}

/// A hand's settlement never moves more than three bets' worth.
pub proof fn lemma_settle_hand_bounded(h: HandModel, dealer: Seq<Card>, r: Rules)
    requires
        hand_base(h, r),
        rules_ok(r),
    ensures
        -3 * (r.max_bet as int) <= settle_hand(h, dealer, r).1 <= 3 * (r.max_bet as int),
{
}

fn settle_hand_exec(hand: &HandState, dealer_total: u8, dealer_bust: bool, dealer_blackjack: bool, rules: &Rules, Ghost(dealer): Ghost<Seq<Card>>) -> (r: (HandOutcome, i32))
    requires
        hand_base(hand@, *rules),
        rules_ok(*rules),
        dealer_bust == (dealer_total > 21),
        hand_total(dealer) == dealer_total,
        spec_is_blackjack(dealer) == dealer_blackjack,
    ensures
        r.0 == settle_hand(hand@, dealer, *rules).0,
        r.1 as int == settle_hand(hand@, dealer, *rules).1,
{
    let bet = hand.bet;
    proof {
        assert(rules.max_bet * 4 <= i32::MAX) by (nonlinear_arith)
            requires (3 * rules.max_split_hands + 1) * rules.max_bet <= i32::MAX, rules.max_split_hands >= 1;
    }
    match hand.status {
        HandStatus::Surrendered => (HandOutcome::Surrender, -((bet - bet / 2) as i32)),
        HandStatus::Bust => (HandOutcome::Bust, -(bet as i32)),
        HandStatus::Blackjack => {
            if dealer_blackjack {
                (HandOutcome::Push, 0)
            } else {
                let winnings = rules.blackjack_payout.winnings(bet);
                (HandOutcome::Blackjack, winnings as i32)
            }
        },
        // A hand still `Playing` here means the dealer's blackjack ended
        // the round before its turn.
        HandStatus::Playing => (HandOutcome::Lose, -(bet as i32)),
        HandStatus::Stood => {
            let total = hand.value().total();
            if dealer_bust || total > dealer_total {
                (HandOutcome::Win, bet as i32)
            } else if total == dealer_total {
                (HandOutcome::Push, 0)
            } else {
                (HandOutcome::Lose, -(bet as i32))
            }
        },
    }
}

impl Table {
    /// Settle every hand against the dealer, record per-seat nets, and end
    /// the round.
    fn settle(&mut self, events: &mut Vec<Event>)
        requires
            base(old(self)@),
            dealer_drew_by_the_rules(old(self)@.dealer, old(self)@.rules),
            any_stood(old(self)@.seats) ==> !dealer_must_hit(old(self)@.dealer, old(self)@.rules),
            forall|i: int|
                0 <= i < old(self)@.seats.len() ==> (#[trigger] old(self)@.seats[i]).insurance_net
                    == insurance_result(old(self)@.seats[i].insurance, spec_is_blackjack(old(self)@.dealer)),
        ensures
            drew_only(old(self)@, final(self)@),
            wf_core(final(self)@),
            cards_kept(old(self)@) ==> cards_kept(final(self)@),
            final(self)@.opened == old(self)@.opened,
            final(self)@.phase == Phase::RoundOver,
            final(self)@.rules == old(self)@.rules,
            final(self)@.dealer == old(self)@.dealer,
            final(self)@.shoe == old(self)@.shoe,
            final(self)@.hole_revealed == old(self)@.hole_revealed,
            final(self)@.seats.len() == old(self)@.seats.len(),
            forall|i: int| 0 <= i < old(self)@.seats.len() ==> {
                let a = #[trigger] old(self)@.seats[i];
                let b = final(self)@.seats[i];
                &&& b.bet == a.bet
                &&& b.insurance == a.insurance
                &&& b.insurance_net == a.insurance_net
                &&& b.hands.len() == a.hands.len()
                &&& forall|k: int| 0 <= k < a.hands.len() ==> (#[trigger] b.hands[k]).cards == a.hands[k].cards
                    && b.hands[k].bet == a.hands[k].bet && b.hands[k].status == a.hands[k].status
                    && b.hands[k].doubled == a.hands[k].doubled && b.hands[k].from_split == a.hands[k].from_split
            },
            progressed(old(self)@, final(self)@),
            extends(old(events)@, final(events)@),
    {
        let dealer_value = HandValue::of(self.dealer.as_slice());
        let dealer_total = dealer_value.total();
        let dealer_bust = dealer_value.is_bust();
        let dealer_blackjack = is_blackjack(self.dealer.as_slice());
        let ghost m0 = self@;
        let n = self.seats.len();
        let mut seat: usize = 0;
        proof { lemma_extends_refl(events@); }
        while seat < n
            invariant
                n == m0.seats.len(),
                seat <= n,
                base(m0),
                dealer_total == hand_total(m0.dealer),
                dealer_blackjack == spec_is_blackjack(m0.dealer),
                dealer_bust == (dealer_total > 21),
                forall|i: int|
                    0 <= i < m0.seats.len() ==> (#[trigger] m0.seats[i]).insurance_net
                        == insurance_result(m0.seats[i].insurance, spec_is_blackjack(m0.dealer)),
                self@ == (TableModel { seats: self@.seats, ..m0 }),
                self@.seats.len() == n,
                forall|i: int| seat <= i < n ==> self@.seats[i] == #[trigger] m0.seats[i],
                forall|i: int| 0 <= i < seat ==> #[trigger] seat_settled(self@.seats[i], m0.dealer, m0.rules),
                forall|i: int| 0 <= i < seat ==> #[trigger] seat_base(self@.seats[i], m0.rules),
                extends(old(events)@, events@),
                forall|i: int| 0 <= i < seat ==> {
                    let a = #[trigger] m0.seats[i];
                    let b = self@.seats[i];
                    &&& b.bet == a.bet
                    &&& b.insurance == a.insurance
                    &&& b.insurance_net == a.insurance_net
                    &&& b.hands.len() == a.hands.len()
                    &&& forall|k: int| 0 <= k < a.hands.len() ==> (#[trigger] b.hands[k]).cards == a.hands[k].cards
                        && b.hands[k].bet == a.hands[k].bet && b.hands[k].status == a.hands[k].status
                        && b.hands[k].doubled == a.hands[k].doubled && b.hands[k].from_split == a.hands[k].from_split
                },
            decreases n - seat,
        {
            assert(seat_base(m0.seats[seat as int], m0.rules));
            assert(self.rules == m0.rules);
            let mut st = self.take_seat(seat);
            let ghost orig = st@;
            assert(seat_base(orig, m0.rules));
            assert(orig.insurance_net == insurance_result(orig.insurance, spec_is_blackjack(m0.dealer)));
            if st.bet.is_some() {
                let mut net: i32 = st.insurance_net;
                let hn = st.hands.len();
                let mut hand: usize = 0;
                while hand < hn
                    invariant
                        rules_ok(m0.rules),
                        self.rules == m0.rules,
                        seat_base(orig, m0.rules),
                        orig.bet is Some,
                        hn == orig.hands.len(),
                        hand <= hn,
                        st@.bet == orig.bet,
                        st@.insurance == orig.insurance,
                        st@.insurance_net == orig.insurance_net,
                        st@.round_net == orig.round_net,
                        st@.hands.len() == hn,
                        dealer_total == hand_total(m0.dealer),
                        dealer_blackjack == spec_is_blackjack(m0.dealer),
                        dealer_bust == (dealer_total > 21),
                        forall|k: int| hand <= k < hn ==> st@.hands[k] == #[trigger] orig.hands[k],
                        forall|k: int| 0 <= k < hand ==> {
                            let a = #[trigger] orig.hands[k];
                            let b = st@.hands[k];
                            &&& b == HandModel { outcome: b.outcome, payout: b.payout, ..a }
                            &&& b.outcome == Some(settle_hand(a, m0.dealer, m0.rules).0)
                            &&& b.payout == Some(settle_hand(a, m0.dealer, m0.rules).1 as i32)
                        },
                        extends(old(events)@, events@),
                        net as int == orig.insurance_net + hands_net(orig.hands.subrange(0, hand as int), m0.dealer, m0.rules),
                        -(m0.rules.max_bet as int) - 3 * hand * m0.rules.max_bet <= net <= m0.rules.max_bet as int + 3 * hand * m0.rules.max_bet,
                    decreases hn - hand,
                {
                    let mut h = HandState::new(0);
                    st.hands.set_and_swap(hand, &mut h);
                    assert(h@ == orig.hands[hand as int]);
                    assert(hand_base(orig.hands[hand as int], m0.rules));
                    assert(self.rules == m0.rules);
                    let (outcome, amount) = settle_hand_exec(&h, dealer_total, dealer_bust, dealer_blackjack, &self.rules, Ghost(m0.dealer));
                    proof {
                        lemma_settle_hand_bounded(h@, m0.dealer, m0.rules);
                        lemma_hands_net_step(orig.hands, hand as int, m0.dealer, m0.rules);
                        assert((3 * m0.rules.max_split_hands + 1) * m0.rules.max_bet <= i32::MAX);
                        assert(hand + 1 <= m0.rules.max_split_hands);
                        assert(m0.rules.max_bet + 3 * (hand + 1) * m0.rules.max_bet <= i32::MAX) by (nonlinear_arith)
                            requires (3 * m0.rules.max_split_hands + 1) * m0.rules.max_bet <= i32::MAX,
                                hand + 1 <= m0.rules.max_split_hands;
                        assert(3 * (hand + 1) * m0.rules.max_bet == 3 * hand * m0.rules.max_bet + 3 * m0.rules.max_bet) by (nonlinear_arith);
                    }
                    h.outcome = Some(outcome);
                    h.payout = Some(amount);
                    net = net + amount;
                    proof { lemma_extends_refl(events@); }
                    let ghost before = events@;
                    events.push(Event::HandSettled { seat, hand, outcome, amount });
                    proof {
                        lemma_extends_push(before, Event::HandSettled { seat, hand, outcome, amount });
                        lemma_extends_trans(old(events)@, before, events@);
                    }
                    let ghost hv = h@;
                    st.hands.set(hand, h);
                    hand = hand + 1;
                    proof {
                        assert forall|k: int| hand <= k < hn implies st@.hands[k] == #[trigger] orig.hands[k] by {}
                    }
                }
                st.round_net = Some(net);
                proof {
                    assert(orig.hands.subrange(0, hn as int) =~= orig.hands);
                    lemma_hands_net_congruent(st@.hands, orig.hands, m0.dealer, m0.rules);
                    assert forall|k: int| 0 <= k < st@.hands.len() implies #[trigger] hand_base(st@.hands[k], m0.rules) by {
                        assert(hand_base(orig.hands[k], m0.rules));
                    }
                    assert forall|k: int| 0 <= k < st@.hands.len() implies settle_hand(#[trigger] st@.hands[k], m0.dealer, m0.rules) == settle_hand(orig.hands[k], m0.dealer, m0.rules) by {
                        let a = orig.hands[k];
                        let b = st@.hands[k];
                        assert(b == HandModel { outcome: b.outcome, payout: b.payout, ..a });
                    }
                    assert(seat_settled(st@, m0.dealer, m0.rules));
                }
            }
            self.put_seat(seat, st);
            seat = seat + 1;
        }
        self.phase = Phase::RoundOver;
        self.active = None;
        proof {
            lemma_extends_refl(events@);
            assert forall|i: int| 0 <= i < m0.seats.len() implies #[trigger] seat_progressed(m0.seats[i], self@.seats[i]) by {
                let a = m0.seats[i];
                let b = self@.seats[i];
                assert forall|k: int| 0 <= k < a.hands.len() implies #[trigger] hand_progressed(a.hands[k], b.hands[k]) by {
                    lemma_hand_progressed_same(a.hands[k], b.hands[k]);
                }
            }
            assert(self@.dealer.subrange(0, m0.dealer.len() as int) =~= m0.dealer);
            if any_stood(self@.seats) {
                let (i, k) = choose|i: int, k: int|
                    0 <= i < self@.seats.len() && 0 <= k < self@.seats[i].hands.len() && (#[trigger] self@.seats[i].hands[k]).status
                        == HandStatus::Stood;
                assert(m0.seats[i].hands[k].status == HandStatus::Stood);
                assert(any_stood(m0.seats));
            }
            if cards_kept(old(self)@) {
                assert forall|i: int| 0 <= i < old(self)@.seats.len() implies #[trigger] same_cards(
                    old(self)@.seats[i],
                    self@.seats[i],
                ) by {
                    assert forall|k: int| 0 <= k < old(self)@.seats[i].hands.len() implies (#[trigger] old(self)@.seats[i].hands[k]).cards
                        == self@.seats[i].hands[k].cards by {
                        assert(self@.seats[i].hands[k].cards == old(self)@.seats[i].hands[k].cards);
                    }
                }
                lemma_cards_kept_frame(old(self)@, self@);
            }
        }
        if self.shoe.cut_card_reached() {
            let ghost before = events@;
            events.push(Event::CutCardReached);
            proof {
                lemma_extends_push(before, Event::CutCardReached);
                lemma_extends_trans(old(events)@, before, events@);
            }
        }
    }
}

/// The status a hand takes automatically after receiving a card: busts
/// end the hand, a one-card split ace stands (when the rules say so), and
/// any 21 stands — hitting 21 is never useful.
pub open spec fn auto_status(h: HandModel, r: Rules) -> HandStatus {
    if hand_total(h.cards) > 21 {
        HandStatus::Bust
    } else if (h.from_split && r.split_aces_one_card && h.cards.len() == 2 && h.cards[0].rank
        == Rank::Ace) || hand_total(h.cards) == 21 {
        HandStatus::Stood
    } else {
        h.status
    }
}

/// Replacing a hand by one within the hand bounds keeps the table bounds.
pub proof fn lemma_base_upd_hand(m: TableModel, s: int, h: int, x: HandModel)
    requires
        base(m),
        0 <= s < m.seats.len(),
        0 <= h < m.seats[s].hands.len(),
        hand_base(x, m.rules),
    ensures
        base(upd_hand(m, s, h, x)),
{
    let n = upd_hand(m, s, h, x);
    assert(seat_base(m.seats[s], m.rules));
    assert forall|k: int| 0 <= k < n.seats[s].hands.len() implies #[trigger] hand_base(n.seats[s].hands[k], m.rules) by {
        if k != h {
            assert(n.seats[s].hands[k] == m.seats[s].hands[k]);
        }
    }
    assert(seat_base(n.seats[s], m.rules));
    assert forall|i: int| 0 <= i < n.seats.len() implies #[trigger] seat_base(n.seats[i], n.rules) by {
        if i != s {
            assert(n.seats[i] == m.seats[i]);
        }
    }
}

/// Replacing a seat by one within the seat bounds keeps the table bounds.
pub proof fn lemma_base_upd_seat(m: TableModel, s: int, x: SeatModel)
    requires
        base(m),
        0 <= s < m.seats.len(),
        seat_base(x, m.rules),
    ensures
        base(upd_seat(m, s, x)),
{
    let n = upd_seat(m, s, x);
    assert forall|i: int| 0 <= i < n.seats.len() implies #[trigger] seat_base(n.seats[i], n.rules) by {
        if i != s {
            assert(n.seats[i] == m.seats[i]);
        }
    }
}

/// A two-card dealer hand without an ace or ten-value card up is no
/// natural.
pub proof fn lemma_no_natural_without_ace_or_ten(dealer: Seq<Card>)
    requires
        dealer.len() == 2,
        dealer[0].rank != Rank::Ace,
        rank_value(dealer[0].rank) != 10,
    ensures
        !spec_is_blackjack(dealer),
{
    crate::hand::lemma_blackjack_is_ace_and_ten(dealer);
}

impl Table {
    /// Deal one card to a player hand.
    fn deal_to_hand(&mut self, seat: usize, hand: usize, events: &mut Vec<Event>) -> (c: Card)
        requires
            base(old(self)@),
            seat < old(self)@.seats.len(),
            hand < old(self)@.seats[seat as int].hands.len(),
            hard_total(old(self)@.seats[seat as int].hands[hand as int].cards) <= 20,
        ensures
            drew_only(old(self)@, final(self)@),
            final(self)@ == (TableModel {
                shoe: final(self)@.shoe,
                opened: final(self)@.opened,
                ..upd_hand(
                    old(self)@,
                    seat as int,
                    hand as int,
                    HandModel {
                        cards: old(self)@.seats[seat as int].hands[hand as int].cards.push(c),
                        ..old(self)@.seats[seat as int].hands[hand as int]
                    },
                )
            }),
            base(final(self)@),
            extends(old(events)@, final(events)@),
            old(self)@.shoe.cards.len() > 0 ==> c == old(self)@.shoe.cards.last()
                && final(self)@.shoe.cards == old(self)@.shoe.cards.drop_last()
                && final(self)@.shoe.discards == old(self)@.shoe.discards
                && final(self)@.opened == old(self)@.opened
                && final(events)@ == old(events)@.push(Event::CardDealt { seat, hand, card: c }),
            cards_kept(old(self)@) ==> cards_kept(final(self)@),
    {
        let card = self.draw_card(events);
        let ghost mid = self@;
        let mut h = self.take_hand(seat, hand);
        h.cards.push(card);
        self.put_hand(seat, hand, h);
        let ghost newh = HandModel {
            cards: old(self)@.seats[seat as int].hands[hand as int].cards.push(card),
            ..old(self)@.seats[seat as int].hands[hand as int]
        };
        proof {
            lemma_upd_hand_twice(mid, seat as int, hand as int, fresh_hand(0), newh);
            crate::hand::lemma_hard_total_push(old(self)@.seats[seat as int].hands[hand as int].cards, card);
            crate::hand::lemma_hard_points_bounded(card);
            assert(hand_base(old(self)@.seats[seat as int].hands[hand as int], old(self)@.rules)) by {
                assert(seat_base(old(self)@.seats[seat as int], old(self)@.rules));
            }
            lemma_base_upd_hand(old(self)@, seat as int, hand as int, newh);
            assert(self@.seats == upd_hand(old(self)@, seat as int, hand as int, newh).seats);
            lemma_extends_refl(events@);
            if cards_kept(old(self)@) {
                lemma_felt_hand_push(old(self)@, seat as int, hand as int, card, newh);
                assert(felt_cards(self@) == felt_cards(upd_hand(old(self)@, seat as int, hand as int, newh)));
                lemma_kept_felt_gains(old(self)@, self@, card);
            }
        }
        let ghost before = events@;
        events.push(Event::CardDealt { seat, hand, card });
        proof {
            lemma_extends_push(before, Event::CardDealt { seat, hand, card });
            lemma_extends_trans(old(events)@, before, events@);
        }
        card
    }

    /// Apply automatic stands and busts after a hand receives a card.
    fn auto_resolve(&mut self, seat: usize, hand: usize, events: &mut Vec<Event>)
        requires
            base(old(self)@),
            seat < old(self)@.seats.len(),
            hand < old(self)@.seats[seat as int].hands.len(),
            old(self)@.seats[seat as int].hands[hand as int].cards.len() >= 1,
            old(self)@.seats[seat as int].hands[hand as int].status != HandStatus::Blackjack,
        ensures
            drew_only(old(self)@, final(self)@),
            final(self)@ == upd_hand(
                old(self)@,
                seat as int,
                hand as int,
                HandModel {
                    status: auto_status(old(self)@.seats[seat as int].hands[hand as int], old(self)@.rules),
                    ..old(self)@.seats[seat as int].hands[hand as int]
                },
            ),
            base(final(self)@),
            extends(old(events)@, final(events)@),
    {
        assert(self.seats@[seat as int]@ == self@.seats[seat as int]);
        assert(self.seats@[seat as int].hands@[hand as int]@ == self@.seats[seat as int].hands[hand as int]);
        let ghost oh = old(self)@.seats[seat as int].hands[hand as int];
        proof {
            assert(hand_base(oh, old(self)@.rules)) by {
                assert(seat_base(old(self)@.seats[seat as int], old(self)@.rules));
            }
            lemma_base_upd_hand(old(self)@, seat as int, hand as int, HandModel { status: auto_status(oh, old(self)@.rules), ..oh });
            lemma_extends_refl(events@);
        }
        let value = self.seats[seat].hands[hand].value();
        if value.is_bust() {
            self.set_hand_status(seat, hand, HandStatus::Bust);
            let ghost before = events@;
            events.push(Event::HandBusted { seat, hand, total: value.total() });
            proof {
                lemma_extends_push(before, Event::HandBusted { seat, hand, total: value.total() });
            }
        } else {
            let state = &self.seats[seat].hands[hand];
            let one_card_split_ace = state.from_split && self.rules.split_aces_one_card
                && state.cards.len() == 2 && state.cards[0].rank.is_ace();
            if one_card_split_ace || value.total() == 21 {
                self.set_hand_status(seat, hand, HandStatus::Stood);
                let ghost before = events@;
                events.push(Event::PlayerStood { seat, hand, total: value.total() });
                proof {
                    lemma_extends_push(before, Event::PlayerStood { seat, hand, total: value.total() });
                }
            } else {
                proof {
                    assert(HandModel { status: auto_status(oh, old(self)@.rules), ..oh } == oh);
                    lemma_upd_hand_same(old(self)@, seat as int, hand as int);
                }
            }
        }
    }

    /// Settle every insurance bet: 2:1 winnings on a dealer blackjack,
    /// stake lost otherwise.
    fn resolve_insurance(&mut self, dealer_blackjack: bool, events: &mut Vec<Event>)
        requires
            base(old(self)@),
            forall|i: int| 0 <= i < old(self)@.seats.len() ==> (#[trigger] old(self)@.seats[i]).insurance_net == 0,
        ensures
            drew_only(old(self)@, final(self)@),
            base(final(self)@),
            final(self)@ == (TableModel { seats: final(self)@.seats, ..old(self)@ }),
            final(self)@.seats.len() == old(self)@.seats.len(),
            forall|i: int| 0 <= i < old(self)@.seats.len() ==> #[trigger] final(self)@.seats[i] == (SeatModel {
                insurance_net: insurance_result(old(self)@.seats[i].insurance, dealer_blackjack) as i32,
                ..old(self)@.seats[i]
            }),
            forall|i: int| 0 <= i < old(self)@.seats.len() ==> (#[trigger] final(self)@.seats[i]).insurance_net == insurance_result(old(self)@.seats[i].insurance, dealer_blackjack),
            progressed(old(self)@, final(self)@),
            extends(old(events)@, final(events)@),
            cards_kept(old(self)@) ==> cards_kept(final(self)@),
    {
        let n = self.seats.len();
        let mut seat: usize = 0;
        proof { lemma_extends_refl(events@); }
        while seat < n
            invariant
                n == old(self)@.seats.len(),
                seat <= n,
                base(self@),
                self@ == (TableModel { seats: self@.seats, ..old(self)@ }),
                self@.seats.len() == n,
                forall|i: int| seat <= i < n ==> self@.seats[i] == #[trigger] old(self)@.seats[i],
                forall|i: int| 0 <= i < seat ==> #[trigger] self@.seats[i] == (SeatModel {
                    insurance_net: insurance_result(old(self)@.seats[i].insurance, dealer_blackjack) as i32,
                    ..old(self)@.seats[i]
                }),
                forall|i: int| 0 <= i < seat ==> (#[trigger] self@.seats[i]).insurance_net == insurance_result(old(self)@.seats[i].insurance, dealer_blackjack),
                forall|i: int| 0 <= i < n ==> (#[trigger] old(self)@.seats[i]).insurance_net == 0,
                extends(old(events)@, events@),
            decreases n - seat,
        {
            assert(self.seats@[seat as int]@ == self@.seats[seat as int]);
            assert(seat_base(self@.seats[seat as int], self@.rules));
            let ghost m0 = self@;
            match self.seats[seat].insurance {
                Insurance::Taken { amount } => {
                    proof {
                        let r = self@.rules;
                        assert(r.max_bet * 4 <= i32::MAX) by (nonlinear_arith)
                            requires (3 * r.max_split_hands + 1) * r.max_bet <= i32::MAX, r.max_split_hands >= 1;
                        assert(amount <= r.max_bet);
                    }
                    let net = if dealer_blackjack {
                        2 * (amount as i32)
                    } else {
                        -(amount as i32)
                    };
                    let ghost m1 = self@;
                    let mut st = self.take_seat(seat);
                    st.insurance_net = net;
                    let ghost sv = st@;
                    self.put_seat(seat, st);
                    proof {
                        assert(sv.hands == m1.seats[seat as int].hands);
                        assert(seat_base(sv, m1.rules));
                        lemma_base_upd_seat(m1, seat as int, sv);
                        assert(self@.seats =~= upd_seat(m1, seat as int, sv).seats);
                    }
                    let ghost before = events@;
                    events.push(Event::InsuranceResolved { seat, amount: net });
                    proof {
                        lemma_extends_push(before, Event::InsuranceResolved { seat, amount: net });
                        lemma_extends_trans(old(events)@, before, events@);
                        assert(sv == (SeatModel {
                            insurance_net: insurance_result(old(self)@.seats[seat as int].insurance, dealer_blackjack) as i32,
                            ..old(self)@.seats[seat as int]
                        }));
                    }
                },
                _ => {
                    proof {
                        assert(m0.seats[seat as int] == (SeatModel {
                            insurance_net: insurance_result(old(self)@.seats[seat as int].insurance, dealer_blackjack) as i32,
                            ..old(self)@.seats[seat as int]
                        }));
                    }
                },
            }
            proof {
                assert forall|i: int| 0 <= i < seat + 1 implies #[trigger] self@.seats[i] == (SeatModel {
                    insurance_net: insurance_result(old(self)@.seats[i].insurance, dealer_blackjack) as i32,
                    ..old(self)@.seats[i]
                }) by {
                    if i < seat {
                        assert(self@.seats[i] == m0.seats[i]);
                    }
                }
            }
            seat = seat + 1;
        }
        proof {
            let a = old(self)@;
            let b = self@;
            assert forall|i: int| 0 <= i < a.seats.len() implies #[trigger] seat_progressed(a.seats[i], b.seats[i]) by {
                assert forall|k: int| 0 <= k < a.seats[i].hands.len() implies #[trigger] hand_progressed(a.seats[i].hands[k], b.seats[i].hands[k]) by {
                    lemma_hand_progressed_same(a.seats[i].hands[k], b.seats[i].hands[k]);
                }
            }
            assert(b.dealer.subrange(0, a.dealer.len() as int) =~= a.dealer);
            if cards_kept(a) {
                assert forall|i: int| 0 <= i < a.seats.len() implies #[trigger] same_cards(a.seats[i], b.seats[i]) by {
                    assert(b.seats[i].hands == a.seats[i].hands);
                }
                lemma_cards_kept_frame(a, b);
            }
        }
    }

    /// Reveal the hole card, draw to 17 (S17/H17 per the rules) if any
    /// player hand is still standing, then settle the round.
    fn dealer_turn(&mut self, events: &mut Vec<Event>)
        requires
            base(old(self)@),
            old(self)@.dealer.len() == 2,
            !spec_is_blackjack(old(self)@.dealer),
            forall|i: int| 0 <= i < old(self)@.seats.len() ==> (#[trigger] old(self)@.seats[i]).insurance_net
                == insurance_result(old(self)@.seats[i].insurance, false),
        ensures
            drew_only(old(self)@, final(self)@),
            wf_core(final(self)@),
            cards_kept(old(self)@) ==> cards_kept(final(self)@),
            final(self)@.phase == Phase::RoundOver,
            progressed(old(self)@, final(self)@),
            extends(old(events)@, final(events)@),
            !any_stood(old(self)@.seats) ==> final(self)@.shoe == old(self)@.shoe && final(self)@.dealer
                == old(self)@.dealer && final(self)@.opened == old(self)@.opened,
    {
        self.hole_revealed = true;
        proof { lemma_extends_refl(events@); }
        let ghost before = events@;
        events.push(Event::HoleCardRevealed { card: self.dealer[1] });
        proof {
            lemma_extends_push(before, Event::HoleCardRevealed { card: self.dealer[1] });
        }
        let mut any_standing = false;
        let mut i: usize = 0;
        let ghost seats = self@.seats;
        while i < self.seats.len()
            invariant
                i <= self.seats@.len(),
                base(self@),
                seats == self@.seats,
                any_standing == exists|j: int, k: int|
                    0 <= j < i && 0 <= k < seats[j].hands.len() && (#[trigger] seats[j].hands[k]).status
                        == HandStatus::Stood,
            decreases self.seats.len() - i,
        {
            let mut k: usize = 0;
            let ghost before = any_standing;
            assert(self.seats@[i as int]@ == seats[i as int]);
            while k < self.seats[i].hands.len()
                invariant
                    i < self.seats@.len(),
                    base(self@),
                    seats == self@.seats,
                    self.seats@[i as int]@ == seats[i as int],
                    k <= self.seats@[i as int].hands@.len(),
                    any_standing == (before || exists|q: int|
                        0 <= q < k && (#[trigger] seats[i as int].hands[q]).status == HandStatus::Stood),
                decreases self.seats@[i as int].hands@.len() - k,
            {
                assert(self.seats@[i as int].hands@[k as int]@ == seats[i as int].hands[k as int]);
                if self.seats[i].hands[k].status == HandStatus::Stood {
                    any_standing = true;
                }
                k = k + 1;
            }
            proof {
                if any_standing && !before {
                    let q = choose|q: int|
                        0 <= q < seats[i as int].hands.len() && (#[trigger] seats[i as int].hands[q]).status
                            == HandStatus::Stood;
                    assert(seats[i as int].hands[q].status == HandStatus::Stood);
                }
                if before {
                    let (j, q) = choose|j: int, q: int|
                        0 <= j < i && 0 <= q < seats[j].hands.len() && (#[trigger] seats[j].hands[q]).status
                            == HandStatus::Stood;
                    assert(seats[j].hands[q].status == HandStatus::Stood);
                }
            }
            i = i + 1;
        }
        proof {
            assert(any_standing == any_stood(self@.seats));
        }
        let ghost m1 = self@;
        if any_standing {
            loop
                invariant
                    base(self@),
                    self@.rules == m1.rules,
                    self@.seats == m1.seats,
                    self@.dealer.len() >= 2,
                    self@.dealer.len() == 2 ==> self@.dealer == m1.dealer,
                    self@.dealer.subrange(0, 2) == m1.dealer,
                    m1.dealer.len() == 2,
                    !spec_is_blackjack(m1.dealer),
                    extends(old(events)@, events@),
                    forall|k: int| 2 <= k < self@.dealer.len() ==> #[trigger] dealer_must_hit(
                        self@.dealer.subrange(0, k),
                        m1.rules,
                    ),
                    cards_kept(m1) ==> cards_kept(self@),
                    drew_only(m1, self@),
                ensures
                    cards_kept(m1) ==> cards_kept(self@),
                    drew_only(m1, self@),
                    base(self@),
                    self@.rules == m1.rules,
                    self@.seats == m1.seats,
                    self@.dealer.len() >= 2,
                    self@.dealer.len() == 2 ==> self@.dealer == m1.dealer,
                    self@.dealer.subrange(0, 2) == m1.dealer,
                    extends(old(events)@, events@),
                    dealer_drew_by_the_rules(self@.dealer, m1.rules),
                    !dealer_must_hit(self@.dealer, m1.rules),
                decreases 30 - hard_total(self@.dealer),
            {
                let value = HandValue::of(self.dealer.as_slice());
                if value.is_bust() {
                    let ghost before = events@;
                    events.push(Event::DealerBust { total: value.total() });
                    proof {
                        lemma_extends_push(before, Event::DealerBust { total: value.total() });
                        lemma_extends_trans(old(events)@, before, events@);
                    }
                    break;
                }
                let stands = value.total() > 17 || (value.total() == 17 && (!value.is_soft()
                    || self.rules.soft_17 == Soft17::Stand));
                if stands {
                    let ghost before = events@;
                    events.push(Event::DealerStood { total: value.total() });
                    proof {
                        lemma_extends_push(before, Event::DealerStood { total: value.total() });
                        lemma_extends_trans(old(events)@, before, events@);
                    }
                    break;
                }
                let ghost before = events@;
                let ghost dealt = self@.dealer;
                proof {
                    assert(dealer_must_hit(dealt, m1.rules));
                }
                let ghost pre = self@;
                let card = self.draw_card(events);
                let ghost d0 = self.dealer@;
                self.dealer.push(card);
                proof {
                    lemma_must_hit_hard(dealt, m1.rules);
                    crate::hand::lemma_hard_total_push(d0, card);
                    crate::hand::lemma_hard_points_bounded(card);
                    lemma_drew_only_trans(m1, pre, self@);
                    if cards_kept(m1) {
                        lemma_felt_dealer_push(pre, card);
                        assert(felt_cards(self@) == felt_cards(TableModel { dealer: pre.dealer.push(card), ..pre }));
                        lemma_kept_felt_gains(pre, self@, card);
                    }
                    assert(self@.dealer.subrange(0, 2) =~= d0.subrange(0, 2));
                    assert(self@.dealer.subrange(0, dealt.len() as int) =~= dealt);
                    assert forall|k: int| 2 <= k < self@.dealer.len() implies #[trigger] dealer_must_hit(
                        self@.dealer.subrange(0, k),
                        m1.rules,
                    ) by {
                        if k < dealt.len() {
                            assert(self@.dealer.subrange(0, k) =~= dealt.subrange(0, k));
                        }
                    }
                    crate::hand::lemma_hard_total_push(d0, card);
                    lemma_extends_trans(old(events)@, before, events@);
                }
                let ghost before2 = events@;
                events.push(Event::DealerCardDealt { card });
                proof {
                    lemma_extends_push(before2, Event::DealerCardDealt { card });
                    lemma_extends_trans(old(events)@, before2, events@);
                }
            }
        }
        proof {
            assert(!spec_is_blackjack(self@.dealer));
            assert forall|i: int| 0 <= i < self@.seats.len() implies (#[trigger] self@.seats[i]).insurance_net
                == insurance_result(self@.seats[i].insurance, spec_is_blackjack(self@.dealer)) by {
                assert(self@.seats[i] == old(self)@.seats[i]);
            }
        }
        proof {
            assert(self@.dealer.subrange(0, 2) == m1.dealer);
            lemma_progressed_same(old(self)@, m1);
            let a = m1;
            let b = self@;
            assert forall|i: int| 0 <= i < a.seats.len() implies #[trigger] seat_progressed(a.seats[i], b.seats[i]) by {
                assert forall|k: int| 0 <= k < a.seats[i].hands.len() implies #[trigger] hand_progressed(a.seats[i].hands[k], b.seats[i].hands[k]) by {
                    lemma_hand_progressed_same(a.seats[i].hands[k], b.seats[i].hands[k]);
                }
            }
            lemma_progressed_trans(old(self)@, m1, self@);
        }
        let ghost before = events@;
        let ghost m2 = self@;
        self.settle(events);
        proof {
            lemma_extends_trans(old(events)@, before, events@);
            lemma_progressed_trans(old(self)@, m2, self@);
            lemma_drew_only_trans(old(self)@, m1, m2);
            lemma_drew_only_trans(old(self)@, m2, self@);
        }
    }
}

/// A table ready for player turns: the dealer holds two cards without a
/// natural, the hole card is down, and insurance has been resolved
/// against no blackjack.
pub open spec fn turn_ready(m: TableModel) -> bool {
    &&& base(m)
    &&& hands_live(m)
    &&& m.dealer.len() == 2
    &&& !m.hole_revealed
    &&& !spec_is_blackjack(m.dealer)
    &&& forall|i: int|
        0 <= i < m.seats.len() ==> (#[trigger] m.seats[i]).insurance_net == insurance_result(
            m.seats[i].insurance,
            false,
        )
}

/// The number of hands seat `seat` holds (0 past the last seat).
pub open spec fn hands_at(m: TableModel, seat: int) -> int {
    if 0 <= seat < m.seats.len() {
        m.seats[seat].hands.len() as int
    } else {
        0
    }
}

/// The number of cards hand `hand` of seat `seat` still lacks of two.
pub open spec fn cards_missing(m: TableModel, seat: int, hand: int) -> int {
    if 0 <= seat < m.seats.len() && 0 <= hand < m.seats[seat].hands.len() {
        2 - m.seats[seat].hands[hand].cards.len()
    } else {
        0
    }
}

impl Table {
    /// Move the active cursor forward from `(seat, hand)` in casino order,
    /// dealing second cards to fresh split hands, skipping resolved hands
    /// and empty seats, and running the dealer's turn when every player
    /// hand is done.
    fn advance_from(&mut self, seat: usize, hand: usize, events: &mut Vec<Event>)
        requires
            turn_ready(old(self)@),
            old(self)@.phase == Phase::PlayerTurn,
        ensures
            drew_only(old(self)@, final(self)@),
            wf_core(final(self)@),
            cards_kept(old(self)@) ==> cards_kept(final(self)@),
            final(self)@.phase == Phase::PlayerTurn || final(self)@.phase == Phase::RoundOver,
            progressed(old(self)@, final(self)@),
            extends(old(events)@, final(events)@),
            nothing_pending(old(self)@) ==> final(self)@.shoe == old(self)@.shoe && final(self)@.dealer
                == old(self)@.dealer && final(self)@.opened == old(self)@.opened,
    {
        let mut seat = seat;
        let mut hand = hand;
        let n = self.seats.len();
        let ghost start = self@;
        proof {
            lemma_extends_refl(events@);
            lemma_progressed_same(old(self)@, self@);
        }
        loop
            invariant
                turn_ready(self@),
                self@.phase == Phase::PlayerTurn,
                n == self@.seats.len(),
                progressed(old(self)@, self@),
                extends(old(events)@, events@),
                start == old(self)@,
                cards_kept(start) ==> cards_kept(self@),
                nothing_pending(start) ==> nothing_pending(self@) && self@.shoe == start.shoe
                    && self@.dealer == start.dealer && self@.opened == start.opened,
                drew_only(start, self@),
            decreases n - seat, hands_at(self@, seat as int) - hand, cards_missing(
                self@,
                seat as int,
                hand as int,
            ),
        {
            if seat >= n {
                let ghost m0 = self@;
                self.active = None;
                let ghost m1 = self@;
                let ghost before = events@;
                self.dealer_turn(events);
                proof {
                    lemma_drew_only_trans(start, m1, self@);
                    lemma_progressed_same(m0, m1);
                    lemma_progressed_trans(old(self)@, m0, m1);
                    lemma_progressed_trans(old(self)@, m1, self@);
                    lemma_extends_trans(old(events)@, before, events@);
                }
                return;
            }
            assert(self.seats@[seat as int]@ == self@.seats[seat as int]);
            if self.seats[seat].bet.is_none() || hand >= self.seats[seat].hands.len() {
                seat = seat + 1;
                hand = 0;
                continue;
            }
            assert(self.seats@[seat as int].hands@[hand as int]@ == self@.seats[seat as int].hands[hand as int]);
            if self.seats[seat].hands[hand].status != HandStatus::Playing {
                hand = hand + 1;
                continue;
            }
            if self.seats[seat].hands[hand].cards.len() < 2 {
                // A split hand waiting for its second card gets it now.
                let ghost m0 = self@;
                let ghost e0 = events@;
                proof {
                    crate::hand::lemma_hard_total_bounded(m0.seats[seat as int].hands[hand as int].cards);
                }
                let c = self.deal_to_hand(seat, hand, events);
                let ghost m1 = self@;
                let ghost e1 = events@;
                self.auto_resolve(seat, hand, events);
                proof {
                    lemma_drew_only_trans(start, m0, m1);
                    lemma_drew_only_trans(start, m1, self@);
                    if cards_kept(start) {
                        lemma_kept_upd_hand(m1, seat as int, hand as int, self@.seats[seat as int].hands[hand as int]);
                    }
                    let h0 = m0.seats[seat as int].hands[hand as int];
                    let h2 = self@.seats[seat as int].hands[hand as int];
                    assert(h2.cards == h0.cards.push(c));
                    assert(h2.cards.subrange(0, h0.cards.len() as int) =~= h0.cards);
                    assert(hand_progressed(h0, h2));
                    assert forall|i: int| 0 <= i < m0.seats.len() implies #[trigger] seat_progressed(m0.seats[i], self@.seats[i]) by {
                        assert forall|k: int| 0 <= k < m0.seats[i].hands.len() implies #[trigger] hand_progressed(m0.seats[i].hands[k], self@.seats[i].hands[k]) by {
                            if i != seat || k != hand {
                                lemma_hand_progressed_same(m0.seats[i].hands[k], self@.seats[i].hands[k]);
                            }
                        }
                    }
                    assert(self@.dealer.subrange(0, m0.dealer.len() as int) =~= m0.dealer);
                    assert(progressed(m0, self@));
                    lemma_progressed_trans(old(self)@, m0, self@);
                    lemma_extends_trans(old(events)@, e0, e1);
                    lemma_extends_trans(old(events)@, e1, events@);
                    assert(turn_ready(self@)) by {
                        assert forall|i: int| 0 <= i < self@.seats.len() implies (#[trigger] self@.seats[i]).insurance_net == insurance_result(self@.seats[i].insurance, false) by {
                            assert(m0.seats[i].insurance_net == insurance_result(m0.seats[i].insurance, false));
                        }
                    }
                }
                continue;
            }
            let ghost m0 = self@;
            self.active = Some((seat, hand));
            proof {
                lemma_progressed_same(m0, self@);
                lemma_progressed_trans(old(self)@, m0, self@);
            }
            return;
        }
    }
}

impl Table {
    fn begin_player_turns(&mut self, events: &mut Vec<Event>)
        requires
            turn_ready(old(self)@),
        ensures
            drew_only(old(self)@, final(self)@),
            wf_core(final(self)@),
            cards_kept(old(self)@) ==> cards_kept(final(self)@),
            final(self)@.phase == Phase::PlayerTurn || final(self)@.phase == Phase::RoundOver,
            progressed(old(self)@, final(self)@),
            extends(old(events)@, final(events)@),
            nothing_pending(old(self)@) ==> final(self)@.shoe == old(self)@.shoe && final(self)@.dealer
                == old(self)@.dealer && final(self)@.opened == old(self)@.opened,
    {
        let ghost m0 = self@;
        self.phase = Phase::PlayerTurn;
        let ghost m1 = self@;
        self.advance_from(0, 0, events);
        proof {
            lemma_progressed_same(m0, m1);
            lemma_progressed_trans(m0, m1, self@);
        }
    }

    /// The dealer has blackjack (found on the peek): reveal, pay insurance
    /// at 2:1, and settle every hand — player blackjacks push, everything
    /// else loses.
    fn dealer_blackjack(&mut self, events: &mut Vec<Event>)
        requires
            base(old(self)@),
            old(self)@.dealer.len() == 2,
            spec_is_blackjack(old(self)@.dealer),
            forall|i: int| 0 <= i < old(self)@.seats.len() ==> (#[trigger] old(self)@.seats[i]).insurance_net == 0,
        ensures
            drew_only(old(self)@, final(self)@),
            wf_core(final(self)@),
            cards_kept(old(self)@) ==> cards_kept(final(self)@),
            final(self)@.phase == Phase::RoundOver,
            final(self)@.hole_revealed,
            final(self)@.shoe == old(self)@.shoe,
            final(self)@.dealer == old(self)@.dealer,
            final(self)@.opened == old(self)@.opened,
            progressed(old(self)@, final(self)@),
            extends(old(events)@, final(events)@),
    {
        self.hole_revealed = true;
        let ghost m1 = self@;
        let ghost e0 = events@;
        events.push(Event::HoleCardRevealed { card: self.dealer[1] });
        proof {
            lemma_extends_push(e0, Event::HoleCardRevealed { card: self.dealer[1] });
            lemma_progressed_same(old(self)@, m1);
        }
        let ghost e1 = events@;
        self.resolve_insurance(true, events);
        let ghost m2 = self@;
        let ghost e2 = events@;
        self.settle(events);
        proof {
            lemma_progressed_trans(old(self)@, m1, m2);
            lemma_progressed_trans(old(self)@, m2, self@);
            lemma_extends_trans(old(events)@, e1, e2);
            lemma_extends_trans(old(events)@, e2, events@);
        }
    }

    /// The American hole-card peek, made whenever the upcard is an ace or
    /// a ten-value card (after insurance resolves, with an ace up).
    fn peek(&mut self, events: &mut Vec<Event>)
        requires
            base(old(self)@),
            old(self)@.dealer.len() == 2,
            !old(self)@.hole_revealed,
            forall|i: int| 0 <= i < old(self)@.seats.len() ==> (#[trigger] old(self)@.seats[i]).insurance_net == 0,
            hands_live(old(self)@),
        ensures
            drew_only(old(self)@, final(self)@),
            wf_core(final(self)@),
            cards_kept(old(self)@) ==> cards_kept(final(self)@),
            nothing_pending(old(self)@) ==> final(self)@.shoe == old(self)@.shoe && final(self)@.dealer
                == old(self)@.dealer && final(self)@.opened == old(self)@.opened,
            final(self)@.phase == Phase::PlayerTurn || final(self)@.phase == Phase::RoundOver,
            spec_is_blackjack(old(self)@.dealer) ==> final(self)@.phase == Phase::RoundOver
                && final(self)@.hole_revealed,
            progressed(old(self)@, final(self)@),
            extends(old(events)@, final(events)@),
    {
        let blackjack = is_blackjack(self.dealer.as_slice());
        let ghost e0 = events@;
        events.push(Event::DealerPeeked { blackjack });
        proof {
            lemma_extends_push(e0, Event::DealerPeeked { blackjack });
        }
        let ghost e1 = events@;
        if blackjack {
            self.dealer_blackjack(events);
        } else {
            self.resolve_insurance(false, events);
            let ghost m1 = self@;
            let ghost e2 = events@;
            proof {
                assert(turn_ready(self@)) by {
                    assert forall|i: int| 0 <= i < self@.seats.len() implies (#[trigger] self@.seats[i]).insurance_net == insurance_result(self@.seats[i].insurance, false) by {
                        assert(self@.seats[i].insurance == old(self)@.seats[i].insurance);
                    }
                    assert forall|i: int, k: int|
                        0 <= i < self@.seats.len() && 0 <= k < self@.seats[i].hands.len()
                            && (#[trigger] self@.seats[i].hands[k]).status == HandStatus::Playing
                            && self@.seats[i].hands[k].cards.len() >= 2 implies hand_total(
                        self@.seats[i].hands[k].cards,
                    ) < 21 by {
                        assert(self@.seats[i].hands == old(self)@.seats[i].hands);
                    }
                }
            }
            self.begin_player_turns(events);
            proof {
                lemma_progressed_trans(old(self)@, m1, self@);
                lemma_extends_trans(e1, e2, events@);
            }
        }
        proof {
            lemma_extends_trans(old(events)@, e1, events@);
        }
    }
}

/// How many of the first `i` seats have a bet down.
pub open spec fn bettors_before(seats: Seq<SeatModel>, i: int) -> int
    decreases i,
{
    if i <= 0 {
        0
    } else {
        bettors_before(seats, i - 1) + if seats[i - 1].bet is Some {
            1int
        } else {
            0int
        }
    }
}

/// The card `k` places down from the top of `cards` (the top is `k == 0`).
pub open spec fn shoe_top(cards: Seq<Card>, k: int) -> Card {
    cards[cards.len() - 1 - k]
}

/// Where in the deal a card falls: pass `pass` reaches the bettor with
/// `b` bettors before it after `pass` earlier rounds of `n` bettors and
/// the dealer.
pub open spec fn deal_position(pass: int, n: int, b: int) -> int {
    if pass == 0 {
        b
    } else if pass == 1 {
        n + 1 + b
    } else {
        2 * n + 2 + b
    }
}

/// The deal order, whenever the shoe holds every card the deal needs: two
/// passes around the table from the shoe's top, bettors in seat order and
/// the dealer last, the second dealer card being the hole card.
pub open spec fn dealt_in_order(a: TableModel, b: TableModel) -> bool {
    let n = bettors_before(a.seats, a.seats.len() as int);
    let s = a.shoe.cards;
    s.len() >= 2 * n + 2 ==> {
        &&& b.dealer[0] == shoe_top(s, n)
        &&& b.dealer[1] == shoe_top(s, 2 * n + 1)
        &&& forall|i: int|
            0 <= i < a.seats.len() && a.seats[i].bet is Some ==> (#[trigger] b.seats[i]).hands[0].cards
                == seq![
                shoe_top(s, bettors_before(a.seats, i)),
                shoe_top(s, n + 1 + bettors_before(a.seats, i)),
            ]
    }
}

/// What a deal takes from the shoe, whenever the shoe holds every card
/// the deal needs: its top two cards per bettor and two for the dealer,
/// and nothing else, so the dealt count grows by as many.
pub open spec fn deal_drew(a: TableModel, b: TableModel) -> bool {
    let n = bettors_before(a.seats, a.seats.len() as int);
    let s = a.shoe.cards;
    s.len() >= 2 * n + 2 ==> {
        &&& b.shoe.cards == s.subrange(0, s.len() - (2 * n + 2))
        &&& b.shoe.discards == a.shoe.discards
        &&& b.shoe.capacity == a.shoe.capacity
        &&& b.opened == a.opened
        &&& (s.len() <= a.shoe.capacity ==> b.shoe.dealt() == a.shoe.dealt() + 2 * n + 2)
    }
}

/// The two cards dealt to the bettor at `i`, as events in deal order.
pub open spec fn seat_deal_events(a: TableModel, events: Seq<Event>, i: int) -> bool {
    let n = bettors_before(a.seats, a.seats.len() as int);
    let b = bettors_before(a.seats, i);
    let s = a.shoe.cards;
    &&& events[b] == Event::CardDealt { seat: i as usize, hand: 0, card: shoe_top(s, b) }
    &&& events[n + 1 + b] == Event::CardDealt { seat: i as usize, hand: 0, card: shoe_top(s, n + 1 + b) }
}

/// The events of the deal, in deal order, whenever the shoe holds every
/// card the deal needs: each bettor's card as it lands, the upcard after
/// the first pass, the face-down hole card after the second.
pub open spec fn dealt_events_in_order(a: TableModel, events: Seq<Event>) -> bool {
    let n = bettors_before(a.seats, a.seats.len() as int);
    let s = a.shoe.cards;
    s.len() >= 2 * n + 2 ==> {
        &&& events.len() >= 2 * n + 2
        &&& events[n] == Event::DealerCardDealt { card: shoe_top(s, n) }
        &&& events[2 * n + 1] == Event::HoleCardDealt
        &&& forall|i: int|
            0 <= i < a.seats.len() && a.seats[i].bet is Some ==> #[trigger] seat_deal_events(a, events, i)
    }
}

/// The event a deal emits at position `k` of its card order, for a
/// bettor at `seat` or (with `seat` past the last seat) the dealer.
pub open spec fn deal_event(s: Seq<Card>, pass: int, seat: usize, dealer: bool, k: int) -> Event {
    if !dealer {
        Event::CardDealt { seat, hand: 0, card: shoe_top(s, k) }
    } else if pass == 0 {
        Event::DealerCardDealt { card: shoe_top(s, k) }
    } else {
        Event::HoleCardDealt
    }
}

/// Events appended after the deal leave its record in place.
pub proof fn lemma_dealt_events_extend(a: TableModel, x: Seq<Event>, y: Seq<Event>, o: int)
    requires
        0 <= o <= x.len(),
        dealt_events_in_order(a, x.subrange(o, x.len() as int)),
        extends(x, y),
    ensures
        dealt_events_in_order(a, y.subrange(o, y.len() as int)),
{
    let n = bettors_before(a.seats, a.seats.len() as int);
    let xs = x.subrange(o, x.len() as int);
    let ys = y.subrange(o, y.len() as int);
    lemma_bettors_before_grows(a.seats, 0, a.seats.len() as int);
    if a.shoe.cards.len() >= 2 * n + 2 {
        assert forall|k: int| 0 <= k < xs.len() implies #[trigger] ys[k] == xs[k] by {
            assert(y.subrange(0, x.len() as int)[o + k] == x[o + k]);
        }
        assert(ys.len() >= 2 * n + 2);
        assert(ys[n] == xs[n]);
        assert(ys[2 * n + 1] == xs[2 * n + 1]);
        assert forall|i: int|
            0 <= i < a.seats.len() && a.seats[i].bet is Some implies #[trigger] seat_deal_events(a, ys, i) by {
            lemma_bettors_before_grows(a.seats, 0, i);
            lemma_bettors_before_grows(a.seats, i, a.seats.len() as int);
            lemma_bettors_before_grows(a.seats, i + 1, a.seats.len() as int);
            assert(seat_deal_events(a, xs, i));
            let b = bettors_before(a.seats, i);
            assert(ys[b] == xs[b]);
            assert(ys[n + 1 + b] == xs[n + 1 + b]);
        }
    }
}

/// Counting bettors: the count grows by at most one per seat.
pub proof fn lemma_bettors_before_grows(seats: Seq<SeatModel>, i: int, j: int)
    requires
        0 <= i <= j,
    ensures
        bettors_before(seats, i) <= bettors_before(seats, j),
        bettors_before(seats, j) - bettors_before(seats, i) <= j - i,
    decreases j,
{
    if j > i {
        lemma_bettors_before_grows(seats, i, j - 1);
    }
}

/// The deal order survives whatever leaves the dealt cards in place.
pub proof fn lemma_dealt_in_order_kept(a: TableModel, m: TableModel, b: TableModel)
    requires
        dealt_in_order(a, m),
        m.dealer.len() == 2,
        a.seats.len() == m.seats.len(),
        b.seats.len() == m.seats.len(),
        b.dealer.len() >= 2,
        b.dealer.subrange(0, 2) == m.dealer,
        forall|i: int|
            0 <= i < a.seats.len() && a.seats[i].bet is Some ==> (#[trigger] b.seats[i]).hands[0].cards
                == m.seats[i].hands[0].cards,
    ensures
        dealt_in_order(a, b),
{
    assert(b.dealer[0] == b.dealer.subrange(0, 2)[0]);
    assert(b.dealer[1] == b.dealer.subrange(0, 2)[1]);
    let n = bettors_before(a.seats, a.seats.len() as int);
    if a.shoe.cards.len() >= 2 * n + 2 {
        assert forall|i: int|
            0 <= i < a.seats.len() && a.seats[i].bet is Some implies (#[trigger] b.seats[i]).hands[0].cards
                == seq![
                shoe_top(a.shoe.cards, bettors_before(a.seats, i)),
                shoe_top(a.shoe.cards, n + 1 + bettors_before(a.seats, i)),
            ] by {
            assert(m.seats[i].hands[0].cards == b.seats[i].hands[0].cards);
        }
    }
}

/// A seat right after the cards went out: its bet as before, and, if it
/// bet, one fresh hand holding `k` cards, playing or a natural.
pub open spec fn dealing_seat(s: SeatModel, bet: Option<u32>, k: nat) -> bool {
    &&& s.bet == bet
    &&& s.insurance == Insurance::NotOffered
    &&& s.insurance_net == 0
    &&& s.round_net is None
    &&& match bet {
        Some(b) => {
            &&& s.hands.len() == 1
            &&& s.hands[0].cards.len() == k
            &&& s.hands[0] == HandModel {
                cards: s.hands[0].cards,
                status: s.hands[0].status,
                ..fresh_hand(b)
            }
            &&& s.hands[0].status == HandStatus::Playing || (k == 2 && s.hands[0].status
                == HandStatus::Blackjack)
        },
        None => s.hands.len() == 0,
    }
}

/// What dealing did to a seat: the bet stays, and a betting seat holds
/// one unsplit two-card hand carrying its bet.
pub open spec fn dealt_in(a: SeatModel, b: SeatModel) -> bool {
    &&& b.bet == a.bet
    &&& match a.bet {
        Some(x) => {
            &&& b.hands.len() == 1
            &&& b.hands[0].cards.len() == 2
            &&& b.hands[0].bet == x
            &&& !b.hands[0].from_split
            &&& !b.hands[0].doubled
        },
        None => b.hands.len() == 0,
    }
}

/// No hand waits on a card or on the dealer: every hand holds at least
/// two cards and none has stood.
pub open spec fn nothing_pending(m: TableModel) -> bool {
    forall|i: int, k: int|
        0 <= i < m.seats.len() && 0 <= k < m.seats[i].hands.len() ==> (#[trigger] m.seats[i].hands[k]).cards.len()
            >= 2 && m.seats[i].hands[k].status != HandStatus::Stood
}

/// What a successful deal did: two cards to every bettor and to the
/// dealer, in deal order from the shoe's top, the round under way, and
/// insurance offered exactly when the upcard is an ace and the rules
/// offer it.
pub open spec fn deal_effect(a: TableModel, b: TableModel) -> bool {
    &&& b.rules == a.rules
    &&& b.phase != Phase::Betting
    &&& b.dealer.len() >= 2
    &&& (b.phase == Phase::InsuranceOffer <==> (b.dealer[0].rank == Rank::Ace
        && a.rules.insurance_offered))
    &&& b.seats.len() == a.seats.len()
    &&& forall|i: int| 0 <= i < a.seats.len() ==> #[trigger] dealt_in(a.seats[i], b.seats[i])
    &&& forall|i: int| 0 <= i < a.seats.len() ==> !((#[trigger] b.seats[i]).insurance is Taken)
    &&& dealt_in_order(a, b)
    &&& deal_drew(a, b)
}

impl Table {
    fn require_phase(&self, phase: Phase, action: ActionKind) -> (r: Result<(), ActionError>)
        ensures
            self@.phase == phase ==> r is Ok,
            self@.phase != phase ==> r == Err::<(), ActionError>(
                ActionError::WrongPhase { action, phase: self@.phase },
            ),
    {
        if self.phase != phase {
            return Err(ActionError::WrongPhase { action, phase: self.phase });
        }
        Ok(())
    }

    fn require_active(&self, seat: usize, action: ActionKind) -> (r: Result<(usize, usize), ActionError>)
        requires
            wf(self@),
        ensures
            self@.phase != Phase::PlayerTurn ==> r == Err::<(usize, usize), ActionError>(
                ActionError::WrongPhase { action, phase: self@.phase },
            ),
            self@.phase == Phase::PlayerTurn && seat != active_seat(self@) ==> r == Err::<
                (usize, usize),
                ActionError,
            >(ActionError::OutOfTurn { seat, active_seat: active_seat(self@) }),
            self@.phase == Phase::PlayerTurn && seat == active_seat(self@) ==> r == Ok::<
                (usize, usize),
                ActionError,
            >((active_seat(self@), active_hand(self@))),
    {
        match self.require_phase(Phase::PlayerTurn, action) {
            Err(e) => return Err(e),
            Ok(()) => {},
        }
        let (active_seat, hand) = match self.active {
            Some(a) => a,
            None => (0, 0),
        };
        if seat != active_seat {
            return Err(ActionError::OutOfTurn { seat, active_seat });
        }
        Ok((active_seat, hand))
    }

    fn pending_insurance_seat(&self) -> (r: Option<usize>)
        ensures
            match r {
                Some(i) => i < self@.seats.len() && self@.seats[i as int].insurance
                    == Insurance::Pending,
                None => forall|j: int|
                    0 <= j < self@.seats.len() ==> (#[trigger] self@.seats[j]).insurance
                        != Insurance::Pending,
            },
    {
        let mut i: usize = 0;
        while i < self.seats.len()
            invariant
                i <= self@.seats.len(),
                forall|j: int| 0 <= j < i ==> (#[trigger] self@.seats[j]).insurance != Insurance::Pending,
            decreases self.seats.len() - i,
        {
            assert(self.seats@[i as int]@ == self@.seats[i as int]);
            if self.seats[i].insurance == Insurance::Pending {
                return Some(i);
            }
            i = i + 1;
        }
        None
    }

    fn place_bet(&mut self, seat: usize, amount: u32, events: &mut Vec<Event>) -> (r: Result<
        (),
        ActionError,
    >)
        requires
            wf(old(self)@),
            seat < old(self)@.seats.len(),
        ensures
            drew_only(old(self)@, final(self)@),
            match spec_apply_error(old(self)@, seat, Action::PlaceBet(amount)) {
                Some(e) => r == Err::<(), ActionError>(e) && final(self)@ == old(self)@
                    && final(events)@ == old(events)@,
                None => r is Ok && wf(final(self)@) && final(self)@ == upd_seat(
                    old(self)@,
                    seat as int,
                    SeatModel { bet: Some(amount), ..old(self)@.seats[seat as int] },
                ) && final(events)@ == old(events)@.push(Event::BetPlaced { seat, amount }),
            },
    {
        match self.require_phase(Phase::Betting, ActionKind::PlaceBet) {
            Err(e) => return Err(e),
            Ok(()) => {},
        }
        if amount < self.rules.min_bet || amount > self.rules.max_bet {
            return Err(
                ActionError::BetOutOfRange {
                    bet: amount,
                    min: self.rules.min_bet,
                    max: self.rules.max_bet,
                },
            );
        }
        let mut st = self.take_seat(seat);
        st.bet = Some(amount);
        let ghost sv = st@;
        self.put_seat(seat, st);
        proof {
            let m = old(self)@;
            assert(sv == SeatModel { bet: Some(amount), ..m.seats[seat as int] });
            assert(seat_base(m.seats[seat as int], m.rules));
            lemma_base_upd_seat(m, seat as int, sv);
            lemma_kept_upd_seat(m, seat as int, sv);
            assert(self@ == upd_seat(m, seat as int, sv)) by {
                assert(self@.seats =~= upd_seat(m, seat as int, sv).seats);
            }
            assert forall|i: int| 0 <= i < self@.seats.len() implies (#[trigger] self@.seats[i]).hands.len() == 0
                && self@.seats[i].insurance == Insurance::NotOffered && self@.seats[i].insurance_net
                == 0 && self@.seats[i].round_net is None by {
                assert(m.seats[i].hands.len() == 0);
            }
        }
        events.push(Event::BetPlaced { seat, amount });
        Ok(())
    }
}

impl Table {
    #[verifier::spinoff_prover]
    #[verifier::rlimit(40)]
    fn deal(&mut self, events: &mut Vec<Event>) -> (r: Result<(), ActionError>)
        requires
            wf(old(self)@),
        ensures
            drew_only(old(self)@, final(self)@),
            old(self)@.phase != Phase::Betting ==> r == Err::<(), ActionError>(
                ActionError::WrongPhase { action: ActionKind::Deal, phase: old(self)@.phase },
            ) && final(self)@ == old(self)@ && final(events)@ == old(events)@,
            old(self)@.phase == Phase::Betting && !any_bet(old(self)@) ==> r == Err::<
                (),
                ActionError,
            >(ActionError::NoBetsPlaced) && final(self)@ == old(self)@ && final(events)@ == old(
                events,
            )@,
            old(self)@.phase == Phase::Betting && any_bet(old(self)@) ==> r is Ok && wf(
                final(self)@,
            ) && deal_effect(old(self)@, final(self)@) && extends(old(events)@, final(events)@)
                && dealt_events_in_order(
                old(self)@,
                final(events)@.subrange(old(events)@.len() as int, final(events)@.len() as int),
            ),
    {
        match self.require_phase(Phase::Betting, ActionKind::Deal) {
            Err(e) => return Err(e),
            Ok(()) => {},
        }
        if !self.any_bet() {
            return Err(ActionError::NoBetsPlaced);
        }
        let ghost m0 = self@;
        let n = self.seats.len();
        proof {
            lemma_extends_refl(events@);
        }
        // Fresh hands for every betting seat.
        let mut i: usize = 0;
        while i < n
            invariant
                n == m0.seats.len(),
                i <= n,
                wf(m0),
                m0.phase == Phase::Betting,
                base(self@),
                self@ == (TableModel { seats: self@.seats, ..m0 }),
                self@.seats.len() == n,
                forall|j: int| 0 <= j < i ==> #[trigger] dealing_seat(self@.seats[j], m0.seats[j].bet, 0),
                forall|j: int| i <= j < n ==> self@.seats[j] == #[trigger] m0.seats[j],
            decreases n - i,
        {
            assert(self.seats@[i as int]@ == self@.seats[i as int]);
            assert(seat_base(m0.seats[i as int], m0.rules));
            let ghost m1 = self@;
            match self.seats[i].bet {
                Some(bet) => {
                    let mut st = self.take_seat(i);
                    st.hands = vec![HandState::new(bet)];
                    let ghost sv = st@;
                    self.put_seat(i, st);
                    proof {
                        assert(sv.hands =~= seq![fresh_hand(bet)]);
                        assert(hand_base(fresh_hand(bet), m0.rules));
                        assert(seat_base(sv, m0.rules)) by {
                            assert forall|k: int| 0 <= k < sv.hands.len() implies #[trigger] hand_base(sv.hands[k], m0.rules) by {
                                assert(sv.hands[k] == fresh_hand(bet));
                            }
                        }
                        lemma_base_upd_seat(m1, i as int, sv);
                        assert(self@.seats =~= upd_seat(m1, i as int, sv).seats);
                        assert(sv.hands[0].cards =~= Seq::<Card>::empty());
                        assert(dealing_seat(sv, m0.seats[i as int].bet, 0));
                    }
                },
                None => {
                    proof {
                        assert(dealing_seat(m0.seats[i as int], m0.seats[i as int].bet, 0));
                    }
                },
            }
            proof {
                assert forall|j: int| 0 <= j < i + 1 implies #[trigger] dealing_seat(self@.seats[j], m0.seats[j].bet, 0) by {
                    if j < i {
                        assert(self@.seats[j] == m1.seats[j]);
                    }
                }
            }
            i = i + 1;
        }
        proof {
            assert forall|j: int| 0 <= j < n implies hands_cards((#[trigger] m0.seats[j]).hands)
                == hands_cards(self@.seats[j].hands) by {
                let hs = self@.seats[j].hands;
                assert(dealing_seat(self@.seats[j], m0.seats[j].bet, 0));
                assert(m0.seats[j].hands.len() == 0);
                if hs.len() == 1 {
                    assert(hs.drop_last().len() == 0);
                    assert(hands_cards(hs.drop_last()) == Seq::<Card>::empty());
                    assert(hs.last() == hs[0]);
                    assert(hs[0].cards.len() == 0);
                    assert(hands_cards(hs) =~= Seq::<Card>::empty());
                }
            }
            lemma_seats_cards_same_runs(m0.seats, self@.seats);
            assert(felt_cards(self@) == felt_cards(m0));
        }
        // Two passes around the table, dealer last, hole card face down.
        let ghost s = m0.shoe.cards;
        let ghost nb = bettors_before(m0.seats, n as int);
        let ghost enough = s.len() >= 2 * nb + 2;
        proof {
            lemma_bettors_before_grows(m0.seats, 0, n as int);
            assert(self@.shoe == m0.shoe);
            assert(s.subrange(0, s.len() - deal_position(0, nb, 0)) =~= s);
        }
        let mut pass: usize = 0;
        while pass < 2
            invariant
                n == m0.seats.len(),
                pass <= 2,
                m0.phase == Phase::Betting,
                s == m0.shoe.cards,
                nb == bettors_before(m0.seats, n as int),
                0 <= nb <= n,
                enough == (s.len() >= 2 * nb + 2),
                enough ==> self@.shoe.cards == s.subrange(0, s.len() - deal_position(pass as int, nb, 0)),
                enough ==> self@.shoe.discards == m0.shoe.discards && self@.opened == m0.opened,
                drew_only(m0, self@),
                enough ==> forall|j: int, p: int|
                    0 <= j < n && m0.seats[j].bet is Some && 0 <= p < pass ==> #[trigger] self@.seats[j].hands[0].cards[p]
                        == shoe_top(s, deal_position(p, nb, bettors_before(m0.seats, j))),
                enough ==> forall|p: int| 0 <= p < pass ==> #[trigger] self@.dealer[p] == shoe_top(s, deal_position(p, nb, nb)),
                enough ==> events@.len() == old(events)@.len() + deal_position(pass as int, nb, 0),
                enough ==> forall|j: int, p: int|
                    0 <= j < n && m0.seats[j].bet is Some && 0 <= p < pass ==> #[trigger] events@[old(events)@.len()
                        + deal_position(p, nb, bettors_before(m0.seats, j))] == deal_event(
                        s,
                        p,
                        j as usize,
                        false,
                        deal_position(p, nb, bettors_before(m0.seats, j)),
                    ),
                enough ==> forall|p: int| 0 <= p < pass ==> #[trigger] events@[old(events)@.len() + deal_position(p, nb, nb)]
                    == deal_event(s, p, n, true, deal_position(p, nb, nb)),
                cards_kept(self@),
                base(self@),
                self@.rules == m0.rules,
                self@.phase == Phase::Betting,
                self@.active is None,
                !self@.hole_revealed,
                self@.seats.len() == n,
                self@.dealer.len() == pass,
                forall|j: int| 0 <= j < n ==> #[trigger] dealing_seat(self@.seats[j], m0.seats[j].bet, pass as nat),
                extends(old(events)@, events@),
            decreases 2 - pass,
        {
            let ghost k: nat = (pass + 1) as nat;
            let ghost d0 = self@.dealer;
            let ghost ev0 = events@;
            let mut seat: usize = 0;
            while seat < n
                invariant
                    n == m0.seats.len(),
                    pass < 2,
                    k == pass + 1,
                    seat <= n,
                    s == m0.shoe.cards,
                    nb == bettors_before(m0.seats, n as int),
                    0 <= nb <= n,
                    enough == (s.len() >= 2 * nb + 2),
                    self@.dealer == d0,
                    enough ==> forall|p: int| 0 <= p < pass ==> #[trigger] d0[p] == shoe_top(s, deal_position(p, nb, nb)),
                    enough ==> self@.shoe.cards == s.subrange(
                        0,
                        s.len() - deal_position(pass as int, nb, bettors_before(m0.seats, seat as int)),
                    ),
                    enough ==> self@.shoe.discards == m0.shoe.discards && self@.opened == m0.opened,
                    drew_only(m0, self@),
                    enough ==> forall|j: int, p: int|
                        0 <= j < n && m0.seats[j].bet is Some && 0 <= p < (if j < seat { pass + 1 } else { pass as int })
                            ==> #[trigger] self@.seats[j].hands[0].cards[p] == shoe_top(
                            s,
                            deal_position(p, nb, bettors_before(m0.seats, j)),
                        ),
                    cards_kept(self@),
                    enough ==> events@.len() == old(events)@.len() + deal_position(
                        pass as int,
                        nb,
                        bettors_before(m0.seats, seat as int),
                    ),
                    enough ==> events@.subrange(0, ev0.len() as int) == ev0,
                    enough ==> ev0.len() == old(events)@.len() + deal_position(pass as int, nb, 0),
                    enough ==> forall|j: int, p: int|
                        0 <= j < n && m0.seats[j].bet is Some && 0 <= p < (if j < seat { pass + 1 } else { pass as int })
                            ==> #[trigger] events@[old(events)@.len() + deal_position(p, nb, bettors_before(m0.seats, j))]
                            == deal_event(s, p, j as usize, false, deal_position(p, nb, bettors_before(m0.seats, j))),
                    base(self@),
                    self@.rules == m0.rules,
                    self@.phase == Phase::Betting,
                    self@.active is None,
                    !self@.hole_revealed,
                    self@.seats.len() == n,
                    self@.dealer.len() == pass,
                    forall|j: int| 0 <= j < seat ==> #[trigger] dealing_seat(self@.seats[j], m0.seats[j].bet, k),
                    forall|j: int| seat <= j < n ==> #[trigger] dealing_seat(self@.seats[j], m0.seats[j].bet, pass as nat),
                    extends(old(events)@, events@),
                decreases n - seat,
            {
                assert(self.seats@[seat as int]@ == self@.seats[seat as int]);
                assert(dealing_seat(self@.seats[seat as int], m0.seats[seat as int].bet, pass as nat));
                let ghost x = deal_position(pass as int, nb, bettors_before(m0.seats, seat as int));
                proof {
                    lemma_bettors_before_grows(m0.seats, 0, seat as int);
                    lemma_bettors_before_grows(m0.seats, seat as int, n as int);
                }
                if self.seats[seat].bet.is_some() {
                    let ghost m1 = self@;
                    let ghost e1 = events@;
                    proof {
                        crate::hand::lemma_hard_total_bounded(m1.seats[seat as int].hands[0].cards);
                    }
                    let c = self.deal_to_hand(seat, 0, events);
                    proof {
                        lemma_drew_only_trans(m0, m1, self@);
                        lemma_extends_trans(old(events)@, e1, events@);
                        assert forall|j: int| 0 <= j < n && j != seat implies self@.seats[j] == m1.seats[j] by {}
                        let h = self@.seats[seat as int].hands[0];
                        assert(h.cards.len() == pass + 1);
                        assert(dealing_seat(self@.seats[seat as int], m0.seats[seat as int].bet, k));
                        assert(bettors_before(m0.seats, seat as int + 1) == bettors_before(m0.seats, seat as int) + 1);
                        if enough {
                            lemma_bettors_before_grows(m0.seats, seat as int + 1, n as int);
                            let rest = s.subrange(0, s.len() - x);
                            assert(m1.shoe.cards == rest);
                            assert(rest.len() > 0);
                            assert(c == shoe_top(s, x));
                            assert(self@.shoe.cards =~= s.subrange(0, s.len() - (x + 1)));
                            assert(h.cards == m1.seats[seat as int].hands[0].cards.push(c));
                            assert forall|j: int, p: int|
                                0 <= j < n && m0.seats[j].bet is Some && 0 <= p < (if j < seat + 1 { pass + 1 } else { pass as int })
                                implies #[trigger] self@.seats[j].hands[0].cards[p] == shoe_top(
                                    s,
                                    deal_position(p, nb, bettors_before(m0.seats, j)),
                                ) by {
                                if j != seat {
                                    assert(self@.seats[j] == m1.seats[j]);
                                } else if p < pass {
                                    assert(h.cards[p] == m1.seats[seat as int].hands[0].cards[p]);
                                }
                            }
                            let o = old(events)@.len();
                            assert(events@ == e1.push(Event::CardDealt { seat, hand: 0, card: c }));
                            assert(events@.subrange(0, ev0.len() as int) =~= e1.subrange(0, ev0.len() as int));
                            assert forall|j: int, p: int|
                                0 <= j < n && m0.seats[j].bet is Some && 0 <= p < (if j < seat + 1 { pass + 1 } else { pass as int })
                                implies #[trigger] events@[o + deal_position(p, nb, bettors_before(m0.seats, j))]
                                == deal_event(s, p, j as usize, false, deal_position(p, nb, bettors_before(m0.seats, j))) by {
                                lemma_bettors_before_grows(m0.seats, 0, j);
                                lemma_bettors_before_grows(m0.seats, j, n as int);
                                if j < seat {
                                    lemma_bettors_before_grows(m0.seats, j + 1, seat as int);
                                    assert(bettors_before(m0.seats, j + 1) == bettors_before(m0.seats, j) + 1);
                                }
                                if j > seat {
                                    lemma_bettors_before_grows(m0.seats, j + 1, n as int);
                                    assert(bettors_before(m0.seats, j + 1) == bettors_before(m0.seats, j) + 1);
                                }
                                if j == seat && p == pass {
                                } else {
                                    assert(e1[o + deal_position(p, nb, bettors_before(m0.seats, j))] == deal_event(
                                        s,
                                        p,
                                        j as usize,
                                        false,
                                        deal_position(p, nb, bettors_before(m0.seats, j)),
                                    ));
                                }
                            }
                        }
                    }
                } else {
                    proof {
                        assert(dealing_seat(self@.seats[seat as int], m0.seats[seat as int].bet, k));
                        assert(bettors_before(m0.seats, seat as int + 1) == bettors_before(m0.seats, seat as int));
                    }
                }
                seat = seat + 1;
            }
            let ghost m2 = self@;
            let ghost e2 = events@;
            proof {
                lemma_bettors_before_grows(m0.seats, 0, n as int);
            }
            let card = self.draw_card(events);
            let ghost m2b = self@;
            proof {
                lemma_drew_only_trans(m0, m2, m2b);
                if enough {
                    let y = deal_position(pass as int, nb, nb);
                    assert(m2.shoe.cards == s.subrange(0, s.len() - y));
                    assert(card == shoe_top(s, y));
                    assert(self@.shoe.cards =~= s.subrange(0, s.len() - deal_position(pass as int + 1, nb, 0)));
                }
            }
            self.dealer.push(card);
            proof {
                crate::hand::lemma_hard_total_bounded(self@.dealer);
            }
            let ghost e3 = events@;
            if pass == 0 {
                events.push(Event::DealerCardDealt { card });
                proof { lemma_extends_push(e3, Event::DealerCardDealt { card }); }
            } else {
                events.push(Event::HoleCardDealt);
                proof { lemma_extends_push(e3, Event::HoleCardDealt); }
            }
            proof {
                lemma_extends_trans(old(events)@, e2, e3);
                lemma_extends_trans(old(events)@, e3, events@);
                assert(self@.seats == m2.seats);
                lemma_felt_dealer_push(m2, card);
                assert(felt_cards(self@) == felt_cards(TableModel { dealer: m2.dealer.push(card), ..m2 }));
                assert(shoe_held(m2b) == shoe_held(self@));
                lemma_kept_felt_gains(m2, self@, card);
            }
            pass = pass + 1;
            proof {
                assert(pass as nat == k);
                assert forall|j: int| 0 <= j < n implies #[trigger] dealing_seat(self@.seats[j], m0.seats[j].bet, pass as nat) by {
                    assert(dealing_seat(m2.seats[j], m0.seats[j].bet, k));
                }
                if enough {
                    let o = old(events)@.len();
                    let y = deal_position(pass - 1, nb, nb);
                    assert(e3 == e2);
                    assert(e2.len() == o + y);
                    assert(events@ == e2.push(deal_event(s, pass - 1, n, true, y)));
                    assert forall|j: int, p: int|
                        0 <= j < n && m0.seats[j].bet is Some && 0 <= p < pass implies #[trigger] events@[o
                            + deal_position(p, nb, bettors_before(m0.seats, j))] == deal_event(
                            s,
                            p,
                            j as usize,
                            false,
                            deal_position(p, nb, bettors_before(m0.seats, j)),
                        ) by {
                        lemma_bettors_before_grows(m0.seats, 0, j);
                        lemma_bettors_before_grows(m0.seats, j, n as int);
                        lemma_bettors_before_grows(m0.seats, j + 1, n as int);
                        assert(bettors_before(m0.seats, j + 1) == bettors_before(m0.seats, j) + 1);
                        assert(e2[o + deal_position(p, nb, bettors_before(m0.seats, j))] == deal_event(
                            s,
                            p,
                            j as usize,
                            false,
                            deal_position(p, nb, bettors_before(m0.seats, j)),
                        ));
                    }
                    assert forall|p: int| 0 <= p < pass implies #[trigger] events@[o + deal_position(p, nb, nb)]
                        == deal_event(s, p, n, true, deal_position(p, nb, nb)) by {
                        if p < pass - 1 {
                            assert(e2[o + deal_position(p, nb, nb)] == deal_event(s, p, n, true, deal_position(p, nb, nb)));
                        }
                    }
                    assert forall|j: int, p: int|
                        0 <= j < n && m0.seats[j].bet is Some && 0 <= p < pass implies #[trigger] self@.seats[j].hands[0].cards[p]
                            == shoe_top(s, deal_position(p, nb, bettors_before(m0.seats, j))) by {
                        assert(self@.seats[j] == m2.seats[j]);
                    }
                    assert forall|p: int| 0 <= p < pass implies #[trigger] self@.dealer[p] == shoe_top(s, deal_position(p, nb, nb)) by {
                        if p < pass - 1 {
                            assert(self@.dealer[p] == d0[p]);
                        }
                    }
                }
            }
        }
        // Flag naturals before anyone acts.
        let ghost mp = self@;
        let ghost e_mp = events@;
        proof {
            if enough {
                let o = old(events)@.len();
                let xs = e_mp.subrange(o as int, e_mp.len() as int);
                assert(deal_position(2, nb, 0) == 2 * nb + 2);
                assert(xs[nb] == e_mp[o + deal_position(0, nb, nb)]);
                assert(xs[2 * nb + 1] == e_mp[o + deal_position(1, nb, nb)]);
                assert forall|i: int|
                    0 <= i < m0.seats.len() && m0.seats[i].bet is Some implies #[trigger] seat_deal_events(m0, xs, i) by {
                    lemma_bettors_before_grows(m0.seats, 0, i);
                    lemma_bettors_before_grows(m0.seats, i, n as int);
                    lemma_bettors_before_grows(m0.seats, i + 1, n as int);
                    let b = bettors_before(m0.seats, i);
                    assert(e_mp[o + deal_position(0, nb, b)] == deal_event(s, 0, i as usize, false, deal_position(0, nb, b)));
                    assert(e_mp[o + deal_position(1, nb, b)] == deal_event(s, 1, i as usize, false, deal_position(1, nb, b)));
                }
                assert(dealt_events_in_order(m0, xs));
                assert forall|j: int|
                    0 <= j < n && m0.seats[j].bet is Some implies #[trigger] mp.seats[j].hands[0].cards
                        == seq![
                        shoe_top(s, bettors_before(m0.seats, j)),
                        shoe_top(s, nb + 1 + bettors_before(m0.seats, j)),
                    ] by {
                    assert(dealing_seat(mp.seats[j], m0.seats[j].bet, 2));
                    assert(mp.seats[j].hands[0].cards[0] == shoe_top(s, deal_position(0, nb, bettors_before(m0.seats, j))));
                    assert(mp.seats[j].hands[0].cards[1] == shoe_top(s, deal_position(1, nb, bettors_before(m0.seats, j))));
                    assert(mp.seats[j].hands[0].cards =~= seq![
                        shoe_top(s, bettors_before(m0.seats, j)),
                        shoe_top(s, nb + 1 + bettors_before(m0.seats, j)),
                    ]);
                }
                assert(mp.dealer[0] == shoe_top(s, deal_position(0, nb, nb)));
                assert(mp.dealer[1] == shoe_top(s, deal_position(1, nb, nb)));
            }
        }
        proof {
            lemma_extends_refl(e_mp);
        }
        let mut seat: usize = 0;
        while seat < n
            invariant
                n == m0.seats.len(),
                seat <= n,
                self@.dealer == mp.dealer,
                self@.shoe == mp.shoe,
                self@.opened == mp.opened,
                forall|j: int| 0 <= j < n ==> (#[trigger] self@.seats[j]).hands.len() == mp.seats[j].hands.len(),
                forall|j: int|
                    0 <= j < n && m0.seats[j].bet is Some ==> (#[trigger] self@.seats[j]).hands[0].cards
                        == mp.seats[j].hands[0].cards,
                cards_kept(self@),
                extends(e_mp, events@),
                base(self@),
                self@.rules == m0.rules,
                self@.phase == Phase::Betting,
                self@.active is None,
                !self@.hole_revealed,
                self@.seats.len() == n,
                self@.dealer.len() == 2,
                forall|j: int| 0 <= j < n ==> #[trigger] dealing_seat(self@.seats[j], m0.seats[j].bet, 2),
                forall|j: int|
                    0 <= j < seat && m0.seats[j].bet is Some && (#[trigger] self@.seats[j]).hands[0].status
                        == HandStatus::Playing ==> !spec_is_blackjack(self@.seats[j].hands[0].cards),
                extends(old(events)@, events@),
            decreases n - seat,
        {
            assert(self.seats@[seat as int]@ == self@.seats[seat as int]);
            assert(dealing_seat(self@.seats[seat as int], m0.seats[seat as int].bet, 2));
            if self.seats[seat].bet.is_some() {
                assert(self.seats@[seat as int].hands@[0]@ == self@.seats[seat as int].hands[0]);
                if is_blackjack(self.seats[seat].hands[0].cards.as_slice()) {
                    let ghost m1 = self@;
                    self.set_hand_status(seat, 0, HandStatus::Blackjack);
                    let ghost e1 = events@;
                    events.push(Event::PlayerBlackjack { seat });
                    proof {
                        lemma_extends_push(e1, Event::PlayerBlackjack { seat });
                        lemma_extends_trans(old(events)@, e1, events@);
                        lemma_extends_trans(e_mp, e1, events@);
                        let nh = HandModel { status: HandStatus::Blackjack, ..m1.seats[seat as int].hands[0] };
                        assert(hand_base(nh, m1.rules)) by {
                            assert(seat_base(m1.seats[seat as int], m1.rules));
                            assert(hand_base(m1.seats[seat as int].hands[0], m1.rules));
                        }
                        lemma_base_upd_hand(m1, seat as int, 0, nh);
                        lemma_kept_upd_hand(m1, seat as int, 0, nh);
                        assert forall|j: int| 0 <= j < n implies #[trigger] dealing_seat(self@.seats[j], m0.seats[j].bet, 2) by {
                            if j != seat {
                                assert(self@.seats[j] == m1.seats[j]);
                            }
                        }
                    }
                }
            }
            seat = seat + 1;
        }
        let ghost m3 = self@;
        proof {
            assert forall|i: int| 0 <= i < n implies #[trigger] dealt_in(m0.seats[i], m3.seats[i]) by {
                assert(dealing_seat(m3.seats[i], m0.seats[i].bet, 2));
            }
            assert(dealt_in_order(m0, m3));
            assert forall|i: int, k: int|
                0 <= i < m3.seats.len() && 0 <= k < m3.seats[i].hands.len() implies (#[trigger] m3.seats[i].hands[k]).cards.len()
                    >= 2 && m3.seats[i].hands[k].status != HandStatus::Stood by {
                assert(dealing_seat(m3.seats[i], m0.seats[i].bet, 2));
            }
            assert(nothing_pending(m3));
            assert forall|i: int, k: int|
                0 <= i < m3.seats.len() && 0 <= k < m3.seats[i].hands.len()
                    && (#[trigger] m3.seats[i].hands[k]).status == HandStatus::Playing
                    && m3.seats[i].hands[k].cards.len() >= 2 implies hand_total(m3.seats[i].hands[k].cards) < 21 by {
                assert(dealing_seat(m3.seats[i], m0.seats[i].bet, 2));
                crate::hand::lemma_hard_total_bounded(m3.seats[i].hands[k].cards);
            }
            assert(hands_live(m3));
            assert(drew_only(m0, m3));
        }
        let upcard = self.dealer[0];
        if upcard.rank.is_ace() && self.rules.insurance_offered {
            // Insurance must resolve before the peek.
            let mut seat: usize = 0;
            while seat < n
                invariant
                    n == m0.seats.len(),
                    seat <= n,
                    base(self@),
                    self@ == (TableModel { seats: self@.seats, ..m3 }),
                    self@.seats.len() == n,
                    forall|j: int| 0 <= j < seat ==> #[trigger] self@.seats[j] == (SeatModel {
                        insurance: if m3.seats[j].bet is Some { Insurance::Pending } else { Insurance::NotOffered },
                        ..m3.seats[j]
                    }),
                    forall|j: int| seat <= j < n ==> #[trigger] self@.seats[j] == m3.seats[j],
                    forall|j: int| 0 <= j < n ==> #[trigger] dealing_seat(m3.seats[j], m0.seats[j].bet, 2),
                    cards_kept(self@),
                decreases n - seat,
            {
                assert(self.seats@[seat as int]@ == self@.seats[seat as int]);
                let ghost m1 = self@;
                assert(dealing_seat(m3.seats[seat as int], m0.seats[seat as int].bet, 2));
                if self.seats[seat].bet.is_some() {
                    let mut st = self.take_seat(seat);
                    st.insurance = Insurance::Pending;
                    let ghost sv = st@;
                    self.put_seat(seat, st);
                    proof {
                        assert(seat_base(m1.seats[seat as int], m1.rules));
                        assert(seat_base(sv, m1.rules)) by {
                            assert forall|k: int| 0 <= k < sv.hands.len() implies #[trigger] hand_base(sv.hands[k], m1.rules) by {
                                assert(hand_base(m1.seats[seat as int].hands[k], m1.rules));
                            }
                        }
                        lemma_base_upd_seat(m1, seat as int, sv);
                        assert(self@.seats =~= upd_seat(m1, seat as int, sv).seats);
                        lemma_kept_upd_seat(m1, seat as int, sv);
                    }
                }
                proof {
                    assert forall|j: int| 0 <= j < seat + 1 implies #[trigger] self@.seats[j] == (SeatModel {
                        insurance: if m3.seats[j].bet is Some { Insurance::Pending } else { Insurance::NotOffered },
                        ..m3.seats[j]
                    }) by {
                        if j < seat {
                            assert(self@.seats[j] == m1.seats[j]);
                        }
                    }
                }
                seat = seat + 1;
            }
            let ghost e1 = events@;
            events.push(Event::InsuranceOffered);
            proof {
                lemma_extends_push(e1, Event::InsuranceOffered);
                lemma_extends_trans(old(events)@, e1, events@);
                lemma_extends_trans(e_mp, e1, events@);
            }
            self.phase = Phase::InsuranceOffer;
            let first = self.pending_insurance_seat();
            proof {
                let w = choose|w: int| 0 <= w < m0.seats.len() && (#[trigger] m0.seats[w]).bet is Some;
                assert(dealing_seat(m3.seats[w], m0.seats[w].bet, 2));
                assert(self@.seats[w].insurance == Insurance::Pending);
            }
            let s = match first {
                Some(s) => s,
                None => 0,
            };
            self.active = Some((s, 0));
            proof {
                assert(self@.dealer.subrange(0, 2) =~= m3.dealer);
                lemma_dealt_in_order_kept(m0, m3, self@);
                assert forall|i: int, k: int|
                    0 <= i < self@.seats.len() && 0 <= k < self@.seats[i].hands.len()
                        && (#[trigger] self@.seats[i].hands[k]).status == HandStatus::Playing
                        && self@.seats[i].hands[k].cards.len() >= 2 implies hand_total(
                    self@.seats[i].hands[k].cards,
                ) < 21 by {
                    assert(self@.seats[i].hands == m3.seats[i].hands);
                }
                assert(dealing_seat(m3.seats[s as int], m0.seats[s as int].bet, 2));
                assert forall|i: int| 0 <= i < n implies #[trigger] dealt_in(m0.seats[i], self@.seats[i]) by {
                    assert(dealt_in(m0.seats[i], m3.seats[i]));
                }
                assert forall|i: int| 0 <= i < n implies (#[trigger] self@.seats[i]).insurance_net == 0 by {
                    assert(dealing_seat(m3.seats[i], m0.seats[i].bet, 2));
                }
                assert forall|i: int| 0 <= i < n implies !((#[trigger] self@.seats[i]).insurance is Taken) by {
                    assert(dealing_seat(m3.seats[i], m0.seats[i].bet, 2));
                }
            }
        } else if upcard.rank.is_ace() || upcard.rank.is_ten_value() {
            proof {
                assert forall|i: int| 0 <= i < n implies (#[trigger] self@.seats[i]).insurance_net == 0 by {
                    assert(dealing_seat(m3.seats[i], m0.seats[i].bet, 2));
                }
            }
            let ghost e1 = events@;
            self.peek(events);
            proof {
                lemma_drew_only_trans(m0, m3, self@);
                lemma_extends_trans(old(events)@, e1, events@);
                lemma_extends_trans(e_mp, e1, events@);
                assert(self@.dealer[0] == m3.dealer[0]) by {
                    assert(self@.dealer.subrange(0, 2)[0] == self@.dealer[0]);
                }
                assert forall|i: int| 0 <= i < n implies #[trigger] dealt_in(m0.seats[i], self@.seats[i]) by {
                    assert(dealt_in(m0.seats[i], m3.seats[i]));
                    assert(seat_progressed(m3.seats[i], self@.seats[i]));
                    if m0.seats[i].bet is Some {
                        assert(hand_progressed(m3.seats[i].hands[0], self@.seats[i].hands[0]));
                    }
                }
                assert forall|i: int| 0 <= i < n implies !((#[trigger] self@.seats[i]).insurance is Taken) by {
                    assert(dealing_seat(m3.seats[i], m0.seats[i].bet, 2));
                    assert(seat_progressed(m3.seats[i], self@.seats[i]));
                }
                assert forall|i: int| 0 <= i < n && m0.seats[i].bet is Some implies (#[trigger] self@.seats[i]).hands[0].cards
                    == m3.seats[i].hands[0].cards by {
                    assert(dealing_seat(m3.seats[i], m0.seats[i].bet, 2));
                    assert(seat_progressed(m3.seats[i], self@.seats[i]));
                    assert(hand_progressed(m3.seats[i].hands[0], self@.seats[i].hands[0]));
                }
                lemma_dealt_in_order_kept(m0, m3, self@);
            }
        } else {
            proof {
                lemma_no_natural_without_ace_or_ten(self@.dealer);
                assert forall|i: int| 0 <= i < n implies (#[trigger] self@.seats[i]).insurance_net
                    == insurance_result(self@.seats[i].insurance, false) by {
                    assert(dealing_seat(m3.seats[i], m0.seats[i].bet, 2));
                }
            }
            let ghost e1 = events@;
            self.begin_player_turns(events);
            proof {
                lemma_drew_only_trans(m0, m3, self@);
                lemma_extends_trans(old(events)@, e1, events@);
                lemma_extends_trans(e_mp, e1, events@);
                assert(self@.dealer[0] == m3.dealer[0]) by {
                    assert(self@.dealer.subrange(0, 2)[0] == self@.dealer[0]);
                }
                assert forall|i: int| 0 <= i < n implies #[trigger] dealt_in(m0.seats[i], self@.seats[i]) by {
                    assert(dealt_in(m0.seats[i], m3.seats[i]));
                    assert(seat_progressed(m3.seats[i], self@.seats[i]));
                    if m0.seats[i].bet is Some {
                        assert(hand_progressed(m3.seats[i].hands[0], self@.seats[i].hands[0]));
                    }
                }
                assert forall|i: int| 0 <= i < n implies !((#[trigger] self@.seats[i]).insurance is Taken) by {
                    assert(dealing_seat(m3.seats[i], m0.seats[i].bet, 2));
                    assert(seat_progressed(m3.seats[i], self@.seats[i]));
                }
                assert forall|i: int| 0 <= i < n && m0.seats[i].bet is Some implies (#[trigger] self@.seats[i]).hands[0].cards
                    == m3.seats[i].hands[0].cards by {
                    assert(dealing_seat(m3.seats[i], m0.seats[i].bet, 2));
                    assert(seat_progressed(m3.seats[i], self@.seats[i]));
                    assert(hand_progressed(m3.seats[i].hands[0], self@.seats[i].hands[0]));
                }
                lemma_dealt_in_order_kept(m0, m3, self@);
            }
        }
        proof {
            if enough {
                lemma_dealt_events_extend(m0, e_mp, events@, old(events)@.len() as int);
                assert(deal_position(2, nb, 0) == 2 * nb + 2);
                assert(self@.shoe == mp.shoe);
                assert(deal_drew(m0, self@));
            }
        }
        Ok(())
    }
}

/// Replacing one hand by a hand that is not a live hand at 21 or more
/// keeps every live hand under 21.
pub proof fn lemma_hands_live_upd(m: TableModel, s: int, h: int, x: HandModel)
    requires
        hands_live(m),
        0 <= s < m.seats.len(),
        0 <= h < m.seats[s].hands.len(),
        x.status == HandStatus::Playing && x.cards.len() >= 2 ==> hand_total(x.cards) < 21,
    ensures
        hands_live(upd_hand(m, s, h, x)),
{
    let n = upd_hand(m, s, h, x);
    assert forall|i: int, k: int|
        0 <= i < n.seats.len() && 0 <= k < n.seats[i].hands.len() && (#[trigger] n.seats[i].hands[k]).status
            == HandStatus::Playing && n.seats[i].hands[k].cards.len() >= 2 implies hand_total(
        n.seats[i].hands[k].cards,
    ) < 21 by {
        if i != s || k != h {
            assert(n.seats[i].hands[k] == m.seats[i].hands[k]);
        }
    }
}

/// A hand dealt a card and then resolved leaves every live hand under 21.
pub proof fn lemma_live_after_resolve(m0: TableModel, ma: TableModel, m2: TableModel, s: int, h: int)
    requires
        hands_live(m0),
        0 <= s < m0.seats.len(),
        0 <= h < m0.seats[s].hands.len(),
        ma.seats == upd_hand(
            m0,
            s,
            h,
            HandModel { cards: ma.seats[s].hands[h].cards, ..m0.seats[s].hands[h] },
        ).seats,
        m2.seats == upd_hand(
            ma,
            s,
            h,
            HandModel { status: auto_status(ma.seats[s].hands[h], ma.rules), ..ma.seats[s].hands[h] },
        ).seats,
    ensures
        hands_live(m2),
{
    let y = HandModel { status: auto_status(ma.seats[s].hands[h], ma.rules), ..ma.seats[s].hands[h] };
    lemma_auto_status_live(ma.seats[s].hands[h], ma.rules);
    let ma2 = TableModel { seats: ma.seats, ..m0 };
    assert(ma2 == upd_hand(
        m0,
        s,
        h,
        HandModel { cards: ma.seats[s].hands[h].cards, ..m0.seats[s].hands[h] },
    ));
    lemma_upd_hand_twice(
        m0,
        s,
        h,
        HandModel { cards: ma.seats[s].hands[h].cards, ..m0.seats[s].hands[h] },
        y,
    );
    lemma_hands_live_upd(m0, s, h, y);
    assert(m2.seats == upd_hand(ma2, s, h, y).seats);
}

/// A hand the table resolves is live only while under 21.
pub proof fn lemma_auto_status_live(x: HandModel, r: Rules)
    ensures
        ({
            let y = HandModel { status: auto_status(x, r), ..x };
            y.status == HandStatus::Playing && y.cards.len() >= 2 ==> x.status == HandStatus::Playing
                && hand_total(x.cards) < 21
        }),
{
}

/// Dealing, drawing, and settling leave the turn preconditions alone as
/// long as the bounds hold and the dealer, hole card, and insurance stay.
pub proof fn lemma_turn_ready_frame(m: TableModel, n: TableModel)
    requires
        turn_ready(m),
        base(n),
        hands_live(n),
        n.dealer == m.dealer,
        n.hole_revealed == m.hole_revealed,
        n.seats.len() == m.seats.len(),
        forall|i: int|
            0 <= i < m.seats.len() ==> (#[trigger] n.seats[i]).insurance == m.seats[i].insurance
                && n.seats[i].insurance_net == m.seats[i].insurance_net,
    ensures
        turn_ready(n),
{
    assert forall|i: int| 0 <= i < n.seats.len() implies (#[trigger] n.seats[i]).insurance_net
        == insurance_result(n.seats[i].insurance, false) by {
        assert(m.seats[i].insurance_net == insurance_result(m.seats[i].insurance, false));
    }
}

/// The hand a decision is made on.
pub open spec fn active_hand_of(m: TableModel) -> HandModel {
    m.seats[active_seat(m) as int].hands[active_hand(m) as int]
}

/// The same hand, by position, in a later state.
pub open spec fn same_hand_in(a: TableModel, b: TableModel) -> HandModel {
    b.seats[active_seat(a) as int].hands[active_hand(a) as int]
}

/// Every seat's bet is as it was.
pub open spec fn bets_kept(a: TableModel, b: TableModel) -> bool {
    &&& b.seats.len() == a.seats.len()
    &&& forall|i: int| 0 <= i < a.seats.len() ==> (#[trigger] b.seats[i]).bet == a.seats[i].bet
}

/// Progress keeps the bets.
pub proof fn lemma_progressed_bets_kept(a: TableModel, b: TableModel)
    requires
        progressed(a, b),
    ensures
        bets_kept(a, b),
{
    assert forall|i: int| 0 <= i < a.seats.len() implies (#[trigger] b.seats[i]).bet == a.seats[i].bet by {
        assert(seat_progressed(a.seats[i], b.seats[i]));
    }
}

/// Keeping the bets composes.
pub proof fn lemma_bets_kept_trans(a: TableModel, b: TableModel, c: TableModel)
    requires
        bets_kept(a, b),
        bets_kept(b, c),
    ensures
        bets_kept(a, c),
{
    assert forall|i: int| 0 <= i < a.seats.len() implies (#[trigger] c.seats[i]).bet == a.seats[i].bet by {
        assert(b.seats[i].bet == a.seats[i].bet);
    }
}

/// Two runs of hands carry the same bets, hand for hand.
pub open spec fn hand_bets_kept(a: Seq<HandModel>, b: Seq<HandModel>) -> bool {
    &&& b.len() == a.len()
    &&& forall|k: int| 0 <= k < a.len() ==> (#[trigger] b[k]).bet == a[k].bet
}

/// A seat with the same main bet, insurance, and hand bets.
pub open spec fn same_bets(a: SeatModel, b: SeatModel) -> bool {
    &&& b.bet == a.bet
    &&& b.insurance == a.insurance
    &&& hand_bets_kept(a.hands, b.hands)
}

/// Every seat but `s` has the same bets.
pub open spec fn others_same_bets(a: TableModel, b: TableModel, s: int) -> bool {
    &&& b.seats.len() == a.seats.len()
    &&& forall|i: int| 0 <= i < a.seats.len() && i != s ==> #[trigger] same_bets(a.seats[i], b.seats[i])
}

/// Every seat has the same bets.
pub open spec fn all_same_bets(a: TableModel, b: TableModel) -> bool {
    &&& b.seats.len() == a.seats.len()
    &&& forall|i: int| 0 <= i < a.seats.len() ==> #[trigger] same_bets(a.seats[i], b.seats[i])
}

/// Progress moves no money.
pub proof fn lemma_progressed_same_bets(a: TableModel, b: TableModel)
    requires
        progressed(a, b),
    ensures
        all_same_bets(a, b),
{
    assert forall|i: int| 0 <= i < a.seats.len() implies #[trigger] same_bets(a.seats[i], b.seats[i]) by {
        assert(seat_progressed(a.seats[i], b.seats[i]));
        assert forall|k: int| 0 <= k < a.seats[i].hands.len() implies (#[trigger] b.seats[i].hands[k]).bet == a.seats[i].hands[k].bet by {
            assert(hand_progressed(a.seats[i].hands[k], b.seats[i].hands[k]));
        }
    }
}

/// Same bets compose.
pub proof fn lemma_same_bets_trans(a: SeatModel, b: SeatModel, c: SeatModel)
    requires
        same_bets(a, b),
        same_bets(b, c),
    ensures
        same_bets(a, c),
{
    assert forall|k: int| 0 <= k < a.hands.len() implies (#[trigger] c.hands[k]).bet == a.hands[k].bet by {
        assert(b.hands[k].bet == a.hands[k].bet);
    }
}

/// Same bets everywhere compose.
pub proof fn lemma_all_same_bets_trans(a: TableModel, b: TableModel, c: TableModel)
    requires
        all_same_bets(a, b),
        all_same_bets(b, c),
    ensures
        all_same_bets(a, c),
{
    assert forall|i: int| 0 <= i < a.seats.len() implies #[trigger] same_bets(a.seats[i], c.seats[i]) by {
        lemma_same_bets_trans(a.seats[i], b.seats[i], c.seats[i]);
    }
}

/// Replacing a hand by one with the same bet moves no money.
pub proof fn lemma_upd_hand_same_bets(m: TableModel, s: int, h: int, x: HandModel)
    requires
        0 <= s < m.seats.len(),
        0 <= h < m.seats[s].hands.len(),
        x.bet == m.seats[s].hands[h].bet,
    ensures
        all_same_bets(m, upd_hand(m, s, h, x)),
{
    let n = upd_hand(m, s, h, x);
    assert forall|i: int| 0 <= i < m.seats.len() implies #[trigger] same_bets(m.seats[i], n.seats[i]) by {
        if i == s {
            assert forall|k: int| 0 <= k < m.seats[i].hands.len() implies (#[trigger] n.seats[i].hands[k]).bet == m.seats[i].hands[k].bet by {}
        }
    }
}

/// Dealing a card to a hand and resolving it moves no money.
pub proof fn lemma_deal_resolve_same_bets(m0: TableModel, ma: TableModel, m2: TableModel, s: int, h: int, c: Card, st: HandStatus)
    requires
        0 <= s < m0.seats.len(),
        0 <= h < m0.seats[s].hands.len(),
        ma.seats == upd_hand(m0, s, h, HandModel { cards: m0.seats[s].hands[h].cards.push(c), ..m0.seats[s].hands[h] }).seats,
        m2 == upd_hand(ma, s, h, HandModel { status: st, ..ma.seats[s].hands[h] }),
    ensures
        all_same_bets(m0, m2),
{
    let x = m0.seats[s].hands[h];
    let u = upd_hand(m0, s, h, HandModel { cards: x.cards.push(c), ..x });
    lemma_upd_hand_same_bets(m0, s, h, HandModel { cards: x.cards.push(c), ..x });
    assert(all_same_bets(m0, ma));
    lemma_upd_hand_same_bets(ma, s, h, HandModel { status: st, ..ma.seats[s].hands[h] });
    lemma_all_same_bets_trans(m0, ma, m2);
}

/// A hit added exactly one card to the active hand.
pub open spec fn hit_effect(a: TableModel, b: TableModel) -> bool {
    let x = active_hand_of(a);
    let y = same_hand_in(a, b);
    &&& bets_kept(a, b)
    &&& all_same_bets(a, b)
    &&& y.cards.len() == x.cards.len() + 1
    &&& y.cards.subrange(0, x.cards.len() as int) == x.cards
    &&& y.bet == x.bet
    &&& a.shoe.cards.len() > 0 ==> y.cards.last() == a.shoe.cards.last()
}

/// A stand kept the active hand's cards and stood it.
pub open spec fn stand_effect(a: TableModel, b: TableModel) -> bool {
    let x = active_hand_of(a);
    let y = same_hand_in(a, b);
    &&& bets_kept(a, b)
    &&& all_same_bets(a, b)
    &&& y.cards == x.cards
    &&& y.bet == x.bet
    &&& y.status == HandStatus::Stood
}

/// A double doubled the bet, added exactly one card, and ended the hand:
/// stood, or bust when the card took it over 21.
pub open spec fn double_effect(a: TableModel, b: TableModel) -> bool {
    let x = active_hand_of(a);
    let y = same_hand_in(a, b);
    let s = active_seat(a) as int;
    let h = active_hand(a) as int;
    &&& bets_kept(a, b)
    &&& others_same_bets(a, b, s)
    &&& b.seats[s].bet == a.seats[s].bet
    &&& b.seats[s].insurance == a.seats[s].insurance
    &&& b.seats[s].hands.len() == a.seats[s].hands.len()
    &&& forall|k: int| 0 <= k < a.seats[s].hands.len() && k != h ==> (#[trigger] b.seats[s].hands[k]).bet == a.seats[s].hands[k].bet
    &&& y.bet == 2 * x.bet
    &&& y.doubled
    &&& y.cards.len() == x.cards.len() + 1
    &&& y.cards.subrange(0, x.cards.len() as int) == x.cards
    &&& a.shoe.cards.len() > 0 ==> y.cards.last() == a.shoe.cards.last()
    &&& y.status == (if hand_total(y.cards) > 21 {
        HandStatus::Bust
    } else {
        HandStatus::Stood
    })
}

/// A split made two hands of the pair, each with one of its cards and the
/// original bet, the new one directly after the first.
pub open spec fn split_effect(a: TableModel, b: TableModel) -> bool {
    let s = active_seat(a) as int;
    let h = active_hand(a) as int;
    let x = active_hand_of(a);
    let y0 = b.seats[s].hands[h];
    let y1 = b.seats[s].hands[h + 1];
    &&& bets_kept(a, b)
    &&& others_same_bets(a, b, s)
    &&& b.seats[s].bet == a.seats[s].bet
    &&& b.seats[s].insurance == a.seats[s].insurance
    &&& forall|k: int| 0 <= k < h ==> (#[trigger] b.seats[s].hands[k]).bet == a.seats[s].hands[k].bet
    &&& forall|k: int| h + 1 < k < b.seats[s].hands.len() ==> (#[trigger] b.seats[s].hands[k]).bet == a.seats[s].hands[k - 1].bet
    &&& b.seats[s].hands.len() == a.seats[s].hands.len() + 1
    &&& y0.from_split && y1.from_split
    &&& y0.bet == x.bet && y1.bet == x.bet
    &&& y0.cards.len() == 2 && y0.cards[0] == x.cards[0]
    &&& y1.cards.len() >= 1 && y1.cards[0] == x.cards[1]
    &&& a.shoe.cards.len() > 0 ==> y0.cards[1] == a.shoe.cards.last()
}

/// A surrender gave up the active hand.
pub open spec fn surrender_effect(a: TableModel, b: TableModel) -> bool {
    let x = active_hand_of(a);
    let y = same_hand_in(a, b);
    &&& bets_kept(a, b)
    &&& all_same_bets(a, b)
    &&& y.cards == x.cards
    &&& y.bet == x.bet
    &&& y.status == HandStatus::Surrendered
}

/// An insurance decision recorded the seat's choice — a stake of half the
/// main bet, rounded down, when taken — and no other seat's.
pub open spec fn insurance_effect(a: TableModel, b: TableModel, seat: int, take: bool) -> bool {
    &&& bets_kept(a, b)
    &&& others_same_bets(a, b, seat)
    &&& hand_bets_kept(a.seats[seat].hands, b.seats[seat].hands)
    &&& b.seats[seat].insurance == (if take {
        Insurance::Taken { amount: (a.seats[seat].bet->0 / 2) as u32 }
    } else {
        Insurance::Declined
    })
    &&& forall|i: int|
        0 <= i < a.seats.len() && i != seat ==> (#[trigger] b.seats[i]).insurance
            == a.seats[i].insurance
    &&& (b.phase == Phase::InsuranceOffer <==> exists|i: int|
        0 <= i < a.seats.len() && i != seat && (#[trigger] a.seats[i]).insurance
            == Insurance::Pending)
}

impl Table {
    fn decide_insurance(&mut self, seat: usize, take: bool, events: &mut Vec<Event>) -> (r: Result<(), ActionError>)
        requires
            wf(old(self)@),
            seat < old(self)@.seats.len(),
        ensures
            drew_only(old(self)@, final(self)@),
            ({
                let kind = if take { ActionKind::TakeInsurance } else { ActionKind::DeclineInsurance };
                let m = old(self)@;
                &&& m.phase != Phase::InsuranceOffer ==> r == Err::<(), ActionError>(
                    ActionError::WrongPhase { action: kind, phase: m.phase },
                ) && final(self)@ == m && final(events)@ == old(events)@
                &&& m.phase == Phase::InsuranceOffer && seat != active_seat(m) ==> r == Err::<
                    (),
                    ActionError,
                >(ActionError::OutOfTurn { seat, active_seat: active_seat(m) }) && final(self)@
                    == m && final(events)@ == old(events)@
                &&& m.phase == Phase::InsuranceOffer && seat == active_seat(m) ==> r is Ok && wf(
                    final(self)@,
                ) && final(self)@.rules == m.rules && insurance_effect(m, final(self)@, seat as int, take)
                    && extends(
                    old(events)@.push(
                        if take {
                            Event::InsuranceTaken { seat, amount: (m.seats[seat as int].bet->0 / 2) as u32 }
                        } else {
                            Event::InsuranceDeclined { seat }
                        },
                    ),
                    final(events)@,
                )
            }),
    {
        let kind = if take {
            ActionKind::TakeInsurance
        } else {
            ActionKind::DeclineInsurance
        };
        match self.require_phase(Phase::InsuranceOffer, kind) {
            Err(e) => return Err(e),
            Ok(()) => {},
        }
        let (active_seat, _) = match self.active {
            Some(a) => a,
            None => (0, 0),
        };
        if seat != active_seat {
            return Err(ActionError::OutOfTurn { seat, active_seat });
        }
        let ghost m0 = self@;
        proof {
            assert(seat_base(m0.seats[seat as int], m0.rules));
        }
        let mut st = self.take_seat(seat);
        let ghost e0 = events@;
        if take {
            // Insurance is half the main bet, rounded down to a whole dollar.
            let amount = match st.bet {
                Some(b) => b / 2,
                None => 0,
            };
            st.insurance = Insurance::Taken { amount };
            events.push(Event::InsuranceTaken { seat, amount });
        } else {
            st.insurance = Insurance::Declined;
            events.push(Event::InsuranceDeclined { seat });
        }
        let ghost sv = st@;
        self.put_seat(seat, st);
        let ghost first = events@;
        proof {
            assert(seat_base(sv, m0.rules)) by {
                assert forall|k: int| 0 <= k < sv.hands.len() implies #[trigger] hand_base(sv.hands[k], m0.rules) by {
                    assert(hand_base(m0.seats[seat as int].hands[k], m0.rules));
                }
            }
            lemma_base_upd_seat(m0, seat as int, sv);
            assert(self@.seats =~= upd_seat(m0, seat as int, sv).seats);
            lemma_extends_refl(events@);
            assert(sv.hands == m0.seats[seat as int].hands);
            lemma_kept_upd_seat(m0, seat as int, sv);
        }
        let ghost m1 = self@;
        match self.pending_insurance_seat() {
            Some(next) => {
                self.active = Some((next, 0));
                proof {
                    lemma_progressed_same(m1, self@);
                    assert(seat_base(self@.seats[next as int], self@.rules));
                    assert(exists|i: int| 0 <= i < m0.seats.len() && i != seat && (#[trigger] m0.seats[i]).insurance == Insurance::Pending) by {
                        assert(m0.seats[next as int] == self@.seats[next as int]);
                    }
                }
            },
            None => {
                self.active = None;
                proof {
                    assert forall|i: int| 0 <= i < m0.seats.len() && i != seat implies (#[trigger] m0.seats[i]).insurance != Insurance::Pending by {
                        assert(m0.seats[i] == self@.seats[i]);
                    }
                }
                let ghost m2 = self@;
                self.peek(events);
                proof {
                    lemma_progressed_same(m1, m2);
                    lemma_progressed_trans(m1, m2, self@);
                    assert forall|i: int| 0 <= i < m0.seats.len() implies (#[trigger] self@.seats[i]).insurance == m2.seats[i].insurance by {
                        assert(seat_progressed(m2.seats[i], self@.seats[i]));
                    }
                }
            },
        }
        proof {
            lemma_progressed_same_bets(m1, self@);
            assert forall|i: int| 0 <= i < m0.seats.len() && i != seat implies #[trigger] same_bets(m0.seats[i], self@.seats[i]) by {
                assert(m1.seats[i] == m0.seats[i]);
                assert(same_bets(m1.seats[i], self@.seats[i]));
            }
            assert(same_bets(m1.seats[seat as int], self@.seats[seat as int]));
            assert forall|k: int| 0 <= k < m0.seats[seat as int].hands.len() implies (#[trigger] self@.seats[seat as int].hands[k]).bet == m0.seats[seat as int].hands[k].bet by {
                assert(m1.seats[seat as int].hands[k] == m0.seats[seat as int].hands[k]);
            }
            assert forall|i: int| 0 <= i < m0.seats.len() implies (#[trigger] m1.seats[i]).bet == m0.seats[i].bet by {}
            assert forall|i: int| 0 <= i < m0.seats.len() implies (#[trigger] self@.seats[i]).bet == m1.seats[i].bet by {
                assert(seat_progressed(m1.seats[i], self@.seats[i]) || self@.seats == m1.seats);
            }
        }
        Ok(())
    }
}

/// Why a play decision from `seat` is refused before the hand is looked
/// at: the phase must be player turns and the seat the active one.
pub open spec fn play_refusal(m: TableModel, seat: usize, kind: ActionKind) -> Option<ActionError> {
    if m.phase != Phase::PlayerTurn {
        Some(ActionError::WrongPhase { action: kind, phase: m.phase })
    } else if seat != active_seat(m) {
        Some(ActionError::OutOfTurn { seat, active_seat: active_seat(m) })
    } else {
        None
    }
}

/// A later hand at the same position progressed from `x`.
pub proof fn lemma_hand_after(a: TableModel, b: TableModel, s: int, h: int)
    requires
        progressed(a, b),
        0 <= s < a.seats.len(),
        0 <= h < a.seats[s].hands.len(),
    ensures
        hand_progressed(a.seats[s].hands[h], b.seats[s].hands[h]),
        b.seats[s].hands.len() == a.seats[s].hands.len(),
{
    assert(seat_progressed(a.seats[s], b.seats[s]));
}

impl Table {
    fn hit(&mut self, seat: usize, events: &mut Vec<Event>) -> (r: Result<(), ActionError>)
        requires
            wf(old(self)@),
            seat < old(self)@.seats.len(),
        ensures
            drew_only(old(self)@, final(self)@),
            match play_refusal(old(self)@, seat, ActionKind::Hit) {
                Some(e) => r == Err::<(), ActionError>(e) && final(self)@ == old(self)@
                    && final(events)@ == old(events)@,
                None => r is Ok && wf(final(self)@) && final(self)@.rules == old(self)@.rules
                    && hit_effect(old(self)@, final(self)@) && extends(old(events)@, final(events)@)
                    && (old(self)@.shoe.cards.len() > 0 ==> extends(
                    old(events)@.push(
                        Event::CardDealt {
                            seat,
                            hand: active_hand(old(self)@),
                            card: old(self)@.shoe.cards.last(),
                        },
                    ),
                    final(events)@,
                )),
            },
    {
        let (s, h) = match self.require_active(seat, ActionKind::Hit) {
            Err(e) => return Err(e),
            Ok(a) => a,
        };
        let ghost m0 = self@;
        let c = self.deal_to_hand(s, h, events);
        let ghost ma = self@;
        let ghost e1 = events@;
        self.auto_resolve(s, h, events);
        let ghost m2 = self@;
        let ghost e2 = events@;
        proof {
            lemma_live_after_resolve(m0, ma, m2, s as int, h as int);
            lemma_turn_ready_frame(m0, m2);
            lemma_deal_resolve_same_bets(m0, ma, m2, s as int, h as int, c, auto_status(ma.seats[s as int].hands[h as int], ma.rules));
            lemma_kept_upd_hand(ma, s as int, h as int, m2.seats[s as int].hands[h as int]);
        }
        self.advance_from(s, h, events);
        proof {
            lemma_progressed_same_bets(m2, self@);
            lemma_all_same_bets_trans(m0, m2, self@);
            lemma_hand_after(m2, self@, s as int, h as int);
            let y = self@.seats[s as int].hands[h as int];
            assert forall|i: int| 0 <= i < m0.seats.len() implies (#[trigger] m2.seats[i]).bet == m0.seats[i].bet by {}
            assert(bets_kept(m0, m2));
            lemma_progressed_bets_kept(m2, self@);
            lemma_bets_kept_trans(m0, m2, self@);
            assert(m2.seats[s as int].hands[h as int].cards == m0.seats[s as int].hands[h as int].cards.push(c));
            assert(y.cards.subrange(0, m0.seats[s as int].hands[h as int].cards.len() as int) =~= m0.seats[s as int].hands[h as int].cards);
            lemma_extends_trans(old(events)@, e1, e2);
            lemma_extends_trans(old(events)@, e2, events@);
            if m0.shoe.cards.len() > 0 {
                lemma_extends_refl(e1);
                lemma_extends_trans(e1, e2, events@);
            }
        }
        Ok(())
    }

    fn stand(&mut self, seat: usize, events: &mut Vec<Event>) -> (r: Result<(), ActionError>)
        requires
            wf(old(self)@),
            seat < old(self)@.seats.len(),
        ensures
            drew_only(old(self)@, final(self)@),
            match play_refusal(old(self)@, seat, ActionKind::Stand) {
                Some(e) => r == Err::<(), ActionError>(e) && final(self)@ == old(self)@
                    && final(events)@ == old(events)@,
                None => r is Ok && wf(final(self)@) && final(self)@.rules == old(self)@.rules
                    && stand_effect(old(self)@, final(self)@) && extends(
                    old(events)@.push(
                        Event::PlayerStood {
                            seat,
                            hand: active_hand(old(self)@),
                            total: hand_total(active_hand_of(old(self)@).cards),
                        },
                    ),
                    final(events)@,
                ),
            },
    {
        let (s, h) = match self.require_active(seat, ActionKind::Stand) {
            Err(e) => return Err(e),
            Ok(a) => a,
        };
        let ghost m0 = self@;
        assert(self.seats@[s as int]@ == self@.seats[s as int]);
        assert(self.seats@[s as int].hands@[h as int]@ == self@.seats[s as int].hands[h as int]);
        let total = self.seats[s].hands[h].value().total();
        self.set_hand_status(s, h, HandStatus::Stood);
        let ghost m1 = self@;
        proof {
            let x = m0.seats[s as int].hands[h as int];
            assert(seat_base(m0.seats[s as int], m0.rules));
            assert(hand_base(x, m0.rules));
            lemma_base_upd_hand(m0, s as int, h as int, HandModel { status: HandStatus::Stood, ..x });
            lemma_kept_upd_hand(m0, s as int, h as int, HandModel { status: HandStatus::Stood, ..x });
            lemma_upd_hand_same_bets(m0, s as int, h as int, HandModel { status: HandStatus::Stood, ..x });
            lemma_hands_live_upd(m0, s as int, h as int, HandModel { status: HandStatus::Stood, ..x });
            lemma_turn_ready_frame(m0, m1);
        }
        events.push(Event::PlayerStood { seat: s, hand: h, total });
        let ghost e1 = events@;
        proof {
            lemma_extends_refl(e1);
        }
        self.advance_from(s, h, events);
        proof {
            lemma_hand_after(m1, self@, s as int, h as int);
            lemma_progressed_same_bets(m1, self@);
            lemma_all_same_bets_trans(m0, m1, self@);
            assert forall|i: int| 0 <= i < m0.seats.len() implies (#[trigger] m1.seats[i]).bet == m0.seats[i].bet by {}
            assert(bets_kept(m0, m1));
            lemma_progressed_bets_kept(m1, self@);
            lemma_bets_kept_trans(m0, m1, self@);
        }
        Ok(())
    }

    fn surrender(&mut self, seat: usize, events: &mut Vec<Event>) -> (r: Result<(), ActionError>)
        requires
            wf(old(self)@),
            seat < old(self)@.seats.len(),
        ensures
            drew_only(old(self)@, final(self)@),
            match play_refusal(old(self)@, seat, ActionKind::Surrender) {
                Some(e) => r == Err::<(), ActionError>(e) && final(self)@ == old(self)@
                    && final(events)@ == old(events)@,
                None => if spec_can_surrender(
                    old(self)@,
                    active_seat(old(self)@) as int,
                    active_hand(old(self)@) as int,
                ) {
                    r is Ok && wf(final(self)@) && final(self)@.rules == old(self)@.rules
                        && surrender_effect(old(self)@, final(self)@) && extends(
                        old(events)@.push(Event::PlayerSurrendered { seat }),
                        final(events)@,
                    )
                } else {
                    r == Err::<(), ActionError>(ActionError::SurrenderNotAllowed) && final(self)@
                        == old(self)@ && final(events)@ == old(events)@
                },
            },
    {
        let (s, h) = match self.require_active(seat, ActionKind::Surrender) {
            Err(e) => return Err(e),
            Ok(a) => a,
        };
        if !self.can_surrender(s, h) {
            return Err(ActionError::SurrenderNotAllowed);
        }
        let ghost m0 = self@;
        self.set_hand_status(s, h, HandStatus::Surrendered);
        let ghost m1 = self@;
        proof {
            let x = m0.seats[s as int].hands[h as int];
            assert(seat_base(m0.seats[s as int], m0.rules));
            assert(hand_base(x, m0.rules));
            lemma_base_upd_hand(m0, s as int, h as int, HandModel { status: HandStatus::Surrendered, ..x });
            lemma_kept_upd_hand(m0, s as int, h as int, HandModel { status: HandStatus::Surrendered, ..x });
            lemma_upd_hand_same_bets(m0, s as int, h as int, HandModel { status: HandStatus::Surrendered, ..x });
            lemma_hands_live_upd(m0, s as int, h as int, HandModel { status: HandStatus::Surrendered, ..x });
            lemma_turn_ready_frame(m0, m1);
        }
        events.push(Event::PlayerSurrendered { seat: s });
        proof {
            lemma_extends_refl(events@);
        }
        self.advance_from(s, h, events);
        proof {
            lemma_hand_after(m1, self@, s as int, h as int);
            lemma_progressed_same_bets(m1, self@);
            lemma_all_same_bets_trans(m0, m1, self@);
            assert forall|i: int| 0 <= i < m0.seats.len() implies (#[trigger] m1.seats[i]).bet == m0.seats[i].bet by {}
            assert(bets_kept(m0, m1));
            lemma_progressed_bets_kept(m1, self@);
            lemma_bets_kept_trans(m0, m1, self@);
        }
        Ok(())
    }
}

impl Table {
    fn double(&mut self, seat: usize, events: &mut Vec<Event>) -> (r: Result<(), ActionError>)
        requires
            wf(old(self)@),
            seat < old(self)@.seats.len(),
        ensures
            drew_only(old(self)@, final(self)@),
            match play_refusal(old(self)@, seat, ActionKind::Double) {
                Some(e) => r == Err::<(), ActionError>(e) && final(self)@ == old(self)@
                    && final(events)@ == old(events)@,
                None => if spec_can_double(
                    old(self)@,
                    active_seat(old(self)@) as int,
                    active_hand(old(self)@) as int,
                ) {
                    r is Ok && wf(final(self)@) && final(self)@.rules == old(self)@.rules
                        && double_effect(old(self)@, final(self)@) && extends(
                        old(events)@.push(
                            Event::DoubledDown {
                                seat,
                                hand: active_hand(old(self)@),
                                bet: (2 * active_hand_of(old(self)@).bet) as u32,
                            },
                        ),
                        final(events)@,
                    ) && (old(self)@.shoe.cards.len() > 0 ==> extends(
                        old(events)@.push(
                            Event::DoubledDown {
                                seat,
                                hand: active_hand(old(self)@),
                                bet: (2 * active_hand_of(old(self)@).bet) as u32,
                            },
                        ).push(
                            Event::CardDealt {
                                seat,
                                hand: active_hand(old(self)@),
                                card: old(self)@.shoe.cards.last(),
                            },
                        ),
                        final(events)@,
                    ))
                } else {
                    r == Err::<(), ActionError>(ActionError::DoubleNotAllowed) && final(self)@
                        == old(self)@ && final(events)@ == old(events)@
                },
            },
    {
        let (s, h) = match self.require_active(seat, ActionKind::Double) {
            Err(e) => return Err(e),
            Ok(a) => a,
        };
        if !self.can_double(s, h) {
            return Err(ActionError::DoubleNotAllowed);
        }
        let ghost m0 = self@;
        let ghost x = m0.seats[s as int].hands[h as int];
        proof {
            assert(seat_base(m0.seats[s as int], m0.rules));
            assert(hand_base(x, m0.rules));
            let r = m0.rules;
            assert(r.max_bet * 4 <= i32::MAX) by (nonlinear_arith)
                requires (3 * r.max_split_hands + 1) * r.max_bet <= i32::MAX, r.max_split_hands >= 1;
            lemma_base_upd_hand(m0, s as int, h as int, fresh_hand(0));
        }
        let mut state = self.take_hand(s, h);
        state.bet = state.bet * 2;
        state.doubled = true;
        events.push(Event::DoubledDown { seat: s, hand: h, bet: state.bet });
        let ghost first = events@;
        let ghost m1 = self@;
        proof {
            lemma_never_dry(m0);
        }
        let card = self.draw_card(events);
        let ghost m1b = self@;
        state.cards.push(card);
        // One card and done: stand unless it busted.
        let value = state.value();
        let busted = value.is_bust();
        if busted {
            state.status = HandStatus::Bust;
        } else {
            state.status = HandStatus::Stood;
        }
        let ghost y = state@;
        self.put_hand(s, h, state);
        let ghost m2 = self@;
        proof {
            assert(y.cards == x.cards.push(card));
            assert(hand_total(x.cards) < 21);
            crate::hand::lemma_hard_under_best(x.cards);
            crate::hand::lemma_hard_total_push(x.cards, card);
            crate::hand::lemma_hard_points_bounded(card);
            assert(hand_base(y, m0.rules));
            lemma_upd_hand_twice(m0, s as int, h as int, fresh_hand(0), y);
            lemma_hands_live_upd(m0, s as int, h as int, y);
            assert(m1b.seats == m1.seats);
            assert(upd_hand(m1b, s as int, h as int, y).seats == upd_hand(m1, s as int, h as int, y).seats);
            assert(m2 == (TableModel { shoe: m2.shoe, opened: m2.opened, ..upd_hand(m0, s as int, h as int, y) })) by {
                assert(m2.seats =~= upd_hand(m0, s as int, h as int, y).seats);
            }
            lemma_base_upd_hand(m0, s as int, h as int, y);
            lemma_turn_ready_frame(m0, m2);
            assert(y.cards == x.cards.push(card));
            lemma_felt_hand_push(m0, s as int, h as int, card, y);
            assert(felt_cards(m2) == felt_cards(upd_hand(m0, s as int, h as int, y)));
            assert(drew_from_shoe(m1, m1b, card));
            assert(shoe_held(m2) == shoe_held(m1b) && shoe_held(m1) == shoe_held(m0));
            assert(refill(m0, m2) == refill(m1, m1b));
            lemma_kept_felt_gains(m0, m2, card);
        }
        let ghost e2 = events@;
        events.push(Event::CardDealt { seat: s, hand: h, card });
        let total = value.total();
        if busted {
            events.push(Event::HandBusted { seat: s, hand: h, total });
        } else {
            events.push(Event::PlayerStood { seat: s, hand: h, total });
        }
        let ghost e3 = events@;
        proof {
            assert(extends(e2, e3)) by {
                assert(e3.subrange(0, e2.len() as int) =~= e2);
            }
            lemma_extends_trans(first, e2, e3);
            assert(extends(e2.push(Event::CardDealt { seat: s, hand: h, card }), e3)) by {
                assert(e3.subrange(0, e2.len() as int + 1) =~= e2.push(Event::CardDealt { seat: s, hand: h, card }));
            }
        }
        self.advance_from(s, h, events);
        proof {
            lemma_progressed_same_bets(m2, self@);
            assert forall|i: int| 0 <= i < m0.seats.len() && i != s implies #[trigger] same_bets(m0.seats[i], self@.seats[i]) by {
                assert(m2.seats[i] == m0.seats[i]);
                assert(same_bets(m2.seats[i], self@.seats[i]));
            }
            assert(same_bets(m2.seats[s as int], self@.seats[s as int]));
            assert forall|k: int| 0 <= k < m0.seats[s as int].hands.len() && k != h implies (#[trigger] self@.seats[s as int].hands[k]).bet == m0.seats[s as int].hands[k].bet by {
                assert(m2.seats[s as int].hands[k] == m0.seats[s as int].hands[k]);
            }
            lemma_extends_trans(first, e3, events@);
            assert forall|i: int| 0 <= i < m0.seats.len() implies (#[trigger] m2.seats[i]).bet == m0.seats[i].bet by {}
            assert(bets_kept(m0, m2));
            lemma_progressed_bets_kept(m2, self@);
            lemma_bets_kept_trans(m0, m2, self@);
            lemma_hand_after(m2, self@, s as int, h as int);
            assert(y.cards.subrange(0, x.cards.len() as int) =~= x.cards);
            if m0.shoe.cards.len() > 0 {
                assert(e2 == first);
                lemma_extends_trans(e2.push(Event::CardDealt { seat: s, hand: h, card }), e3, events@);
            }
        }
        Ok(())
    }

    fn split(&mut self, seat: usize, events: &mut Vec<Event>) -> (r: Result<(), ActionError>)
        requires
            wf(old(self)@),
            seat < old(self)@.seats.len(),
        ensures
            drew_only(old(self)@, final(self)@),
            match play_refusal(old(self)@, seat, ActionKind::Split) {
                Some(e) => r == Err::<(), ActionError>(e) && final(self)@ == old(self)@
                    && final(events)@ == old(events)@,
                None => if spec_can_split(
                    old(self)@,
                    active_seat(old(self)@) as int,
                    active_hand(old(self)@) as int,
                ) {
                    r is Ok && wf(final(self)@) && final(self)@.rules == old(self)@.rules
                        && split_effect(old(self)@, final(self)@) && extends(
                        old(events)@.push(Event::HandSplit { seat, hand: active_hand(old(self)@) }),
                        final(events)@,
                    ) && (old(self)@.shoe.cards.len() > 0 ==> extends(
                        old(events)@.push(Event::HandSplit { seat, hand: active_hand(old(self)@) }).push(
                            Event::CardDealt {
                                seat,
                                hand: active_hand(old(self)@),
                                card: old(self)@.shoe.cards.last(),
                            },
                        ),
                        final(events)@,
                    ))
                } else {
                    r == Err::<(), ActionError>(ActionError::SplitNotAllowed) && final(self)@
                        == old(self)@ && final(events)@ == old(events)@
                },
            },
    {
        let (s, h) = match self.require_active(seat, ActionKind::Split) {
            Err(e) => return Err(e),
            Ok(a) => a,
        };
        if !self.can_split(s, h) {
            return Err(ActionError::SplitNotAllowed);
        }
        let ghost m0 = self@;
        let ghost x = m0.seats[s as int].hands[h as int];
        proof {
            assert(seat_base(m0.seats[s as int], m0.rules));
            assert(hand_base(x, m0.rules));
        }
        let mut st = self.take_seat(s);
        let mut first = HandState::new(0);
        st.hands.set_and_swap(h, &mut first);
        let bet = first.bet;
        let second_card = match first.cards.pop() {
            Some(c) => c,
            None => Card::new(Rank::Two, crate::card::Suit::Clubs),
        };
        first.from_split = true;
        let mut new_hand = HandState::new(bet);
        new_hand.from_split = true;
        new_hand.cards.push(second_card);
        let ghost y0 = first@;
        let ghost y1 = new_hand@;
        st.hands.set(h, first);
        st.hands.insert(h + 1, new_hand);
        let ghost sv = st@;
        self.put_seat(s, st);
        let ghost m1 = self@;
        proof {
            assert(x.cards.len() == 2);
            assert(y0.cards =~= seq![x.cards[0]]);
            assert(y1.cards =~= seq![x.cards[1]]);
            crate::hand::lemma_hard_total_bounded(y0.cards);
            crate::hand::lemma_hard_total_bounded(y1.cards);
            assert(sv.hands =~= x_hands_split(m0.seats[s as int].hands, h as int, y0, y1));
            assert(hand_base(y0, m0.rules));
            assert(hand_base(y1, m0.rules));
            assert(seat_base(sv, m0.rules)) by {
                assert forall|k: int| 0 <= k < sv.hands.len() implies #[trigger] hand_base(sv.hands[k], m0.rules) by {
                    if k < h {
                        assert(sv.hands[k] == m0.seats[s as int].hands[k]);
                        assert(hand_base(m0.seats[s as int].hands[k], m0.rules));
                    } else if k > h + 1 {
                        assert(sv.hands[k] == m0.seats[s as int].hands[k - 1]);
                        assert(hand_base(m0.seats[s as int].hands[k - 1], m0.rules));
                    }
                }
            }
            lemma_base_upd_seat(m0, s as int, sv);
            assert(m1 == upd_seat(m0, s as int, sv)) by {
                assert(m1.seats =~= upd_seat(m0, s as int, sv).seats);
            }
            lemma_turn_ready_frame(m0, m1);
            assert(y0.cards + y1.cards =~= x.cards);
            lemma_hands_cards_split(m0.seats[s as int].hands, h as int, y0, y1);
            assert forall|i: int| 0 <= i < m0.seats.len() implies hands_cards((#[trigger] m0.seats[i]).hands)
                == hands_cards(m1.seats[i].hands) by {
                if i != s {
                    assert(m1.seats[i] == m0.seats[i]);
                }
            }
            lemma_seats_cards_same_runs(m0.seats, m1.seats);
            assert(felt_cards(m1) == felt_cards(m0));
        }
        events.push(Event::HandSplit { seat: s, hand: h });
        let ghost e1 = events@;
        proof {
            lemma_extends_refl(e1);
        }
        // The first split hand draws immediately; the second waits for the
        // cursor, as at a real table.
        proof {
            crate::hand::lemma_hard_total_bounded(self@.seats[s as int].hands[h as int].cards);
        }
        let c = self.deal_to_hand(s, h, events);
        let ghost mb = self@;
        let ghost ea = events@;
        self.auto_resolve(s, h, events);
        let ghost m2 = self@;
        let ghost e2 = events@;
        proof {
            lemma_live_after_resolve(m1, mb, m2, s as int, h as int);
            lemma_turn_ready_frame(m1, m2);
            lemma_deal_resolve_same_bets(m1, mb, m2, s as int, h as int, c, auto_status(mb.seats[s as int].hands[h as int], mb.rules));
            lemma_kept_upd_hand(mb, s as int, h as int, m2.seats[s as int].hands[h as int]);
        }
        self.advance_from(s, h, events);
        proof {
            lemma_progressed_same_bets(m2, self@);
            lemma_all_same_bets_trans(m1, m2, self@);
            assert forall|i: int| 0 <= i < m0.seats.len() && i != s implies #[trigger] same_bets(m0.seats[i], self@.seats[i]) by {
                assert(m1.seats[i] == m0.seats[i]);
                assert(same_bets(m1.seats[i], self@.seats[i]));
            }
            assert(same_bets(m1.seats[s as int], self@.seats[s as int]));
            assert forall|k: int| 0 <= k < h implies (#[trigger] self@.seats[s as int].hands[k]).bet == m0.seats[s as int].hands[k].bet by {
                assert(m1.seats[s as int].hands[k] == m0.seats[s as int].hands[k]);
                assert(self@.seats[s as int].hands[k].bet == m1.seats[s as int].hands[k].bet);
            }
            assert forall|k: int| h + 1 < k < self@.seats[s as int].hands.len() implies (#[trigger] self@.seats[s as int].hands[k]).bet == m0.seats[s as int].hands[k - 1].bet by {
                assert(m1.seats[s as int].hands[k] == m0.seats[s as int].hands[k - 1]);
                assert(self@.seats[s as int].hands[k].bet == m1.seats[s as int].hands[k].bet);
            }
            lemma_extends_trans(e1, ea, e2);
            assert forall|i: int| 0 <= i < m0.seats.len() implies (#[trigger] m2.seats[i]).bet == m0.seats[i].bet by {}
            assert(bets_kept(m0, m2));
            lemma_progressed_bets_kept(m2, self@);
            lemma_bets_kept_trans(m0, m2, self@);
            lemma_extends_trans(e1, e2, events@);
            lemma_hand_after(m2, self@, s as int, h as int);
            lemma_hand_after(m2, self@, s as int, h as int + 1);
            let z0 = m2.seats[s as int].hands[h as int];
            let z1 = m2.seats[s as int].hands[h as int + 1];
            assert(z0.cards == seq![x.cards[0], c]);
            assert(z1.cards == seq![x.cards[1]]);
            let f1 = self@.seats[s as int].hands[h as int + 1];
            assert(f1.cards.subrange(0, 1)[0] == f1.cards[0]);
            if m0.shoe.cards.len() > 0 {
                lemma_extends_trans(ea, e2, events@);
            }
        }
        Ok(())
    }
}

/// A seat's hands after splitting hand `h` into `y0` and `y1`.
pub open spec fn x_hands_split(hands: Seq<HandModel>, h: int, y0: HandModel, y1: HandModel) -> Seq<HandModel> {
    hands.update(h, y0).insert(h + 1, y1)
}

/// Every card in a run of hands, hand after hand.
pub open spec fn hands_cards(hands: Seq<HandModel>) -> Seq<Card>
    decreases hands.len(),
{
    if hands.len() == 0 {
        Seq::empty()
    } else {
        hands_cards(hands.drop_last()) + hands.last().cards
    }
}

/// Every card in a run of seats, seat after seat.
pub open spec fn seats_cards(seats: Seq<SeatModel>) -> Seq<Card>
    decreases seats.len(),
{
    if seats.len() == 0 {
        Seq::empty()
    } else {
        seats_cards(seats.drop_last()) + hands_cards(seats.last().hands)
    }
}

/// Every card on the felt: the dealer's, then each seat's hands in order.
pub open spec fn felt_cards(m: TableModel) -> Seq<Card> {
    m.dealer + seats_cards(m.seats)
}

/// Every card the table holds, wherever it lies: in the shoe, in the
/// discard pile, or out on the felt.
pub open spec fn cards_held(m: TableModel) -> Multiset<Card> {
    (m.shoe.cards + m.shoe.discards + felt_cards(m)).to_multiset()
}

/// The cards of every deck opened: the shoe's own decks, plus one more
/// full set for each time the table had to open fresh decks.
pub open spec fn decks_opened(m: TableModel) -> Multiset<Card> {
    full_deck((m.rules.decks * (1 + m.opened)) as nat).to_multiset()
}

/// No card is lost or made up: the cards the table holds are exactly the
/// decks it has opened, each card as many times as there are decks.
pub open spec fn cards_kept(m: TableModel) -> bool {
    cards_held(m) == decks_opened(m)
}

/// A run of hands within the hand bounds counts at most 30 points a hand,
/// aces as one.
pub proof fn lemma_hands_value(hs: Seq<HandModel>, r: Rules)
    requires
        forall|k: int| 0 <= k < hs.len() ==> #[trigger] hand_base(hs[k], r),
    ensures
        hard_total(hands_cards(hs)) <= 30 * hs.len(),
    decreases hs.len(),
{
    if hs.len() > 0 {
        assert forall|k: int| 0 <= k < hs.drop_last().len() implies #[trigger] hand_base(hs.drop_last()[k], r) by {
            assert(hs.drop_last()[k] == hs[k]);
        }
        lemma_hands_value(hs.drop_last(), r);
        assert(hand_base(hs[hs.len() - 1], r));
        crate::hand::lemma_hard_total_concat(hands_cards(hs.drop_last()), hs.last().cards);
    }
}

/// A run of seats within the seat bounds counts at most 30 points for
/// every hand a seat may hold.
pub proof fn lemma_seats_value(ss: Seq<SeatModel>, r: Rules)
    requires
        forall|i: int| 0 <= i < ss.len() ==> #[trigger] seat_base(ss[i], r),
    ensures
        hard_total(seats_cards(ss)) <= 30 * r.max_split_hands * ss.len(),
    decreases ss.len(),
{
    if ss.len() > 0 {
        let n = ss.len() - 1;
        assert forall|i: int| 0 <= i < ss.drop_last().len() implies #[trigger] seat_base(ss.drop_last()[i], r) by {
            assert(ss.drop_last()[i] == ss[i]);
        }
        lemma_seats_value(ss.drop_last(), r);
        let last = ss[n];
        assert(seat_base(last, r));
        lemma_hands_value(last.hands, r);
        crate::hand::lemma_hard_total_concat(seats_cards(ss.drop_last()), hands_cards(ss.last().hands));
        let q = 30 * r.max_split_hands;
        assert(q * (n + 1) == q * n + q) by (nonlinear_arith);
        assert(30 * last.hands.len() <= q);
    }
}

/// The felt of a table within its bounds counts fewer points than one
/// set of its decks: the shoe and the discard pile can never both run
/// dry while the table holds its decks.
pub proof fn lemma_felt_value(m: TableModel)
    requires
        base(m),
    ensures
        hard_total(felt_cards(m)) <= 26 + 30 * m.rules.max_split_hands * m.rules.seats,
        hard_total(felt_cards(m)) < 340 * m.rules.decks,
{
    lemma_seats_value(m.seats, m.rules);
    crate::hand::lemma_hard_total_concat(m.dealer, seats_cards(m.seats));
    assert(30 * m.rules.max_split_hands * m.rules.seats == m.rules.seats * m.rules.max_split_hands * 30)
        by (nonlinear_arith);
}

/// A table within its bounds that holds its decks always has a card off
/// the felt: the felt is worth fewer points than the decks.
pub proof fn lemma_never_dry(m: TableModel)
    requires
        base(m),
        cards_kept(m),
    ensures
        m.shoe.cards.len() + m.shoe.discards.len() > 0,
{
    if m.shoe.cards.len() + m.shoe.discards.len() == 0 {
        let n = (m.rules.decks * (1 + m.opened)) as nat;
        assert(m.shoe.cards + m.shoe.discards + felt_cards(m) =~= felt_cards(m));
        crate::hand::lemma_hard_total_multiset(felt_cards(m), full_deck(n));
        crate::shoe::lemma_full_deck_value(n);
        lemma_felt_value(m);
        assert(340 * n >= 340 * m.rules.decks) by (nonlinear_arith)
            requires n == m.rules.decks * (1 + m.opened);
    }
}

/// Cards off the felt: the undealt shoe and the discard pile.
pub open spec fn off_felt(m: TableModel) -> nat {
    m.shoe.cards.len() + m.shoe.discards.len()
}

/// While a round plays, cards only leave the shoe and the discard pile
/// for the felt, and a table that holds its decks opens no others: the
/// felt never holds them all, so the shoe is refilled from the discard
/// pile before it can run dry.
pub open spec fn drew_only(a: TableModel, b: TableModel) -> bool {
    &&& b.shoe.capacity == a.shoe.capacity
    &&& a.opened <= b.opened
    &&& (b.opened == a.opened ==> off_felt(b) <= off_felt(a))
    &&& (cards_kept(a) ==> b.opened == a.opened)
}

/// Drawing in two steps is drawing.
pub proof fn lemma_drew_only_trans(a: TableModel, b: TableModel, c: TableModel)
    requires
        drew_only(a, b),
        drew_only(b, c),
        cards_kept(a) ==> cards_kept(b),
    ensures
        drew_only(a, c),
{
}

/// Two seats hold the same cards, hand for hand.
pub open spec fn same_cards(a: SeatModel, b: SeatModel) -> bool {
    &&& a.hands.len() == b.hands.len()
    &&& forall|k: int| 0 <= k < a.hands.len() ==> (#[trigger] a.hands[k]).cards == b.hands[k].cards
}

/// Hands holding the same cards, hand for hand, hold the same run of cards.
pub proof fn lemma_hands_cards_same(a: Seq<HandModel>, b: Seq<HandModel>)
    requires
        a.len() == b.len(),
        forall|k: int| 0 <= k < a.len() ==> (#[trigger] a[k]).cards == b[k].cards,
    ensures
        hands_cards(a) == hands_cards(b),
    decreases a.len(),
{
    if a.len() > 0 {
        lemma_hands_cards_same(a.drop_last(), b.drop_last());
        assert(a.last().cards == b.last().cards) by {
            assert(a[a.len() - 1].cards == b[a.len() - 1].cards);
        }
    }
}

/// Seats holding the same cards, seat for seat, hold the same run of cards.
pub proof fn lemma_seats_cards_same(a: Seq<SeatModel>, b: Seq<SeatModel>)
    requires
        a.len() == b.len(),
        forall|i: int| 0 <= i < a.len() ==> #[trigger] same_cards(a[i], b[i]),
    ensures
        seats_cards(a) == seats_cards(b),
    decreases a.len(),
{
    if a.len() > 0 {
        let n = a.len() - 1;
        assert(same_cards(a[n], b[n]));
        lemma_hands_cards_same(a[n].hands, b[n].hands);
        assert forall|i: int| 0 <= i < a.drop_last().len() implies #[trigger] same_cards(
            a.drop_last()[i],
            b.drop_last()[i],
        ) by {
            assert(same_cards(a[i], b[i]));
        }
        lemma_seats_cards_same(a.drop_last(), b.drop_last());
    }
}

/// Seats without hands hold no cards.
pub proof fn lemma_seats_cards_empty(ss: Seq<SeatModel>)
    requires
        forall|i: int| 0 <= i < ss.len() ==> (#[trigger] ss[i]).hands.len() == 0,
    ensures
        seats_cards(ss) == Seq::<Card>::empty(),
    decreases ss.len(),
{
    if ss.len() > 0 {
        assert(ss.last().hands.len() == 0) by {
            assert(ss[ss.len() - 1].hands.len() == 0);
        }
        assert(hands_cards(ss.last().hands) =~= Seq::<Card>::empty());
        lemma_seats_cards_empty(ss.drop_last());
        assert(seats_cards(ss) =~= Seq::<Card>::empty());
    }
}

/// The cards the table holds, split into what the shoe holds and what is
/// out on the felt.
pub proof fn lemma_cards_held_split(m: TableModel)
    ensures
        cards_held(m) == (m.shoe.cards + m.shoe.discards).to_multiset().add(felt_cards(m).to_multiset()),
{
    vstd::seq_lib::lemma_multiset_commutative(m.shoe.cards + m.shoe.discards, felt_cards(m));
}

/// Everything the shoe holds, undealt or discarded.
pub open spec fn shoe_held(m: TableModel) -> Multiset<Card> {
    (m.shoe.cards + m.shoe.discards).to_multiset()
}

/// The fresh decks a draw had to open: none, or one full set when every
/// card was out on the felt.
pub open spec fn refill(a: TableModel, b: TableModel) -> Multiset<Card> {
    if b.opened == a.opened {
        Multiset::empty()
    } else {
        full_deck(a.rules.decks as nat).to_multiset()
    }
}

/// Card `c` came out of the shoe of `a`, leaving the shoe of `b`; at most
/// one fresh set of decks was opened for it.
pub open spec fn drew_from_shoe(a: TableModel, b: TableModel, c: Card) -> bool {
    &&& b.opened == a.opened || b.opened == a.opened + 1
    &&& shoe_held(b).insert(c) == shoe_held(a).add(refill(a, b))
}

/// Drawing the top card of a shoe takes exactly that card out of it.
pub proof fn lemma_draw_top(cards: Seq<Card>, discards: Seq<Card>)
    requires
        cards.len() > 0,
    ensures
        (cards.drop_last() + discards).to_multiset().insert(cards.last()) == (cards + discards).to_multiset(),
{
    vstd::seq_lib::lemma_multiset_commutative(cards, discards);
    vstd::seq_lib::lemma_multiset_commutative(cards.drop_last(), discards);
    assert(cards =~= cards.drop_last().push(cards.last()));
    vstd::seq_lib::to_multiset_build(cards.drop_last(), cards.last());
    assert((cards.drop_last() + discards).to_multiset().insert(cards.last()) =~= (cards + discards).to_multiset());
}

/// A card drawn from the shoe and laid on the felt keeps every card
/// accounted for.
pub proof fn lemma_kept_felt_gains(a: TableModel, b: TableModel, c: Card)
    requires
        cards_kept(a),
        drew_from_shoe(a, b, c),
        b.rules.decks == a.rules.decks,
        felt_cards(b).to_multiset() == felt_cards(a).to_multiset().insert(c),
    ensures
        cards_kept(b),
{
    lemma_cards_held_split(a);
    lemma_cards_held_split(b);
    let d = a.rules.decks as nat;
    let o = a.opened;
    let r = refill(a, b);
    assert forall|v: Card| #[trigger] cards_held(b).count(v) == cards_held(a).add(r).count(v) by {
        assert(shoe_held(b).insert(c).count(v) == shoe_held(a).add(r).count(v));
        assert(felt_cards(b).to_multiset().count(v) == felt_cards(a).to_multiset().insert(c).count(v));
    }
    assert(cards_held(b) =~= cards_held(a).add(r));
    if b.opened == a.opened {
        assert(decks_opened(b) =~= decks_opened(a).add(r));
    } else {
        assert(d * (1 + o) + d == d * (1 + (o + 1))) by (nonlinear_arith);
        lemma_full_deck_add(d * (1 + o), d);
        assert(decks_opened(b) =~= decks_opened(a).add(r));
    }
}

/// A step that leaves the shoe, the dealer, every hand's cards, the rules,
/// and the decks opened alone keeps every card accounted for.
pub proof fn lemma_cards_kept_frame(a: TableModel, b: TableModel)
    requires
        cards_kept(a),
        b.rules.decks == a.rules.decks,
        b.opened == a.opened,
        b.shoe.cards == a.shoe.cards,
        b.shoe.discards == a.shoe.discards,
        b.dealer == a.dealer,
        b.seats.len() == a.seats.len(),
        forall|i: int| 0 <= i < a.seats.len() ==> #[trigger] same_cards(a.seats[i], b.seats[i]),
    ensures
        cards_kept(b),
{
    lemma_seats_cards_same(a.seats, b.seats);
    assert(felt_cards(a) == felt_cards(b));
}

/// Replacing a hand by one holding the same cards keeps every card
/// accounted for.
pub proof fn lemma_kept_upd_hand(m: TableModel, s: int, h: int, x: HandModel)
    requires
        cards_kept(m),
        0 <= s < m.seats.len(),
        0 <= h < m.seats[s].hands.len(),
        x.cards == m.seats[s].hands[h].cards,
    ensures
        cards_kept(upd_hand(m, s, h, x)),
{
    let n = upd_hand(m, s, h, x);
    assert forall|i: int| 0 <= i < m.seats.len() implies #[trigger] same_cards(m.seats[i], n.seats[i]) by {
        if i == s {
            assert forall|k: int| 0 <= k < m.seats[i].hands.len() implies (#[trigger] m.seats[i].hands[k]).cards
                == n.seats[i].hands[k].cards by {
                if k != h {
                    assert(n.seats[i].hands[k] == m.seats[i].hands[k]);
                }
            }
        } else {
            assert(n.seats[i] == m.seats[i]);
        }
    }
    lemma_cards_kept_frame(m, n);
}

/// Replacing a seat by one holding the same cards keeps every card
/// accounted for.
pub proof fn lemma_kept_upd_seat(m: TableModel, s: int, y: SeatModel)
    requires
        cards_kept(m),
        0 <= s < m.seats.len(),
        same_cards(m.seats[s], y),
    ensures
        cards_kept(upd_seat(m, s, y)),
{
    let n = upd_seat(m, s, y);
    assert forall|i: int| 0 <= i < m.seats.len() implies #[trigger] same_cards(m.seats[i], n.seats[i]) by {
        if i != s {
            assert(n.seats[i] == m.seats[i]);
        }
    }
    lemma_cards_kept_frame(m, n);
}

/// Splitting a hand into two that hold its cards in order leaves the run
/// of cards as it was.
pub proof fn lemma_hands_cards_split(hs: Seq<HandModel>, h: int, y0: HandModel, y1: HandModel)
    requires
        0 <= h < hs.len(),
        y0.cards + y1.cards == hs[h].cards,
    ensures
        hands_cards(x_hands_split(hs, h, y0, y1)) == hands_cards(hs),
    decreases hs.len(),
{
    let u = x_hands_split(hs, h, y0, y1);
    if h == hs.len() - 1 {
        assert(u.drop_last() =~= hs.drop_last().push(y0));
        assert(u.drop_last().drop_last() =~= hs.drop_last());
        assert(u.last() == y1);
        assert(u.drop_last().last() == y0);
        assert(hands_cards(u) == hands_cards(u.drop_last()) + y1.cards);
        assert(hands_cards(u.drop_last()) == hands_cards(hs.drop_last()) + y0.cards);
        assert(hands_cards(hs) == hands_cards(hs.drop_last()) + hs[h].cards);
        assert(hands_cards(u) =~= hands_cards(hs));
    } else {
        assert(u.drop_last() =~= x_hands_split(hs.drop_last(), h, y0, y1));
        assert(u.last() == hs.last());
        lemma_hands_cards_split(hs.drop_last(), h, y0, y1);
    }
}

/// Seats whose hands hold the same runs of cards, seat for seat, hold the
/// same run of cards.
pub proof fn lemma_seats_cards_same_runs(a: Seq<SeatModel>, b: Seq<SeatModel>)
    requires
        a.len() == b.len(),
        forall|i: int| 0 <= i < a.len() ==> hands_cards((#[trigger] a[i]).hands) == hands_cards(b[i].hands),
    ensures
        seats_cards(a) == seats_cards(b),
    decreases a.len(),
{
    if a.len() > 0 {
        assert(hands_cards(a.last().hands) == hands_cards(b.last().hands)) by {
            assert(hands_cards(a[a.len() - 1].hands) == hands_cards(b[a.len() - 1].hands));
        }
        assert forall|i: int| 0 <= i < a.drop_last().len() implies hands_cards((#[trigger] a.drop_last()[i]).hands)
            == hands_cards(b.drop_last()[i].hands) by {
            assert(hands_cards(a[i].hands) == hands_cards(b[i].hands));
        }
        lemma_seats_cards_same_runs(a.drop_last(), b.drop_last());
    }
}

/// Replacing one hand trades its cards for the new hand's.
pub proof fn lemma_hands_cards_update(hs: Seq<HandModel>, h: int, x: HandModel)
    requires
        0 <= h < hs.len(),
    ensures
        hands_cards(hs.update(h, x)).to_multiset().add(hs[h].cards.to_multiset()) == hands_cards(
            hs,
        ).to_multiset().add(x.cards.to_multiset()),
    decreases hs.len(),
{
    let u = hs.update(h, x);
    let n = hs.len() - 1;
    vstd::seq_lib::lemma_multiset_commutative(hands_cards(u.drop_last()), u.last().cards);
    vstd::seq_lib::lemma_multiset_commutative(hands_cards(hs.drop_last()), hs.last().cards);
    if h == n {
        assert(u.drop_last() =~= hs.drop_last());
        assert(u.last() == x);
        assert(hands_cards(u).to_multiset().add(hs[h].cards.to_multiset()) =~= hands_cards(hs).to_multiset().add(x.cards.to_multiset()));
    } else {
        assert(u.drop_last() =~= hs.drop_last().update(h, x));
        assert(u.last() == hs.last());
        lemma_hands_cards_update(hs.drop_last(), h, x);
        assert(hs.drop_last()[h] == hs[h]);
        let a = hands_cards(u.drop_last()).to_multiset();
        let b = hands_cards(hs.drop_last()).to_multiset();
        let o = hs[h].cards.to_multiset();
        let w = x.cards.to_multiset();
        assert(a.add(o) == b.add(w));
        assert forall|v: Card| #[trigger] hands_cards(u).to_multiset().add(o).count(v) == hands_cards(hs).to_multiset().add(w).count(v) by {
            assert(a.add(o).count(v) == b.add(w).count(v));
        }
        assert(hands_cards(u).to_multiset().add(o) =~= hands_cards(hs).to_multiset().add(w));
    }
}

/// Replacing one seat trades its cards for the new seat's.
pub proof fn lemma_seats_cards_update(ss: Seq<SeatModel>, s: int, y: SeatModel)
    requires
        0 <= s < ss.len(),
    ensures
        seats_cards(ss.update(s, y)).to_multiset().add(hands_cards(ss[s].hands).to_multiset())
            == seats_cards(ss).to_multiset().add(hands_cards(y.hands).to_multiset()),
    decreases ss.len(),
{
    let u = ss.update(s, y);
    let n = ss.len() - 1;
    vstd::seq_lib::lemma_multiset_commutative(seats_cards(u.drop_last()), hands_cards(u.last().hands));
    vstd::seq_lib::lemma_multiset_commutative(seats_cards(ss.drop_last()), hands_cards(ss.last().hands));
    if s == n {
        assert(u.drop_last() =~= ss.drop_last());
        assert(u.last() == y);
        assert(seats_cards(u).to_multiset().add(hands_cards(ss[s].hands).to_multiset()) =~= seats_cards(ss).to_multiset().add(hands_cards(y.hands).to_multiset()));
    } else {
        assert(u.drop_last() =~= ss.drop_last().update(s, y));
        assert(u.last() == ss.last());
        lemma_seats_cards_update(ss.drop_last(), s, y);
        assert(ss.drop_last()[s] == ss[s]);
        let a = seats_cards(u.drop_last()).to_multiset();
        let b = seats_cards(ss.drop_last()).to_multiset();
        let l = hands_cards(ss.last().hands).to_multiset();
        let o = hands_cards(ss[s].hands).to_multiset();
        let w = hands_cards(y.hands).to_multiset();
        assert(a.add(o) == b.add(w));
        assert forall|v: Card| #[trigger] seats_cards(u).to_multiset().add(o).count(v) == seats_cards(ss).to_multiset().add(w).count(v) by {
            assert(a.add(o).count(v) == b.add(w).count(v));
        }
        assert(seats_cards(u).to_multiset().add(o) =~= seats_cards(ss).to_multiset().add(w));
    }
}

/// A card dealt to a player hand joins the felt.
pub proof fn lemma_felt_hand_push(m: TableModel, s: int, h: int, c: Card, x: HandModel)
    requires
        0 <= s < m.seats.len(),
        0 <= h < m.seats[s].hands.len(),
        x.cards == m.seats[s].hands[h].cards.push(c),
    ensures
        felt_cards(upd_hand(m, s, h, x)).to_multiset() == felt_cards(m).to_multiset().insert(c),
{
    let old_hand = m.seats[s].hands[h];
    let n = upd_hand(m, s, h, x);
    let y = SeatModel { hands: m.seats[s].hands.update(h, x), ..m.seats[s] };
    lemma_hands_cards_update(m.seats[s].hands, h, x);
    lemma_seats_cards_update(m.seats, s, y);
    vstd::seq_lib::to_multiset_build(old_hand.cards, c);
    vstd::seq_lib::lemma_multiset_commutative(m.dealer, seats_cards(m.seats));
    vstd::seq_lib::lemma_multiset_commutative(n.dealer, seats_cards(n.seats));
    assert(n.seats == m.seats.update(s, y));
    let o = old_hand.cards.to_multiset();
    let hy = hands_cards(y.hands).to_multiset();
    let hm = hands_cards(m.seats[s].hands).to_multiset();
    assert forall|v: Card| #[trigger] hy.count(v) == hm.insert(c).count(v) by {
        assert(hy.add(o).count(v) == hm.add(o.insert(c)).count(v));
    }
    assert(hy =~= hm.insert(c));
    let sn = seats_cards(n.seats).to_multiset();
    let sm = seats_cards(m.seats).to_multiset();
    assert forall|v: Card| #[trigger] sn.count(v) == sm.insert(c).count(v) by {
        assert(sn.add(hm).count(v) == sm.add(hy).count(v));
    }
    assert(sn =~= sm.insert(c));
    assert(felt_cards(n).to_multiset() =~= felt_cards(m).to_multiset().insert(c));
}

/// A card dealt to the dealer joins the felt.
pub proof fn lemma_felt_dealer_push(m: TableModel, c: Card)
    ensures
        felt_cards(TableModel { dealer: m.dealer.push(c), ..m }).to_multiset() == felt_cards(m).to_multiset().insert(c),
{
    vstd::seq_lib::to_multiset_build(m.dealer, c);
    vstd::seq_lib::lemma_multiset_commutative(m.dealer, seats_cards(m.seats));
    vstd::seq_lib::lemma_multiset_commutative(m.dealer.push(c), seats_cards(m.seats));
    assert(felt_cards(TableModel { dealer: m.dealer.push(c), ..m }).to_multiset() =~= felt_cards(m).to_multiset().insert(c));
}

/// Card `52 * a + j` of a stack of fresh decks is card `j`: every deck is
/// laid out alike.
pub proof fn lemma_deck_card_periodic(a: int, j: int)
    requires
        a >= 0,
        j >= 0,
    ensures
        deck_card(52 * a + j) == deck_card(j),
{
    vstd::arithmetic::div_mod::lemma_mod_multiples_vanish(4 * a, j, 13);
    assert(13 * (4 * a) + j == 52 * a + j);
    vstd::arithmetic::div_mod::lemma_hoist_over_denominator(j, 4 * a, 13);
    assert(j + (4 * a) * 13 == 52 * a + j);
    vstd::arithmetic::div_mod::lemma_mod_multiples_vanish(a, j / 13, 4);
}

/// Opening `a` decks and then `b` more gives `a + b` decks.
pub proof fn lemma_full_deck_add(a: nat, b: nat)
    ensures
        full_deck(a + b).to_multiset() == full_deck(a).to_multiset().add(full_deck(b).to_multiset()),
{
    assert(full_deck(a + b) =~= full_deck(a) + full_deck(b)) by {
        assert((a + b) * 52 == a * 52 + b * 52);
        assert forall|i: int| 0 <= i < (a + b) * 52 implies #[trigger] full_deck(a + b)[i] == (full_deck(a) + full_deck(b))[i] by {
            if i >= a * 52 {
                lemma_deck_card_periodic(a as int, i - a * 52);
            }
        }
    }
    vstd::seq_lib::lemma_multiset_commutative(full_deck(a), full_deck(b));
}

/// What clearing the felt did: a fresh betting round, every card on the
/// felt in the discard pile in order, and — with the cut card reached — a
/// reshuffle of everything the shoe holds followed by one burned card.
pub open spec fn next_round_effect(a: TableModel, b: TableModel, events: Seq<Event>) -> bool {
    &&& b.rules == a.rules
    &&& b.phase == Phase::Betting
    &&& b.dealer.len() == 0
    &&& !b.hole_revealed
    &&& b.active is None
    &&& b.seats.len() == a.seats.len()
    &&& forall|i: int| 0 <= i < b.seats.len() ==> #[trigger] b.seats[i] == empty_seat()
    &&& if a.shoe.cut_reached() {
        &&& events == seq![Event::ShoeShuffled, Event::CardBurned]
        &&& (b.shoe.cards + b.shoe.discards).to_multiset() == (a.shoe.cards + a.shoe.discards
            + felt_cards(a)).to_multiset()
        &&& b.shoe.cards.len() + b.shoe.discards.len() == a.shoe.cards.len()
            + a.shoe.discards.len() + felt_cards(a).len()
        &&& b.shoe.discards.len() <= 1
    } else {
        &&& events == Seq::<Event>::empty()
        &&& b.shoe.cards == a.shoe.cards
        &&& b.shoe.discards == a.shoe.discards + felt_cards(a)
    }
}

impl Table {
    fn next_round(&mut self, events: &mut Vec<Event>) -> (r: Result<(), ActionError>)
        requires
            wf(old(self)@),
        ensures
            final(self)@.opened == old(self)@.opened,
            old(self)@.phase != Phase::RoundOver ==> r == Err::<(), ActionError>(
                ActionError::WrongPhase { action: ActionKind::NextRound, phase: old(self)@.phase },
            ) && final(self)@ == old(self)@ && final(events)@ == old(events)@,
            old(self)@.phase == Phase::RoundOver ==> r is Ok && wf(final(self)@)
                && final(events)@.len() >= old(events)@.len() && next_round_effect(
                old(self)@,
                final(self)@,
                final(events)@.subrange(old(events)@.len() as int, final(events)@.len() as int),
            ) && final(events)@.subrange(0, old(events)@.len() as int) == old(events)@,
    {
        match self.require_phase(Phase::RoundOver, ActionKind::NextRound) {
            Err(e) => return Err(e),
            Ok(()) => {},
        }
        let ghost m0 = self@;
        // Everything on the felt goes to the discard pile.
        let mut dealer_cards: Vec<Card> = Vec::new();
        std::mem::swap(&mut self.dealer, &mut dealer_cards);
        self.shoe.discard_all(dealer_cards);
        let n = self.seats.len();
        let mut i: usize = 0;
        while i < n
            invariant
                n == m0.seats.len(),
                i <= n,
                base(m0),
                self@.rules == m0.rules,
                self@.phase == m0.phase,
                self@.active == m0.active,
                self@.hole_revealed == m0.hole_revealed,
                self@.opened == m0.opened,
                self@.dealer.len() == 0,
                self@.seats.len() == n,
                self@.shoe == (ShoeView {
                    discards: m0.shoe.discards + m0.dealer + seats_cards(m0.seats.subrange(0, i as int)),
                    ..m0.shoe
                }),
                forall|j: int| 0 <= j < i ==> #[trigger] self@.seats[j] == empty_seat(),
                forall|j: int| i <= j < n ==> #[trigger] self@.seats[j] == m0.seats[j],
            decreases n - i,
        {
            let ghost pre = self@;
            let st = self.take_seat(i);
            let mut hands = st.hands;
            let ghost hv = m0.seats[i as int].hands;
            assert(hand_models(hands@) == hv);
            let mut k: usize = 0;
            while k < hands.len()
                invariant
                    k <= hands@.len(),
                    hands@.len() == hv.len(),
                    forall|j: int| k <= j < hands@.len() ==> (#[trigger] hands@[j])@ == hv[j],
                    self@ == (TableModel {
                        shoe: ShoeView {
                            discards: pre.shoe.discards + hands_cards(hv.subrange(0, k as int)),
                            ..pre.shoe
                        },
                        ..upd_seat(pre, i as int, empty_seat())
                    }),
                decreases hands.len() - k,
            {
                let mut h = HandState::new(0);
                hands.set_and_swap(k, &mut h);
                assert(h@ == hv[k as int]);
                let ghost before = self@.shoe.discards;
                self.shoe.discard_all(h.cards);
                proof {
                    assert(hv.subrange(0, k as int + 1).drop_last() =~= hv.subrange(0, k as int));
                    assert(self@.shoe.discards =~= pre.shoe.discards + hands_cards(hv.subrange(0, k as int + 1)));
                }
                k = k + 1;
            }
            proof {
                assert(hv.subrange(0, hv.len() as int) =~= hv);
                assert(m0.seats.subrange(0, i as int + 1).drop_last() =~= m0.seats.subrange(0, i as int));
                assert(m0.seats.subrange(0, i as int + 1).last() == m0.seats[i as int]);
                assert(self@.shoe.discards =~= m0.shoe.discards + m0.dealer + seats_cards(m0.seats.subrange(0, i as int + 1)));
                assert forall|j: int| 0 <= j < i + 1 implies #[trigger] self@.seats[j] == empty_seat() by {
                    if j < i {
                        assert(self@.seats[j] == pre.seats[j]);
                    }
                }
            }
            i = i + 1;
        }
        self.hole_revealed = false;
        let ghost m1 = self@;
        proof {
            assert(m0.seats.subrange(0, n as int) =~= m0.seats);
            assert(m1.shoe.discards =~= m0.shoe.discards + felt_cards(m0));
        }
        let ghost e0 = events@;
        if self.shoe.cut_card_reached() {
            self.shoe.reshuffle();
            let ghost shuffled = self@.shoe.cards;
            events.push(Event::ShoeShuffled);
            let _ = self.shoe.burn();
            events.push(Event::CardBurned);
            proof {
                vstd::seq_lib::lemma_multiset_commutative(m1.shoe.cards, m1.shoe.discards);
                assert(m1.shoe.cards + m1.shoe.discards =~= m0.shoe.cards + m0.shoe.discards + felt_cards(m0));
                assert(self@.shoe.cards + self@.shoe.discards =~= shuffled);
                assert(events@.subrange(e0.len() as int, events@.len() as int) =~= seq![Event::ShoeShuffled, Event::CardBurned]);
                assert(events@.subrange(0, e0.len() as int) =~= e0);
            }
        } else {
            proof {
                assert(events@.subrange(e0.len() as int, events@.len() as int) =~= Seq::<Event>::empty());
                assert(events@.subrange(0, e0.len() as int) =~= e0);
                assert(self@.shoe.cards + self@.shoe.discards =~= m0.shoe.cards + m0.shoe.discards + felt_cards(m0));
            }
        }
        self.phase = Phase::Betting;
        proof {
            assert(seat_base(empty_seat(), m0.rules));
            assert forall|i: int| 0 <= i < self@.seats.len() implies (#[trigger] self@.seats[i]).hands.len() == 0 by {
                assert(self@.seats[i] == empty_seat());
            }
            lemma_seats_cards_empty(self@.seats);
            assert(self@.shoe.cards + self@.shoe.discards + felt_cards(self@) =~= self@.shoe.cards + self@.shoe.discards);
            assert(cards_held(self@) == cards_held(m0));
        }
        Ok(())
    }
}

/// What a successful `apply` did, by action, with the events it returned.
pub open spec fn applied(a: TableModel, b: TableModel, seat: usize, action: Action, events: Seq<Event>) -> bool {
    &&& wf(b)
    &&& b.rules == a.rules
    &&& b.opened == a.opened
    &&& (!(action is NextRound) ==> drew_only(a, b))
    &&& match action {
        Action::PlaceBet(amount) => {
            &&& b == upd_seat(a, seat as int, SeatModel { bet: Some(amount), ..a.seats[seat as int] })
            &&& events == seq![Event::BetPlaced { seat, amount }]
        },
        Action::Deal => deal_effect(a, b) && dealt_events_in_order(a, events),
        Action::TakeInsurance => {
            &&& insurance_effect(a, b, seat as int, true)
            &&& extends(
                seq![Event::InsuranceTaken { seat, amount: (a.seats[seat as int].bet->0 / 2) as u32 }],
                events,
            )
        },
        Action::DeclineInsurance => {
            &&& insurance_effect(a, b, seat as int, false)
            &&& extends(seq![Event::InsuranceDeclined { seat }], events)
        },
        Action::Hit => {
            &&& hit_effect(a, b)
            &&& a.shoe.cards.len() > 0 ==> extends(
                seq![
                    Event::CardDealt {
                        seat,
                        hand: active_hand(a),
                        card: a.shoe.cards.last(),
                    },
                ],
                events,
            )
        },
        Action::Stand => {
            &&& stand_effect(a, b)
            &&& extends(
                seq![
                    Event::PlayerStood {
                        seat,
                        hand: active_hand(a),
                        total: hand_total(active_hand_of(a).cards),
                    },
                ],
                events,
            )
        },
        Action::Double => {
            &&& double_effect(a, b)
            &&& extends(
                seq![
                    Event::DoubledDown {
                        seat,
                        hand: active_hand(a),
                        bet: (2 * active_hand_of(a).bet) as u32,
                    },
                ],
                events,
            )
            &&& a.shoe.cards.len() > 0 ==> extends(
                seq![
                    Event::DoubledDown {
                        seat,
                        hand: active_hand(a),
                        bet: (2 * active_hand_of(a).bet) as u32,
                    },
                    Event::CardDealt { seat, hand: active_hand(a), card: a.shoe.cards.last() },
                ],
                events,
            )
        },
        Action::Split => {
            &&& split_effect(a, b)
            &&& extends(seq![Event::HandSplit { seat, hand: active_hand(a) }], events)
            &&& a.shoe.cards.len() > 0 ==> extends(
                seq![
                    Event::HandSplit { seat, hand: active_hand(a) },
                    Event::CardDealt { seat, hand: active_hand(a), card: a.shoe.cards.last() },
                ],
                events,
            )
        },
        Action::Surrender => {
            &&& surrender_effect(a, b)
            &&& extends(seq![Event::PlayerSurrendered { seat }], events)
        },
        Action::NextRound => next_round_effect(a, b, events),
    }
}

impl Table {
    /// Perform `action` for `seat`.
    ///
    /// On success the table advances — running any automatic stages
    /// (dealing, peek, dealer draw, settlement) to the next resting point
    /// — and returns the new [`Snapshot`] plus ordered [`Event`]s. On
    /// failure a typed [`ActionError`] is returned and the table is
    /// untouched.
    pub fn apply(&mut self, seat: usize, action: Action) -> (r: Result<Transition, ActionError>)
        requires
            wf(old(self)@),
        ensures
            match spec_apply_error(old(self)@, seat, action) {
                Some(e) => r == Err::<Transition, ActionError>(e) && final(self)@ == old(self)@,
                None => r matches Ok(t) && wf(final(self)@) && snapshot_of(final(self)@, t.snapshot)
                    && applied(old(self)@, final(self)@, seat, action, t.events@),
            },
    {
        if seat >= self.rules.seats {
            return Err(ActionError::SeatOutOfRange { seat, seats: self.rules.seats });
        }
        let mut events: Vec<Event> = Vec::new();
        let ghost m0 = self@;
        let result = match action {
            Action::PlaceBet(amount) => self.place_bet(seat, amount, &mut events),
            Action::Deal => self.deal(&mut events),
            Action::TakeInsurance => self.decide_insurance(seat, true, &mut events),
            Action::DeclineInsurance => self.decide_insurance(seat, false, &mut events),
            Action::Hit => self.hit(seat, &mut events),
            Action::Stand => self.stand(seat, &mut events),
            Action::Double => self.double(seat, &mut events),
            Action::Split => self.split(seat, &mut events),
            Action::Surrender => self.surrender(seat, &mut events),
            Action::NextRound => self.next_round(&mut events),
        };
        match result {
            Err(e) => Err(e),
            Ok(()) => {
                proof {
                    let ev = events@;
                    assert(ev.subrange(0, ev.len() as int) =~= ev);
                    assert(Seq::<Event>::empty().push(Event::BetPlaced { seat, amount: 0 }) =~= seq![Event::BetPlaced { seat, amount: 0 }]);
                    match action {
                        Action::PlaceBet(amount) => {
                            assert(ev =~= seq![Event::BetPlaced { seat, amount }]);
                        },
                        Action::TakeInsurance => {
                            let e = Event::InsuranceTaken { seat, amount: (m0.seats[seat as int].bet->0 / 2) as u32 };
                            assert(Seq::<Event>::empty().push(e) =~= seq![e]);
                        },
                        Action::DeclineInsurance => {
                            let e = Event::InsuranceDeclined { seat };
                            assert(Seq::<Event>::empty().push(e) =~= seq![e]);
                        },
                        Action::Stand => {
                            let e = Event::PlayerStood { seat, hand: active_hand(m0), total: hand_total(active_hand_of(m0).cards) };
                            assert(Seq::<Event>::empty().push(e) =~= seq![e]);
                        },
                        Action::Double => {
                            let e = Event::DoubledDown { seat, hand: active_hand(m0), bet: (2 * active_hand_of(m0).bet) as u32 };
                            assert(Seq::<Event>::empty().push(e) =~= seq![e]);
                            let d = Event::CardDealt { seat, hand: active_hand(m0), card: m0.shoe.cards.last() };
                            assert(Seq::<Event>::empty().push(e).push(d) =~= seq![e, d]);
                        },
                        Action::Split => {
                            let e = Event::HandSplit { seat, hand: active_hand(m0) };
                            assert(Seq::<Event>::empty().push(e) =~= seq![e]);
                            let d = Event::CardDealt { seat, hand: active_hand(m0), card: m0.shoe.cards.last() };
                            assert(Seq::<Event>::empty().push(e).push(d) =~= seq![e, d]);
                        },
                        Action::Surrender => {
                            let e = Event::PlayerSurrendered { seat };
                            assert(Seq::<Event>::empty().push(e) =~= seq![e]);
                        },
                        _ => {},
                    }
                }
                let snapshot = self.snapshot();
                Ok(Transition { snapshot, events })
            },
        }
    }
}

/// Membership in the player-turn list: hit and stand always, the others
/// exactly when allowed.
proof fn lemma_turn_list_contains(k: ActionKind, d: bool, sp: bool, su: bool)
    ensures
        (seq![ActionKind::Hit, ActionKind::Stand] + (if d {
            seq![ActionKind::Double]
        } else {
            Seq::empty()
        }) + (if sp {
            seq![ActionKind::Split]
        } else {
            Seq::empty()
        }) + (if su {
            seq![ActionKind::Surrender]
        } else {
            Seq::empty()
        })).contains(k) <==> (k == ActionKind::Hit || k == ActionKind::Stand || (d && k
            == ActionKind::Double) || (sp && k == ActionKind::Split) || (su && k
            == ActionKind::Surrender)),
{
    let a = seq![ActionKind::Hit, ActionKind::Stand];
    let b = if d { seq![ActionKind::Double] } else { Seq::<ActionKind>::empty() };
    let c = if sp { seq![ActionKind::Split] } else { Seq::<ActionKind>::empty() };
    let e = if su { seq![ActionKind::Surrender] } else { Seq::<ActionKind>::empty() };
    let l = a + b + c + e;
    if l.contains(k) {
        let i = choose|i: int| 0 <= i < l.len() && l[i] == k;
        if i < a.len() {
            assert(l[i] == a[i]);
        } else if i < a.len() + b.len() {
            assert(l[i] == b[i - a.len()]);
        } else if i < a.len() + b.len() + c.len() {
            assert(l[i] == c[i - a.len() - b.len()]);
        } else {
            assert(l[i] == e[i - a.len() - b.len() - c.len()]);
        }
    }
    if k == ActionKind::Hit {
        assert(l[0] == k);
    }
    if k == ActionKind::Stand {
        assert(l[1] == k);
    }
    if d && k == ActionKind::Double {
        assert(l[2] == k);
    }
    if sp && k == ActionKind::Split {
        assert(l[(a.len() + b.len()) as int] == k);
    }
    if su && k == ActionKind::Surrender {
        assert(l[(a.len() + b.len() + c.len()) as int] == k);
    }
}

/// The action of kind `k` a front end submits from a legal-action list:
/// the table minimum for a bet, the bare action otherwise.
pub open spec fn concrete_action(m: TableModel, k: ActionKind) -> Action {
    match k {
        ActionKind::PlaceBet => Action::PlaceBet(m.rules.min_bet),
        ActionKind::Deal => Action::Deal,
        ActionKind::Hit => Action::Hit,
        ActionKind::Stand => Action::Stand,
        ActionKind::Double => Action::Double,
        ActionKind::Split => Action::Split,
        ActionKind::Surrender => Action::Surrender,
        ActionKind::TakeInsurance => Action::TakeInsurance,
        ActionKind::DeclineInsurance => Action::DeclineInsurance,
        ActionKind::NextRound => Action::NextRound,
    }
}

/// The seat a front end acts from: the one the table waits on, or the
/// first seat while nobody is singled out.
pub open spec fn acting_seat(m: TableModel) -> usize {
    match m.active {
        Some((s, _)) => s,
        None => 0,
    }
}

/// The legal-action list is never empty and holds exactly the kinds the
/// table accepts next from the seat it waits on (the first seat while
/// betting or between rounds), each submitted in its plain form.
pub proof fn lemma_legal_actions_exact(m: TableModel, k: ActionKind)
    requires
        wf(m),
    ensures
        spec_legal(m).len() >= 1,
        spec_legal(m).contains(k) <==> spec_apply_error(m, acting_seat(m), concrete_action(m, k)) is None,
{
    let a = concrete_action(m, k);
    assert(spec_kind(a) == k);
    assert(acting_seat(m) < m.seats.len());
    assert(m.phase == Phase::InsuranceOffer || m.phase == Phase::PlayerTurn ==> acting_seat(m) == active_seat(m));
    lemma_legal_actions_are_accepted(m, acting_seat(m), a);
}

/// The legal actions are exactly what the table accepts: from the seat it
/// waits on (any seat while betting or between rounds), with a bet inside
/// the table limits, an action kind is listed by `legal_actions` if and
/// only if `apply` accepts it.
pub proof fn lemma_legal_actions_are_accepted(m: TableModel, seat: usize, action: Action)
    requires
        wf(m),
        seat < m.seats.len(),
        m.phase == Phase::InsuranceOffer || m.phase == Phase::PlayerTurn ==> seat == active_seat(m),
        action matches Action::PlaceBet(amount) ==> m.rules.min_bet <= amount <= m.rules.max_bet,
    ensures
        spec_legal(m).contains(spec_kind(action)) <==> spec_apply_error(m, seat, action) is None,
{
    let k = spec_kind(action);
    match m.phase {
        Phase::Betting => {
            if any_bet(m) {
                let l = seq![ActionKind::PlaceBet, ActionKind::Deal];
                if l.contains(k) {
                    let i = choose|i: int| 0 <= i < l.len() && l[i] == k;
                }
                if k == ActionKind::Deal {
                    assert(l[1] == k);
                }
                assert(l[0] == ActionKind::PlaceBet);
            } else {
                let l = seq![ActionKind::PlaceBet];
                if l.contains(k) {
                    let i = choose|i: int| 0 <= i < l.len() && l[i] == k;
                }
                assert(l[0] == ActionKind::PlaceBet);
            }
        },
        Phase::InsuranceOffer => {
            let l = seq![ActionKind::TakeInsurance, ActionKind::DeclineInsurance];
            if l.contains(k) {
                let i = choose|i: int| 0 <= i < l.len() && l[i] == k;
            }
            assert(l[0] == ActionKind::TakeInsurance);
            assert(l[1] == ActionKind::DeclineInsurance);
        },
        Phase::PlayerTurn => {
            let s = active_seat(m) as int;
            let h = active_hand(m) as int;
            lemma_turn_list_contains(
                k,
                spec_can_double(m, s, h),
                spec_can_split(m, s, h),
                spec_can_surrender(m, s, h),
            );
        },
        Phase::RoundOver => {
            let l = seq![ActionKind::NextRound];
            if l.contains(k) {
                let i = choose|i: int| 0 <= i < l.len() && l[i] == k;
            }
            assert(l[0] == ActionKind::NextRound);
        },
    }
}

/// The bet total of a run of hands.
pub open spec fn model_hands_bet(hands: Seq<HandModel>) -> int
    decreases hands.len(),
{
    if hands.len() == 0 {
        0
    } else {
        model_hands_bet(hands.drop_last()) + hands.last().bet
    }
}

/// The dollars an insurance position has at stake.
pub open spec fn insurance_stake(ins: Insurance) -> int {
    match ins {
        Insurance::Taken { amount } => amount as int,
        _ => 0,
    }
}

/// Dollars a seat has riding: the posted bet while betting, then every
/// hand bet plus any insurance stake once cards are out.
pub open spec fn seat_stake(s: SeatModel) -> int {
    if s.hands.len() == 0 {
        match s.bet {
            Some(b) => b as int,
            None => 0,
        }
    } else {
        model_hands_bet(s.hands) + insurance_stake(s.insurance)
    }
}

/// The dealer plays by the house rule: once a round is over, every card
/// the dealer drew past the first two was drawn to a hand that had to
/// hit (below 17, or a soft 17 when the rules hit it), and whenever a
/// player hand stood waiting on the dealer, the dealer's final hand is
/// one the rules let stand.
pub proof fn lemma_dealer_plays_by_the_rules(m: TableModel)
    requires
        wf(m),
        m.phase == Phase::RoundOver,
    ensures
        m.dealer.len() >= 2,
        forall|k: int| 2 <= k < m.dealer.len() ==> #[trigger] dealer_must_hit(m.dealer.subrange(0, k), m.rules),
        any_stood(m.seats) ==> !dealer_must_hit(m.dealer, m.rules),
{
}

/// Every card is accounted for: at rest, the undealt shoe, the discard
/// pile, and the felt together hold exactly the table's decks — each
/// card of a standard deck once per deck — so no card is lost and none
/// is made up. A new table has opened no other decks, and no accepted
/// action opens any (see `drew_only`), so this holds of every table
/// reached through `apply`.
pub proof fn lemma_every_card_accounted_for(m: TableModel)
    requires
        wf(m),
        m.opened == 0,
    ensures
        (m.shoe.cards + m.shoe.discards + felt_cards(m)).to_multiset() == full_deck(m.rules.decks as nat).to_multiset(),
        (m.shoe.cards + m.shoe.discards + felt_cards(m)).len() == m.rules.decks * 52,
{
    assert(m.rules.decks * (1 + m.opened) == m.rules.decks) by (nonlinear_arith)
        requires m.opened == 0;
    assert(cards_held(m) == decks_opened(m));
    vstd::seq_lib::to_multiset_len(m.shoe.cards + m.shoe.discards + felt_cards(m));
    vstd::seq_lib::to_multiset_len(full_deck(m.rules.decks as nat));
}

/// The cards a run of hand snapshots shows.
pub open spec fn snap_hands_cards(hs: Seq<HandSnapshot>) -> nat
    decreases hs.len(),
{
    if hs.len() == 0 {
        0
    } else {
        snap_hands_cards(hs.drop_last()) + hs.last().cards@.len()
    }
}

/// The cards a run of seat snapshots shows.
pub open spec fn snap_seats_cards(ss: Seq<SeatSnapshot>) -> nat
    decreases ss.len(),
{
    if ss.len() == 0 {
        0
    } else {
        snap_seats_cards(ss.drop_last()) + snap_hands_cards(ss.last().hands@)
    }
}

/// Every card a snapshot accounts for: the undealt shoe, the discard
/// pile, every hand's cards, the upcard, the hole card, and the dealer's
/// draws.
pub open spec fn snapshot_card_count(s: Snapshot) -> nat {
    (s.shoe.cards_remaining as nat) + (s.shoe.discard_pile_size as nat) + snap_seats_cards(s.seats@) + (if s.dealer.upcard
        is Some {
        1nat
    } else {
        0nat
    }) + (if s.dealer.hole_card_dealt {
        1nat
    } else {
        0nat
    }) + s.dealer.draws@.len()
}

/// Hand snapshots show as many cards as the hands hold.
pub proof fn lemma_snap_hands_cards(hs: Seq<HandModel>, snaps: Seq<HandSnapshot>)
    requires
        snaps.len() == hs.len(),
        forall|i: int| 0 <= i < hs.len() ==> #[trigger] hand_snapshot_of(hs[i], snaps[i]),
    ensures
        snap_hands_cards(snaps) == hands_cards(hs).len(),
    decreases hs.len(),
{
    if hs.len() > 0 {
        let n = hs.len() - 1;
        assert forall|i: int| 0 <= i < n implies #[trigger] hand_snapshot_of(hs.drop_last()[i], snaps.drop_last()[i]) by {
            assert(hand_snapshot_of(hs[i], snaps[i]));
        }
        lemma_snap_hands_cards(hs.drop_last(), snaps.drop_last());
        assert(hand_snapshot_of(hs[n], snaps[n]));
    }
}

/// Seat snapshots show as many cards as the seats hold.
pub proof fn lemma_snap_seats_cards(ss: Seq<SeatModel>, snaps: Seq<SeatSnapshot>)
    requires
        snaps.len() == ss.len(),
        forall|i: int| 0 <= i < ss.len() ==> #[trigger] seat_snapshot_of(ss[i], snaps[i]),
    ensures
        snap_seats_cards(snaps) == seats_cards(ss).len(),
    decreases ss.len(),
{
    if ss.len() > 0 {
        let n = ss.len() - 1;
        assert forall|i: int| 0 <= i < n implies #[trigger] seat_snapshot_of(ss.drop_last()[i], snaps.drop_last()[i]) by {
            assert(seat_snapshot_of(ss[i], snaps[i]));
        }
        lemma_snap_seats_cards(ss.drop_last(), snaps.drop_last());
        assert(seat_snapshot_of(ss[n], snaps[n]));
        lemma_snap_hands_cards(ss[n].hands, snaps[n].hands@);
    }
}

/// A snapshot of a table that has opened no decks beyond its own
/// accounts for exactly the table's decks: shoe, discards, hands, and
/// the dealer's cards together come to `decks × 52`.
pub proof fn lemma_snapshot_counts_every_card(m: TableModel, s: Snapshot)
    requires
        wf(m),
        m.opened == 0,
        snapshot_of(m, s),
    ensures
        snapshot_card_count(s) == m.rules.decks * 52,
{
    lemma_every_card_accounted_for(m);
    lemma_snap_seats_cards(m.seats, s.seats@);
    assert(felt_cards(m).len() == m.dealer.len() + seats_cards(m.seats).len());
}

/// Hands with the same bets, hand for hand, carry the same total.
pub proof fn lemma_model_hands_bet_congruent(a: Seq<HandModel>, b: Seq<HandModel>)
    requires
        hand_bets_kept(a, b),
    ensures
        model_hands_bet(a) == model_hands_bet(b),
    decreases a.len(),
{
    if a.len() > 0 {
        assert(hand_bets_kept(a.drop_last(), b.drop_last()));
        lemma_model_hands_bet_congruent(a.drop_last(), b.drop_last());
        assert(a.last().bet == b.last().bet) by {
            assert(b[b.len() - 1].bet == a[a.len() - 1].bet);
        }
    }
}

/// Replacing a hand changes the total by the difference of the bets.
pub proof fn lemma_model_hands_bet_update(a: Seq<HandModel>, k: int, x: HandModel)
    requires
        0 <= k < a.len(),
    ensures
        model_hands_bet(a.update(k, x)) == model_hands_bet(a) - a[k].bet + x.bet,
    decreases a.len(),
{
    let u = a.update(k, x);
    if k < a.len() - 1 {
        assert(u.drop_last() =~= a.drop_last().update(k, x));
        lemma_model_hands_bet_update(a.drop_last(), k, x);
    } else {
        assert(u.drop_last() =~= a.drop_last());
    }
}

/// Inserting a hand adds its bet to the total.
pub proof fn lemma_model_hands_bet_insert(a: Seq<HandModel>, k: int, x: HandModel)
    requires
        0 <= k <= a.len(),
    ensures
        model_hands_bet(a.insert(k, x)) == model_hands_bet(a) + x.bet,
    decreases a.len(),
{
    let u = a.insert(k, x);
    if k == a.len() {
        assert(u.drop_last() =~= a);
    } else {
        assert(u.drop_last() =~= a.drop_last().insert(k, x));
        lemma_model_hands_bet_insert(a.drop_last(), k, x);
    }
}

/// Seats with the same bets have the same stake.
pub proof fn lemma_same_bets_stake(a: SeatModel, b: SeatModel)
    requires
        same_bets(a, b),
    ensures
        seat_stake(a) == seat_stake(b),
{
    lemma_model_hands_bet_congruent(a.hands, b.hands);
}

/// A double adds the hand's original bet to the seat's stake.
pub proof fn lemma_double_stake(a: TableModel, b: TableModel)
    requires
        wf(a),
        a.phase == Phase::PlayerTurn,
        double_effect(a, b),
    ensures
        seat_stake(b.seats[active_seat(a) as int]) == seat_stake(a.seats[active_seat(a) as int])
            + active_hand_of(a).bet,
{
    let s = active_seat(a) as int;
    let h = active_hand(a) as int;
    let x = active_hand_of(a);
    let hs = a.seats[s].hands;
    let y = b.seats[s].hands[h];
    let u = hs.update(h, y);
    assert(hand_bets_kept(u, b.seats[s].hands)) by {
        assert forall|k: int| 0 <= k < u.len() implies (#[trigger] b.seats[s].hands[k]).bet == u[k].bet by {}
    }
    lemma_model_hands_bet_congruent(u, b.seats[s].hands);
    lemma_model_hands_bet_update(hs, h, y);
}

/// A split adds the hand's bet to the seat's stake.
pub proof fn lemma_split_stake(a: TableModel, b: TableModel)
    requires
        wf(a),
        a.phase == Phase::PlayerTurn,
        split_effect(a, b),
    ensures
        seat_stake(b.seats[active_seat(a) as int]) == seat_stake(a.seats[active_seat(a) as int])
            + active_hand_of(a).bet,
{
    let s = active_seat(a) as int;
    let h = active_hand(a) as int;
    let x = active_hand_of(a);
    let hs = a.seats[s].hands;
    let u = hs.insert(h + 1, b.seats[s].hands[h + 1]);
    assert(hand_bets_kept(u, b.seats[s].hands)) by {
        assert forall|k: int| 0 <= k < u.len() implies (#[trigger] b.seats[s].hands[k]).bet == u[k].bet by {
            if k < h {
            } else if k == h {
            } else if k == h + 1 {
            } else {
                assert(u[k] == hs[k - 1]);
            }
        }
    }
    lemma_model_hands_bet_congruent(u, b.seats[s].hands);
    lemma_model_hands_bet_insert(hs, h + 1, b.seats[s].hands[h + 1]);
}
} // verus!
