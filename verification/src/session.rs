//! The session arc: buy-in, table life, walk away, cash out, game over —
//! the complete life of a session, created anew each launch.
//!
//! [`SessionArc`] wraps a [`TableLife`] with the one thing the engine
//! deliberately leaves a layer up: the human's money as physical chips.
//! The [`Rack`]'s chips are the truth — a bet withdraws real chips from
//! the rack onto the felt, doubles and splits and insurance commit more,
//! and settlement pushes chips back with payout semantics
//! ([`payout_chips`]). Per-round conservation holds by construction: the
//! rack's delta over a round equals the seat's `round_net`.
//!
//! Nothing here is ever persisted — a session lives and dies with its
//! process.
use vstd::prelude::*;
use rand_chacha::ChaCha8Rng;
use crate::action::{Action, ActionError, action_error_message};
use crate::chips::{
    ChipStack, Counts, Denomination, Rack, change_counts, denom_value, payout_chips, spec_payout_chips,
};
use crate::event::Event;
use crate::life::{
    Awaiting, LifeModel, Pace, TableLife, beat_keeps, life_wf, pace_of, reports, spec_awaiting,
    stake_kept,
};
use crate::rng::{random_u32, seeded};
use crate::rules::{Rules, spec_canonical};
use crate::snapshot::{HandSnapshot, Insurance, Phase, Snapshot};
use crate::table::{
    HandModel, SeatModel, TableModel, Transition, active_hand, active_hand_of, active_seat,
    applied, empty_seat, hand_snapshot_of, hands_net, insurance_result, insurance_stake,
    model_hands_bet, rules_ok, same_bets, seat_settled, seat_snapshot_of, seat_stake,
    settle_hand, snapshot_of, spec_apply_error, wf,
};
use crate::text::{decimal, push_decimal};

verus! {

/// Why a backend call failed.
#[derive(Debug, Clone, PartialEq, Eq)]
pub enum BackendError {
    /// The engine rejected the action; the table is unchanged.
    Rejected(ActionError),
    /// No session has been started yet.
    NoSession,
    /// The human's rack cannot cover the chips the action needs.
    InsufficientChips {
        /// The dollars the action would put on the felt.
        requested: u32,
        /// The dollars in the rack.
        available: u32,
    },
    /// Walking away is only possible between rounds, with no chips on
    /// the felt. A live hand is never abandoned.
    NotBetweenRounds,
    /// The session has ended (cashed out or game over); no further play
    /// is possible. Relaunching the app is the only way to a new one.
    SessionOver,
    /// The call never reached the engine or the reply was unreadable
    /// (IPC failure, malformed payload).
    Transport(String),
}

/// The human-readable message for a backend error.
pub open spec fn backend_error_message(err: BackendError) -> Seq<char> {
    match err {
        BackendError::Rejected(e) => "action rejected: "@ + action_error_message(e),
        BackendError::NoSession => "no session has been started"@,
        BackendError::InsufficientChips { requested, available } => "the rack cannot cover $"@
            + decimal(requested as nat) + " (it holds $"@ + decimal(available as nat) + ")"@,
        BackendError::NotBetweenRounds => "walking away is only possible between rounds"@,
        BackendError::SessionOver => "the session is over"@,
        BackendError::Transport(msg) => "backend transport error: "@ + msg@,
    }
}

impl BackendError {
    /// The error as a human-readable message.
    pub fn to_string(&self) -> (s: String)
        ensures
            s@ == backend_error_message(*self),
    {
        match self {
            BackendError::Rejected(err) => {
                let mut s = String::from_str("action rejected: ");
                let detail = err.to_string();
                s.append(detail.as_str());
                s
            },
            BackendError::NoSession => String::from_str("no session has been started"),
            BackendError::InsufficientChips { requested, available } => {
                let mut s = String::from_str("the rack cannot cover $");
                push_decimal(&mut s, *requested as u64);
                s.append(" (it holds $");
                push_decimal(&mut s, *available as u64);
                s.append(")");
                s
            },
            BackendError::NotBetweenRounds => String::from_str(
                "walking away is only possible between rounds",
            ),
            BackendError::SessionOver => String::from_str("the session is over"),
            BackendError::Transport(msg) => {
                let mut s = String::from_str("backend transport error: ");
                s.append(msg.as_str());
                s
            },
        }
    }
}

impl From<ActionError> for BackendError {
    fn from(err: ActionError) -> (r: BackendError) {
        BackendError::Rejected(err)
    }
}

impl vstd::std_specs::convert::FromSpecImpl<ActionError> for BackendError {
    open spec fn obeys_from_spec() -> bool {
        true
    }

    open spec fn from_spec(err: ActionError) -> BackendError {
        BackendError::Rejected(err)
    }
}

/// Shape of the `human_action` call's arguments. There is no seat
/// argument: the backend owns the human's seat.
#[derive(Debug, Clone, Copy, PartialEq, Eq, Structural)]
pub struct HumanActionArgs {
    /// The action the human performs.
    pub action: Action,
}

/// Where a session stands in its life. Terminal states are terminal:
/// there is no way back to `Playing` but a new process.
#[derive(Debug, Clone, Copy, PartialEq, Eq, Structural)]
pub enum SessionStatus {
    /// The human holds a seat (or is about to bet) at a living table.
    Playing,
    /// The human walked away; the rack colored up to this many dollars.
    CashedOut {
        /// The cash value carried away from the table.
        dollars: u32,
    },
    /// A settlement left the rack below the table minimum between
    /// rounds: no bet is possible, the seat is vacated, the game is
    /// over.
    GameOver,
}

/// The reply to every session call: what happened, everything the UI
/// needs to render and gate, and where the session stands.
#[derive(Debug, Clone, PartialEq, Eq)]
pub struct SessionView {
    /// The events this call caused (possibly empty) and the complete
    /// table state after it.
    pub transition: Transition,
    /// The human's rack — real chips, depleted by bets, refilled by
    /// settlements.
    pub rack: ChipStack,
    /// Whether to keep pumping `advance` or rest for human input.
    pub awaiting: Awaiting,
    /// The current dealer's suggested animation delays.
    pub pace: Pace,
    /// Where the session stands.
    pub status: SessionStatus,
}

/// Buy-in floor in dollars.
pub const BUY_IN_MIN: u32 = 220;

/// Number of $5 steps above the floor (so the ceiling is $380).
pub const BUY_IN_STEPS: u32 = 32;

/// Shortest warm-up, in AI-only rounds played before the human's first
/// view.
pub const WARMUP_MIN: u32 = 2;

/// Longest warm-up.
pub const WARMUP_MAX: u32 = 6;

/// Stream-splitting constant for deriving the session generator from the
/// seed.
pub const SESSION_STREAM: u64 = 0xD1B5_4A32_D192_ED03;

/// The chips of a buy-in of `amount` dollars cut the `cut`-th way: the
/// cage's minimal cut; about half the value in $5 chips; about half in
/// $25 chips; or one black $100 chip with the rest cut with plenty of red.
pub open spec fn buy_in_counts(amount: nat, cut: nat) -> Counts {
    if cut == 0 {
        change_counts(amount)
    } else if cut == 1 {
        let fives = amount / 2 / 5;
        let base = change_counts((amount - fives * 5) as nat);
        base.set(Denomination::Five, base.fives + fives)
    } else if cut == 2 {
        let greens = amount / 2 / 25;
        let base = change_counts((amount - greens * 25) as nat);
        base.set(Denomination::TwentyFive, base.twenty_fives + greens)
    } else {
        let rest = (amount - 100) as nat;
        let fives = rest / 2 / 5;
        let base = Counts::empty().set(Denomination::Hundred, 1).plus(
            change_counts((rest - fives * 5) as nat),
        );
        base.set(Denomination::Five, base.fives + fives)
    }
}

/// The buy-in `step` $5 steps above the floor, cut the `cut`-th way.
pub open spec fn buy_in_stack(step: nat, cut: nat) -> Counts {
    buy_in_counts((BUY_IN_MIN + 5 * step) as nat, cut)
}

/// Cut a buy-in of `amount` dollars the `cut`-th way (see
/// [`buy_in_counts`]). Every cut is worth exactly `amount`.
pub fn cut_buy_in(amount: u32, cut: u32) -> (s: ChipStack)
    requires
        cut >= 3 ==> amount >= 100,
    ensures
        s@ == buy_in_counts(amount as nat, cut as nat),
        s@.total() == amount,
{
    match cut {
        // The cage's minimal cut.
        0 => ChipStack::change(amount),
        // Red-heavy: about half the value in $5 chips.
        1 => {
            let fives = amount / 2 / 5;
            let mut stack = ChipStack::change(amount - fives * 5);
            stack.add_chips(Denomination::Five, fives);
            stack
        },
        // Green-led: about half the value in $25 chips, change around it.
        2 => {
            let greens = amount / 2 / 25;
            let mut stack = ChipStack::change(amount - greens * 25);
            stack.add_chips(Denomination::TwentyFive, greens);
            stack
        },
        // One black $100 chip, the rest cut with plenty of red to play.
        _ => {
            let mut stack = ChipStack::new();
            stack.add_chips(Denomination::Hundred, 1);
            let rest = amount - 100;
            let fives = rest / 2 / 5;
            stack.merge(ChipStack::change(rest - fives * 5));
            stack.add_chips(Denomination::Five, fives);
            stack
        },
    }
}

/// A buy-in in whole $5 steps carries no white $1 chips, however cut.
pub proof fn lemma_buy_in_no_ones(amount: nat, cut: nat)
    requires
        amount % 5 == 0,
        amount >= 100,
    ensures
        buy_in_counts(amount, cut).ones == 0,
{
    let f = amount / 2 / 5;
    let g = amount / 2 / 25;
    let rest = (amount - 100) as nat;
    let fr = rest / 2 / 5;
    assert((amount - f * 5) % 5 == 0) by (nonlinear_arith)
        requires amount % 5 == 0, f * 5 <= amount;
    assert((amount - g * 25) % 5 == 0) by (nonlinear_arith)
        requires amount % 5 == 0, g * 25 <= amount;
    assert((rest - fr * 5) % 5 == 0) by (nonlinear_arith)
        requires rest % 5 == 0, fr * 5 <= rest;
    crate::chips::lemma_change_no_ones((amount - f * 5) as nat);
    crate::chips::lemma_change_no_ones((amount - g * 25) as nat);
    crate::chips::lemma_change_no_ones((rest - fr * 5) as nat);
    crate::chips::lemma_change_no_ones(amount);
}

/// A randomized buy-in: the chips the human sits down with.
///
/// The amount is uniform over $220–$380 in $5 steps, and the cut varies
/// too: one in four buy-ins is the cage's tidy minimal cut, and the rest
/// lean red ($5), lean green ($25), or carry a black $100 chip with
/// workable change around it. There are never white $1 chips.
pub fn buy_in(rng: &mut ChaCha8Rng) -> (s: ChipStack)
    ensures
        exists|k: nat, cut: nat|
            k <= BUY_IN_STEPS && cut <= 3 && s@ == #[trigger] buy_in_stack(k, cut),
        BUY_IN_MIN <= s@.total() <= BUY_IN_MIN + 5 * BUY_IN_STEPS,
        s@.total() % 5 == 0,
        s@.ones == 0,
{
    let k = random_u32(rng, 0, BUY_IN_STEPS);
    let amount = BUY_IN_MIN + 5 * k;
    let cut = random_u32(rng, 0, 3);
    let s = cut_buy_in(amount, cut);
    proof {
        lemma_buy_in_no_ones(amount as nat, cut as nat);
        assert(s@ == buy_in_stack(k as nat, cut as nat));
    }
    s
}

/// The stake of a seat in a snapshot: the posted bet while betting, then
/// every hand bet plus any insurance stake once cards are out.
pub open spec fn snapshot_stake(snapshot: Snapshot, seat: int) -> int {
    let s = snapshot.seats@[seat];
    if s.hands@.len() == 0 {
        match s.bet {
            Some(b) => b as int,
            None => 0,
        }
    } else {
        crate::life::hands_bet(s.hands@) + insurance_stake(s.insurance)
    }
}

/// A snapshot's hand bets are the model's.
pub proof fn lemma_hands_bet_matches(m: Seq<HandModel>, s: Seq<HandSnapshot>)
    requires
        m.len() == s.len(),
        forall|i: int| 0 <= i < m.len() ==> #[trigger] hand_snapshot_of(m[i], s[i]),
    ensures
        crate::life::hands_bet(s) == model_hands_bet(m),
    decreases m.len(),
{
    if m.len() > 0 {
        let mp = m.drop_last();
        let sp = s.drop_last();
        assert forall|i: int| 0 <= i < mp.len() implies #[trigger] hand_snapshot_of(mp[i], sp[i]) by {
            assert(hand_snapshot_of(m[i], s[i]));
        }
        lemma_hands_bet_matches(mp, sp);
        assert(hand_snapshot_of(m[m.len() - 1], s[s.len() - 1]));
    }
}

/// A snapshot shows each seat's stake as the model has it.
pub proof fn lemma_snapshot_stake(m: TableModel, snapshot: Snapshot, seat: int)
    requires
        snapshot_of(m, snapshot),
        0 <= seat < m.seats.len(),
    ensures
        snapshot_stake(snapshot, seat) == seat_stake(m.seats[seat]),
{
    assert(seat_snapshot_of(m.seats[seat], snapshot.seats@[seat]));
    lemma_hands_bet_matches(m.seats[seat].hands, snapshot.seats@[seat].hands@);
}

/// Dollars a seat currently has riding: the posted bet while betting,
/// then every hand bet plus any insurance stake once cards are out.
pub fn stake(snapshot: &Snapshot, seat: usize) -> (s: u32)
    requires
        seat < snapshot.seats@.len(),
        snapshot.seats@[seat as int].hands@.len() > 0 ==> crate::life::spec_committed(
            snapshot.seats@[seat as int],
        ) <= u32::MAX,
    ensures
        s == snapshot_stake(*snapshot, seat as int),
{
    let seat = &snapshot.seats[seat];
    if seat.hands.len() == 0 {
        return match seat.bet {
            Some(b) => b,
            None => 0,
        };
    }
    crate::life::committed(seat)
}

/// The additional dollars `action` would commit to the felt, for
/// pre-gating against the rack: the raise of a bet, another hand bet for
/// a double or split of the seat's active hand, half the bet for
/// insurance. Zero for actions that move no chips (and for actions the
/// engine will reject anyway).
pub open spec fn spec_chip_cost(snapshot: Snapshot, seat: int, action: Action) -> int {
    let posted = match snapshot.seats@[seat].bet {
        Some(b) => b as int,
        None => 0,
    };
    match action {
        Action::PlaceBet(amount) => if amount >= posted {
            amount - posted
        } else {
            0
        },
        Action::Double | Action::Split => match snapshot.active {
            Some(a) => if a.seat == seat && a.hand < snapshot.seats@[seat].hands@.len() {
                snapshot.seats@[seat].hands@[a.hand as int].bet as int
            } else {
                0
            },
            None => 0,
        },
        Action::TakeInsurance => posted / 2,
        _ => 0,
    }
}

/// The additional dollars `action` would commit to the felt.
pub fn chip_cost(snapshot: &Snapshot, seat: usize, action: Action) -> (c: u32)
    requires
        seat < snapshot.seats@.len(),
    ensures
        c == spec_chip_cost(*snapshot, seat as int, action),
{
    let posted = match snapshot.seats[seat].bet {
        Some(b) => b,
        None => 0,
    };
    match action {
        Action::PlaceBet(amount) => amount.saturating_sub(posted),
        Action::Double | Action::Split => match snapshot.active {
            Some(active) => {
                if active.seat == seat && active.hand < snapshot.seats[seat].hands.len() {
                    snapshot.seats[seat].hands[active.hand].bet
                } else {
                    0
                }
            },
            None => 0,
        },
        Action::TakeInsurance => posted / 2,
        _ => 0,
    }
}

/// A round never loses more than a seat's hands carry.
pub proof fn lemma_hands_net_floor(hands: Seq<HandModel>, dealer: Seq<crate::card::Card>, r: Rules)
    ensures
        hands_net(hands, dealer, r) >= -model_hands_bet(hands),
    decreases hands.len(),
{
    if hands.len() > 0 {
        lemma_hands_net_floor(hands.drop_last(), dealer, r);
        let h = hands.last();
        assert(settle_hand(h, dealer, r).1 >= -(h.bet as int));
    }
}

/// A seat's hands never settle for more than three bets' worth apiece.
pub proof fn lemma_hands_net_bounded(hands: Seq<HandModel>, dealer: Seq<crate::card::Card>, r: Rules)
    requires
        rules_ok(r),
        forall|k: int| 0 <= k < hands.len() ==> #[trigger] crate::table::hand_base(hands[k], r),
    ensures
        -(3 * hands.len() * r.max_bet) <= hands_net(hands, dealer, r) <= 3 * hands.len() * r.max_bet,
    decreases hands.len(),
{
    if hands.len() > 0 {
        let p = hands.drop_last();
        assert forall|k: int| 0 <= k < p.len() implies #[trigger] crate::table::hand_base(p[k], r) by {
            assert(crate::table::hand_base(hands[k], r));
        }
        lemma_hands_net_bounded(p, dealer, r);
        assert(crate::table::hand_base(hands[hands.len() - 1], r));
        crate::table::lemma_settle_hand_bounded(hands.last(), dealer, r);
        assert(3 * hands.len() * r.max_bet == 3 * p.len() * r.max_bet + 3 * r.max_bet) by (nonlinear_arith)
            requires hands.len() == p.len() + 1;
    }
}

/// A settled seat never loses more than its stake.
pub proof fn lemma_round_net_floor(m: TableModel, seat: int)
    requires
        wf(m),
        m.phase == Phase::RoundOver,
        0 <= seat < m.seats.len(),
        m.seats[seat].bet is Some,
    ensures
        m.seats[seat].round_net is Some,
        m.seats[seat].round_net->0 >= -seat_stake(m.seats[seat]),
{
    let s = m.seats[seat];
    assert(seat_settled(s, m.dealer, m.rules));
    assert(crate::table::seat_base(s, m.rules));
    lemma_hands_net_floor(s.hands, m.dealer, m.rules);
    lemma_hands_net_bounded(s.hands, m.dealer, m.rules);
    let r = m.rules;
    assert(3 * s.hands.len() * r.max_bet <= 3 * r.max_split_hands * r.max_bet) by (nonlinear_arith)
        requires s.hands.len() <= r.max_split_hands;
    assert((3 * r.max_split_hands + 1) * r.max_bet == 3 * r.max_split_hands * r.max_bet + r.max_bet) by (nonlinear_arith);
    if s.hands.len() == 0 {
        assert(model_hands_bet(s.hands) == 0);
        assert(hands_net(s.hands, m.dealer, m.rules) == 0);
    }
}

/// The mathematical content of a session.
pub ghost struct SessionModel {
    pub life: LifeModel,
    /// The human's rack.
    pub rack: Counts,
    /// The human's chips committed to the felt this round.
    pub felt: Counts,
    pub status: SessionStatus,
}

/// The session's invariant: a well-formed living table whose human seat
/// has exactly the felt's chips riding — and nothing on the felt once the
/// round is settled.
pub open spec fn session_wf(m: SessionModel) -> bool {
    &&& life_wf(m.life)
    &&& m.rack.total() + m.felt.total() <= u32::MAX
    &&& m.felt.total() == if m.life.table.phase == Phase::RoundOver {
        0
    } else {
        seat_stake(m.life.table.seats[m.life.human_seat as int])
    }
}

/// The human's wealth at the table: rack plus felt.
pub open spec fn wealth(m: SessionModel) -> int {
    (m.rack.total() + m.felt.total()) as int
}

/// The round net the human seat settled for, when `b` ended the round
/// that `a` was in (zero otherwise, and for a seat that did not play).
pub open spec fn settled_net(a: SessionModel, b: SessionModel) -> int {
    if a.life.table.phase != Phase::RoundOver && b.life.table.phase == Phase::RoundOver
        && seat_stake(b.life.table.seats[b.life.human_seat as int]) > 0 {
        match b.life.table.seats[b.life.human_seat as int].round_net {
            Some(n) => n as int,
            None => 0,
        }
    } else {
        0
    }
}

/// Chips are conserved: the human's wealth changes only by a settled
/// round's net (as long as the rack can hold the result).
pub open spec fn conserved(a: SessionModel, b: SessionModel) -> bool {
    wealth(a) + settled_net(a, b) <= u32::MAX ==> wealth(b) == wealth(a) + settled_net(a, b)
}

/// One live session: a living table, the human's rack of real chips, and
/// the session's place in its arc.
pub struct SessionArc {
    life: TableLife,
    rack: Rack,
    felt: ChipStack,
    status: SessionStatus,
}

impl SessionArc {
    /// The session's mathematical content.
    pub closed spec fn model(&self) -> SessionModel {
        SessionModel { life: self.life@, rack: self.rack@, felt: self.felt@, status: self.status }
    }
}

/// The canonical rules run a living table.
pub proof fn lemma_canonical_ok()
    ensures
        rules_ok(spec_canonical()),
        spec_canonical().min_bet * 100 <= u32::MAX,
        spec_canonical().seats / 2 < spec_canonical().seats,
{
}


/// What a session call reports: the table as it now stands, the rack,
/// what comes next, the pace, and the status.
pub open spec fn shows(m: SessionModel, v: SessionView) -> bool {
    &&& snapshot_of(m.life.table, v.transition.snapshot)
    &&& v.rack@ == m.rack
    &&& v.awaiting == spec_awaiting(m.life)
    &&& v.pace == pace_of(m.life.persona)
    &&& v.status == m.status
}

/// A session as it opens: playing, at a canonical table with the human in
/// the center seat and seated, nothing on the felt, and a rack holding a
/// buy-in stack of between $220 and $380 in steps of $5.
pub open spec fn fresh_session(m: SessionModel) -> bool {
    &&& m.status == SessionStatus::Playing
    &&& BUY_IN_MIN <= m.rack.total() <= BUY_IN_MIN + 5 * BUY_IN_STEPS
    &&& exists|k: nat, cut: nat| k <= BUY_IN_STEPS && cut <= 3 && m.rack == #[trigger] buy_in_stack(k, cut)
    &&& m.felt == Counts::empty()
    &&& m.life.table.rules == spec_canonical()
    &&& m.life.human_seat == spec_canonical().seats / 2
    &&& !m.life.sitting_out
}

/// A playing session between rounds with nothing on the felt: the
/// moment the player may walk away.
pub open spec fn between_rounds(m: SessionModel) -> bool {
    &&& m.status == SessionStatus::Playing
    &&& (m.life.table.phase == Phase::Betting || m.life.table.phase == Phase::RoundOver)
    &&& m.felt.total() == 0
}

/// How a human action is answered from session `m`: a finished session
/// refuses it; chips the rack cannot cover refuse it; an action the
/// table rejects is refused with the table's reason; anything else (and
/// always a deal or a next round) goes through.
pub open spec fn human_action_answer(m: SessionModel, action: Action, r: Result<SessionView, BackendError>) -> bool {
    let cost = model_chip_cost(m.life.table, m.life.human_seat as int, action);
    &&& m.status != SessionStatus::Playing ==> r == Err::<SessionView, BackendError>(BackendError::SessionOver)
    &&& m.status == SessionStatus::Playing && cost > m.rack.total() ==> r == Err::<SessionView, BackendError>(
        BackendError::InsufficientChips { requested: cost as u32, available: m.rack.total() as u32 },
    )
    &&& m.status == SessionStatus::Playing && cost <= m.rack.total() && !(action is Deal || action is NextRound)
        && spec_apply_error(m.life.table, m.life.human_seat, action) is Some ==> r == Err::<
        SessionView,
        BackendError,
    >(BackendError::Rejected(spec_apply_error(m.life.table, m.life.human_seat, action)->0))
    &&& m.status == SessionStatus::Playing && cost <= m.rack.total() && ((action is Deal || action is NextRound)
        || spec_apply_error(m.life.table, m.life.human_seat, action) is None) ==> r is Ok
}

/// Ready to settle: the felt holds exactly the human's stake, or nothing
/// once the round is over.
pub open spec fn settle_ready(m: SessionModel) -> bool {
    &&& life_wf(m.life)
    &&& m.rack.total() + m.felt.total() <= u32::MAX
    &&& (m.felt.total() == seat_stake(m.life.table.seats[m.life.human_seat as int]) || (
    m.life.table.phase == Phase::RoundOver && m.felt.total() == 0))
}

/// The round net of the human seat in a settled table (zero when the
/// seat did not play).
pub open spec fn human_net(m: SessionModel) -> int {
    match m.life.table.seats[m.life.human_seat as int].round_net {
        Some(n) => n as int,
        None => 0,
    }
}

/// A non-empty stack is worth something.
pub proof fn lemma_nonempty_has_value(c: Counts)
    requires
        c != Counts::empty(),
    ensures
        c.total() > 0,
{
}

impl SessionArc {
    fn make_view(&self, events: Vec<Event>, snapshot: Snapshot) -> (v: SessionView)
        requires
            life_wf(self.model().life),
        ensures
            v.transition.snapshot == snapshot,
            v.transition.events == events,
            v.rack@ == self.model().rack,
            v.awaiting == spec_awaiting(self.model().life),
            v.pace == pace_of(self.model().life.persona),
            v.status == self.model().status,
    {
        SessionView {
            transition: Transition { snapshot, events },
            rack: *self.rack.chips(),
            awaiting: self.life.awaiting(),
            pace: self.life.pace(),
            status: self.status,
        }
    }

    /// Completed rounds since the table opened (warm-up included).
    pub fn rounds_played(&self) -> (n: u64)
        ensures
            n == self.model().life.rounds_played,
    {
        self.life.rounds_played()
    }

    /// The current state, changing nothing (events empty).
    pub fn view(&self) -> (v: SessionView)
        requires
            session_wf(self.model()),
        ensures
            shows(self.model(), v),
            v.transition.events@.len() == 0,
    {
        let snapshot = self.life.snapshot();
        self.make_view(Vec::new(), snapshot)
    }

    /// Once the round settles, push the human's chips back across the
    /// felt: on a win the bet comes back mirrored plus the winnings cut
    /// beside it ([`payout_chips`]); on a loss the tray keeps what it
    /// keeps and returns the remainder as change. The rack's delta over
    /// the round is exactly the seat's `round_net`. The rack holds at most
    /// `u32::MAX` dollars; the house keeps anything a settlement would put
    /// beyond that.
    fn settle_if_due(&mut self, snapshot: &Snapshot)
        requires
            settle_ready(old(self).model()),
            snapshot_of(old(self).model().life.table, *snapshot),
        ensures
            session_wf(final(self).model()),
            final(self).model().life == old(self).model().life,
            final(self).model().status == old(self).model().status,
            ({
                let gain = if old(self).model().life.table.phase == Phase::RoundOver && old(self).model().felt.total() > 0 {
                    human_net(old(self).model())
                } else {
                    0
                };
                wealth(old(self).model()) + gain <= u32::MAX ==> wealth(final(self).model()) == wealth(old(self).model()) + gain
            }),
            ({
                let m = old(self).model();
                let f = m.felt.total();
                let net = human_net(m);
                let room = u32::MAX - m.rack.total();
                if m.life.table.phase == Phase::RoundOver && m.felt != Counts::empty() {
                    &&& final(self).model().felt == Counts::empty()
                    &&& f + net > room ==> final(self).model().rack == m.rack.plus(change_counts(room as nat))
                    &&& f + net <= room && net >= 0 ==> final(self).model().rack == m.rack.plus(m.felt).plus(
                        spec_payout_chips(m.felt, net as nat),
                    )
                    &&& f + net <= room && net < 0 ==> final(self).model().rack == m.rack.plus(
                        change_counts((f + net) as nat),
                    )
                } else {
                    final(self).model() == m
                }
            }),
    {
        if self.felt.is_empty() || snapshot.phase != Phase::RoundOver {
            return;
        }
        let seat = self.life.human_seat();
        let ghost m = self.model();
        let ghost h = m.life.human_seat as int;
        proof {
            lemma_nonempty_has_value(m.felt);
            assert(m.felt.total() == seat_stake(m.life.table.seats[h]));
            assert(m.life.table.seats[h].bet is Some) by {
                assert(crate::table::seat_base(m.life.table.seats[h], m.life.table.rules));
                if m.life.table.seats[h].bet is None {
                    assert(m.life.table.seats[h].hands.len() == 0);
                }
            }
            lemma_round_net_floor(m.life.table, h);
            assert(seat_snapshot_of(m.life.table.seats[h], snapshot.seats@[h]));
        }
        let net = match snapshot.seats[seat].round_net {
            Some(n) => n,
            None => 0,
        };
        let felt = self.felt;
        self.felt = ChipStack::new();
        let stake_total = felt.total();
        let returned: i64 = stake_total as i64 + net as i64;
        let room = u32::MAX - self.rack.total();
        if returned > room as i64 {
            self.rack.receive(ChipStack::change(room));
        } else if net >= 0 {
            let winnings = payout_chips(&felt, net as u32);
            self.rack.receive(felt);
            self.rack.receive(winnings);
        } else {
            self.rack.receive(ChipStack::change(returned as u32));
        }
    }

    /// Between rounds, a rack below the table minimum means no bet is
    /// possible: the seat is vacated exactly like any departing
    /// stranger's and the session is over. Never evaluated mid-hand — a
    /// live hand always plays out first.
    fn refresh_status(&mut self, snapshot: &Snapshot)
        requires
            session_wf(old(self).model()),
            snapshot_of(old(self).model().life.table, *snapshot),
        ensures
            session_wf(final(self).model()),
            final(self).model().rack == old(self).model().rack,
            final(self).model().felt == old(self).model().felt,
            final(self).model().life == (LifeModel { sitting_out: final(self).model().life.sitting_out, ..old(self).model().life }),
            final(self).model().status == if old(self).model().status == SessionStatus::Playing
                && old(self).model().felt.total() == 0 && (old(self).model().life.table.phase == Phase::Betting
                || old(self).model().life.table.phase == Phase::RoundOver) && old(self).model().rack.total()
                < old(self).model().life.table.rules.min_bet {
                SessionStatus::GameOver
            } else {
                old(self).model().status
            },
    {
        if self.status != SessionStatus::Playing || !self.felt.is_empty() {
            return;
        }
        let between = match snapshot.phase {
            Phase::Betting | Phase::RoundOver => true,
            _ => false,
        };
        if between && self.rack.total() < self.life.rules().min_bet {
            self.life.human_sit_out();
            self.status = SessionStatus::GameOver;
        }
    }
}

/// The chips `action` would commit for `seat`, read off the table model.
pub open spec fn model_chip_cost(m: TableModel, seat: int, action: Action) -> int {
    let posted = match m.seats[seat].bet {
        Some(b) => b as int,
        None => 0,
    };
    match action {
        Action::PlaceBet(amount) => if amount >= posted {
            amount - posted
        } else {
            0
        },
        Action::Double | Action::Split => match m.active {
            Some((s, h)) => if s == seat && h < m.seats[seat].hands.len() {
                m.seats[seat].hands[h as int].bet as int
            } else {
                0
            },
            None => 0,
        },
        Action::TakeInsurance => posted / 2,
        _ => 0,
    }
}

/// The snapshot's chip cost is the model's.
pub proof fn lemma_chip_cost_matches(m: TableModel, snapshot: Snapshot, seat: int, action: Action)
    requires
        snapshot_of(m, snapshot),
        0 <= seat < m.seats.len(),
    ensures
        spec_chip_cost(snapshot, seat, action) == model_chip_cost(m, seat, action),
{
    assert(seat_snapshot_of(m.seats[seat], snapshot.seats@[seat]));
    match m.active {
        Some((s, h)) => {
            if s == seat && h < m.seats[seat].hands.len() {
                assert(hand_snapshot_of(m.seats[seat].hands[h as int], snapshot.seats@[seat].hands@[h as int]));
            }
        },
        None => {},
    }
}

/// How a successful human action changes the human seat's stake: never by
/// more than the chips the action was gated on.
pub proof fn lemma_action_stake(a: LifeModel, b: LifeModel, before: Snapshot, action: Action, events: Seq<Event>)
    requires
        life_wf(a),
        snapshot_of(a.table, before),
        !(action is Deal || action is NextRound),
        spec_apply_error(a.table, a.human_seat, action) is None,
        applied(a.table, b.table, a.human_seat, action, events),
        b.human_seat == a.human_seat,
    ensures
        seat_stake(b.table.seats[a.human_seat as int]) <= seat_stake(a.table.seats[a.human_seat as int])
            + spec_chip_cost(before, a.human_seat as int, action),
        a.table.phase != Phase::RoundOver,
{
    let h = a.human_seat as int;
    let m = a.table;
    let n = b.table;
    assert(seat_snapshot_of(m.seats[h], before.seats@[h]));
    match action {
        Action::PlaceBet(x) => {
            assert(m.seats[h].hands.len() == 0);
            assert(n.seats[h] == SeatModel { bet: Some(x), ..m.seats[h] });
        },
        Action::TakeInsurance | Action::DeclineInsurance => {
            assert(crate::table::hand_bets_kept(m.seats[h].hands, n.seats[h].hands));
            crate::table::lemma_model_hands_bet_congruent(m.seats[h].hands, n.seats[h].hands);
            assert(m.seats[h].insurance == Insurance::Pending);
        },
        Action::Double => {
            crate::table::lemma_double_stake(m, n);
            assert(hand_snapshot_of(m.seats[h].hands[active_hand(m) as int], before.seats@[h].hands@[active_hand(m) as int]));
        },
        Action::Split => {
            crate::table::lemma_split_stake(m, n);
            assert(hand_snapshot_of(m.seats[h].hands[active_hand(m) as int], before.seats@[h].hands@[active_hand(m) as int]));
        },
        _ => {
            assert(same_bets(m.seats[h], n.seats[h]));
            crate::table::lemma_same_bets_stake(m.seats[h], n.seats[h]);
        },
    }
}

impl SessionArc {
    /// One engine beat. A no-op returning the current view once the
    /// session is over (the table's life goes on, but not on this
    /// screen) or while the engine waits on the human.
    pub fn advance(&mut self) -> (v: SessionView)
        requires
            session_wf(old(self).model()),
        ensures
            session_wf(final(self).model()),
            shows(final(self).model(), v),
            conserved(old(self).model(), final(self).model()),
            old(self).model().status != SessionStatus::Playing ==> final(self).model() == old(self).model()
                && v.transition.events@.len() == 0,
            old(self).model().status == SessionStatus::Playing ==> crate::life::engine_beat(
                old(self).model().life,
                final(self).model().life,
            ),
    {
        if self.status != SessionStatus::Playing {
            return self.view();
        }
        let ghost m0 = self.model();
        let step = self.life.advance();
        let ghost m1 = self.model();
        proof {
            let h = m0.life.human_seat as int;
            if m0.life.table.phase == Phase::RoundOver {
                assert(m1.life.table.seats[h] == empty_seat());
            }
        }
        self.settle_if_due(&step.snapshot);
        let ghost m2 = self.model();
        self.refresh_status(&step.snapshot);
        proof {
            let h = m0.life.human_seat as int;
            if m0.life.table.phase == Phase::RoundOver {
                assert(m1.life.table.phase == Phase::Betting);
            }
            crate::life::lemma_engine_beat_sitting_out(m0.life, m1.life, self.model().life);
        }
        self.make_view(step.events, step.snapshot)
    }

    /// Submit one action for the human seat, re-gating legality: the
    /// engine validates the action as always, and any chips the action
    /// commits must actually be in the rack. On success the committed
    /// chips physically move rack → felt (or back, if a bet was replaced
    /// smaller).
    #[verifier::spinoff_prover]
    #[verifier::rlimit(50)]
    pub fn human_action(&mut self, action: Action) -> (r: Result<SessionView, BackendError>)
        requires
            session_wf(old(self).model()),
        ensures
            session_wf(final(self).model()),
            old(self).model().status != SessionStatus::Playing ==> r == Err::<SessionView, BackendError>(
                BackendError::SessionOver,
            ),
            r is Err ==> final(self).model() == old(self).model(),
            r matches Ok(v) ==> shows(final(self).model(), v) && conserved(old(self).model(), final(self).model()),
            human_action_answer(old(self).model(), action, r),
    {
        if self.status != SessionStatus::Playing {
            return Err(BackendError::SessionOver);
        }
        let seat = self.life.human_seat();
        let before = self.life.snapshot();
        let ghost m0 = self.model();
        let ghost h = seat as int;
        proof {
            assert(seat_snapshot_of(m0.life.table.seats[h], before.seats@[h]));
        }
        let cost = chip_cost(&before, seat, action);
        proof {
            lemma_chip_cost_matches(m0.life.table, before, h, action);
        }
        if cost > self.rack.total() {
            return Err(
                BackendError::InsufficientChips { requested: cost, available: self.rack.total() },
            );
        }
        let step = match self.life.human_apply(action) {
            Ok(s) => s,
            Err(e) => return Err(BackendError::Rejected(e)),
        };
        let ghost m1 = self.model();
        proof {
            lemma_snapshot_stake(m0.life.table, before, h);
            lemma_snapshot_stake(m1.life.table, step.snapshot, h);
            crate::life::lemma_committed_bound(m0.life.table, h, before.seats@[h]);
            assert(seat_snapshot_of(m1.life.table.seats[h], step.snapshot.seats@[h]));
            crate::life::lemma_committed_bound(m1.life.table, h, step.snapshot.seats@[h]);
            if action is Deal || action is NextRound {
                if m0.life.table.phase == Phase::RoundOver {
                    assert(m1.life.table.seats[h] == empty_seat());
                }
            } else {
                lemma_action_stake(m0.life, m1.life, before, action, step.events@);
            }
        }
        let old_stake = stake(&before, seat) as i64;
        let new_stake = stake(&step.snapshot, seat) as i64;
        let delta = new_stake - old_stake;
        if delta > 0 {
            match self.rack.place_bet(delta as u32) {
                Ok(chips) => self.felt.merge(chips),
                Err(_) => {
                    proof {
                        assert(false);
                    }
                },
            }
        } else if delta < 0 {
            // Chips only come back off a felt that holds them: once a
            // round has settled, the felt is already clear.
            match self.felt.withdraw((-delta) as u32) {
                Ok(returned) => self.rack.receive(returned),
                Err(_) => {},
            }
        }
        let ghost m2 = self.model();
        proof {
            if m0.life.table.phase == Phase::RoundOver {
                assert(action is Deal || action is NextRound);
                assert(m1.life.table.phase == Phase::Betting);
                assert(m1.life.table.seats[h] == empty_seat());
            }
        }
        self.settle_if_due(&step.snapshot);
        self.refresh_status(&step.snapshot);
        Ok(self.make_view(step.events, step.snapshot))
    }

    /// Leave the table. Valid only between rounds with nothing on the
    /// felt — a live hand (or even a posted bet) is never abandoned. The
    /// seat empties like any departing stranger's, the rack colors up,
    /// and the session ends at its cash value.
    pub fn walk_away(&mut self) -> (r: Result<SessionView, BackendError>)
        requires
            session_wf(old(self).model()),
        ensures
            session_wf(final(self).model()),
            old(self).model().status != SessionStatus::Playing ==> r == Err::<SessionView, BackendError>(
                BackendError::SessionOver,
            ),
            old(self).model().status == SessionStatus::Playing && (!(old(self).model().life.table.phase
                == Phase::Betting || old(self).model().life.table.phase == Phase::RoundOver)
                || old(self).model().felt.total() > 0) ==> r == Err::<SessionView, BackendError>(
                BackendError::NotBetweenRounds,
            ),
            r is Err ==> final(self).model() == old(self).model(),
            between_rounds(old(self).model()) ==> r is Ok,
            r matches Ok(v) ==> shows(final(self).model(), v) && final(self).model().status
                == (SessionStatus::CashedOut { dollars: old(self).model().rack.total() as u32 })
                && final(self).model().rack == change_counts(old(self).model().rack.total())
                && wealth(final(self).model()) == wealth(old(self).model())
                && final(self).model().life.sitting_out,
    {
        if self.status != SessionStatus::Playing {
            return Err(BackendError::SessionOver);
        }
        let phase = self.life.snapshot().phase;
        let between = match phase {
            Phase::Betting | Phase::RoundOver => true,
            _ => false,
        };
        if !between || !self.felt.is_empty() {
            proof {
                if self.model().felt.total() > 0 {
                    assert(self.model().felt != Counts::empty());
                }
            }
            return Err(BackendError::NotBetweenRounds);
        }
        self.life.human_sit_out();
        self.rack.color_up();
        self.status = SessionStatus::CashedOut { dollars: self.rack.total() };
        Ok(self.view())
    }

    /// Open a session from `chips` at a table seeded from `seed`, after
    /// `warmup_rounds` AI-only rounds have been played: canonical rules,
    /// the human at the center seat. Used directly by tests that need a
    /// poor player or a known table depth. The warm-up gives up after a
    /// million engine beats.
    pub fn with_buy_in(seed: u64, chips: ChipStack, warmup_rounds: u32) -> (s: SessionArc)
        ensures
            session_wf(s.model()),
            s.model().status == SessionStatus::Playing,
            s.model().rack == chips@,
            s.model().felt == Counts::empty(),
            s.model().life.table.rules == spec_canonical(),
            s.model().life.human_seat == spec_canonical().seats / 2,
            !s.model().life.sitting_out,
            s.model().life.rounds_played <= warmup_rounds,
    {
        let rules = Rules::canonical();
        proof {
            lemma_canonical_ok();
        }
        let human_seat = rules.seats / 2;
        let mut life = TableLife::from_seed(rules, human_seat, seed);
        // Arrive mid-life: the table has been playing without us.
        life.human_sit_out();
        let mut beats: u32 = 0;
        proof {
            assert(life@.table.seats[human_seat as int] == empty_seat());
        }
        while life.rounds_played() < warmup_rounds as u64 && beats < 1_000_000
            invariant
                life_wf(life@),
                life@.human_seat == human_seat,
                life@.table.rules == spec_canonical(),
                life@.table.seats[human_seat as int].bet is None,
                life@.rounds_played <= warmup_rounds,
            decreases 1_000_000 - beats,
        {
            beats = beats + 1;
            life.advance();
        }
        life.human_sit_in();
        let _ = chips.total();
        let s = SessionArc {
            life,
            rack: Rack::from_chips(chips),
            felt: ChipStack::new(),
            status: SessionStatus::Playing,
        };
        proof {
            let m = s.model();
            assert(crate::table::seat_base(m.life.table.seats[human_seat as int], m.life.table.rules));
        }
        s
    }

    /// Open a session seeded from `seed`: canonical rules, the human at
    /// the center seat, a randomized buy-in, and a randomized number (two
    /// to six) of AI-only warm-up rounds already played. Fully
    /// deterministic per seed.
    pub fn from_seed(seed: u64) -> (s: SessionArc)
        ensures
            session_wf(s.model()),
            s.model().status == SessionStatus::Playing,
            fresh_session(s.model()),
            s.model().life.rounds_played <= WARMUP_MAX,
    {
        let mut rng = seeded(seed ^ SESSION_STREAM);
        let chips = buy_in(&mut rng);
        let warmup = random_u32(&mut rng, WARMUP_MIN, WARMUP_MAX);
        SessionArc::with_buy_in(seed, chips, warmup)
    }
}
} // verus!
