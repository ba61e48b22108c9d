//! Table life: AI opponents who come and go, dealers who rotate, and the
//! orchestrator that runs it all around one human seat.
//!
//! [`TableLife`] owns a [`Table`] plus everything that makes it feel
//! inhabited — a roster of hidden AI players with bankrolls and moods,
//! and a dealer with a pace. The frontend drives it with two calls:
//! [`TableLife::advance`] performs the next piece of non-human work (an
//! AI bet, an AI decision, the deal, settlement, arrivals between
//! rounds), and [`TableLife::human_apply`] forwards the human's own
//! action. Both return a [`Step`] whose [`Awaiting`] says whether to keep
//! advancing or wait for human input, and whose [`Pace`] carries the
//! current dealer's suggested delays — this crate never sleeps.
//!
//! The human's bankroll, buy-in, and departure live a layer up (the
//! session shell): here the human seat is just one seat among others,
//! reserved and forwarded to.
use vstd::prelude::*;
use rand_chacha::ChaCha8Rng;
use crate::action::{Action, ActionError, ActionKind, spec_kind};
use crate::card::Card;
use crate::event::Event;
use crate::persona::{self, Archetype};
use crate::rng::{random_ratio, random_u32, random_usize, seeded};
use crate::rules::Rules;
use crate::snapshot::{HandSnapshot, Insurance, Phase, SeatSnapshot, Snapshot};
use crate::table::{
    Table, TableModel, active_hand, active_seat, any_bet, applied, rules_ok, snapshot_of,
    spec_apply_error, wf,
};

verus! {

/// Most AI opponents ever seated at once.
pub const MAX_OPPONENTS: usize = 5;

/// Rounds a new arrival always stays before departure rolls begin.
pub const DEPARTURE_GRACE_ROUNDS: u32 = 8;

/// Shortest dealer tenure, in rounds.
pub const DEALER_TENURE_MIN: u32 = 12;

/// Longest dealer tenure, in rounds.
pub const DEALER_TENURE_MAX: u32 = 24;

/// Per-round arrival probability as a ratio `(numerator, denominator)`,
/// tuned against the one-in-ten departure rate so the steady state is
/// typically two to five opponents.
pub open spec fn arrival_ratio(opponents: usize) -> (u32, u32) {
    if opponents == 0 {
        (1, 1)
    } else if opponents == 1 {
        (3, 5)
    } else if opponents == 2 {
        (7, 20)
    } else if opponents == 3 {
        (1, 4)
    } else if opponents == 4 {
        (3, 25)
    } else {
        (0, 1)
    }
}

/// Per-round arrival probability for a table with `opponents` seated.
pub fn arrival_probability(opponents: usize) -> (r: (u32, u32))
    ensures
        r == arrival_ratio(opponents),
        0 < r.1,
        r.0 <= r.1,
{
    match opponents {
        0 => (1, 1),
        1 => (3, 5),
        2 => (7, 20),
        3 => (1, 4),
        4 => (3, 25),
        _ => (0, 1),
    }
}

/// Suggested delays, in milliseconds, for animating events — the current
/// dealer's pace. Purely advisory: the engine never sleeps, the UI decides
/// what to do with these numbers. Pace changes when the dealer does and is
/// never user-controllable.
#[derive(Debug, Clone, Copy, PartialEq, Eq, Structural)]
pub struct Pace {
    /// Delay per card dealt.
    pub card_ms: u32,
    /// Pause before each player or dealer decision.
    pub decision_ms: u32,
    /// Pause on the hole-card reveal.
    pub reveal_ms: u32,
    /// Delay per hand settled.
    pub settlement_ms: u32,
    /// Breather between rounds.
    pub between_rounds_ms: u32,
}

/// A dealer's temperament, expressed only through [`Pace`]: the UI sees
/// numbers, never a label.
#[derive(Debug, Clone, Copy, PartialEq, Eq, Structural)]
pub enum PacePersona {
    Brisk,
    Measured,
    Leisurely,
}

/// The delays each dealer temperament deals at.
pub open spec fn pace_of(persona: PacePersona) -> Pace {
    match persona {
        PacePersona::Brisk => Pace {
            card_ms: 220,
            decision_ms: 350,
            reveal_ms: 450,
            settlement_ms: 300,
            between_rounds_ms: 1200,
        },
        PacePersona::Measured => Pace {
            card_ms: 400,
            decision_ms: 700,
            reveal_ms: 700,
            settlement_ms: 500,
            between_rounds_ms: 2200,
        },
        PacePersona::Leisurely => Pace {
            card_ms: 650,
            decision_ms: 1200,
            reveal_ms: 1000,
            settlement_ms: 800,
            between_rounds_ms: 3500,
        },
    }
}

impl PacePersona {
    /// Every dealer temperament, for dealer changes.
    pub const ALL: [PacePersona; 3] = [
        PacePersona::Brisk,
        PacePersona::Measured,
        PacePersona::Leisurely,
    ];

    /// The delays this temperament deals at.
    pub fn pace(self) -> (p: Pace)
        ensures
            p == pace_of(self),
    {
        match self {
            PacePersona::Brisk => Pace {
                card_ms: 220,
                decision_ms: 350,
                reveal_ms: 450,
                settlement_ms: 300,
                between_rounds_ms: 1200,
            },
            PacePersona::Measured => Pace {
                card_ms: 400,
                decision_ms: 700,
                reveal_ms: 700,
                settlement_ms: 500,
                between_rounds_ms: 2200,
            },
            PacePersona::Leisurely => Pace {
                card_ms: 650,
                decision_ms: 1200,
                reveal_ms: 1000,
                settlement_ms: 800,
                between_rounds_ms: 3500,
            },
        }
    }
}

fn persona_at(i: usize) -> (p: PacePersona)
    requires
        i < 3,
    ensures
        p == PacePersona::ALL[i as int],
{
    PacePersona::ALL[i]
}

fn archetype_at(i: usize) -> (a: Archetype)
    requires
        i < 4,
    ensures
        a == Archetype::ALL[i as int],
{
    Archetype::ALL[i]
}

/// What [`TableLife`] needs next.
#[derive(Debug, Clone, Copy, PartialEq, Eq, Structural, Hash)]
pub enum Awaiting {
    /// Engine work is pending: call [`TableLife::advance`] again.
    Engine,
    /// The human may bet (via [`TableLife::human_apply`] with
    /// [`Action::PlaceBet`]) or sit the round out (via
    /// [`TableLife::human_sit_out`]).
    HumanBet,
    /// The insurance decision rests with the human seat.
    HumanInsurance,
    /// The play decision rests with the human seat; consult
    /// [`Snapshot::legal_actions`].
    HumanTurn,
}

/// One step of table life: what happened, the state it left behind, the
/// dealer's pace for animating it, and what the orchestrator needs next.
#[derive(Debug, Clone, PartialEq, Eq)]
pub struct Step {
    /// Events this step caused, in order — table events plus life events
    /// (arrivals, departures, dealer changes). Possibly empty.
    pub events: Vec<Event>,
    /// The complete table state after the step.
    pub snapshot: Snapshot,
    /// The current dealer's suggested delays for animating `events`.
    pub pace: Pace,
    /// Whether to keep advancing or wait for human input.
    pub awaiting: Awaiting,
}

/// One AI opponent at the table. Hidden from the UI: snapshots show the
/// seat's bets and hands, never the player behind them.
#[derive(Debug, Clone, Copy, PartialEq, Eq, Structural)]
pub struct AiPlayer {
    /// The hidden play style.
    pub archetype: Archetype,
    /// Whole dollars on hand; bets, doubles, splits, and insurance never
    /// exceed it. Felted players leave between rounds.
    pub bankroll: u32,
    /// The player's habitual bet, chosen at arrival.
    pub base_bet: u32,
    /// Consecutive winning rounds (positive) or losing rounds (negative).
    pub streak: i32,
    /// Rounds played since sitting down, for departure rolls.
    pub rounds_at_table: u32,
}

/// The mathematical content of a living table.
pub ghost struct LifeModel {
    pub table: TableModel,
    /// Per-seat AI roster; the human seat's entry is always `None`.
    pub roster: Seq<Option<AiPlayer>>,
    pub human_seat: usize,
    /// While set, betting no longer waits on the human seat.
    pub sitting_out: bool,
    pub persona: PacePersona,
    pub rounds_until_dealer_change: u32,
    /// Whether between-round housekeeping has run for this betting phase.
    pub housekeeping_done: bool,
    pub rounds_played: u64,
}

/// The occupied seats of a roster, in seat order.
pub open spec fn occupied_seats(roster: Seq<Option<AiPlayer>>) -> Seq<usize>
    decreases roster.len(),
{
    if roster.len() == 0 {
        Seq::empty()
    } else {
        occupied_seats(roster.drop_last()) + if roster.last() is Some {
            seq![(roster.len() - 1) as usize]
        } else {
            Seq::empty()
        }
    }
}

/// The seats of a roster occupied by AI players are exactly its `Some`
/// entries, in increasing order.
pub proof fn lemma_occupied_seats(roster: Seq<Option<AiPlayer>>)
    requires
        roster.len() <= usize::MAX,
    ensures
        forall|i: int|
            0 <= i < roster.len() ==> (occupied_seats(roster).contains(i as usize) <==> (
            #[trigger] roster[i]) is Some),
        forall|k: int|
            0 <= k < occupied_seats(roster).len() ==> (#[trigger] occupied_seats(roster)[k])
                < roster.len() && roster[occupied_seats(roster)[k] as int] is Some,
        forall|k: int, j: int|
            0 <= k < j < occupied_seats(roster).len() ==> occupied_seats(roster)[k]
                < occupied_seats(roster)[j],
        occupied_seats(roster).len() <= roster.len(),
    decreases roster.len(),
{
    if roster.len() > 0 {
        let prefix = roster.drop_last();
        lemma_occupied_seats(prefix);
        let o = occupied_seats(roster);
        let p = occupied_seats(prefix);
        let n = (roster.len() - 1) as usize;
        assert forall|i: int| 0 <= i < roster.len() implies (o.contains(i as usize) <==> (
        #[trigger] roster[i]) is Some) by {
            if i < roster.len() - 1 {
                assert(prefix[i] == roster[i]);
                if p.contains(i as usize) {
                    let k = choose|k: int| 0 <= k < p.len() && p[k] == i as usize;
                    assert(o[k] == p[k]);
                }
                if o.contains(i as usize) {
                    let k = choose|k: int| 0 <= k < o.len() && o[k] == i as usize;
                    if k < p.len() {
                        assert(o[k] == p[k]);
                    }
                }
            } else if roster[i] is Some {
                assert(o[p.len() as int] == n);
            } else {
                assert(o =~= p);
                if p.contains(i as usize) {
                    let k = choose|k: int| 0 <= k < p.len() && p[k] == i as usize;
                }
            }
        }
        assert forall|k: int| 0 <= k < o.len() implies (#[trigger] o[k]) < roster.len()
            && roster[o[k] as int] is Some by {
            if k < p.len() {
                assert(o[k] == p[k]);
                assert(prefix[p[k] as int] == roster[p[k] as int]);
            }
        }
        assert forall|k: int, j: int| 0 <= k < j < o.len() implies o[k] < o[j] by {
            if j < p.len() {
                assert(o[k] == p[k] && o[j] == p[j]);
            } else {
                assert(o[k] == p[k]);
            }
        }
    }
}

/// Replacing one roster entry changes the occupied count by what left and
/// what came.
pub proof fn lemma_occupied_update(roster: Seq<Option<AiPlayer>>, i: int, v: Option<AiPlayer>)
    requires
        0 <= i < roster.len(),
    ensures
        occupied_seats(roster.update(i, v)).len() + (if roster[i] is Some { 1int } else { 0 })
            == occupied_seats(roster).len() + (if v is Some { 1int } else { 0 }),
    decreases roster.len(),
{
    let u = roster.update(i, v);
    if i < roster.len() - 1 {
        assert(u.drop_last() =~= roster.drop_last().update(i, v));
        lemma_occupied_update(roster.drop_last(), i, v);
    } else {
        assert(u.drop_last() =~= roster.drop_last());
    }
}

/// The number of AI opponents seated.
pub open spec fn opponents(l: LifeModel) -> nat {
    occupied_seats(l.roster).len()
}

/// Only the human or a seated AI player can have a bet down.
pub open spec fn bets_seated(l: LifeModel) -> bool {
    forall|i: int|
        0 <= i < l.table.seats.len() && (#[trigger] l.table.seats[i]).bet is Some ==> i
            == l.human_seat || l.roster[i] is Some
}

/// The invariant of a living table.
pub open spec fn life_wf(l: LifeModel) -> bool {
    &&& wf(l.table)
    &&& l.table.rules.min_bet * 100 <= u32::MAX
    &&& l.human_seat < l.table.seats.len()
    &&& l.roster.len() == l.table.seats.len()
    &&& l.roster[l.human_seat as int] is None
    &&& opponents(l) <= MAX_OPPONENTS
    &&& forall|i: int|
        0 <= i < l.roster.len() && (#[trigger] l.roster[i]) is Some ==> l.roster[i]->0.streak
            != i32::MIN
    &&& bets_seated(l)
    &&& l.table.phase != Phase::Betting ==> l.housekeeping_done
    &&& !l.housekeeping_done && l.table.phase == Phase::Betting ==> forall|i: int|
        0 <= i < l.table.seats.len() && (#[trigger] l.table.seats[i]).bet is Some ==> i
            == l.human_seat
}

/// What the orchestrator needs next: between rounds, housekeeping, then
/// every AI bet, then the human's bet (unless sitting out), then the deal
/// — or the human's bet when nobody at all is betting; during insurance
/// and play, the human exactly when the human's seat is active.
pub open spec fn spec_awaiting(l: LifeModel) -> Awaiting {
    match l.table.phase {
        Phase::Betting => if !l.housekeeping_done {
            Awaiting::Engine
        } else if exists|i: int|
            0 <= i < l.roster.len() && (#[trigger] l.roster[i]) is Some
                && l.table.seats[i].bet is None {
            Awaiting::Engine
        } else if !l.sitting_out && l.table.seats[l.human_seat as int].bet is None {
            Awaiting::HumanBet
        } else if any_bet(l.table) {
            Awaiting::Engine
        } else {
            Awaiting::HumanBet
        },
        Phase::InsuranceOffer => if active_seat(l.table) == l.human_seat {
            Awaiting::HumanInsurance
        } else {
            Awaiting::Engine
        },
        Phase::PlayerTurn => if active_seat(l.table) == l.human_seat {
            Awaiting::HumanTurn
        } else {
            Awaiting::Engine
        },
        Phase::RoundOver => Awaiting::Engine,
    }
}

/// The living table: a [`Table`] plus AI opponents, a rotating dealer,
/// and one reserved human seat.
///
/// All randomness beyond the shoe flows from the life generator, so a
/// seeded [`TableLife`] replays identically: same arrivals, same
/// departures, same bets, same plays. See the module docs for the driving
/// loop.
pub struct TableLife {
    table: Table,
    rng: ChaCha8Rng,
    roster: Vec<Option<AiPlayer>>,
    human_seat: usize,
    human_sitting_out: bool,
    persona: PacePersona,
    rounds_until_dealer_change: u32,
    housekeeping_done: bool,
    rounds_played: u64,
}

impl View for TableLife {
    type V = LifeModel;

    closed spec fn view(&self) -> LifeModel {
        LifeModel {
            table: self.table@,
            roster: self.roster@,
            human_seat: self.human_seat,
            sitting_out: self.human_sitting_out,
            persona: self.persona,
            rounds_until_dealer_change: self.rounds_until_dealer_change,
            housekeeping_done: self.housekeeping_done,
            rounds_played: self.rounds_played,
        }
    }
}

/// The bet total a seat's hands carry.
pub open spec fn hands_bet(hands: Seq<HandSnapshot>) -> int
    decreases hands.len(),
{
    if hands.len() == 0 {
        0
    } else {
        hands_bet(hands.drop_last()) + hands.last().bet
    }
}

/// Dollars a seat has committed this round: every hand bet plus any
/// insurance stake.
pub open spec fn spec_committed(seat: SeatSnapshot) -> int {
    hands_bet(seat.hands@) + match seat.insurance {
        Insurance::Taken { amount } => amount as int,
        _ => 0,
    }
}

/// Dollars a seat has committed this round: every hand bet plus any
/// insurance stake.
pub fn committed(seat: &SeatSnapshot) -> (c: u32)
    requires
        spec_committed(*seat) <= u32::MAX,
    ensures
        c == spec_committed(*seat),
{
    let mut hands: u32 = 0;
    let mut i: usize = 0;
    while i < seat.hands.len()
        invariant
            i <= seat.hands@.len(),
            hands == hands_bet(seat.hands@.subrange(0, i as int)),
            spec_committed(*seat) <= u32::MAX,
        decreases seat.hands.len() - i,
    {
        proof {
            lemma_hands_bet_prefix(seat.hands@, i as int + 1);
            lemma_hands_bet_monotone(seat.hands@, i as int + 1);
            assert(seat.hands@.subrange(0, i as int + 1).drop_last() =~= seat.hands@.subrange(
                0,
                i as int,
            ));
        }
        hands = hands + seat.hands[i].bet;
        i = i + 1;
    }
    proof {
        assert(seat.hands@.subrange(0, seat.hands@.len() as int) =~= seat.hands@);
    }
    let insurance = match seat.insurance {
        Insurance::Taken { amount } => amount,
        _ => 0,
    };
    hands + insurance
}

/// A prefix of a seat's hands carries no more than all of them.
pub proof fn lemma_hands_bet_monotone(hands: Seq<HandSnapshot>, k: int)
    requires
        0 <= k <= hands.len(),
    ensures
        0 <= hands_bet(hands.subrange(0, k)) <= hands_bet(hands),
    decreases hands.len() - k,
{
    if k < hands.len() {
        lemma_hands_bet_monotone(hands, k + 1);
        assert(hands.subrange(0, k + 1).drop_last() =~= hands.subrange(0, k));
        lemma_hands_bet_nonneg(hands.subrange(0, k));
    } else {
        assert(hands.subrange(0, k) =~= hands);
        lemma_hands_bet_nonneg(hands);
    }
}

/// Bets are never negative.
pub proof fn lemma_hands_bet_nonneg(hands: Seq<HandSnapshot>)
    ensures
        hands_bet(hands) >= 0,
    decreases hands.len(),
{
    if hands.len() > 0 {
        lemma_hands_bet_nonneg(hands.drop_last());
    }
}

/// The bet total of a prefix grows by the next hand's bet.
pub proof fn lemma_hands_bet_prefix(hands: Seq<HandSnapshot>, k: int)
    requires
        0 < k <= hands.len(),
    ensures
        hands_bet(hands.subrange(0, k)) == hands_bet(hands.subrange(0, k - 1)) + hands[k - 1].bet,
{
    assert(hands.subrange(0, k).drop_last() =~= hands.subrange(0, k - 1));
}


impl TableLife {
    /// Open a living table. `table_rng` drives the shoe, `life_rng`
    /// everything else (arrivals, archetypes, bets, dealer changes).
    pub fn new(rules: Rules, human_seat: usize, table_rng: ChaCha8Rng, life_rng: ChaCha8Rng) -> (l: TableLife)
        requires
            rules_ok(rules),
            human_seat < rules.seats,
            rules.min_bet * 100 <= u32::MAX,
        ensures
            life_wf(l@),
            l@.table.rules == rules,
            l@.table.phase == Phase::Betting,
            l@.human_seat == human_seat,
            opponents(l@) == 0,
            !l@.sitting_out,
            !l@.housekeeping_done,
            l@.rounds_played == 0,
            DEALER_TENURE_MIN <= l@.rounds_until_dealer_change <= DEALER_TENURE_MAX,
            forall|i: int| 0 <= i < l@.table.seats.len() ==> #[trigger] l@.table.seats[i] == crate::table::empty_seat(),
    {
        let table = Table::new(rules, table_rng);
        let mut life_rng = life_rng;
        let persona = persona_at(random_usize(&mut life_rng, 0, 2));
        let rounds_until_dealer_change = random_u32(
            &mut life_rng,
            DEALER_TENURE_MIN,
            DEALER_TENURE_MAX,
        );
        let mut roster: Vec<Option<AiPlayer>> = Vec::new();
        let mut i: usize = 0;
        while i < rules.seats
            invariant
                i <= rules.seats,
                roster@.len() == i,
                forall|j: int| 0 <= j < i ==> (#[trigger] roster@[j]) is None,
            decreases rules.seats - i,
        {
            roster.push(None);
            i = i + 1;
        }
        let l = TableLife {
            table,
            rng: life_rng,
            roster,
            human_seat,
            human_sitting_out: false,
            persona,
            rounds_until_dealer_change,
            housekeeping_done: false,
            rounds_played: 0,
        };
        proof {
            lemma_occupied_seats(l@.roster);
            if occupied_seats(l@.roster).len() > 0 {
                assert(l@.roster[occupied_seats(l@.roster)[0] as int] is Some);
            }
            assert forall|j: int| 0 <= j < l@.table.seats.len() && (#[trigger] l@.table.seats[j]).bet is Some implies j == human_seat by {
                assert(l@.table.seats[j] == crate::table::empty_seat());
            }
        }
        l
    }

    /// Open a living table seeded from `seed`, for deterministic tests and
    /// replays: the same rules, human seat, and seed always produce the
    /// same shoe, roster evolution, and AI play. Two independent streams
    /// come from the one seed: one for the shoe, one for table life.
    pub fn from_seed(rules: Rules, human_seat: usize, seed: u64) -> (l: TableLife)
        requires
            rules_ok(rules),
            human_seat < rules.seats,
            rules.min_bet * 100 <= u32::MAX,
        ensures
            life_wf(l@),
            l@.table.rules == rules,
            l@.table.phase == Phase::Betting,
            l@.human_seat == human_seat,
            opponents(l@) == 0,
            !l@.sitting_out,
            !l@.housekeeping_done,
            l@.rounds_played == 0,
            forall|i: int| 0 <= i < l@.table.seats.len() ==> #[trigger] l@.table.seats[i] == crate::table::empty_seat(),
    {
        TableLife::new(rules, human_seat, seeded(seed), seeded(seed ^ 0x9E37_79B9_7F4A_7C15u64))
    }

    /// The frozen rules the table plays by.
    pub fn rules(&self) -> (r: &Rules)
        ensures
            *r == self@.table.rules,
    {
        self.table.rules()
    }

    /// The seat reserved for the human player.
    pub fn human_seat(&self) -> (s: usize)
        ensures
            s == self@.human_seat,
    {
        self.human_seat
    }

    /// The seats currently occupied by AI opponents, in seat order.
    pub fn opponent_seats(&self) -> (v: Vec<usize>)
        ensures
            v@ == occupied_seats(self@.roster),
    {
        let mut v: Vec<usize> = Vec::new();
        let mut i: usize = 0;
        while i < self.roster.len()
            invariant
                i <= self@.roster.len(),
                v@ == occupied_seats(self@.roster.subrange(0, i as int)),
            decreases self.roster.len() - i,
        {
            proof {
                assert(self@.roster.subrange(0, i as int + 1).drop_last() =~= self@.roster.subrange(0, i as int));
            }
            if self.roster[i].is_some() {
                v.push(i);
            }
            i = i + 1;
            proof {
                assert(v@ =~= occupied_seats(self@.roster.subrange(0, i as int)));
            }
        }
        proof {
            assert(self@.roster.subrange(0, i as int) =~= self@.roster);
        }
        v
    }

    /// Completed rounds since the table opened.
    pub fn rounds_played(&self) -> (n: u64)
        ensures
            n == self@.rounds_played,
    {
        self.rounds_played
    }

    /// The current dealer's pace.
    pub fn pace(&self) -> (p: Pace)
        ensures
            p == pace_of(self@.persona),
    {
        self.persona.pace()
    }

    /// The complete visible state of the table right now.
    pub fn snapshot(&self) -> (snap: Snapshot)
        requires
            life_wf(self@),
        ensures
            snapshot_of(self@.table, snap),
    {
        self.table.snapshot()
    }

    /// Mark the human seat as sitting out, so betting no longer waits on
    /// it. Sticky across rounds until the human places a bet again — the
    /// session layer uses this while the human is away (or broke) and the
    /// table plays on around the empty seat.
    pub fn human_sit_out(&mut self)
        ensures
            final(self)@ == (LifeModel { sitting_out: true, ..old(self)@ }),
    {
        self.human_sitting_out = true;
    }

    /// Take the human seat back in, so betting waits on it again.
    pub fn human_sit_in(&mut self)
        ensures
            final(self)@ == (LifeModel { sitting_out: false, ..old(self)@ }),
    {
        self.human_sitting_out = false;
    }

    /// Whether the human seat is currently sitting out.
    pub fn human_sitting_out(&self) -> (b: bool)
        ensures
            b == self@.sitting_out,
    {
        self.human_sitting_out
    }

    /// What the orchestrator needs next, without doing any work.
    pub fn awaiting(&self) -> (a: Awaiting)
        requires
            life_wf(self@),
        ensures
            a == spec_awaiting(self@),
    {
        match self.table.phase() {
            Phase::Betting => {
                if !self.housekeeping_done {
                    return Awaiting::Engine;
                }
                let snapshot = self.table.snapshot();
                let seats = self.opponent_seats();
                proof {
                    lemma_occupied_seats(self@.roster);
                }
                let mut missing = false;
                let mut k: usize = 0;
                while k < seats.len()
                    invariant
                        k <= seats@.len(),
                        seats@ == occupied_seats(self@.roster),
                        life_wf(self@),
                        snapshot_of(self@.table, snapshot),
                        forall|j: int| 0 <= j < seats@.len() ==> (#[trigger] seats@[j]) < self@.roster.len()
                            && self@.roster[seats@[j] as int] is Some,
                        missing == exists|j: int| 0 <= j < k && (#[trigger] self@.table.seats[seats@[j] as int]).bet is None,
                    decreases seats.len() - k,
                {
                    let seat = seats[k];
                    assert(crate::table::seat_snapshot_of(self@.table.seats[seat as int], snapshot.seats@[seat as int]));
                    if snapshot.seats[seat].bet.is_none() {
                        missing = true;
                    }
                    k = k + 1;
                }
                if missing {
                    proof {
                        let j = choose|j: int| 0 <= j < seats@.len() && (#[trigger] self@.table.seats[seats@[j] as int]).bet is None;
                        assert(self@.roster[seats@[j] as int] is Some);
                    }
                    return Awaiting::Engine;
                }
                proof {
                    assert forall|i: int| 0 <= i < self@.roster.len() && (#[trigger] self@.roster[i]) is Some implies self@.table.seats[i].bet is Some by {
                        assert(occupied_seats(self@.roster).contains(i as usize));
                        let j = choose|j: int| 0 <= j < seats@.len() && seats@[j] == i as usize;
                        assert(self@.table.seats[seats@[j] as int].bet is Some);
                    }
                }
                let human = self.human_seat;
                assert(crate::table::seat_snapshot_of(self@.table.seats[human as int], snapshot.seats@[human as int]));
                let human_bet = snapshot.seats[human].bet.is_some();
                if !self.human_sitting_out && !human_bet {
                    return Awaiting::HumanBet;
                }
                let mut betting = false;
                let mut i: usize = 0;
                while i < snapshot.seats.len()
                    invariant
                        i <= snapshot.seats@.len(),
                        snapshot_of(self@.table, snapshot),
                        betting == exists|j: int| 0 <= j < i && (#[trigger] self@.table.seats[j]).bet is Some,
                    decreases snapshot.seats.len() - i,
                {
                    assert(crate::table::seat_snapshot_of(self@.table.seats[i as int], snapshot.seats@[i as int]));
                    if snapshot.seats[i].bet.is_some() {
                        betting = true;
                    }
                    i = i + 1;
                }
                if betting {
                    return Awaiting::Engine;
                }
                // Nobody at all is betting (possible only on a table with
                // no AI seats): only the human can start a round.
                Awaiting::HumanBet
            },
            Phase::InsuranceOffer => {
                let snapshot = self.table.snapshot();
                let seat = match snapshot.active {
                    Some(active) => active.seat,
                    None => 0,
                };
                if seat == self.human_seat {
                    Awaiting::HumanInsurance
                } else {
                    Awaiting::Engine
                }
            },
            Phase::PlayerTurn => {
                let snapshot = self.table.snapshot();
                let seat = match snapshot.active {
                    Some(active) => active.seat,
                    None => 0,
                };
                if seat == self.human_seat {
                    Awaiting::HumanTurn
                } else {
                    Awaiting::Engine
                }
            },
            Phase::RoundOver => Awaiting::Engine,
        }
    }
}

/// Occupancy depends only on which entries are filled.
pub proof fn lemma_occupied_same_shape(a: Seq<Option<AiPlayer>>, b: Seq<Option<AiPlayer>>)
    requires
        a.len() == b.len(),
        forall|i: int| 0 <= i < a.len() ==> ((#[trigger] a[i]) is Some <==> b[i] is Some),
    ensures
        occupied_seats(a) == occupied_seats(b),
    decreases a.len(),
{
    if a.len() > 0 {
        lemma_occupied_same_shape(a.drop_last(), b.drop_last());
        assert(a.last() == a[a.len() - 1]);
        assert(b.last() == b[b.len() - 1]);
    }
}

/// A player's bankroll after a round's net, floored at zero (and carried
/// in 32 bits).
pub open spec fn settled_bankroll(bankroll: u32, net: i32) -> u32 {
    if bankroll + net < 0 {
        0
    } else {
        (bankroll + net) as u32
    }
}

/// A player's streak after a round: a win extends a winning run (or
/// starts one), a loss extends a losing run (or starts one), a push
/// leaves it; runs stop growing at the ends of the 32-bit range.
pub open spec fn next_streak(streak: i32, net: i32) -> i32 {
    if net > 0 {
        if streak < 0 {
            1
        } else if streak < i32::MAX {
            (streak + 1) as i32
        } else {
            streak
        }
    } else if net < 0 {
        if streak > 0 {
            -1i32
        } else if streak > i32::MIN + 1 {
            (streak - 1) as i32
        } else {
            streak
        }
    } else {
        streak
    }
}

/// A player after the round: bankroll and streak settled by the seat's
/// net (when it played), one more round at the table.
pub open spec fn after_round(p: AiPlayer, net: Option<i32>) -> AiPlayer {
    let p2 = match net {
        Some(n) => AiPlayer { bankroll: settled_bankroll(p.bankroll, n), streak: next_streak(p.streak, n), ..p },
        None => p,
    };
    AiPlayer {
        rounds_at_table: if p2.rounds_at_table < u32::MAX {
            (p2.rounds_at_table + 1) as u32
        } else {
            p2.rounds_at_table
        },
        ..p2
    }
}

fn settle_player(p: AiPlayer, net: Option<i32>) -> (q: AiPlayer)
    requires
        p.streak != i32::MIN,
    ensures
        q == after_round(p, net),
        q.streak != i32::MIN,
{
    let mut player = p;
    match net {
        Some(net) => {
            let total: i64 = player.bankroll as i64 + net as i64;
            player.bankroll = if total < 0 {
                0
            } else {
                #[verifier::truncate]
                (total as u32)
            };
            if net > 0 {
                player.streak = if player.streak < 0 {
                    1
                } else if player.streak < i32::MAX {
                    player.streak + 1
                } else {
                    player.streak
                };
            } else if net < 0 {
                player.streak = if player.streak > 0 {
                    -1
                } else if player.streak > i32::MIN + 1 {
                    player.streak - 1
                } else {
                    player.streak
                };
            }
        },
        None => {},
    }
    if player.rounds_at_table < u32::MAX {
        player.rounds_at_table = player.rounds_at_table + 1;
    }
    player
}

/// Beats keep the human seat, the sitting-out flag, and the rules, and
/// never put a bet on the human seat.
pub open spec fn beat_keeps(a: LifeModel, b: LifeModel) -> bool {
    &&& b.human_seat == a.human_seat
    &&& b.sitting_out == a.sitting_out
    &&& b.table.rules == a.table.rules
    &&& b.table.seats[a.human_seat as int].bet is Some ==> a.table.seats[a.human_seat as int].bet
        is Some
}

/// How one engine beat may move the table: not at all, or by a single
/// action the table accepted — an AI seat's bet or decision, or the deal
/// or the next round. The engine never acts for the human seat.
pub open spec fn engine_moved(a: TableModel, b: TableModel, human: usize) -> bool {
    ||| b == a
    ||| exists|seat: usize, action: Action, events: Seq<Event>|
        #[trigger] applied(a, b, seat, action, events) && (seat == human ==> action == Action::Deal
            || action == Action::NextRound)
}

/// One hand carries its own bet.
pub proof fn lemma_model_hands_bet_one(hands: Seq<crate::table::HandModel>)
    requires
        hands.len() == 1,
    ensures
        crate::table::model_hands_bet(hands) == hands[0].bet,
{
    assert(hands.drop_last().len() == 0);
    assert(crate::table::model_hands_bet(hands.drop_last()) == 0);
    assert(hands.last() == hands[0]);
}

/// Engine work never changes what the human seat has riding — except
/// that clearing a settled round leaves the seat empty.
pub open spec fn stake_kept(a: LifeModel, b: LifeModel) -> bool {
    let h = a.human_seat as int;
    ||| crate::table::seat_stake(b.table.seats[h]) == crate::table::seat_stake(a.table.seats[h])
    ||| a.table.phase == Phase::RoundOver && b.table.phase == Phase::Betting && b.table.seats[h]
        == crate::table::empty_seat()
}

impl TableLife {
    /// After settlement: the bankroll bookkeeping and the reset for the
    /// next round.
    fn step_round_over(&mut self, events: &mut Vec<Event>)
        requires
            life_wf(old(self)@),
            old(self)@.table.phase == Phase::RoundOver,
        ensures
            life_wf(final(self)@),
            beat_keeps(old(self)@, final(self)@),
            final(self)@.table.phase == Phase::Betting,
            !final(self)@.housekeeping_done,
            final(self)@.rounds_played == if old(self)@.rounds_played < u64::MAX {
                (old(self)@.rounds_played + 1) as u64
            } else {
                old(self)@.rounds_played
            },
            occupied_seats(final(self)@.roster) == occupied_seats(old(self)@.roster),
            stake_kept(old(self)@, final(self)@),
            engine_moved(old(self)@.table, final(self)@.table, old(self)@.human_seat),
            forall|i: int| 0 <= i < final(self)@.table.seats.len() ==> #[trigger] final(self)@.table.seats[i]
                == crate::table::empty_seat(),
    {
        let snapshot = self.table.snapshot();
        let seats = self.opponent_seats();
        let ghost r0 = self@.roster;
        proof {
            lemma_occupied_seats(r0);
        }
        let mut k: usize = 0;
        while k < seats.len()
            invariant
                k <= seats@.len(),
                seats@ == occupied_seats(r0),
                r0 == old(self)@.roster,
                forall|j: int| 0 <= j < seats@.len() ==> (#[trigger] seats@[j]) < r0.len()
                    && r0[seats@[j] as int] is Some,
                self@.roster.len() == r0.len(),
                forall|i: int| 0 <= i < r0.len() ==> ((#[trigger] self@.roster[i]) is Some <==> r0[i] is Some),
                forall|i: int| 0 <= i < r0.len() && (#[trigger] self@.roster[i]) is Some ==> self@.roster[i]->0.streak != i32::MIN,
                self@ == (LifeModel { roster: self@.roster, ..old(self)@ }),
                life_wf(old(self)@),
                snapshot_of(old(self)@.table, snapshot),
            decreases seats.len() - k,
        {
            let seat = seats[k];
            match self.roster[seat] {
                Some(player) => {
                    assert(crate::table::seat_snapshot_of(old(self)@.table.seats[seat as int], snapshot.seats@[seat as int]));
                    let updated = settle_player(player, snapshot.seats[seat].round_net);
                    self.roster.set(seat, Some(updated));
                },
                None => {},
            }
            k = k + 1;
        }
        proof {
            lemma_occupied_same_shape(self@.roster, r0);
        }
        let ghost before = events@;
        match self.table.apply(0, Action::NextRound) {
            Ok(transition) => {
                let mut transition = transition;
                events.append(&mut transition.events);
            },
            Err(_) => {
                proof {
                    assert(false);
                }
            },
        }
        if self.rounds_played < u64::MAX {
            self.rounds_played = self.rounds_played + 1;
        }
        self.rounds_until_dealer_change = self.rounds_until_dealer_change.saturating_sub(1);
        self.housekeeping_done = false;
        proof {
            let m = self@;
            assert forall|i: int| 0 <= i < m.table.seats.len() implies (#[trigger] m.table.seats[i]).bet is None by {
                assert(m.table.seats[i] == crate::table::empty_seat());
            }
        }
    }
}

/// Between rounds, before any AI bet: only the human may have a bet down.
pub open spec fn quiet_break(l: LifeModel) -> bool {
    &&& l.table.phase == Phase::Betting
    &&& forall|i: int|
        0 <= i < l.table.seats.len() && (#[trigger] l.table.seats[i]).bet is Some ==> i
            == l.human_seat
}

/// Seating or unseating a player between rounds keeps the invariant.
pub proof fn lemma_roster_change(a: LifeModel, b: LifeModel, seat: int, v: Option<AiPlayer>)
    requires
        life_wf(a),
        quiet_break(a),
        0 <= seat < a.roster.len(),
        seat != a.human_seat,
        v matches Some(p) ==> p.streak != i32::MIN,
        b == (LifeModel { roster: a.roster.update(seat, v), ..a }),
        opponents(b) <= MAX_OPPONENTS,
    ensures
        life_wf(b),
        quiet_break(b),
{
}

/// Whether a walk-up can sit down: the table is under the opponent cap
/// and some seat other than the human's is free.
pub open spec fn arrival_open(l: LifeModel) -> bool {
    &&& opponents(l) < MAX_OPPONENTS
    &&& exists|i: int| 0 <= i < l.roster.len() && i != l.human_seat && (#[trigger] l.roster[i]) is None
}

/// A player fresh to the table: no streak, no rounds played, a bankroll
/// of 30 to 100 table minimums and a habitual bet of one to three.
pub open spec fn newcomer(p: AiPlayer, min_bet: u32) -> bool {
    &&& p.streak == 0
    &&& p.rounds_at_table == 0
    &&& 30 * min_bet <= p.bankroll <= 100 * min_bet
    &&& min_bet <= p.base_bet <= 3 * min_bet
}

/// `b` is `a` with a newcomer seated at the free non-human seat `seat`.
pub open spec fn seated_newcomer(a: LifeModel, b: LifeModel, seat: int) -> bool {
    &&& 0 <= seat < a.roster.len()
    &&& seat != a.human_seat
    &&& a.roster[seat] is None
    &&& b == (LifeModel { roster: a.roster.update(seat, b.roster[seat]), ..a })
    &&& b.roster[seat] matches Some(p) && newcomer(p, a.table.rules.min_bet)
}

/// `b` is `a` with the first seated AI player without a bet (in seat
/// order) betting its persona's bet size.
pub open spec fn ai_bet_placed(a: LifeModel, b: LifeModel, seat: int) -> bool {
    let r = a.table.rules;
    &&& 0 <= seat < a.roster.len()
    &&& a.roster[seat] is Some
    &&& a.table.seats[seat].bet is None
    &&& forall|j: int| 0 <= j < seat && (#[trigger] a.roster[j]) is Some ==> a.table.seats[j].bet is Some
    &&& b.table.seats[seat].bet matches Some(amount) && amount as int == crate::persona::clamped_bet(
        crate::persona::desired_bet(
            a.roster[seat]->0.archetype,
            a.roster[seat]->0.base_bet,
            a.roster[seat]->0.streak,
            r.min_bet,
        ),
        a.roster[seat]->0.bankroll,
        r.min_bet,
        r.max_bet,
    )
    &&& b.table == crate::table::upd_seat(
        a.table,
        seat,
        crate::table::SeatModel { bet: b.table.seats[seat].bet, ..a.table.seats[seat] },
    )
}

/// Some seated AI player has not bet yet.
pub open spec fn ai_bet_due(l: LifeModel) -> bool {
    exists|i: int| 0 <= i < l.roster.len() && (#[trigger] l.roster[i]) is Some && l.table.seats[i].bet is None
}

/// Whether the AI player at the active seat can cover an insurance stake
/// of half its bet on top of what its hands already carry.
pub open spec fn insurance_affordable(l: LifeModel) -> bool {
    let seat = active_seat(l.table) as int;
    crate::table::model_hands_bet(l.table.seats[seat].hands) + l.table.seats[seat].bet->0 / 2
        <= l.roster[seat]->0.bankroll
}

/// The insurance choice an AI player may make: only an affordable stake,
/// never by the book or when reckless; a timid player always takes it
/// when it can.
pub open spec fn insurance_choice_ok(l: LifeModel, take: bool) -> bool {
    let p = l.roster[active_seat(l.table) as int]->0;
    &&& take ==> insurance_affordable(l) && (p.archetype == Archetype::Timid || p.archetype
        == Archetype::Superstitious)
    &&& insurance_affordable(l) && p.archetype == Archetype::Timid ==> take
}

/// Whether an AI player keeps action `k` open when it has `headroom`
/// dollars beyond what is committed: doubles and splits cost another
/// `bet`.
pub open spec fn keeps_kind(k: ActionKind, bet: u32, headroom: u32) -> bool {
    (k != ActionKind::Double && k != ActionKind::Split) || bet <= headroom
}

/// The actions of `kinds` an AI player can afford, in order.
pub open spec fn affordable_kinds(kinds: Seq<ActionKind>, bet: u32, headroom: u32) -> Seq<ActionKind>
    decreases kinds.len(),
{
    if kinds.len() == 0 {
        kinds
    } else {
        let sub = affordable_kinds(kinds.drop_last(), bet, headroom);
        if keeps_kind(kinds.last(), bet, headroom) {
            sub.push(kinds.last())
        } else {
            sub
        }
    }
}

/// The play the AI player at the active hand makes: its persona's play
/// among the legal actions it can afford, or — a reckless player's
/// hunch — a double on a stiff hand.
pub open spec fn ai_play_ok(l: LifeModel, action: Action) -> bool {
    let seat = active_seat(l.table) as int;
    let s = l.table.seats[seat];
    let hand = s.hands[active_hand(l.table) as int];
    let p = l.roster[seat]->0;
    let committed = crate::table::model_hands_bet(s.hands) + crate::table::insurance_stake(s.insurance);
    let headroom = if p.bankroll >= committed { (p.bankroll - committed) as u32 } else { 0u32 };
    let legal = affordable_kinds(crate::table::spec_legal(l.table), hand.bet, headroom);
    let total = crate::hand::hand_total(hand.cards);
    let soft = crate::hand::hand_soft(hand.cards);
    ||| action == crate::persona::persona_play(p.archetype, hand.cards, total, soft, l.table.dealer[0], legal, false)
    ||| crate::persona::rolls_for_hunch(p.archetype, total, soft, legal) && action == Action::Double
}

/// What one beat of engine work does when the engine is the one due to
/// act. Between rounds: the housekeeping pass; then the first AI seat
/// without a bet bets; then, all AI bets in, the deal. During insurance:
/// the active AI seat's insurance choice. During play: the active AI
/// seat's play. After settlement: the felt is cleared for the next round.
/// Which bet, choice, or play is made rests on chance; that one is made
/// does not.
pub open spec fn engine_beat(a: LifeModel, b: LifeModel) -> bool {
    spec_awaiting(a) == Awaiting::Engine ==> match a.table.phase {
        Phase::Betting => if !a.housekeeping_done {
            &&& b.housekeeping_done
            &&& b.table == a.table
            &&& housekept(a, b)
        } else if ai_bet_due(a) {
            &&& b.housekeeping_done
            &&& b.roster == a.roster
            &&& exists|seat: int| #[trigger] ai_bet_placed(a, b, seat)
        } else {
            &&& b.roster == a.roster
            &&& crate::table::deal_effect(a.table, b.table)
        },
        Phase::InsuranceOffer => {
            &&& b.roster == a.roster
            &&& exists|take: bool|
                #[trigger] insurance_choice_ok(a, take) && crate::table::insurance_effect(
                    a.table,
                    b.table,
                    active_seat(a.table) as int,
                    take,
                )
        },
        Phase::PlayerTurn => {
            &&& b.roster == a.roster
            &&& exists|action: Action, ev: Seq<Event>|
                #[trigger] applied(a.table, b.table, active_seat(a.table), action, ev) && ai_play_ok(a, action)
        },
        Phase::RoundOver => {
            &&& b.table.phase == Phase::Betting
            &&& forall|i: int| 0 <= i < b.table.seats.len() ==> #[trigger] b.table.seats[i]
                == crate::table::empty_seat()
        },
    }
}

/// Whether the human sits out plays no part in what a beat did.
pub proof fn lemma_engine_beat_sitting_out(a: LifeModel, b: LifeModel, c: LifeModel)
    requires
        engine_beat(a, b),
        c == (LifeModel { sitting_out: c.sitting_out, ..b }),
    ensures
        engine_beat(a, c),
{
    if spec_awaiting(a) == Awaiting::Engine {
        match a.table.phase {
            Phase::Betting => {
                if a.housekeeping_done && ai_bet_due(a) {
                    let seat = choose|seat: int| #[trigger] ai_bet_placed(a, b, seat);
                    assert(ai_bet_placed(a, c, seat));
                } else if !a.housekeeping_done {
                    assert(opponents(c) == opponents(b));
                    assert(arrival_open(c) == arrival_open(b));
                }
            },
            Phase::InsuranceOffer => {
                let take = choose|take: bool|
                    #[trigger] insurance_choice_ok(a, take) && crate::table::insurance_effect(
                        a.table,
                        b.table,
                        active_seat(a.table) as int,
                        take,
                    );
                assert(insurance_choice_ok(a, take));
            },
            Phase::PlayerTurn => {
                let (action, ev) = choose|action: Action, ev: Seq<Event>|
                    #[trigger] applied(a.table, b.table, active_seat(a.table), action, ev) && ai_play_ok(a, action);
                assert(applied(a.table, c.table, active_seat(a.table), action, ev));
            },
            Phase::RoundOver => {},
        }
    }
}

/// What a housekeeping pass does: a dealer whose tenure ran out hands
/// over to another dealer for a fresh 12 to 24 rounds (otherwise the
/// dealer stays); felted players leave while players with chips inside
/// their grace rounds stay; walk-ups take free seats; and on the very
/// first round the table fills to at least two opponents if it can.
pub open spec fn housekept(a: LifeModel, b: LifeModel) -> bool {
    &&& if a.rounds_until_dealer_change == 0 {
        DEALER_TENURE_MIN <= b.rounds_until_dealer_change <= DEALER_TENURE_MAX
    } else {
        b.persona == a.persona && b.rounds_until_dealer_change == a.rounds_until_dealer_change
    }
    &&& kept_or_new(a, b)
    &&& a.rounds_played == 0 ==> opponents(b) >= 2 || !arrival_open(b)
}

/// What a housekeeping pass may do to the roster: every player still
/// seated either sat there before with at least a table minimum, or is a
/// newcomer; and a player with chips who has not yet outstayed the grace
/// rounds keeps the seat.
pub open spec fn kept_or_new(a: LifeModel, b: LifeModel) -> bool {
    let min = a.table.rules.min_bet;
    &&& b.roster.len() == a.roster.len()
    &&& forall|i: int|
        0 <= i < b.roster.len() && (#[trigger] b.roster[i]) is Some ==> (a.roster[i] == b.roster[i]
            && b.roster[i]->0.bankroll >= min) || newcomer(b.roster[i]->0, min)
    &&& forall|i: int|
        0 <= i < a.roster.len() && (#[trigger] a.roster[i]) is Some && a.roster[i]->0.bankroll >= min
            && a.roster[i]->0.rounds_at_table < DEPARTURE_GRACE_ROUNDS ==> b.roster[i] == a.roster[i]
}

/// Seating a newcomer keeps what housekeeping promises of the roster.
pub proof fn lemma_kept_or_new_arrival(a: LifeModel, m: LifeModel, b: LifeModel, seat: int)
    requires
        kept_or_new(a, m),
        seated_newcomer(m, b, seat),
        m.table == a.table,
    ensures
        kept_or_new(a, b),
{
    assert forall|i: int| 0 <= i < b.roster.len() && (#[trigger] b.roster[i]) is Some implies (a.roster[i]
        == b.roster[i] && b.roster[i]->0.bankroll >= a.table.rules.min_bet) || newcomer(
        b.roster[i]->0,
        a.table.rules.min_bet,
    ) by {
        if i != seat {
            assert(b.roster[i] == m.roster[i]);
        }
    }
    assert forall|i: int|
        0 <= i < a.roster.len() && (#[trigger] a.roster[i]) is Some && a.roster[i]->0.bankroll
            >= a.table.rules.min_bet && a.roster[i]->0.rounds_at_table < DEPARTURE_GRACE_ROUNDS implies b.roster[i]
        == a.roster[i] by {
        assert(m.roster[i] == a.roster[i]);
        if i == seat {
            assert(m.roster[seat] is None);
        }
    }
}

impl TableLife {
    /// Seat a new AI player at a random empty non-human seat. Returns
    /// false when no seat is free (or the table is at the opponent cap).
    fn arrive(&mut self, events: &mut Vec<Event>) -> (b: bool)
        requires
            life_wf(old(self)@),
            quiet_break(old(self)@),
        ensures
            life_wf(final(self)@),
            quiet_break(final(self)@),
            final(self)@ == (LifeModel { roster: final(self)@.roster, ..old(self)@ }),
            b == arrival_open(old(self)@),
            b ==> opponents(final(self)@) == opponents(old(self)@) + 1,
            b ==> exists|seat: int|
                #[trigger] seated_newcomer(old(self)@, final(self)@, seat) && final(events)@ == old(
                    events,
                )@.push(Event::PlayerArrived { seat: seat as usize }),
            !b ==> final(self)@ == old(self)@ && final(events)@ == old(events)@,
    {
        let seats = self.opponent_seats();
        if seats.len() >= MAX_OPPONENTS {
            return false;
        }
        let mut empty: Vec<usize> = Vec::new();
        let mut i: usize = 0;
        while i < self.roster.len()
            invariant
                i <= self@.roster.len(),
                self@ == old(self)@,
                forall|j: int| 0 <= j < empty@.len() ==> (#[trigger] empty@[j]) < self@.roster.len()
                    && empty@[j] != self@.human_seat && self@.roster[empty@[j] as int] is None,
                forall|j: int|
                    0 <= j < i && j != self@.human_seat && (#[trigger] self@.roster[j]) is None
                        ==> empty@.contains(j as usize),
            decreases self.roster.len() - i,
        {
            let ghost before = empty@;
            if i != self.human_seat && self.roster[i].is_none() {
                empty.push(i);
                proof {
                    assert(empty@[empty@.len() - 1] == i);
                }
            }
            proof {
                assert forall|j: int|
                    0 <= j < i + 1 && j != self@.human_seat && (#[trigger] self@.roster[j]) is None
                        implies empty@.contains(j as usize) by {
                    if j < i {
                        assert(before.contains(j as usize));
                        let k = choose|k: int| 0 <= k < before.len() && before[k] == j as usize;
                        assert(empty@[k] == before[k]);
                    } else {
                        assert(empty@[empty@.len() - 1] == i);
                    }
                }
            }
            i = i + 1;
        }
        if empty.len() == 0 {
            proof {
                assert forall|j: int| 0 <= j < self@.roster.len() && j != self@.human_seat implies !((#[trigger] self@.roster[j]) is None) by {
                    if self@.roster[j] is None {
                        assert(empty@.contains(j as usize));
                    }
                }
            }
            return false;
        }
        let pick = random_usize(&mut self.rng, 0, empty.len() - 1);
        let seat = empty[pick];
        let archetype = archetype_at(random_usize(&mut self.rng, 0, 3));
        let min_bet = self.table.rules().min_bet;
        let stacks = random_u32(&mut self.rng, 30, 100);
        let units = random_u32(&mut self.rng, 1, 3);
        proof {
            assert(min_bet * stacks <= min_bet * 100) by (nonlinear_arith)
                requires stacks <= 100;
            assert(min_bet * units <= min_bet * 100) by (nonlinear_arith)
                requires units <= 100;
        }
        let bankroll = min_bet * stacks;
        let base_bet = min_bet * units;
        let ghost m0 = self@;
        let player = AiPlayer { archetype, bankroll, base_bet, streak: 0, rounds_at_table: 0 };
        self.roster.set(seat, Some(player));
        proof {
            lemma_occupied_update(m0.roster, seat as int, Some(player));
            assert(self@ == (LifeModel { roster: m0.roster.update(seat as int, Some(player)), ..m0 }));
            lemma_roster_change(m0, self@, seat as int, Some(player));
            assert(empty@[pick as int] == seat);
            assert(self@.roster[seat as int] == Some(player));
            assert(30 * min_bet <= bankroll) by (nonlinear_arith)
                requires bankroll == min_bet * stacks, stacks >= 30;
            assert(bankroll <= 100 * min_bet) by (nonlinear_arith)
                requires bankroll == min_bet * stacks, stacks <= 100;
            assert(min_bet <= base_bet) by (nonlinear_arith)
                requires base_bet == min_bet * units, units >= 1;
            assert(base_bet <= 3 * min_bet) by (nonlinear_arith)
                requires base_bet == min_bet * units, units <= 3;
            assert(seated_newcomer(old(self)@, self@, seat as int));
        }
        events.push(Event::PlayerArrived { seat });
        true
    }

    /// Between-round life: dealer rotation, departures, arrivals.
    fn housekeeping(&mut self, events: &mut Vec<Event>)
        requires
            life_wf(old(self)@),
            quiet_break(old(self)@),
        ensures
            life_wf(final(self)@),
            quiet_break(final(self)@),
            final(self)@.table == old(self)@.table,
            final(self)@.human_seat == old(self)@.human_seat,
            final(self)@.sitting_out == old(self)@.sitting_out,
            final(self)@.housekeeping_done == old(self)@.housekeeping_done,
            final(self)@.rounds_played == old(self)@.rounds_played,
            housekept(old(self)@, final(self)@),
            crate::table::extends(old(events)@, final(events)@),
    {
        // Dealer rotation.
        proof {
            crate::table::lemma_extends_refl(events@);
        }
        if self.rounds_until_dealer_change == 0 {
            self.persona = persona_at(random_usize(&mut self.rng, 0, 2));
            self.rounds_until_dealer_change = random_u32(
                &mut self.rng,
                DEALER_TENURE_MIN,
                DEALER_TENURE_MAX,
            );
            proof {
                crate::table::lemma_extends_push(events@, Event::DealerChanged);
            }
            events.push(Event::DealerChanged);
        }
        // Departures: felted players must leave; the rest drift away once
        // they have been here a while.
        let ghost m0 = self@;
        let min_bet = self.table.rules().min_bet;
        let seats = self.opponent_seats();
        proof {
            lemma_occupied_seats(m0.roster);
        }
        let mut k: usize = 0;
        while k < seats.len()
            invariant
                k <= seats@.len(),
                seats@ == occupied_seats(m0.roster),
                forall|j: int| 0 <= j < seats@.len() ==> (#[trigger] seats@[j]) < m0.roster.len()
                    && m0.roster[seats@[j] as int] is Some,
                forall|j: int, l: int| 0 <= j < l < seats@.len() ==> seats@[j] < seats@[l],
                forall|j: int| k <= j < seats@.len() ==> self@.roster[(#[trigger] seats@[j]) as int] == m0.roster[seats@[j] as int],
                forall|i: int| 0 <= i < m0.roster.len() ==> (#[trigger] self@.roster[i]) is None || self@.roster[i] == m0.roster[i],
                forall|j: int|
                    0 <= j < k && (#[trigger] self@.roster[seats@[j] as int]) is Some ==> self@.roster[seats@[j] as int]->0.bankroll
                        >= min_bet,
                forall|j: int|
                    0 <= j < k && (#[trigger] m0.roster[seats@[j] as int])->0.bankroll >= min_bet
                        && m0.roster[seats@[j] as int]->0.rounds_at_table < DEPARTURE_GRACE_ROUNDS
                        ==> self@.roster[seats@[j] as int] == m0.roster[seats@[j] as int],
                min_bet == self@.table.rules.min_bet,
                self@.roster.len() == m0.roster.len(),
                life_wf(self@),
                quiet_break(self@),
                self@.table == m0.table,
                self@.human_seat == m0.human_seat,
                self@.sitting_out == m0.sitting_out,
                self@.housekeeping_done == m0.housekeeping_done,
                self@.rounds_played == m0.rounds_played,
                self@.persona == m0.persona,
                self@.rounds_until_dealer_change == m0.rounds_until_dealer_change,
                crate::table::extends(old(events)@, events@),
            decreases seats.len() - k,
        {
            let seat = seats[k];
            let ghost pre = self@;
            match self.roster[seat] {
                Some(player) => {
                    let felted = player.bankroll < min_bet;
                    let wandering = player.rounds_at_table >= DEPARTURE_GRACE_ROUNDS && random_ratio(
                        &mut self.rng,
                        1,
                        10,
                    );
                    if felted || wandering {
                        let ghost m1 = self@;
                        self.roster.set(seat, None);
                        proof {
                            lemma_occupied_update(m1.roster, seat as int, None);
                            assert(self@ == (LifeModel { roster: m1.roster.update(seat as int, None), ..m1 }));
                            lemma_roster_change(m1, self@, seat as int, None);
                            assert forall|j: int| k + 1 <= j < seats@.len() implies self@.roster[(#[trigger] seats@[j]) as int] == m0.roster[seats@[j] as int] by {
                                assert(seats@[j] != seat);
                            }
                            crate::table::lemma_extends_push(events@, Event::PlayerDeparted { seat });
                            crate::table::lemma_extends_trans(old(events)@, events@, events@.push(Event::PlayerDeparted { seat }));
                        }
                        events.push(Event::PlayerDeparted { seat });
                    }
                },
                None => {},
            }
            proof {
                assert forall|j: int|
                    0 <= j < k + 1 && (#[trigger] self@.roster[seats@[j] as int]) is Some implies self@.roster[seats@[j] as int]->0.bankroll
                        >= min_bet by {
                    if j < k {
                        assert(seats@[j] < seat);
                        assert(self@.roster[seats@[j] as int] == pre.roster[seats@[j] as int]);
                    }
                }
                assert forall|j: int|
                    0 <= j < k + 1 && (#[trigger] m0.roster[seats@[j] as int])->0.bankroll >= min_bet
                        && m0.roster[seats@[j] as int]->0.rounds_at_table < DEPARTURE_GRACE_ROUNDS
                        implies self@.roster[seats@[j] as int] == m0.roster[seats@[j] as int] by {
                    if j < k {
                        assert(seats@[j] < seat);
                        assert(self@.roster[seats@[j] as int] == pre.roster[seats@[j] as int]);
                    }
                }
                assert forall|i: int| 0 <= i < m0.roster.len() implies (#[trigger] self@.roster[i]) is None || self@.roster[i] == m0.roster[i] by {
                    if i != seat {
                        assert(self@.roster[i] == pre.roster[i]);
                    }
                }
            }
            k = k + 1;
        }
        proof {
            assert forall|i: int| 0 <= i < self@.roster.len() && (#[trigger] self@.roster[i]) is Some implies (m0.roster[i]
                == self@.roster[i] && self@.roster[i]->0.bankroll >= min_bet) || newcomer(self@.roster[i]->0, min_bet) by {
                assert(m0.roster[i] is Some);
                assert(occupied_seats(m0.roster).contains(i as usize));
                let j = choose|j: int| 0 <= j < seats@.len() && seats@[j] == i as usize;
                assert(self@.roster[seats@[j] as int] is Some);
            }
            assert forall|i: int|
                0 <= i < m0.roster.len() && (#[trigger] m0.roster[i]) is Some && m0.roster[i]->0.bankroll >= min_bet
                    && m0.roster[i]->0.rounds_at_table < DEPARTURE_GRACE_ROUNDS implies self@.roster[i] == m0.roster[i] by {
                assert(occupied_seats(m0.roster).contains(i as usize));
                let j = choose|j: int| 0 <= j < seats@.len() && seats@[j] == i as usize;
                assert(m0.roster[seats@[j] as int] == m0.roster[i]);
            }
            assert(kept_or_new(m0, self@));
        }
        // Arrivals. The very first round seats an opening crowd; after
        // that, walk-ups arrive at a rate tuned against departures.
        if self.rounds_played == 0 {
            let target = random_usize(&mut self.rng, 2, 4);
            let mut seating = true;
            while seating
                invariant
                    life_wf(self@),
                    quiet_break(self@),
                    self@.table == m0.table,
                    self@.human_seat == m0.human_seat,
                    self@.sitting_out == m0.sitting_out,
                    self@.housekeeping_done == m0.housekeeping_done,
                    self@.rounds_played == m0.rounds_played,
                    self@.persona == m0.persona,
                    self@.rounds_until_dealer_change == m0.rounds_until_dealer_change,
                    kept_or_new(m0, self@),
                    crate::table::extends(old(events)@, events@),
                    2 <= target,
                    !seating ==> opponents(self@) >= 2 || !arrival_open(self@),
                decreases MAX_OPPONENTS + 1 - opponents(self@) + if seating { 1int } else { 0 },
            {
                if self.opponent_seats().len() < target {
                    let ghost ma = self@;
                    let ghost ea = events@;
                    seating = self.arrive(events);
                    proof {
                        if seating {
                            let seat = choose|seat: int|
                                #[trigger] seated_newcomer(ma, self@, seat) && events@ == ea.push(
                                    Event::PlayerArrived { seat: seat as usize },
                                );
                            lemma_kept_or_new_arrival(m0, ma, self@, seat);
                            crate::table::lemma_extends_push(ea, Event::PlayerArrived { seat: seat as usize });
                            crate::table::lemma_extends_trans(old(events)@, ea, events@);
                        }
                    }
                } else {
                    seating = false;
                }
            }
        } else {
            let opponents = self.opponent_seats().len();
            if opponents < MAX_OPPONENTS {
                let (numerator, denominator) = arrival_probability(opponents);
                if random_ratio(&mut self.rng, numerator, denominator) {
                    let ghost ma = self@;
                    let ghost ea = events@;
                    let seated = self.arrive(events);
                    proof {
                        if seated {
                            let seat = choose|seat: int|
                                #[trigger] seated_newcomer(ma, self@, seat) && events@ == ea.push(
                                    Event::PlayerArrived { seat: seat as usize },
                                );
                            lemma_kept_or_new_arrival(m0, ma, self@, seat);
                            crate::table::lemma_extends_push(ea, Event::PlayerArrived { seat: seat as usize });
                            crate::table::lemma_extends_trans(old(events)@, ea, events@);
                        }
                    }
                }
            }
        }
    }
}

/// Hands that each carry at most `b` carry at most `b` apiece in total.
pub proof fn lemma_hands_bet_bound(hands: Seq<HandSnapshot>, b: int)
    requires
        b >= 0,
        forall|k: int| 0 <= k < hands.len() ==> (#[trigger] hands[k]).bet <= b,
    ensures
        hands_bet(hands) <= hands.len() * b,
    decreases hands.len(),
{
    if hands.len() > 0 {
        let p = hands.drop_last();
        assert forall|k: int| 0 <= k < p.len() implies (#[trigger] p[k]).bet <= b by {
            assert(p[k] == hands[k]);
        }
        lemma_hands_bet_bound(p, b);
        assert(hands.last().bet <= b);
        assert((p.len() + 1) * b == p.len() * b + b) by (nonlinear_arith);
    }
}

/// A seat never commits more than twice the table maximum per hand plus
/// half of it for insurance — well inside the engine's integers.
pub proof fn lemma_committed_bound(m: TableModel, i: int, snap: SeatSnapshot)
    requires
        wf(m),
        0 <= i < m.seats.len(),
        crate::table::seat_snapshot_of(m.seats[i], snap),
    ensures
        0 <= spec_committed(snap) <= (2 * m.rules.max_split_hands + 1) * m.rules.max_bet,
        (2 * m.rules.max_split_hands + 1) * m.rules.max_bet <= i32::MAX,
{
    let r = m.rules;
    let s = m.seats[i];
    assert(crate::table::seat_base(s, r));
    assert forall|k: int| 0 <= k < snap.hands@.len() implies (#[trigger] snap.hands@[k]).bet <= 2 * r.max_bet by {
        assert(crate::table::hand_snapshot_of(s.hands[k], snap.hands@[k]));
        assert(crate::table::hand_base(s.hands[k], r));
    }
    lemma_hands_bet_bound(snap.hands@, 2 * r.max_bet);
    lemma_hands_bet_nonneg(snap.hands@);
    assert(snap.hands@.len() * (2 * r.max_bet) <= r.max_split_hands * (2 * r.max_bet)) by (nonlinear_arith)
        requires snap.hands@.len() <= r.max_split_hands;
    assert((2 * r.max_split_hands + 1) * r.max_bet == r.max_split_hands * (2 * r.max_bet) + r.max_bet) by (nonlinear_arith);
    assert((2 * r.max_split_hands + 1) * r.max_bet <= (3 * r.max_split_hands + 1) * r.max_bet) by (nonlinear_arith);
}

impl TableLife {
    /// Between rounds: one housekeeping pass, or one AI bet, or the deal.
    fn step_betting(&mut self, events: &mut Vec<Event>)
        requires
            life_wf(old(self)@),
            old(self)@.table.phase == Phase::Betting,
        ensures
            life_wf(final(self)@),
            beat_keeps(old(self)@, final(self)@),
            final(self)@.rounds_played == old(self)@.rounds_played,
            spec_awaiting(old(self)@) != Awaiting::Engine ==> final(self)@ == old(self)@
                && final(events)@ == old(events)@,
            stake_kept(old(self)@, final(self)@),
            engine_moved(old(self)@.table, final(self)@.table, old(self)@.human_seat),
            !old(self)@.housekeeping_done ==> final(self)@.housekeeping_done && final(self)@.table
                == old(self)@.table && housekept(old(self)@, final(self)@),
            old(self)@.housekeeping_done ==> final(self)@.housekeeping_done && final(self)@.roster
                == old(self)@.roster,
            old(self)@.housekeeping_done && ai_bet_due(old(self)@) ==> exists|seat: int|
                #[trigger] ai_bet_placed(old(self)@, final(self)@, seat),
            old(self)@.housekeeping_done && !ai_bet_due(old(self)@) && spec_awaiting(old(self)@)
                == Awaiting::Engine ==> crate::table::deal_effect(old(self)@.table, final(self)@.table),
    {
        if !self.housekeeping_done {
            self.housekeeping(events);
            self.housekeeping_done = true;
            return;
        }
        let snapshot = self.table.snapshot();
        let seats = self.opponent_seats();
        proof {
            lemma_occupied_seats(self@.roster);
        }
        // One AI bet per beat.
        let mut found: Option<usize> = None;
        let mut k: usize = 0;
        while k < seats.len()
            invariant
                k <= seats@.len(),
                seats@ == occupied_seats(self@.roster),
                life_wf(self@),
                snapshot_of(self@.table, snapshot),
                forall|j: int| 0 <= j < seats@.len() ==> (#[trigger] seats@[j]) < self@.roster.len()
                    && self@.roster[seats@[j] as int] is Some,
                match found {
                    Some(s) => s < self@.roster.len() && self@.roster[s as int] is Some
                        && self@.table.seats[s as int].bet is None && forall|j: int|
                        0 <= j < s && (#[trigger] self@.roster[j]) is Some ==> self@.table.seats[j].bet is Some,
                    None => forall|j: int| 0 <= j < k ==> (#[trigger] self@.table.seats[seats@[j] as int]).bet is Some,
                },
            decreases seats.len() - k,
        {
            if found.is_none() {
                let seat = seats[k];
                assert(crate::table::seat_snapshot_of(self@.table.seats[seat as int], snapshot.seats@[seat as int]));
                if snapshot.seats[seat].bet.is_none() {
                    found = Some(seat);
                    proof {
                        lemma_occupied_seats(self@.roster);
                        assert forall|j: int| 0 <= j < seat && (#[trigger] self@.roster[j]) is Some implies self@.table.seats[j].bet is Some by {
                            assert(occupied_seats(self@.roster).contains(j as usize));
                            let idx = choose|idx: int| 0 <= idx < seats@.len() && seats@[idx] == j as usize;
                            if idx >= k {
                                if idx > k {
                                    assert(seats@[k as int] < seats@[idx]);
                                }
                            }
                            assert(self@.table.seats[seats@[idx] as int].bet is Some);
                        }
                    }
                }
            }
            k = k + 1;
        }
        match found {
            Some(seat) => {
                let rules = self.table.rules();
                let min = rules.min_bet;
                let max = rules.max_bet;
                let player = match self.roster[seat] {
                    Some(p) => p,
                    None => AiPlayer {
                        archetype: Archetype::ByTheBook,
                        bankroll: 0,
                        base_bet: 0,
                        streak: 0,
                        rounds_at_table: 0,
                    },
                };
                proof {
                    assert(self@.roster[seat as int] is Some);
                }
                let amount = persona::bet_size(
                    player.archetype,
                    player.base_bet,
                    player.streak,
                    player.bankroll,
                    min,
                    max,
                );
                let ghost m0 = self@;
                match self.table.apply(seat, Action::PlaceBet(amount)) {
                    Ok(transition) => {
                        let mut transition = transition;
                        events.append(&mut transition.events);
                    },
                    Err(_) => {
                        proof {
                            assert(false);
                        }
                    },
                }
                proof {
                    let m = self@;
                    assert(seat != m0.human_seat);
                    assert forall|i: int| 0 <= i < m.table.seats.len() && (#[trigger] m.table.seats[i]).bet is Some implies i == m.human_seat || m.roster[i] is Some by {
                        if i != seat {
                            assert(m.table.seats[i] == m0.table.seats[i]);
                        }
                    }
                    assert(m.table.seats[m0.human_seat as int] == m0.table.seats[m0.human_seat as int]);
                    assert(m.table.seats[seat as int].bet == Some(amount));
                    assert(ai_bet_placed(old(self)@, m, seat as int));
                }
                return;
            },
            None => {},
        }
        proof {
            assert forall|i: int| 0 <= i < self@.roster.len() && (#[trigger] self@.roster[i]) is Some implies self@.table.seats[i].bet is Some by {
                assert(occupied_seats(self@.roster).contains(i as usize));
                let j = choose|j: int| 0 <= j < seats@.len() && seats@[j] == i as usize;
                assert(self@.table.seats[seats@[j] as int].bet is Some);
            }
        }
        // All AI bets are in. Wait for the human if they are still due.
        let human = self.human_seat;
        assert(crate::table::seat_snapshot_of(self@.table.seats[human as int], snapshot.seats@[human as int]));
        if !self.human_sitting_out && snapshot.seats[human].bet.is_none() {
            return;
        }
        let mut betting = false;
        let mut i: usize = 0;
        while i < snapshot.seats.len()
            invariant
                i <= snapshot.seats@.len(),
                snapshot_of(self@.table, snapshot),
                betting == exists|j: int| 0 <= j < i && (#[trigger] self@.table.seats[j]).bet is Some,
            decreases snapshot.seats.len() - i,
        {
            assert(crate::table::seat_snapshot_of(self@.table.seats[i as int], snapshot.seats@[i as int]));
            if snapshot.seats[i].bet.is_some() {
                betting = true;
            }
            i = i + 1;
        }
        if betting {
            let ghost m0 = self@;
            match self.table.apply(0, Action::Deal) {
                Ok(transition) => {
                    let mut transition = transition;
                    events.append(&mut transition.events);
                },
                Err(_) => {
                    proof {
                        assert(false);
                    }
                },
            }
            proof {
                let m = self@;
                assert forall|i: int| 0 <= i < m.table.seats.len() implies (#[trigger] m.table.seats[i]).bet == m0.table.seats[i].bet by {
                    assert(crate::table::dealt_in(m0.table.seats[i], m.table.seats[i]));
                }
                let h = m0.human_seat as int;
                assert(crate::table::dealt_in(m0.table.seats[h], m.table.seats[h]));
                assert(!(m.table.seats[h].insurance is Taken));
                assert(m0.table.seats[h].hands.len() == 0);
                if m0.table.seats[h].bet is Some {
                    lemma_model_hands_bet_one(m.table.seats[h].hands);
                }
            }
        }
    }

    /// The insurance decision of the active AI seat, if it is one.
    fn step_insurance(&mut self, events: &mut Vec<Event>)
        requires
            life_wf(old(self)@),
            old(self)@.table.phase == Phase::InsuranceOffer,
        ensures
            life_wf(final(self)@),
            beat_keeps(old(self)@, final(self)@),
            final(self)@.rounds_played == old(self)@.rounds_played,
            spec_awaiting(old(self)@) != Awaiting::Engine ==> final(self)@ == old(self)@
                && final(events)@ == old(events)@,
            stake_kept(old(self)@, final(self)@),
            engine_moved(old(self)@.table, final(self)@.table, old(self)@.human_seat),
            spec_awaiting(old(self)@) == Awaiting::Engine ==> final(self)@.roster == old(self)@.roster
                && exists|take: bool|
                #[trigger] insurance_choice_ok(old(self)@, take) && crate::table::insurance_effect(
                    old(self)@.table,
                    final(self)@.table,
                    active_seat(old(self)@.table) as int,
                    take,
                ),
    {
        let snapshot = self.table.snapshot();
        let seat = match snapshot.active {
            Some(active) => active.seat,
            None => 0,
        };
        if seat == self.human_seat {
            return;
        }
        let ghost m0 = self@;
        proof {
            assert(m0.table.seats[seat as int].bet is Some);
            assert(m0.roster[seat as int] is Some);
            assert(crate::table::seat_snapshot_of(m0.table.seats[seat as int], snapshot.seats@[seat as int]));
            lemma_committed_bound(m0.table, seat as int, snapshot.seats@[seat as int]);
            assert(crate::table::seat_base(m0.table.seats[seat as int], m0.table.rules));
        }
        let player = match self.roster[seat] {
            Some(p) => p,
            None => AiPlayer {
                archetype: Archetype::ByTheBook,
                bankroll: 0,
                base_bet: 0,
                streak: 0,
                rounds_at_table: 0,
            },
        };
        let bet = match snapshot.seats[seat].bet {
            Some(b) => b,
            None => 0,
        };
        let stake = bet / 2;
        let affordable = committed(&snapshot.seats[seat]) + stake <= player.bankroll;
        proof {
            let sm = m0.table.seats[seat as int];
            let snap = snapshot.seats@[seat as int];
            assert forall|q: int| 0 <= q < sm.hands.len() implies #[trigger] crate::table::hand_snapshot_of(
                sm.hands[q],
                snap.hands@[q],
            ) by {
                assert(crate::table::seat_snapshot_of(sm, snap));
            }
            crate::session::lemma_hands_bet_matches(sm.hands, snap.hands@);
            assert(sm.insurance == Insurance::Pending);
            assert(affordable == insurance_affordable(m0));
        }
        let take = affordable && persona::decide_insurance(player.archetype, &mut self.rng);
        let action = if take {
            Action::TakeInsurance
        } else {
            Action::DeclineInsurance
        };
        let ghost m1 = self@;
        match self.table.apply(seat, action) {
            Ok(transition) => {
                let mut transition = transition;
                events.append(&mut transition.events);
            },
            Err(_) => {
                proof {
                    assert(false);
                }
            },
        }
        proof {
            let m = self@;
            assert(crate::table::bets_kept(m1.table, m.table));
            assert forall|i: int| 0 <= i < m.table.seats.len() && (#[trigger] m.table.seats[i]).bet is Some implies i == m.human_seat || m.roster[i] is Some by {
                assert(m1.table.seats[i].bet is Some);
            }
            let h = m0.human_seat as int;
            assert(crate::table::same_bets(m1.table.seats[h], m.table.seats[h]));
            crate::table::lemma_same_bets_stake(m1.table.seats[h], m.table.seats[h]);
            assert(insurance_choice_ok(m0, take));
        }
    }

    /// The play decision of the active AI seat, if it is one.
    fn step_player_turn(&mut self, events: &mut Vec<Event>)
        requires
            life_wf(old(self)@),
            old(self)@.table.phase == Phase::PlayerTurn,
        ensures
            life_wf(final(self)@),
            beat_keeps(old(self)@, final(self)@),
            final(self)@.rounds_played == old(self)@.rounds_played,
            spec_awaiting(old(self)@) != Awaiting::Engine ==> final(self)@ == old(self)@
                && final(events)@ == old(events)@,
            stake_kept(old(self)@, final(self)@),
            engine_moved(old(self)@.table, final(self)@.table, old(self)@.human_seat),
            spec_awaiting(old(self)@) == Awaiting::Engine ==> final(self)@.roster == old(self)@.roster
                && exists|action: Action, ev: Seq<Event>|
                #[trigger] applied(old(self)@.table, final(self)@.table, active_seat(old(self)@.table), action, ev)
                    && ai_play_ok(old(self)@, action),
    {
        let snapshot = self.table.snapshot();
        let (seat, hand_index) = match snapshot.active {
            Some(active) => (active.seat, active.hand),
            None => (0, 0),
        };
        if seat == self.human_seat {
            return;
        }
        let ghost m0 = self@;
        proof {
            assert(m0.table.seats[seat as int].bet is Some);
            assert(m0.roster[seat as int] is Some);
            assert(crate::table::seat_snapshot_of(m0.table.seats[seat as int], snapshot.seats@[seat as int]));
            lemma_committed_bound(m0.table, seat as int, snapshot.seats@[seat as int]);
        }
        let player = match self.roster[seat] {
            Some(p) => p,
            None => AiPlayer {
                archetype: Archetype::ByTheBook,
                bankroll: 0,
                base_bet: 0,
                streak: 0,
                rounds_at_table: 0,
            },
        };
        let seat_snapshot = &snapshot.seats[seat];
        let hand = &seat_snapshot.hands[hand_index];
        let upcard = match snapshot.dealer.upcard {
            Some(c) => c,
            None => crate::card::Card::new(crate::card::Rank::Two, crate::card::Suit::Clubs),
        };
        // Doubles and splits each cost another hand bet; drop them from
        // the legal set when the player cannot cover it.
        let headroom = player.bankroll.saturating_sub(committed(seat_snapshot));
        let all = &snapshot.legal_actions;
        let ghost src = all@;
        proof {
            assert(src == crate::table::spec_legal(m0.table));
            assert(src[0] == ActionKind::Hit);
            assert(src[1] == ActionKind::Stand);
            let sm = m0.table.seats[seat as int];
            assert forall|q: int| 0 <= q < sm.hands.len() implies #[trigger] crate::table::hand_snapshot_of(
                sm.hands[q],
                seat_snapshot.hands@[q],
            ) by {}
            crate::session::lemma_hands_bet_matches(sm.hands, seat_snapshot.hands@);
            assert(crate::table::hand_snapshot_of(sm.hands[hand_index as int], *hand));
            assert(src.subrange(0, 0) =~= Seq::<ActionKind>::empty());
        }
        let mut legal: Vec<ActionKind> = Vec::new();
        let mut i: usize = 0;
        while i < all.len()
            invariant
                i <= src.len(),
                src == all@,
                src.len() >= 2,
                src[0] == ActionKind::Hit,
                src[1] == ActionKind::Stand,
                forall|j: int| 0 <= j < legal@.len() ==> src.contains(#[trigger] legal@[j]),
                i >= 1 ==> legal@.contains(ActionKind::Hit),
                i >= 2 ==> legal@.contains(ActionKind::Stand),
                legal@ == affordable_kinds(src.subrange(0, i as int), hand.bet, headroom),
            decreases all.len() - i,
        {
            let kind = all[i];
            proof {
                assert(src.subrange(0, i as int + 1).drop_last() =~= src.subrange(0, i as int));
                assert(src.subrange(0, i as int + 1).last() == kind);
            }
            let keep = match kind {
                ActionKind::Double | ActionKind::Split => hand.bet <= headroom,
                _ => true,
            };
            if keep {
                let ghost before = legal@;
                legal.push(kind);
                proof {
                    assert(legal@[legal@.len() - 1] == kind);
                    assert forall|j: int| 0 <= j < legal@.len() implies src.contains(#[trigger] legal@[j]) by {
                        if j < before.len() {
                            assert(legal@[j] == before[j]);
                        } else {
                            assert(src[i as int] == kind);
                        }
                    }
                    if i >= 1 {
                        let w = choose|w: int| 0 <= w < before.len() && before[w] == ActionKind::Hit;
                        assert(legal@[w] == ActionKind::Hit);
                    }
                    if i >= 2 {
                        let w = choose|w: int| 0 <= w < before.len() && before[w] == ActionKind::Stand;
                        assert(legal@[w] == ActionKind::Stand);
                    }
                }
            }
            i = i + 1;
        }
        let action = persona::decide(player.archetype, hand, upcard, legal.as_slice(), &mut self.rng);
        proof {
            assert(src.subrange(0, src.len() as int) =~= src);
            assert(seat == active_seat(m0.table) && hand_index == active_hand(m0.table));
            assert(upcard == m0.table.dealer[0]);
            assert(ai_play_ok(m0, action));
            let k = spec_kind(action);
            assert(legal@.contains(k));
            let w = choose|w: int| 0 <= w < legal@.len() && legal@[w] == k;
            assert(src.contains(legal@[w]));
            crate::table::lemma_legal_actions_are_accepted(m0.table, seat, action);
        }
        let ghost m1 = self@;
        match self.table.apply(seat, action) {
            Ok(transition) => {
                let mut transition = transition;
                events.append(&mut transition.events);
            },
            Err(_) => {
                proof {
                    assert(false);
                }
            },
        }
        proof {
            let m = self@;
            assert(crate::table::bets_kept(m1.table, m.table));
            assert forall|i: int| 0 <= i < m.table.seats.len() && (#[trigger] m.table.seats[i]).bet is Some implies i == m.human_seat || m.roster[i] is Some by {
                assert(m1.table.seats[i].bet is Some);
            }
            let h = m0.human_seat as int;
            match action {
                Action::Double | Action::Split => {
                    assert(crate::table::same_bets(m1.table.seats[h], m.table.seats[h]));
                },
                _ => {
                    assert(crate::table::same_bets(m1.table.seats[h], m.table.seats[h]));
                },
            }
            crate::table::lemma_same_bets_stake(m1.table.seats[h], m.table.seats[h]);
        }
    }
}

/// The step a beat or a human action reports: the table as it now stands,
/// the dealer's pace, and what comes next.
pub open spec fn reports(l: LifeModel, step: Step) -> bool {
    &&& snapshot_of(l.table, step.snapshot)
    &&& step.pace == pace_of(l.persona)
    &&& step.awaiting == spec_awaiting(l)
}

/// Rounds played after one more beat from phase `phase`.
pub open spec fn rounds_after(rounds: u64, phase: Phase) -> u64 {
    if phase == Phase::RoundOver && rounds < u64::MAX {
        (rounds + 1) as u64
    } else {
        rounds
    }
}

impl TableLife {
    fn step(&self, events: Vec<Event>) -> (s: Step)
        requires
            life_wf(self@),
        ensures
            reports(self@, s),
            s.events == events,
    {
        Step {
            events,
            snapshot: self.table.snapshot(),
            pace: self.persona.pace(),
            awaiting: self.awaiting(),
        }
    }

    /// Perform the next piece of non-human work: between rounds, one
    /// housekeeping pass or one AI bet or the deal; during play, one AI
    /// decision; after settlement, the bankroll bookkeeping and the reset
    /// for the next round.
    ///
    /// Each call does at most one beat of work so the UI can animate
    /// between calls using [`Step::pace`]. When the returned
    /// [`Step::awaiting`] is [`Awaiting::Engine`], call again; otherwise
    /// wait for the human. Calling while waiting on the human is harmless
    /// and returns an empty step. The engine never bets for the human
    /// seat.
    pub fn advance(&mut self) -> (s: Step)
        requires
            life_wf(old(self)@),
        ensures
            life_wf(final(self)@),
            beat_keeps(old(self)@, final(self)@),
            reports(final(self)@, s),
            final(self)@.rounds_played == rounds_after(old(self)@.rounds_played, old(self)@.table.phase),
            spec_awaiting(old(self)@) != Awaiting::Engine ==> final(self)@ == old(self)@
                && s.events@.len() == 0,
            stake_kept(old(self)@, final(self)@),
            engine_moved(old(self)@.table, final(self)@.table, old(self)@.human_seat),
            engine_beat(old(self)@, final(self)@),
            old(self)@.table.phase == Phase::RoundOver ==> final(self)@.table.phase == Phase::Betting
                && forall|i: int| 0 <= i < final(self)@.table.seats.len() ==> #[trigger] final(self)@.table.seats[i]
                == crate::table::empty_seat(),
    {
        let mut events: Vec<Event> = Vec::new();
        match self.table.phase() {
            Phase::Betting => self.step_betting(&mut events),
            Phase::InsuranceOffer => self.step_insurance(&mut events),
            Phase::PlayerTurn => self.step_player_turn(&mut events),
            Phase::RoundOver => self.step_round_over(&mut events),
        }
        self.step(events)
    }

    /// Forward `action` from the human seat to the table.
    ///
    /// On success the table advances exactly as [`Table::apply`] would; on
    /// failure the typed error is returned and nothing changes. A
    /// successful bet clears any [`TableLife::human_sit_out`]. The
    /// table-level actions ([`Action::Deal`], [`Action::NextRound`]) are
    /// the orchestrator's job and are redirected through
    /// [`TableLife::advance`].
    pub fn human_apply(&mut self, action: Action) -> (r: Result<Step, ActionError>)
        requires
            life_wf(old(self)@),
        ensures
            life_wf(final(self)@),
            match action {
                Action::Deal | Action::NextRound => r matches Ok(s) && beat_keeps(old(self)@, final(self)@)
                    && stake_kept(old(self)@, final(self)@)
                    && (old(self)@.table.phase == Phase::RoundOver ==> final(self)@.table.phase == Phase::Betting
                    && forall|i: int| 0 <= i < final(self)@.table.seats.len() ==> #[trigger] final(self)@.table.seats[i]
                    == crate::table::empty_seat())
                    && reports(final(self)@, s) && final(self)@.rounds_played == rounds_after(
                    old(self)@.rounds_played,
                    old(self)@.table.phase,
                ),
                _ => match spec_apply_error(old(self)@.table, old(self)@.human_seat, action) {
                    Some(e) => r == Err::<Step, ActionError>(e) && final(self)@ == old(self)@,
                    None => r matches Ok(s) && reports(final(self)@, s) && applied(
                        old(self)@.table,
                        final(self)@.table,
                        old(self)@.human_seat,
                        action,
                        s.events@,
                    ) && final(self)@ == (LifeModel {
                        table: final(self)@.table,
                        sitting_out: if action is PlaceBet {
                            false
                        } else {
                            old(self)@.sitting_out
                        },
                        ..old(self)@
                    }),
                },
            },
    {
        match action {
            Action::Deal | Action::NextRound => {
                return Ok(self.advance());
            },
            _ => {},
        }
        let ghost m0 = self@;
        let transition = match self.table.apply(self.human_seat, action) {
            Ok(t) => t,
            Err(e) => return Err(e),
        };
        let is_bet = match action {
            Action::PlaceBet(_) => true,
            _ => false,
        };
        if is_bet {
            self.human_sitting_out = false;
        }
        proof {
            let m = self@;
            if !is_bet {
                assert(crate::table::bets_kept(m0.table, m.table));
            }
            assert forall|i: int| 0 <= i < m.table.seats.len() && (#[trigger] m.table.seats[i]).bet is Some implies i == m.human_seat || m.roster[i] is Some by {
                if i != m.human_seat {
                    assert(m.table.seats[i].bet == m0.table.seats[i].bet);
                }
            }
        }
        Ok(Step {
            events: transition.events,
            snapshot: transition.snapshot,
            pace: self.persona.pace(),
            awaiting: self.awaiting(),
        })
    }
}
} // verus!
