//! The display state: what the scene currently shows, kept separate
//! from the engine's authoritative snapshot so events can play out one
//! at a time.
//!
//! A [`DisplayState`] holds a synthetic [`Snapshot`] advanced
//! event-by-event: every [`Event`] has a known physical effect (a card
//! joins a hand, a bet appears, the shoe shortens), and applying it
//! patches the display exactly that far. Hand totals are computed with
//! the engine's own [`HandValue`]: the display choreographs but never
//! invents game facts. At the end of every transition the display adopts
//! the authoritative snapshot ([`DisplayState::adopt`]), so it always
//! converges to exactly what the engine reported.
use vstd::prelude::*;
use crate::action::ActionKind;
use crate::card::Card;
use crate::event::{Event, HandOutcome};
use crate::hand::{HandValue, hand_soft, hand_total};
use crate::rules::Rules;
use crate::snapshot::{
    ActiveHand, DealerSnapshot, HandSnapshot, HandStatus, Insurance, Phase, SeatSnapshot,
    ShoeStatus, Snapshot,
};

verus! {

/// A hand as the scene shows it.
#[verifier::ext_equal]
pub struct ShownHand {
    pub cards: Seq<Card>,
    pub bet: u32,
    pub doubled: bool,
    pub from_split: bool,
    pub status: HandStatus,
    pub total: u8,
    pub soft: bool,
    pub outcome: Option<HandOutcome>,
    pub payout: Option<i32>,
}

/// A seat as the scene shows it.
#[verifier::ext_equal]
pub struct ShownSeat {
    pub bet: Option<u32>,
    pub insurance: Insurance,
    pub hands: Seq<ShownHand>,
    pub round_net: Option<i32>,
}

/// The dealer as the scene shows it.
#[verifier::ext_equal]
pub struct ShownDealer {
    pub upcard: Option<Card>,
    pub hole_card: Option<Card>,
    pub hole_card_dealt: bool,
    pub draws: Seq<Card>,
    pub total: Option<u8>,
}

/// A whole snapshot as the scene shows it.
#[verifier::ext_equal]
pub struct Shown {
    pub rules: Rules,
    pub phase: Phase,
    pub seats: Seq<ShownSeat>,
    pub dealer: ShownDealer,
    pub active: Option<ActiveHand>,
    pub shoe: ShoeStatus,
    pub legal: Seq<ActionKind>,
}

pub open spec fn shown_hand(h: HandSnapshot) -> ShownHand {
    ShownHand {
        cards: h.cards@,
        bet: h.bet,
        doubled: h.doubled,
        from_split: h.from_split,
        status: h.status,
        total: h.total,
        soft: h.soft,
        outcome: h.outcome,
        payout: h.payout,
    }
}

pub open spec fn shown_seat(s: SeatSnapshot) -> ShownSeat {
    ShownSeat {
        bet: s.bet,
        insurance: s.insurance,
        hands: s.hands@.map_values(|h: HandSnapshot| shown_hand(h)),
        round_net: s.round_net,
    }
}

pub open spec fn shown_dealer(d: DealerSnapshot) -> ShownDealer {
    ShownDealer {
        upcard: d.upcard,
        hole_card: d.hole_card,
        hole_card_dealt: d.hole_card_dealt,
        draws: d.draws@,
        total: d.total,
    }
}

pub open spec fn shown(s: Snapshot) -> Shown {
    Shown {
        rules: s.rules,
        phase: s.phase,
        seats: s.seats@.map_values(|seat: SeatSnapshot| shown_seat(seat)),
        dealer: shown_dealer(s.dealer),
        active: s.active,
        shoe: s.shoe,
        legal: s.legal_actions@,
    }
}

/// Two snapshots of one table show the same thing: what a snapshot holds
/// is fixed by the table it describes.
pub proof fn lemma_snapshot_determined(m: crate::table::TableModel, a: Snapshot, b: Snapshot)
    requires
        crate::table::snapshot_of(m, a),
        crate::table::snapshot_of(m, b),
    ensures
        shown(a) == shown(b),
{
    assert forall|i: int| 0 <= i < a.seats@.len() implies #[trigger] shown_seat(a.seats@[i]) == shown_seat(b.seats@[i]) by {
        let sa = a.seats@[i];
        let sb = b.seats@[i];
        assert(crate::table::seat_snapshot_of(m.seats[i], sa));
        assert(crate::table::seat_snapshot_of(m.seats[i], sb));
        assert forall|k: int| 0 <= k < sa.hands@.len() implies #[trigger] shown_hand(sa.hands@[k]) == shown_hand(sb.hands@[k]) by {
            assert(crate::table::hand_snapshot_of(m.seats[i].hands[k], sa.hands@[k]));
            assert(crate::table::hand_snapshot_of(m.seats[i].hands[k], sb.hands@[k]));
        }
        assert(sa.hands@.map_values(|h: HandSnapshot| shown_hand(h)) =~= sb.hands@.map_values(|h: HandSnapshot| shown_hand(h)));
    }
    assert(shown(a).seats =~= shown(b).seats);
    assert(shown(a).dealer == shown(b).dealer);
}

/// A hand whose total and softness are recomputed from its cards.
pub open spec fn revalued(h: ShownHand) -> ShownHand {
    ShownHand { total: hand_total(h.cards), soft: hand_soft(h.cards), ..h }
}

/// A fresh, empty hand awaiting its first card.
pub open spec fn fresh_hand(bet: u32) -> ShownHand {
    ShownHand {
        cards: Seq::empty(),
        bet,
        doubled: false,
        from_split: false,
        status: HandStatus::Playing,
        total: 0,
        soft: false,
        outcome: None,
        payout: None,
    }
}

/// The dealer's visible cards once the hole card is face up: upcard,
/// hole card, then the draws.
pub open spec fn dealer_cards(d: ShownDealer, hole: Card) -> Seq<Card> {
    let up = match d.upcard {
        Some(c) => seq![c],
        None => Seq::empty(),
    };
    up.push(hole) + d.draws
}

/// The dealer with its visible total recomputed: known only once the
/// hole card is face up.
pub open spec fn dealer_revalued(d: ShownDealer) -> ShownDealer {
    ShownDealer {
        total: match d.hole_card {
            Some(hole) => Some(hand_total(dealer_cards(d, hole))),
            None => None,
        },
        ..d
    }
}

/// One drawn card's shoe bookkeeping.
pub open spec fn drawn(shoe: ShoeStatus) -> ShoeStatus {
    ShoeStatus {
        cards_dealt: (shoe.cards_dealt + 1) as usize,
        cards_remaining: if shoe.cards_remaining == 0 {
            0
        } else {
            (shoe.cards_remaining - 1) as usize
        },
        ..shoe
    }
}

/// `hands` grown with fresh hands at `bet` until index `hand` exists.
pub open spec fn grown(hands: Seq<ShownHand>, hand: nat, bet: u32) -> Seq<ShownHand> {
    if hand < hands.len() {
        hands
    } else {
        hands + Seq::new((hand + 1 - hands.len()) as nat, |i: int| fresh_hand(bet))
    }
}

/// The index of the first hand still playing, if any.
pub open spec fn first_playing(hands: Seq<ShownHand>) -> Option<nat> {
    if exists|i: int| 0 <= i < hands.len() && hands[i].status == HandStatus::Playing {
        let i = choose|i: int|
            0 <= i < hands.len() && hands[i].status == HandStatus::Playing && forall|j: int|
                0 <= j < i ==> hands[j].status != HandStatus::Playing;
        Some(i as nat)
    } else {
        None
    }
}

/// Whether an event can be applied to the display: the seats and hands
/// it names exist and the counters it moves stay in range.
pub open spec fn fits(d: Shown, net: Seq<i32>, e: Event) -> bool {
    let seats = d.seats;
    match e {
        Event::BetPlaced { seat, .. } => seat < seats.len(),
        Event::ShoeShuffled => d.shoe.cards_remaining + d.shoe.discard_pile_size <= usize::MAX,
        Event::CardBurned => d.shoe.cards_dealt < usize::MAX && d.shoe.discard_pile_size
            < usize::MAX,
        Event::CardDealt { seat, hand, .. } => seat < seats.len() && hand < usize::MAX
            && d.shoe.cards_dealt < usize::MAX,
        Event::DealerCardDealt { .. } => d.shoe.cards_dealt < usize::MAX,
        Event::HoleCardDealt => d.shoe.cards_dealt < usize::MAX,
        Event::PlayerBlackjack { seat } => seat < seats.len(),
        Event::InsuranceTaken { seat, .. } => seat < seats.len(),
        Event::InsuranceDeclined { seat } => seat < seats.len(),
        Event::InsuranceResolved { seat, .. } => seat < seats.len(),
        Event::HandSplit { seat, hand } => seat < seats.len() && hand < seats[seat as int].hands.len(),
        Event::DoubledDown { seat, hand, .. } => seat < seats.len() && hand < seats[seat as int].hands.len(),
        Event::PlayerStood { seat, hand, .. } => seat < seats.len() && hand < seats[seat as int].hands.len(),
        Event::HandBusted { seat, hand, .. } => seat < seats.len() && hand < seats[seat as int].hands.len(),
        Event::PlayerSurrendered { seat } => seat < seats.len(),
        Event::HandSettled { seat, hand, amount, .. } => seat < seats.len() && hand
            < seats[seat as int].hands.len() && {
            let base = match seats[seat as int].round_net {
                Some(n) => n as int,
                None => resized(net, seats.len())[seat as int] as int,
            };
            i32::MIN <= base + amount <= i32::MAX
        },
        _ => true,
    }
}

/// The insurance side ledger sized to `n` seats: `Vec::resize` with
/// zeros.
pub open spec fn resized(net: Seq<i32>, n: nat) -> Seq<i32> {
    if net.len() >= n {
        net.subrange(0, n as int)
    } else {
        net + Seq::new((n - net.len()) as nat, |i: int| 0i32)
    }
}

/// `seats` with the seat at `i` replaced.
pub open spec fn with_seat(d: Shown, i: int, seat: ShownSeat) -> Shown {
    Shown { seats: d.seats.update(i, seat), ..d }
}

/// `d` with hand `h` of seat `i` replaced.
pub open spec fn with_hand(d: Shown, i: int, h: int, hand: ShownHand) -> Shown {
    with_seat(d, i, ShownSeat { hands: d.seats[i].hands.update(h, hand), ..d.seats[i] })
}

/// A hand split at `h`: the original keeps its first card, the second
/// card starts a new hand right after it at the same bet, and both are
/// marked as split hands.
pub open spec fn split_hands(hands: Seq<ShownHand>, h: int) -> Seq<ShownHand> {
    let original = hands[h];
    let cards = original.cards;
    let (kept, moved) = if cards.len() > 0 {
        (cards.drop_last(), seq![cards.last()])
    } else {
        (cards, Seq::<Card>::empty())
    };
    let first = revalued(ShownHand { cards: kept, from_split: true, ..original });
    let second = revalued(ShownHand { cards: moved, from_split: true, ..fresh_hand(original.bet) });
    hands.update(h, first).insert(h + 1, second)
}

/// A seat once insurance is offered: pending if it has a bet.
pub open spec fn offered(s: ShownSeat) -> ShownSeat {
    if s.bet is Some {
        ShownSeat { insurance: Insurance::Pending, ..s }
    } else {
        s
    }
}

/// The display after one event's physical effect, with the insurance
/// side ledger (one entry per seat).
pub open spec fn spec_apply(d: Shown, net: Seq<i32>, e: Event) -> (Shown, Seq<i32>) {
    match e {
        Event::BetPlaced { seat, amount } => (
            with_seat(d, seat as int, ShownSeat { bet: Some(amount), ..d.seats[seat as int] }),
            net,
        ),
        Event::ShoeShuffled => (
            Shown {
                shoe: ShoeStatus {
                    cards_remaining: (d.shoe.cards_remaining + d.shoe.discard_pile_size) as usize,
                    cards_dealt: if d.shoe.cards_dealt >= d.shoe.discard_pile_size {
                        (d.shoe.cards_dealt - d.shoe.discard_pile_size) as usize
                    } else {
                        0
                    },
                    discard_pile_size: 0,
                    cut_card_reached: false,
                },
                ..d
            },
            net,
        ),
        Event::CardBurned => (
            Shown {
                shoe: ShoeStatus {
                    discard_pile_size: (d.shoe.discard_pile_size + 1) as usize,
                    ..drawn(d.shoe)
                },
                ..d
            },
            net,
        ),
        Event::CardDealt { seat, hand, card } => {
            let s = d.seats[seat as int];
            let bet = match s.bet {
                Some(b) => b,
                None => 0,
            };
            let hands = grown(s.hands, hand as nat, bet);
            let dealt = revalued(ShownHand { cards: hands[hand as int].cards.push(card), ..hands[hand as int] });
            (
                Shown {
                    shoe: drawn(d.shoe),
                    seats: d.seats.update(
                        seat as int,
                        ShownSeat { hands: hands.update(hand as int, dealt), ..s },
                    ),
                    ..d
                },
                net,
            )
        },
        Event::DealerCardDealt { card } => {
            let dealer = if d.dealer.upcard is None {
                ShownDealer { upcard: Some(card), ..d.dealer }
            } else {
                ShownDealer { draws: d.dealer.draws.push(card), ..d.dealer }
            };
            (Shown { shoe: drawn(d.shoe), dealer: dealer_revalued(dealer), ..d }, net)
        },
        Event::HoleCardDealt => (
            Shown {
                shoe: drawn(d.shoe),
                dealer: ShownDealer { hole_card_dealt: true, ..d.dealer },
                ..d
            },
            net,
        ),
        Event::HoleCardRevealed { card } => (
            Shown {
                dealer: dealer_revalued(
                    ShownDealer { hole_card: Some(card), hole_card_dealt: true, ..d.dealer },
                ),
                ..d
            },
            net,
        ),
        Event::PlayerBlackjack { seat } => if d.seats[seat as int].hands.len() > 0 {
            (
                with_hand(
                    d,
                    seat as int,
                    0,
                    ShownHand { status: HandStatus::Blackjack, ..d.seats[seat as int].hands[0] },
                ),
                net,
            )
        } else {
            (d, net)
        },
        Event::InsuranceOffered => (
            Shown {
                seats: d.seats.map_values(|s: ShownSeat| offered(s)),
                phase: Phase::InsuranceOffer,
                ..d
            },
            net,
        ),
        Event::InsuranceTaken { seat, amount } => (
            with_seat(
                d,
                seat as int,
                ShownSeat { insurance: Insurance::Taken { amount }, ..d.seats[seat as int] },
            ),
            net,
        ),
        Event::InsuranceDeclined { seat } => (
            with_seat(
                d,
                seat as int,
                ShownSeat { insurance: Insurance::Declined, ..d.seats[seat as int] },
            ),
            net,
        ),
        Event::InsuranceResolved { seat, amount } => (d, net.update(seat as int, amount)),
        Event::HandSplit { seat, hand } => (
            with_seat(
                d,
                seat as int,
                ShownSeat {
                    hands: split_hands(d.seats[seat as int].hands, hand as int),
                    ..d.seats[seat as int]
                },
            ),
            net,
        ),
        Event::DoubledDown { seat, hand, bet } => (
            with_hand(
                d,
                seat as int,
                hand as int,
                ShownHand { bet, doubled: true, ..d.seats[seat as int].hands[hand as int] },
            ),
            net,
        ),
        Event::PlayerStood { seat, hand, .. } => (
            with_hand(
                d,
                seat as int,
                hand as int,
                ShownHand { status: HandStatus::Stood, ..d.seats[seat as int].hands[hand as int] },
            ),
            net,
        ),
        Event::HandBusted { seat, hand, .. } => (
            with_hand(
                d,
                seat as int,
                hand as int,
                ShownHand { status: HandStatus::Bust, ..d.seats[seat as int].hands[hand as int] },
            ),
            net,
        ),
        Event::PlayerSurrendered { seat } => match first_playing(d.seats[seat as int].hands) {
            Some(h) => (
                with_hand(
                    d,
                    seat as int,
                    h as int,
                    ShownHand {
                        status: HandStatus::Surrendered,
                        ..d.seats[seat as int].hands[h as int]
                    },
                ),
                net,
            ),
            None => (d, net),
        },
        Event::DealerStood { total } => (
            Shown { dealer: ShownDealer { total: Some(total), ..d.dealer }, ..d },
            net,
        ),
        Event::DealerBust { total } => (
            Shown { dealer: ShownDealer { total: Some(total), ..d.dealer }, ..d },
            net,
        ),
        Event::HandSettled { seat, hand, outcome, amount } => {
            let s = d.seats[seat as int];
            let base = match s.round_net {
                Some(n) => n as int,
                None => net[seat as int] as int,
            };
            let settled = ShownHand {
                outcome: Some(outcome),
                payout: Some(amount),
                ..s.hands[hand as int]
            };
            (
                Shown {
                    seats: d.seats.update(
                        seat as int,
                        ShownSeat {
                            hands: s.hands.update(hand as int, settled),
                            round_net: Some((base + amount) as i32),
                            ..s
                        },
                    ),
                    phase: Phase::RoundOver,
                    active: None,
                    ..d
                },
                net,
            )
        },
        Event::CutCardReached => (
            Shown { shoe: ShoeStatus { cut_card_reached: true, ..d.shoe }, ..d },
            net,
        ),
        _ => (d, net),
    }
}

/// A fresh, empty hand awaiting its first card.
fn empty_hand(bet: u32) -> (h: HandSnapshot)
    ensures
        shown_hand(h) == fresh_hand(bet),
{
    HandSnapshot {
        cards: Vec::new(),
        bet,
        doubled: false,
        from_split: false,
        status: HandStatus::Playing,
        total: 0,
        soft: false,
        outcome: None,
        payout: None,
    }
}

/// Recompute a hand's total with the engine's own evaluator.
fn refresh_value(hand: &mut HandSnapshot)
    ensures
        shown_hand(*final(hand)) == revalued(shown_hand(*old(hand))),
{
    let value = HandValue::of(hand.cards.as_slice());
    hand.total = value.total();
    hand.soft = value.is_soft();
}

/// Recompute the dealer's visible total: known only once the hole card
/// is face up, exactly as the engine reports it.
fn refresh_dealer_total(dealer: &mut DealerSnapshot)
    ensures
        shown_dealer(*final(dealer)) == dealer_revalued(shown_dealer(*old(dealer))),
{
    match dealer.hole_card {
        Some(hole) => {
            let mut cards: Vec<Card> = Vec::new();
            match dealer.upcard {
                Some(up) => cards.push(up),
                None => {},
            }
            cards.push(hole);
            let mut i: usize = 0;
            let ghost start = cards@;
            while i < dealer.draws.len()
                invariant
                    i <= dealer.draws@.len(),
                    cards@ == start + dealer.draws@.subrange(0, i as int),
                decreases dealer.draws@.len() - i,
            {
                cards.push(dealer.draws[i]);
                i = i + 1;
                proof {
                    assert(cards@ =~= start + dealer.draws@.subrange(0, i as int));
                }
            }
            proof {
                assert(dealer.draws@.subrange(0, dealer.draws@.len() as int) =~= dealer.draws@);
                assert(cards@ =~= dealer_cards(shown_dealer(*dealer), hole));
            }
            dealer.total = Some(HandValue::of(cards.as_slice()).total());
        },
        None => {
            dealer.total = None;
        },
    }
}

/// One drawn card's shoe bookkeeping.
fn draw_from_shoe(shoe: &mut ShoeStatus)
    requires
        old(shoe).cards_dealt < usize::MAX,
    ensures
        *final(shoe) == drawn(*old(shoe)),
{
    shoe.cards_dealt = shoe.cards_dealt + 1;
    shoe.cards_remaining = shoe.cards_remaining.saturating_sub(1);
}

proof fn lemma_map_update<A, B>(s: Seq<A>, i: int, x: A, f: spec_fn(A) -> B)
    requires
        0 <= i < s.len(),
    ensures
        s.update(i, x).map_values(f) == s.map_values(f).update(i, f(x)),
{
    assert(s.update(i, x).map_values(f) =~= s.map_values(f).update(i, f(x)));
}


proof fn lemma_seat_update(olds: Seq<SeatSnapshot>, news: Seq<SeatSnapshot>, i: int)
    requires
        0 <= i < olds.len(),
        news.len() == olds.len(),
        forall|j: int| 0 <= j < olds.len() && j != i ==> news[j] == olds[j],
    ensures
        news.map_values(|x: SeatSnapshot| shown_seat(x)) == olds.map_values(
            |x: SeatSnapshot| shown_seat(x),
        ).update(i, shown_seat(news[i])),
{
    assert(news =~= olds.update(i, news[i]));
    lemma_map_update(olds, i, news[i], |x: SeatSnapshot| shown_seat(x));
}

proof fn lemma_hand_update(olds: Seq<HandSnapshot>, news: Seq<HandSnapshot>, i: int)
    requires
        0 <= i < olds.len(),
        news.len() == olds.len(),
        forall|j: int| 0 <= j < olds.len() && j != i ==> news[j] == olds[j],
    ensures
        news.map_values(|x: HandSnapshot| shown_hand(x)) == olds.map_values(
            |x: HandSnapshot| shown_hand(x),
        ).update(i, shown_hand(news[i])),
{
    assert(news =~= olds.update(i, news[i]));
    lemma_map_update(olds, i, news[i], |x: HandSnapshot| shown_hand(x));
}

/// Set one hand's status in place.
fn set_hand_status(snapshot: &mut Snapshot, seat: usize, hand: usize, status: HandStatus)
    requires
        seat < old(snapshot).seats@.len(),
        hand < old(snapshot).seats@[seat as int].hands@.len(),
    ensures
        shown(*final(snapshot)) == with_hand(
            shown(*old(snapshot)),
            seat as int,
            hand as int,
            ShownHand { status, ..shown(*old(snapshot)).seats[seat as int].hands[hand as int] },
        ),
{
    let ghost old_seat = snapshot.seats@[seat as int];
    snapshot.seats[seat].hands[hand].status = status;
    proof {
        let new_seat = snapshot.seats@[seat as int];
        lemma_hand_update(old_seat.hands@, new_seat.hands@, hand as int);
        lemma_seat_update(old(snapshot).seats@, snapshot.seats@, seat as int);
        assert(shown(*snapshot) =~= with_hand(
            shown(*old(snapshot)),
            seat as int,
            hand as int,
            ShownHand { status, ..shown(*old(snapshot)).seats[seat as int].hands[hand as int] },
        ));
    }
}

/// Set one seat's insurance position in place.
fn set_insurance(snapshot: &mut Snapshot, seat: usize, insurance: Insurance)
    requires
        seat < old(snapshot).seats@.len(),
    ensures
        shown(*final(snapshot)) == with_seat(
            shown(*old(snapshot)),
            seat as int,
            ShownSeat { insurance, ..shown(*old(snapshot)).seats[seat as int] },
        ),
{
    snapshot.seats[seat].insurance = insurance;
    proof {
        lemma_seat_update(old(snapshot).seats@, snapshot.seats@, seat as int);
        assert(shown(*snapshot) =~= with_seat(
            shown(*old(snapshot)),
            seat as int,
            ShownSeat { insurance, ..shown(*old(snapshot)).seats[seat as int] },
        ));
    }
}

fn on_bet_placed(snapshot: &mut Snapshot, seat: usize, amount: u32)
    requires
        seat < old(snapshot).seats@.len(),
    ensures
        shown(*final(snapshot)) == spec_apply(shown(*old(snapshot)), Seq::empty(), Event::BetPlaced { seat, amount }).0,
{
    snapshot.seats[seat].bet = Some(amount);
    proof {
        lemma_seat_update(old(snapshot).seats@, snapshot.seats@, seat as int);
        assert(shown(*snapshot) =~= spec_apply(shown(*old(snapshot)), Seq::empty(), Event::BetPlaced { seat, amount }).0);
    }
}

fn on_card_dealt(snapshot: &mut Snapshot, seat: usize, hand: usize, card: Card)
    requires
        seat < old(snapshot).seats@.len(),
        hand < usize::MAX,
        old(snapshot).shoe.cards_dealt < usize::MAX,
    ensures
        shown(*final(snapshot)) == spec_apply(shown(*old(snapshot)), Seq::empty(), Event::CardDealt { seat, hand, card }).0,
{
    let ghost d = shown(*snapshot);
    draw_from_shoe(&mut snapshot.shoe);
    let bet = match snapshot.seats[seat].bet {
        Some(b) => b,
        None => 0,
    };
    let ghost s0 = d.seats[seat as int];
    let ghost old_len = s0.hands.len();
    let ghost before = *snapshot;
    while snapshot.seats[seat].hands.len() <= hand
        invariant
            seat < snapshot.seats@.len(),
            hand < usize::MAX,
            snapshot.seats@.len() == before.seats@.len(),
            forall|j: int| 0 <= j < snapshot.seats@.len() && j != seat ==> snapshot.seats@[j] == before.seats@[j],
            snapshot.shoe == before.shoe,
            snapshot.rules == before.rules,
            snapshot.phase == before.phase,
            snapshot.dealer == before.dealer,
            snapshot.active == before.active,
            snapshot.legal_actions == before.legal_actions,
            snapshot.seats@[seat as int].bet == before.seats@[seat as int].bet,
            snapshot.seats@[seat as int].insurance == before.seats@[seat as int].insurance,
            snapshot.seats@[seat as int].round_net == before.seats@[seat as int].round_net,
            old_len == before.seats@[seat as int].hands@.len(),
            old_len <= snapshot.seats@[seat as int].hands@.len(),
            snapshot.seats@[seat as int].hands@.len() <= if old_len <= hand { hand + 1 } else { old_len as int },
            shown_seat(snapshot.seats@[seat as int]).hands =~= shown_seat(before.seats@[seat as int]).hands
                + Seq::new((snapshot.seats@[seat as int].hands@.len() - old_len) as nat, |i: int| fresh_hand(bet)),
            bet == match before.seats@[seat as int].bet { Some(b) => b, None => 0u32 },
        decreases hand + 1 - snapshot.seats@[seat as int].hands@.len(),
    {
        let ghost prev = snapshot.seats@[seat as int];
        snapshot.seats[seat].hands.push(empty_hand(bet));
        proof {
            let cur = snapshot.seats@[seat as int];
            assert(cur.hands@ == prev.hands@.push(cur.hands@.last()));
            assert(shown_seat(cur).hands =~= shown_seat(prev).hands.push(fresh_hand(bet)));
        }
    }
    let ghost grown_seat = snapshot.seats@[seat as int];
    proof {
        assert(shown_seat(grown_seat).hands =~= grown(s0.hands, hand as nat, bet));
    }
    snapshot.seats[seat].hands[hand].cards.push(card);
    refresh_value(&mut snapshot.seats[seat].hands[hand]);
    proof {
        let new_seat = snapshot.seats@[seat as int];
        lemma_hand_update(grown_seat.hands@, new_seat.hands@, hand as int);
        assert(snapshot.seats@ =~= before.seats@.update(seat as int, new_seat));
        lemma_seat_update(before.seats@, snapshot.seats@, seat as int);
        assert(shown(*snapshot) =~= spec_apply(d, Seq::empty(), Event::CardDealt { seat, hand, card }).0);
    }
}

fn on_dealer_card(snapshot: &mut Snapshot, card: Card)
    requires
        old(snapshot).shoe.cards_dealt < usize::MAX,
    ensures
        shown(*final(snapshot)) == spec_apply(shown(*old(snapshot)), Seq::empty(), Event::DealerCardDealt { card }).0,
{
    draw_from_shoe(&mut snapshot.shoe);
    if snapshot.dealer.upcard.is_none() {
        snapshot.dealer.upcard = Some(card);
    } else {
        snapshot.dealer.draws.push(card);
    }
    refresh_dealer_total(&mut snapshot.dealer);
    proof {
        assert(shown(*snapshot) =~= spec_apply(shown(*old(snapshot)), Seq::empty(), Event::DealerCardDealt { card }).0);
    }
}

fn on_insurance_offered(snapshot: &mut Snapshot)
    ensures
        shown(*final(snapshot)) == spec_apply(shown(*old(snapshot)), Seq::empty(), Event::InsuranceOffered).0,
{
    let ghost d = shown(*snapshot);
    let mut i: usize = 0;
    while i < snapshot.seats.len()
        invariant
            i <= snapshot.seats@.len(),
            snapshot.seats@.len() == old(snapshot).seats@.len(),
            snapshot.shoe == old(snapshot).shoe,
            snapshot.rules == old(snapshot).rules,
            snapshot.phase == old(snapshot).phase,
            snapshot.dealer == old(snapshot).dealer,
            snapshot.active == old(snapshot).active,
            snapshot.legal_actions == old(snapshot).legal_actions,
            d == shown(*old(snapshot)),
            forall|j: int| 0 <= j < i ==> #[trigger] shown_seat(snapshot.seats@[j]) == offered(d.seats[j]),
            forall|j: int| i <= j < snapshot.seats@.len() ==> #[trigger] snapshot.seats@[j] == old(snapshot).seats@[j],
        decreases snapshot.seats@.len() - i,
    {
        let ghost prev = snapshot.seats@;
        proof {
            assert(d.seats[i as int] == shown_seat(prev[i as int]));
        }
        if snapshot.seats[i].bet.is_some() {
            snapshot.seats[i].insurance = Insurance::Pending;
            proof {
                assert(shown_seat(snapshot.seats@[i as int]).hands =~= shown_seat(prev[i as int]).hands);
                assert(shown_seat(snapshot.seats@[i as int]) =~= offered(d.seats[i as int]));
            }
        }
        proof {
            assert(shown_seat(snapshot.seats@[i as int]) == offered(d.seats[i as int]));
        }
        i = i + 1;
    }
    snapshot.phase = Phase::InsuranceOffer;
    proof {
        assert(shown(*snapshot).seats =~= d.seats.map_values(|s: ShownSeat| offered(s)));
        assert(shown(*snapshot) =~= spec_apply(d, Seq::empty(), Event::InsuranceOffered).0);
    }
}

fn on_hand_split(snapshot: &mut Snapshot, seat: usize, hand: usize)
    requires
        seat < old(snapshot).seats@.len(),
        hand < old(snapshot).seats@[seat as int].hands@.len(),
    ensures
        shown(*final(snapshot)) == spec_apply(shown(*old(snapshot)), Seq::empty(), Event::HandSplit { seat, hand }).0,
{
    let ghost d = shown(*snapshot);
    let ghost old_seat = snapshot.seats@[seat as int];
    let ghost orig = shown_hand(old_seat.hands@[hand as int]);
    let second = snapshot.seats[seat].hands[hand].cards.pop();
    snapshot.seats[seat].hands[hand].from_split = true;
    refresh_value(&mut snapshot.seats[seat].hands[hand]);
    let bet = snapshot.seats[seat].hands[hand].bet;
    let mut new_hand = empty_hand(bet);
    new_hand.from_split = true;
    match second {
        Some(c) => new_hand.cards.push(c),
        None => {},
    }
    refresh_value(&mut new_hand);
    let ghost mid_seat = snapshot.seats@[seat as int];
    proof {
        lemma_hand_update(old_seat.hands@, mid_seat.hands@, hand as int);
    }
    let n = snapshot.seats[seat].hands.len();
    snapshot.seats[seat].hands.insert(hand + 1, new_hand);
    proof {
        let new_seat = snapshot.seats@[seat as int];
        let cards = orig.cards;
        if cards.len() > 0 {
            assert(shown_hand(mid_seat.hands@[hand as int]).cards =~= cards.drop_last());
        }
        assert(shown_hand(new_hand) =~= revalued(ShownHand {
            cards: if cards.len() > 0 { seq![cards.last()] } else { Seq::<Card>::empty() },
            from_split: true,
            ..fresh_hand(orig.bet)
        }));
        assert(shown_seat(new_seat).hands =~= split_hands(d.seats[seat as int].hands, hand as int));
        lemma_seat_update(old(snapshot).seats@, snapshot.seats@, seat as int);
        assert(shown(*snapshot) =~= spec_apply(d, Seq::empty(), Event::HandSplit { seat, hand }).0);
    }
}

fn on_doubled(snapshot: &mut Snapshot, seat: usize, hand: usize, bet: u32)
    requires
        seat < old(snapshot).seats@.len(),
        hand < old(snapshot).seats@[seat as int].hands@.len(),
    ensures
        shown(*final(snapshot)) == spec_apply(shown(*old(snapshot)), Seq::empty(), Event::DoubledDown { seat, hand, bet }).0,
{
    let ghost old_seat = snapshot.seats@[seat as int];
    snapshot.seats[seat].hands[hand].bet = bet;
    snapshot.seats[seat].hands[hand].doubled = true;
    proof {
        let new_seat = snapshot.seats@[seat as int];
        lemma_hand_update(old_seat.hands@, new_seat.hands@, hand as int);
        lemma_seat_update(old(snapshot).seats@, snapshot.seats@, seat as int);
        assert(shown(*snapshot) =~= spec_apply(shown(*old(snapshot)), Seq::empty(), Event::DoubledDown { seat, hand, bet }).0);
    }
}

proof fn lemma_first_playing_at(hands: Seq<ShownHand>, i: int)
    requires
        0 <= i < hands.len(),
        hands[i].status == HandStatus::Playing,
        forall|j: int| 0 <= j < i ==> hands[j].status != HandStatus::Playing,
    ensures
        first_playing(hands) == Some(i as nat),
{
    let c = choose|c: int|
        0 <= c < hands.len() && hands[c].status == HandStatus::Playing && forall|j: int|
            0 <= j < c ==> hands[j].status != HandStatus::Playing;
    assert(0 <= c < hands.len() && hands[c].status == HandStatus::Playing && forall|j: int|
        0 <= j < c ==> hands[j].status != HandStatus::Playing);
    if c < i {
        assert(hands[c].status != HandStatus::Playing);
    } else if c > i {
        assert(hands[i].status != HandStatus::Playing);
    }
}

fn on_surrendered(snapshot: &mut Snapshot, seat: usize)
    requires
        seat < old(snapshot).seats@.len(),
    ensures
        shown(*final(snapshot)) == spec_apply(shown(*old(snapshot)), Seq::empty(), Event::PlayerSurrendered { seat }).0,
{
    let ghost d = shown(*snapshot);
    let ghost hands = d.seats[seat as int].hands;
    let n = snapshot.seats[seat].hands.len();
    let mut i: usize = 0;
    while i < n
        invariant
            seat < snapshot.seats@.len(),
            *snapshot == *old(snapshot),
            d == shown(*old(snapshot)),
            hands == d.seats[seat as int].hands,
            n == hands.len(),
            n == snapshot.seats@[seat as int].hands@.len(),
            i <= n,
            forall|j: int| 0 <= j < i ==> hands[j].status != HandStatus::Playing,
        decreases n - i,
    {
        proof {
            assert(hands[i as int] == shown_hand(snapshot.seats@[seat as int].hands@[i as int]));
        }
        if snapshot.seats[seat].hands[i].status == HandStatus::Playing {
            proof {
                lemma_first_playing_at(hands, i as int);
            }
            set_hand_status(snapshot, seat, i, HandStatus::Surrendered);
            return;
        }
        i = i + 1;
    }
}

fn on_hand_settled(snapshot: &mut Snapshot, net: &Vec<i32>, seat: usize, hand: usize, outcome: HandOutcome, amount: i32)
    requires
        net@.len() == old(snapshot).seats@.len(),
        fits(shown(*old(snapshot)), net@, Event::HandSettled { seat, hand, outcome, amount }),
    ensures
        shown(*final(snapshot)) == spec_apply(shown(*old(snapshot)), net@, Event::HandSettled { seat, hand, outcome, amount }).0,
{
    let ghost d = shown(*snapshot);
    proof {
        assert(resized(net@, d.seats.len()) =~= net@);
    }
    let base = match snapshot.seats[seat].round_net {
        Some(n) => n,
        None => net[seat],
    };
    let ghost old_seat = snapshot.seats@[seat as int];
    snapshot.seats[seat].hands[hand].outcome = Some(outcome);
    snapshot.seats[seat].hands[hand].payout = Some(amount);
    snapshot.seats[seat].round_net = Some(base + amount);
    snapshot.phase = Phase::RoundOver;
    snapshot.active = None;
    proof {
        let new_seat = snapshot.seats@[seat as int];
        lemma_hand_update(old_seat.hands@, new_seat.hands@, hand as int);
        lemma_seat_update(old(snapshot).seats@, snapshot.seats@, seat as int);
        assert(shown(*snapshot) =~= spec_apply(d, net@, Event::HandSettled { seat, hand, outcome, amount }).0);
    }
}

/// Apply one event to a display snapshot and its insurance ledger.
fn apply_to(snapshot: &mut Snapshot, net: &mut Vec<i32>, event: Event)
    requires
        old(net)@.len() == old(snapshot).seats@.len(),
        fits(shown(*old(snapshot)), old(net)@, event),
    ensures
        shown(*final(snapshot)) == spec_apply(shown(*old(snapshot)), old(net)@, event).0,
        final(net)@ == spec_apply(shown(*old(snapshot)), old(net)@, event).1,
{
    let ghost d = shown(*snapshot);
    proof {
        assert(resized(net@, d.seats.len()) =~= net@);
    }
    match event {
        Event::BetPlaced { seat, amount } => on_bet_placed(snapshot, seat, amount),
        Event::ShoeShuffled => {
            snapshot.shoe.cards_remaining = snapshot.shoe.cards_remaining + snapshot.shoe.discard_pile_size;
            snapshot.shoe.cards_dealt = snapshot.shoe.cards_dealt.saturating_sub(snapshot.shoe.discard_pile_size);
            snapshot.shoe.discard_pile_size = 0;
            snapshot.shoe.cut_card_reached = false;
            proof {
                assert(shown(*snapshot) =~= spec_apply(d, net@, event).0);
            }
        },
        Event::CardBurned => {
            draw_from_shoe(&mut snapshot.shoe);
            snapshot.shoe.discard_pile_size = snapshot.shoe.discard_pile_size + 1;
            proof {
                assert(shown(*snapshot) =~= spec_apply(d, net@, event).0);
            }
        },
        Event::CardDealt { seat, hand, card } => on_card_dealt(snapshot, seat, hand, card),
        Event::DealerCardDealt { card } => on_dealer_card(snapshot, card),
        Event::HoleCardDealt => {
            draw_from_shoe(&mut snapshot.shoe);
            snapshot.dealer.hole_card_dealt = true;
            proof {
                assert(shown(*snapshot) =~= spec_apply(d, net@, event).0);
            }
        },
        Event::HoleCardRevealed { card } => {
            snapshot.dealer.hole_card = Some(card);
            snapshot.dealer.hole_card_dealt = true;
            refresh_dealer_total(&mut snapshot.dealer);
            proof {
                assert(shown(*snapshot) =~= spec_apply(d, net@, event).0);
            }
        },
        Event::PlayerBlackjack { seat } => {
            if snapshot.seats[seat].hands.len() > 0 {
                set_hand_status(snapshot, seat, 0, HandStatus::Blackjack);
            }
        },
        Event::InsuranceOffered => on_insurance_offered(snapshot),
        Event::InsuranceTaken { seat, amount } => set_insurance(
            snapshot,
            seat,
            Insurance::Taken { amount },
        ),
        Event::InsuranceDeclined { seat } => set_insurance(snapshot, seat, Insurance::Declined),
        Event::InsuranceResolved { seat, amount } => {
            net.set(seat, amount);
        },
        Event::DealerPeeked { .. } => {},
        Event::HandSplit { seat, hand } => on_hand_split(snapshot, seat, hand),
        Event::DoubledDown { seat, hand, bet } => on_doubled(snapshot, seat, hand, bet),
        Event::PlayerStood { seat, hand, .. } => set_hand_status(
            snapshot,
            seat,
            hand,
            HandStatus::Stood,
        ),
        Event::HandBusted { seat, hand, .. } => set_hand_status(
            snapshot,
            seat,
            hand,
            HandStatus::Bust,
        ),
        Event::PlayerSurrendered { seat } => on_surrendered(snapshot, seat),
        Event::DealerStood { total } => {
            snapshot.dealer.total = Some(total);
            proof {
                assert(shown(*snapshot) =~= spec_apply(d, net@, event).0);
            }
        },
        Event::DealerBust { total } => {
            snapshot.dealer.total = Some(total);
            proof {
                assert(shown(*snapshot) =~= spec_apply(d, net@, event).0);
            }
        },
        Event::HandSettled { seat, hand, outcome, amount } => on_hand_settled(
            snapshot,
            net,
            seat,
            hand,
            outcome,
            amount,
        ),
        Event::CutCardReached => {
            snapshot.shoe.cut_card_reached = true;
            proof {
                assert(shown(*snapshot) =~= spec_apply(d, net@, event).0);
            }
        },
        Event::PlayerArrived { .. } | Event::PlayerDeparted { .. } | Event::DealerChanged => {},
    }
}

/// The cards in a run of hands.
pub open spec fn hand_cards(hands: Seq<ShownHand>) -> int
    decreases hands.len(),
{
    if hands.len() == 0 {
        0
    } else {
        hand_cards(hands.drop_last()) + hands.last().cards.len()
    }
}

/// The cards in front of a run of seats.
pub open spec fn seat_cards(seats: Seq<ShownSeat>) -> int
    decreases seats.len(),
{
    if seats.len() == 0 {
        0
    } else {
        seat_cards(seats.drop_last()) + hand_cards(seats.last().hands)
    }
}

/// Every card on the felt: the dealer's (a face-down hole card counts)
/// and every seat's.
pub open spec fn felt_cards(d: Shown) -> int {
    (if d.dealer.upcard is Some { 1int } else { 0 }) + (if d.dealer.hole_card is Some
        || d.dealer.hole_card_dealt {
        1int
    } else {
        0
    }) + d.dealer.draws.len() + seat_cards(d.seats)
}

/// A seat swept clean.
pub open spec fn swept(s: ShownSeat) -> ShownSeat {
    ShownSeat { bet: None, insurance: Insurance::NotOffered, hands: Seq::empty(), round_net: None }
}

/// The felt swept: every card to the discard tray, every seat back to
/// empty, the dealer's hand cleared, betting open.
pub open spec fn spec_clear(d: Shown) -> Shown {
    Shown {
        shoe: ShoeStatus {
            discard_pile_size: (d.shoe.discard_pile_size + felt_cards(d)) as usize,
            ..d.shoe
        },
        seats: d.seats.map_values(|s: ShownSeat| swept(s)),
        dealer: ShownDealer {
            upcard: None,
            hole_card: None,
            hole_card_dealt: false,
            draws: Seq::empty(),
            total: None,
        },
        phase: Phase::Betting,
        active: None,
        ..d
    }
}

/// Whether the display still shows a settled round that `target` has
/// already cleared: cards on this felt, none on that one.
pub open spec fn spec_needs_clear(d: Shown, target: Shown) -> bool {
    (exists|i: int| 0 <= i < d.seats.len() && d.seats[i].hands.len() > 0 || d.dealer.upcard is Some)
        && (forall|i: int| 0 <= i < target.seats.len() ==> target.seats[i].hands.len() == 0)
        && target.dealer.upcard is None
}

proof fn lemma_hand_cards_nonneg(hands: Seq<ShownHand>)
    ensures
        hand_cards(hands) >= 0,
    decreases hands.len(),
{
    if hands.len() > 0 {
        lemma_hand_cards_nonneg(hands.drop_last());
    }
}

proof fn lemma_seat_cards_nonneg(seats: Seq<ShownSeat>)
    ensures
        seat_cards(seats) >= 0,
    decreases seats.len(),
{
    if seats.len() > 0 {
        lemma_seat_cards_nonneg(seats.drop_last());
        lemma_hand_cards_nonneg(seats.last().hands);
    }
}

/// The cards in a seat's hands.
fn count_hand_cards(hands: &Vec<HandSnapshot>) -> (n: u64)
    requires
        hand_cards(hands@.map_values(|h: HandSnapshot| shown_hand(h))) <= u64::MAX,
    ensures
        n == hand_cards(hands@.map_values(|h: HandSnapshot| shown_hand(h))),
{
    let ghost all = hands@.map_values(|h: HandSnapshot| shown_hand(h));
    let mut n: u64 = 0;
    let mut i: usize = 0;
    while i < hands.len()
        invariant
            i <= hands@.len(),
            all == hands@.map_values(|h: HandSnapshot| shown_hand(h)),
            hand_cards(all) <= u64::MAX,
            n == hand_cards(all.subrange(0, i as int)),
        decreases hands@.len() - i,
    {
        proof {
            let next = all.subrange(0, i + 1);
            assert(next.drop_last() =~= all.subrange(0, i as int));
            assert(next.last() == shown_hand(hands@[i as int]));
            lemma_hand_cards_prefix(all, i + 1);
        }
        n = n + hands[i].cards.len() as u64;
        i = i + 1;
    }
    proof {
        assert(all.subrange(0, hands@.len() as int) =~= all);
    }
    n
}

proof fn lemma_hand_cards_prefix(hands: Seq<ShownHand>, k: int)
    requires
        0 <= k <= hands.len(),
    ensures
        hand_cards(hands.subrange(0, k)) <= hand_cards(hands),
    decreases hands.len(),
{
    if k < hands.len() {
        assert(hands.drop_last().subrange(0, k) =~= hands.subrange(0, k));
        lemma_hand_cards_prefix(hands.drop_last(), k);
    } else {
        assert(hands.subrange(0, k) =~= hands);
    }
}

proof fn lemma_seat_cards_prefix(seats: Seq<ShownSeat>, k: int)
    requires
        0 <= k <= seats.len(),
    ensures
        seat_cards(seats.subrange(0, k)) <= seat_cards(seats),
    decreases seats.len(),
{
    if k < seats.len() {
        assert(seats.drop_last().subrange(0, k) =~= seats.subrange(0, k));
        lemma_seat_cards_prefix(seats.drop_last(), k);
        lemma_hand_cards_nonneg(seats.last().hands);
    } else {
        assert(seats.subrange(0, k) =~= seats);
    }
}

/// Every card on a snapshot's felt.
fn count_felt_cards(snapshot: &Snapshot) -> (n: u64)
    requires
        felt_cards(shown(*snapshot)) <= u64::MAX,
    ensures
        n == felt_cards(shown(*snapshot)),
{
    let ghost d = shown(*snapshot);
    proof {
        lemma_seat_cards_nonneg(d.seats);
    }
    let dealer = &snapshot.dealer;
    let mut n: u64 = 0;
    if dealer.upcard.is_some() {
        n = n + 1;
    }
    if dealer.hole_card.is_some() || dealer.hole_card_dealt {
        n = n + 1;
    }
    n = n + dealer.draws.len() as u64;
    let ghost head = n as int;
    let mut i: usize = 0;
    while i < snapshot.seats.len()
        invariant
            i <= snapshot.seats@.len(),
            d == shown(*snapshot),
            felt_cards(d) <= u64::MAX,
            head + seat_cards(d.seats) == felt_cards(d),
            n == head + seat_cards(d.seats.subrange(0, i as int)),
        decreases snapshot.seats@.len() - i,
    {
        proof {
            let next = d.seats.subrange(0, i + 1);
            assert(next.drop_last() =~= d.seats.subrange(0, i as int));
            assert(next.last() == shown_seat(snapshot.seats@[i as int]));
            lemma_seat_cards_prefix(d.seats, i + 1);
        }
        let c = count_hand_cards(&snapshot.seats[i].hands);
        n = n + c;
        i = i + 1;
    }
    proof {
        assert(d.seats.subrange(0, snapshot.seats@.len() as int) =~= d.seats);
    }
    n
}

fn copy_cards(cards: &Vec<Card>) -> (v: Vec<Card>)
    ensures
        v@ == cards@,
{
    let mut v: Vec<Card> = Vec::new();
    let mut i: usize = 0;
    while i < cards.len()
        invariant
            i <= cards@.len(),
            v@ == cards@.subrange(0, i as int),
        decreases cards@.len() - i,
    {
        v.push(cards[i]);
        i = i + 1;
        proof {
            assert(v@ =~= cards@.subrange(0, i as int));
        }
    }
    proof {
        assert(cards@.subrange(0, cards@.len() as int) =~= cards@);
    }
    v
}

fn copy_hand(h: &HandSnapshot) -> (c: HandSnapshot)
    ensures
        shown_hand(c) == shown_hand(*h),
{
    HandSnapshot {
        cards: copy_cards(&h.cards),
        bet: h.bet,
        doubled: h.doubled,
        from_split: h.from_split,
        status: h.status,
        total: h.total,
        soft: h.soft,
        outcome: h.outcome,
        payout: h.payout,
    }
}

fn copy_seat(s: &SeatSnapshot) -> (c: SeatSnapshot)
    ensures
        shown_seat(c) == shown_seat(*s),
{
    let mut hands: Vec<HandSnapshot> = Vec::new();
    let mut i: usize = 0;
    while i < s.hands.len()
        invariant
            i <= s.hands@.len(),
            hands@.len() == i,
            forall|j: int| 0 <= j < i ==> shown_hand(#[trigger] hands@[j]) == shown_hand(s.hands@[j]),
        decreases s.hands@.len() - i,
    {
        hands.push(copy_hand(&s.hands[i]));
        i = i + 1;
    }
    let c = SeatSnapshot { bet: s.bet, insurance: s.insurance, hands, round_net: s.round_net };
    proof {
        assert(shown_seat(c).hands =~= shown_seat(*s).hands);
    }
    c
}

/// A deep copy of a snapshot: the same table, field for field.
pub fn copy_snapshot(snapshot: &Snapshot) -> (c: Snapshot)
    ensures
        shown(c) == shown(*snapshot),
{
    let mut seats: Vec<SeatSnapshot> = Vec::new();
    let mut i: usize = 0;
    while i < snapshot.seats.len()
        invariant
            i <= snapshot.seats@.len(),
            seats@.len() == i,
            forall|j: int| 0 <= j < i ==> shown_seat(#[trigger] seats@[j]) == shown_seat(snapshot.seats@[j]),
        decreases snapshot.seats@.len() - i,
    {
        seats.push(copy_seat(&snapshot.seats[i]));
        i = i + 1;
    }
    let mut legal: Vec<ActionKind> = Vec::new();
    let mut k: usize = 0;
    while k < snapshot.legal_actions.len()
        invariant
            k <= snapshot.legal_actions@.len(),
            legal@ == snapshot.legal_actions@.subrange(0, k as int),
        decreases snapshot.legal_actions@.len() - k,
    {
        legal.push(snapshot.legal_actions[k]);
        k = k + 1;
        proof {
            assert(legal@ =~= snapshot.legal_actions@.subrange(0, k as int));
        }
    }
    proof {
        assert(snapshot.legal_actions@.subrange(0, snapshot.legal_actions@.len() as int) =~= snapshot.legal_actions@);
    }
    let d = &snapshot.dealer;
    let c = Snapshot {
        rules: snapshot.rules,
        phase: snapshot.phase,
        seats,
        dealer: DealerSnapshot {
            upcard: d.upcard,
            hole_card: d.hole_card,
            hole_card_dealt: d.hole_card_dealt,
            draws: copy_cards(&d.draws),
            total: d.total,
        },
        active: snapshot.active,
        shoe: snapshot.shoe,
        legal_actions: legal,
    };
    proof {
        assert(shown(c).seats =~= shown(*snapshot).seats);
        assert(shown(c).dealer =~= shown(*snapshot).dealer);
        assert(shown(c) =~= shown(*snapshot));
    }
    c
}

/// What the scene currently shows, advanced event-by-event between the
/// engine's resting snapshots.
#[derive(Debug, Clone, PartialEq)]
pub struct DisplayState {
    /// The synthetic snapshot; `None` until the first transition lands.
    snapshot: Option<Snapshot>,
    /// Per-seat net insurance results for the round in progress, kept
    /// aside until settlement folds them into the seat's round net.
    insurance_net: Vec<i32>,
}

impl DisplayState {
    /// What the display shows, if anything has landed yet.
    pub closed spec fn showing(&self) -> Option<Shown> {
        match self.snapshot {
            Some(s) => Some(shown(s)),
            None => None,
        }
    }

    /// The insurance side ledger, one entry per seat once a snapshot has
    /// been adopted.
    pub closed spec fn ledger(&self) -> Seq<i32> {
        self.insurance_net@
    }

    /// An empty display: nothing on screen yet.
    pub fn new() -> (d: DisplayState)
        ensures
            d.showing() is None,
            d.ledger() == Seq::<i32>::empty(),
    {
        DisplayState { snapshot: None, insurance_net: Vec::new() }
    }

    /// The snapshot the scene should render right now.
    pub fn snapshot(&self) -> (s: Option<&Snapshot>)
        ensures
            s is None <==> self.showing() is None,
            s matches Some(snap) ==> self.showing() == Some(shown(*snap)),
    {
        match &self.snapshot {
            Some(s) => Some(s),
            None => None,
        }
    }

    fn resize_ledger(&mut self, n: usize)
        ensures
            final(self).snapshot == old(self).snapshot,
            final(self).insurance_net@ == resized(old(self).insurance_net@, n as nat),
    {
        let ghost start = self.insurance_net@;
        if self.insurance_net.len() >= n {
            self.insurance_net.truncate(n);
        } else {
            while self.insurance_net.len() < n
                invariant
                    self.snapshot == old(self).snapshot,
                    start == old(self).insurance_net@,
                    start.len() <= self.insurance_net@.len() <= n,
                    self.insurance_net@ =~= start + Seq::new(
                        (self.insurance_net@.len() - start.len()) as nat,
                        |i: int| 0i32,
                    ),
                decreases n - self.insurance_net@.len(),
            {
                self.insurance_net.push(0);
            }
        }
    }

    /// Adopt an authoritative engine snapshot wholesale, so the display
    /// converges exactly.
    pub fn adopt(&mut self, snapshot: Snapshot)
        ensures
            final(self).showing() == Some(shown(snapshot)),
            final(self).ledger() == resized(old(self).ledger(), snapshot.seats@.len()),
    {
        let n = snapshot.seats.len();
        self.resize_ledger(n);
        self.snapshot = Some(snapshot);
    }

    /// Whether the felt still shows a settled round that `target` (the
    /// next authoritative snapshot) has already cleared. The engine
    /// clears the felt inside `NextRound` without an event, so the
    /// choreographer synthesizes that sweep when this reports true.
    pub fn needs_clear(&self, target: &Snapshot) -> (b: bool)
        ensures
            b == (self.showing() matches Some(d) && spec_needs_clear(d, shown(*target))),
    {
        let snapshot = match &self.snapshot {
            Some(s) => s,
            None => return false,
        };
        let ghost d = shown(*snapshot);
        let ghost t = shown(*target);
        let mut showing = snapshot.dealer.upcard.is_some();
        let mut i: usize = 0;
        while i < snapshot.seats.len()
            invariant
                i <= snapshot.seats@.len(),
                d == shown(*snapshot),
                showing == (d.dealer.upcard is Some || exists|j: int| 0 <= j < i && d.seats[j].hands.len() > 0),
            decreases snapshot.seats@.len() - i,
        {
            proof {
                assert(d.seats[i as int].hands.len() == snapshot.seats@[i as int].hands@.len());
            }
            if snapshot.seats[i].hands.len() > 0 {
                showing = true;
            }
            i = i + 1;
        }
        let mut cleared = target.dealer.upcard.is_none();
        let mut k: usize = 0;
        while k < target.seats.len()
            invariant
                k <= target.seats@.len(),
                t == shown(*target),
                cleared == (t.dealer.upcard is None && forall|j: int| 0 <= j < k ==> t.seats[j].hands.len() == 0),
            decreases target.seats@.len() - k,
        {
            proof {
                assert(t.seats[k as int].hands.len() == target.seats@[k as int].hands@.len());
            }
            if target.seats[k].hands.len() > 0 {
                cleared = false;
            }
            k = k + 1;
        }
        showing && cleared
    }

    /// Whether `event` can be applied to what the display shows: the
    /// seats and hands it names exist and the counters it moves stay in
    /// range. Always true while nothing is shown.
    pub fn accepts(&self, event: &Event) -> (b: bool)
        ensures
            b == (self.showing() matches Some(d) ==> fits(d, self.ledger(), *event)),
    {
        let snapshot = match &self.snapshot {
            Some(s) => s,
            None => return true,
        };
        let seats = snapshot.seats.len();
        let shoe = snapshot.shoe;
        match *event {
            Event::BetPlaced { seat, .. } => seat < seats,
            Event::ShoeShuffled => shoe.cards_remaining <= usize::MAX - shoe.discard_pile_size,
            Event::CardBurned => shoe.cards_dealt < usize::MAX && shoe.discard_pile_size < usize::MAX,
            Event::CardDealt { seat, hand, .. } => seat < seats && hand < usize::MAX
                && shoe.cards_dealt < usize::MAX,
            Event::DealerCardDealt { .. } => shoe.cards_dealt < usize::MAX,
            Event::HoleCardDealt => shoe.cards_dealt < usize::MAX,
            Event::PlayerBlackjack { seat } => seat < seats,
            Event::InsuranceTaken { seat, .. } => seat < seats,
            Event::InsuranceDeclined { seat } => seat < seats,
            Event::InsuranceResolved { seat, .. } => seat < seats,
            Event::HandSplit { seat, hand } => seat < seats && hand < snapshot.seats[seat].hands.len(),
            Event::DoubledDown { seat, hand, .. } => seat < seats && hand
                < snapshot.seats[seat].hands.len(),
            Event::PlayerStood { seat, hand, .. } => seat < seats && hand
                < snapshot.seats[seat].hands.len(),
            Event::HandBusted { seat, hand, .. } => seat < seats && hand
                < snapshot.seats[seat].hands.len(),
            Event::PlayerSurrendered { seat } => seat < seats,
            Event::HandSettled { seat, hand, amount, .. } => {
                if !(seat < seats && hand < snapshot.seats[seat].hands.len()) {
                    return false;
                }
                let base: i64 = match snapshot.seats[seat].round_net {
                    Some(n) => n as i64,
                    None => if seat < self.insurance_net.len() {
                        self.insurance_net[seat] as i64
                    } else {
                        0
                    },
                };
                let total = base + amount as i64;
                proof {
                    let net = self.insurance_net@;
                    if seat >= net.len() {
                        assert(resized(net, seats as nat)[seat as int] == 0);
                    } else {
                        assert(resized(net, seats as nat)[seat as int] == net[seat as int]);
                    }
                }
                i32::MIN as i64 <= total && total <= i32::MAX as i64
            },
            _ => true,
        }
    }

    /// Advance the display by one event's physical effect. A no-op until
    /// a snapshot has been adopted. Events with no visible state change
    /// (peeks, arrivals, departures, dealer changes) leave it untouched.
    pub fn apply(&mut self, event: &Event)
        requires
            old(self).showing() matches Some(d) ==> fits(d, old(self).ledger(), *event),
        ensures
            old(self).showing() is None ==> *final(self) == *old(self),
            old(self).showing() matches Some(d) ==> {
                let r = spec_apply(d, resized(old(self).ledger(), d.seats.len()), *event);
                &&& final(self).showing() == Some(r.0)
                &&& final(self).ledger() == r.1
            },
    {
        let mut snapshot = match self.snapshot.take() {
            Some(s) => s,
            None => return,
        };
        let ghost d = shown(snapshot);
        let n = snapshot.seats.len();
        self.resize_ledger(n);
        proof {
            let net = old(self).insurance_net@;
            assert(resized(resized(net, n as nat), n as nat) =~= resized(net, n as nat));
            assert(self.insurance_net@.len() == n);
        }
        apply_to(&mut snapshot, &mut self.insurance_net, *event);
        self.snapshot = Some(snapshot);
    }

    /// Sweep the felt: every card to the discard tray, every seat back
    /// to empty, exactly as the engine's `NextRound` does silently. A
    /// no-op while nothing is shown.
    pub fn clear_felt(&mut self)
        requires
            old(self).showing() matches Some(d) ==> d.shoe.discard_pile_size + felt_cards(d) <= usize::MAX,
        ensures
            old(self).showing() is None ==> *final(self) == *old(self),
            old(self).showing() matches Some(d) ==> final(self).showing() == Some(spec_clear(d))
                && final(self).ledger() == Seq::new(old(self).ledger().len(), |i: int| 0i32),
    {
        let mut snapshot = match self.snapshot.take() {
            Some(s) => s,
            None => return,
        };
        let ghost d = shown(snapshot);
        let felt = count_felt_cards(&snapshot);
        snapshot.shoe.discard_pile_size = snapshot.shoe.discard_pile_size + felt as usize;
        let ghost mid = snapshot;
        let mut i: usize = 0;
        while i < snapshot.seats.len()
            invariant
                i <= snapshot.seats@.len(),
                snapshot.shoe == mid.shoe,
                snapshot.rules == mid.rules,
                snapshot.legal_actions == mid.legal_actions,
                mid.shoe.discard_pile_size == d.shoe.discard_pile_size + felt_cards(d),
                mid.shoe.cards_dealt == d.shoe.cards_dealt,
                mid.shoe.cards_remaining == d.shoe.cards_remaining,
                mid.shoe.cut_card_reached == d.shoe.cut_card_reached,
                mid.rules == d.rules,
                mid.legal_actions@ == d.legal,
                snapshot.seats@.len() == d.seats.len(),
                forall|j: int| 0 <= j < i ==> #[trigger] shown_seat(snapshot.seats@[j]) == swept(d.seats[j]),
                forall|j: int| i <= j < snapshot.seats@.len() ==> #[trigger] shown_seat(snapshot.seats@[j]) == d.seats[j],
            decreases snapshot.seats@.len() - i,
        {
            snapshot.seats[i].bet = None;
            snapshot.seats[i].insurance = Insurance::NotOffered;
            snapshot.seats[i].hands.clear();
            snapshot.seats[i].round_net = None;
            proof {
                assert(shown_seat(snapshot.seats@[i as int]) =~= swept(d.seats[i as int]));
            }
            i = i + 1;
        }
        snapshot.dealer = DealerSnapshot {
            upcard: None,
            hole_card: None,
            hole_card_dealt: false,
            draws: Vec::new(),
            total: None,
        };
        snapshot.phase = Phase::Betting;
        snapshot.active = None;
        let mut k: usize = 0;
        let ghost len = self.insurance_net@.len();
        while k < self.insurance_net.len()
            invariant
                k <= self.insurance_net@.len(),
                self.insurance_net@.len() == len,
                forall|j: int| 0 <= j < k ==> self.insurance_net@[j] == 0,
            decreases self.insurance_net@.len() - k,
        {
            self.insurance_net.set(k, 0);
            k = k + 1;
        }
        proof {
            assert(shown(snapshot).seats =~= d.seats.map_values(|s: ShownSeat| swept(s)));
            assert(shown(snapshot).shoe == spec_clear(d).shoe);
            assert(shown(snapshot).dealer =~= spec_clear(d).dealer);
            assert(shown(snapshot).rules == spec_clear(d).rules);
            assert(shown(snapshot).legal =~= spec_clear(d).legal);
            assert(shown(snapshot) =~= spec_clear(d));
            assert(self.insurance_net@ =~= Seq::new(len, |i: int| 0i32));
        }
        self.snapshot = Some(snapshot);
    }
}

} // verus!
