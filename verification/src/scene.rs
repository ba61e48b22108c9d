//! Pure styling data for the table scene: card indices, suit inks, chip
//! paint, and how chips stack into piles.
//!
//! Everything here is a plain function of engine types, so the
//! rendering views are thin layers over these tables.
use vstd::prelude::*;
use crate::card::{Rank, Suit};
use crate::chips::{ChipColor, ChipStack, Counts, Denomination, chip_sequence, denom_color};
use crate::event::HandOutcome;
use crate::rules::{BlackjackPayout, Rules, Soft17};
use crate::snapshot::{ActiveHand, HandSnapshot, Phase};
use crate::text::{decimal, push_decimal};

verus! {

/// How the scene lights one seat.
#[derive(Debug, Clone, Copy, PartialEq, Eq, Structural)]
pub struct SeatLight {
    /// The hand outlined as the one in play, during the player turn.
    pub active_hand: Option<usize>,
    /// Whether the betting circle glows, while the seat weighs insurance.
    pub circle_glow: bool,
}

/// Whether `seat` is the seat to act.
pub open spec fn lit(active: Option<ActiveHand>, seat: usize) -> bool {
    active is Some && active->0.seat == seat
}

/// How seat `seat` is lit in `phase` with `active` the seat to act: its
/// active hand is outlined during the player turn, and its betting
/// circle glows while it is offered insurance; no other seat is lit.
pub fn seat_light(phase: Phase, active: Option<ActiveHand>, seat: usize) -> (l: SeatLight)
    ensures
        l.active_hand == (if phase == Phase::PlayerTurn && lit(active, seat) {
            Some(active->0.hand)
        } else {
            None::<usize>
        }),
        l.circle_glow == (phase == Phase::InsuranceOffer && lit(active, seat)),
{
    let is_active_seat = match active {
        Some(a) => a.seat == seat,
        None => false,
    };
    let active_hand = if phase == Phase::PlayerTurn && is_active_seat {
        match active {
            Some(a) => Some(a.hand),
            None => None,
        }
    } else {
        None
    };
    SeatLight { active_hand, circle_glow: phase == Phase::InsuranceOffer && is_active_seat }
}

/// Whether seats show their insurance stakes: while insurance is offered
/// and through the player turn that follows.
pub fn insurance_visible(phase: Phase) -> (b: bool)
    ensures
        b == (phase == Phase::InsuranceOffer || phase == Phase::PlayerTurn),
{
    phase == Phase::InsuranceOffer || phase == Phase::PlayerTurn
}

/// The house float shown in the dealer's tray: the snapshot does not
/// carry the tray's contents, so the scene shows a well-stocked float of
/// nine chips of every denomination.
pub fn house_float() -> (s: ChipStack)
    ensures
        s@ == (Counts { ones: 9, fives: 9, twenty_fives: 9, hundreds: 9, five_hundreds: 9 }),
{
    let mut float = ChipStack::new();
    float.add_chips(Denomination::One, 9);
    float.add_chips(Denomination::Five, 9);
    float.add_chips(Denomination::TwentyFive, 9);
    float.add_chips(Denomination::Hundred, 9);
    float.add_chips(Denomination::FiveHundred, 9);
    float
}

/// Whether a settled hand's bet has been swept by the dealer: lost,
/// busted, or surrendered.
pub fn bet_swept(hand: &HandSnapshot) -> (b: bool)
    ensures
        b == (hand.outcome == Some(HandOutcome::Lose) || hand.outcome == Some(HandOutcome::Bust)
            || hand.outcome == Some(HandOutcome::Surrender)),
{
    match hand.outcome {
        Some(HandOutcome::Lose) | Some(HandOutcome::Bust) | Some(HandOutcome::Surrender) => true,
        _ => false,
    }
}

/// The corner index printed on a card of `rank`.
pub open spec fn spec_rank_label(rank: Rank) -> Seq<char> {
    match rank {
        Rank::Two => "2"@,
        Rank::Three => "3"@,
        Rank::Four => "4"@,
        Rank::Five => "5"@,
        Rank::Six => "6"@,
        Rank::Seven => "7"@,
        Rank::Eight => "8"@,
        Rank::Nine => "9"@,
        Rank::Ten => "10"@,
        Rank::Jack => "J"@,
        Rank::Queen => "Q"@,
        Rank::King => "K"@,
        Rank::Ace => "A"@,
    }
}

/// The corner-index label for a rank, as printed on a real card.
pub fn rank_label(rank: Rank) -> (s: &'static str)
    ensures
        s@ == spec_rank_label(rank),
{
    match rank {
        Rank::Two => "2",
        Rank::Three => "3",
        Rank::Four => "4",
        Rank::Five => "5",
        Rank::Six => "6",
        Rank::Seven => "7",
        Rank::Eight => "8",
        Rank::Nine => "9",
        Rank::Ten => "10",
        Rank::Jack => "J",
        Rank::Queen => "Q",
        Rank::King => "K",
        Rank::Ace => "A",
    }
}

/// The glyph of a suit.
pub open spec fn spec_suit_glyph(suit: Suit) -> Seq<char> {
    match suit {
        Suit::Clubs => "\u{2663}"@,
        Suit::Diamonds => "\u{2666}"@,
        Suit::Hearts => "\u{2665}"@,
        Suit::Spades => "\u{2660}"@,
    }
}

/// The suit's glyph.
pub fn suit_glyph(suit: Suit) -> (s: &'static str)
    ensures
        s@ == spec_suit_glyph(suit),
{
    match suit {
        Suit::Clubs => "\u{2663}",
        Suit::Diamonds => "\u{2666}",
        Suit::Hearts => "\u{2665}",
        Suit::Spades => "\u{2660}",
    }
}

/// Whether a suit is printed in red ink.
pub open spec fn is_red(suit: Suit) -> bool {
    suit == Suit::Hearts || suit == Suit::Diamonds
}

/// The red ink.
pub open spec fn red_ink() -> Seq<char> {
    "#b3232f"@
}

/// The black ink.
pub open spec fn black_ink() -> Seq<char> {
    "#1d1f27"@
}

/// The ink color for a suit: hearts and diamonds red, clubs and spades
/// black.
pub fn suit_color(suit: Suit) -> (s: &'static str)
    ensures
        s@ == if is_red(suit) {
            red_ink()
        } else {
            black_ink()
        },
{
    match suit {
        Suit::Hearts | Suit::Diamonds => "#b3232f",
        Suit::Clubs | Suit::Spades => "#1d1f27",
    }
}

/// True for the three court ranks, which render as ornamental plates.
pub fn is_court(rank: Rank) -> (b: bool)
    ensures
        b == (rank == Rank::Jack || rank == Rank::Queen || rank == Rank::King),
{
    match rank {
        Rank::Jack | Rank::Queen | Rank::King => true,
        _ => false,
    }
}

/// The paint scheme for one chip denomination.
#[derive(Debug, Clone, Copy, PartialEq, Eq)]
pub struct ChipStyle {
    /// Top-face and visible-rim body color.
    pub body: &'static str,
    /// Shaded underside of the chip cylinder.
    pub rim: &'static str,
    /// Edge-stripe and inner-ring color.
    pub stripe: &'static str,
    /// Center inlay color.
    pub inlay: &'static str,
}

/// The body paint of each chip color.
pub open spec fn body_paint(color: ChipColor) -> Seq<char> {
    match color {
        ChipColor::White => "#e9e5da"@,
        ChipColor::Red => "#b32b2b"@,
        ChipColor::Green => "#1f7a48"@,
        ChipColor::Black => "#2b2d33"@,
        ChipColor::Purple => "#5f3d8f"@,
    }
}

/// The standard casino paint for a denomination, keyed off the chip's
/// [`ChipColor`] so the mapping can never drift from the chips
/// themselves.
pub fn chip_style(denomination: Denomination) -> (s: ChipStyle)
    ensures
        s.body@ == body_paint(denom_color(denomination)),
{
    match denomination.color() {
        ChipColor::White => ChipStyle {
            body: "#e9e5da",
            rim: "#b5b0a1",
            stripe: "#3f6fae",
            inlay: "#f5f2ea",
        },
        ChipColor::Red => ChipStyle {
            body: "#b32b2b",
            rim: "#7c1b1b",
            stripe: "#f0e8d8",
            inlay: "#c2403a",
        },
        ChipColor::Green => ChipStyle {
            body: "#1f7a48",
            rim: "#124e2d",
            stripe: "#f0e8d8",
            inlay: "#2b8f59",
        },
        ChipColor::Black => ChipStyle {
            body: "#2b2d33",
            rim: "#141519",
            stripe: "#d8b95c",
            inlay: "#3a3d45",
        },
        ChipColor::Purple => ChipStyle {
            body: "#5f3d8f",
            rim: "#3c265c",
            stripe: "#f0e8d8",
            inlay: "#7350a5",
        },
    }
}

/// The chips of a stack in pile order: bottom of the pile first, largest
/// denominations on the bottom, exactly as a dealer cuts a bet.
pub fn pile_chips(stack: &ChipStack) -> (v: Vec<Denomination>)
    ensures
        v@ == chip_sequence(stack@).reverse(),
{
    let chips = stack.chips();
    let mut v: Vec<Denomination> = Vec::new();
    let mut i: usize = chips.len();
    while i > 0
        invariant
            i <= chips@.len(),
            chips@ == chip_sequence(stack@),
            v@ == chips@.subrange(i as int, chips@.len() as int).reverse(),
        decreases i,
    {
        i = i - 1;
        v.push(chips[i]);
        proof {
            assert(v@ =~= chips@.subrange(i as int, chips@.len() as int).reverse());
        }
    }
    proof {
        assert(chips@.subrange(0, chips@.len() as int) =~= chips@);
    }
    v
}

/// The piles `n` chips of `d` make with no pile taller than `cap`.
pub open spec fn piles_for(d: Denomination, n: nat, cap: nat) -> Seq<(Denomination, u32)>
    decreases n,
{
    if n == 0 || cap == 0 {
        Seq::empty()
    } else {
        let take = if n < cap {
            n
        } else {
            cap
        };
        seq![(d, take as u32)] + piles_for(d, (n - take) as nat, cap)
    }
}

/// The rack piles of a stack: per denomination, largest first.
pub open spec fn spec_rack_piles(c: Counts, cap: nat) -> Seq<(Denomination, u32)> {
    piles_for(Denomination::FiveHundred, c.five_hundreds, cap) + piles_for(
        Denomination::Hundred,
        c.hundreds,
        cap,
    ) + piles_for(Denomination::TwentyFive, c.twenty_fives, cap) + piles_for(
        Denomination::Five,
        c.fives,
        cap,
    ) + piles_for(Denomination::One, c.ones, cap)
}

fn push_piles(piles: &mut Vec<(Denomination, u32)>, d: Denomination, n: u32, cap: u32)
    requires
        cap > 0,
    ensures
        final(piles)@ == old(piles)@ + piles_for(d, n as nat, cap as nat),
{
    let mut remaining = n;
    while remaining > 0
        invariant
            cap > 0,
            piles@ + piles_for(d, remaining as nat, cap as nat) == old(piles)@ + piles_for(
                d,
                n as nat,
                cap as nat,
            ),
        decreases remaining,
    {
        let take = if remaining < cap {
            remaining
        } else {
            cap
        };
        let ghost before = piles@;
        piles.push((d, take));
        remaining = remaining - take;
        proof {
            assert(piles@ + piles_for(d, remaining as nat, cap as nat) =~= before + piles_for(
                d,
                (remaining + take) as nat,
                cap as nat,
            ));
        }
    }
    proof {
        assert(piles@ + piles_for(d, 0, cap as nat) =~= piles@);
    }
}

/// Split a stack into rack piles: per denomination, largest first, no
/// pile taller than `cap` chips.
pub fn rack_piles(stack: &ChipStack, cap: u32) -> (v: Vec<(Denomination, u32)>)
    requires
        cap > 0,
    ensures
        v@ == spec_rack_piles(stack@, cap as nat),
{
    let mut piles: Vec<(Denomination, u32)> = Vec::new();
    push_piles(&mut piles, Denomination::FiveHundred, stack.count(Denomination::FiveHundred), cap);
    push_piles(&mut piles, Denomination::Hundred, stack.count(Denomination::Hundred), cap);
    push_piles(&mut piles, Denomination::TwentyFive, stack.count(Denomination::TwentyFive), cap);
    push_piles(&mut piles, Denomination::Five, stack.count(Denomination::Five), cap);
    push_piles(&mut piles, Denomination::One, stack.count(Denomination::One), cap);
    proof {
        assert(piles@ =~= spec_rack_piles(stack@, cap as nat));
    }
    piles
}

/// The chips in a run of piles.
pub open spec fn pile_heights(piles: Seq<(Denomination, u32)>) -> int
    decreases piles.len(),
{
    if piles.len() == 0 {
        0
    } else {
        pile_heights(piles.drop_last()) + piles.last().1
    }
}

/// Piles of one denomination hold exactly its chips, none taller than
/// the cap.
pub proof fn lemma_piles_for(d: Denomination, n: nat, cap: nat)
    requires
        cap > 0,
        n <= u32::MAX,
    ensures
        pile_heights(piles_for(d, n, cap)) == n,
        forall|i: int|
            0 <= i < piles_for(d, n, cap).len() ==> (#[trigger] piles_for(d, n, cap)[i]).1
                <= cap && piles_for(d, n, cap)[i].0 == d,
    decreases n,
{
    if n > 0 {
        let take = if n < cap {
            n
        } else {
            cap
        };
        let rest = piles_for(d, (n - take) as nat, cap);
        lemma_piles_for(d, (n - take) as nat, cap);
        lemma_pile_heights_prepend((d, take as u32), rest);
    }
}

/// Putting a pile in front adds its height.
pub proof fn lemma_pile_heights_prepend(p: (Denomination, u32), piles: Seq<(Denomination, u32)>)
    ensures
        pile_heights(seq![p] + piles) == p.1 + pile_heights(piles),
    decreases piles.len(),
{
    if piles.len() > 0 {
        let whole = seq![p] + piles;
        assert(whole.drop_last() =~= seq![p] + piles.drop_last());
        assert(whole.last() == piles.last());
        lemma_pile_heights_prepend(p, piles.drop_last());
    } else {
        let whole = seq![p] + piles;
        assert(whole =~= seq![p]);
        assert(whole.drop_last() =~= Seq::<(Denomination, u32)>::empty());
        assert(pile_heights(whole.drop_last()) == 0);
    }
}

/// Concatenated piles hold the chips of both.
pub proof fn lemma_pile_heights_concat(a: Seq<(Denomination, u32)>, b: Seq<(Denomination, u32)>)
    ensures
        pile_heights(a + b) == pile_heights(a) + pile_heights(b),
    decreases b.len(),
{
    if b.len() > 0 {
        assert((a + b).drop_last() =~= a + b.drop_last());
        lemma_pile_heights_concat(a, b.drop_last());
    } else {
        assert(a + b =~= a);
    }
}

/// Rack piles hold every chip of the stack, none taller than the cap.
pub proof fn lemma_rack_piles_hold_every_chip(c: Counts, cap: nat)
    requires
        cap > 0,
        c.total() <= u32::MAX,
    ensures
        pile_heights(spec_rack_piles(c, cap)) == c.chip_count(),
        forall|i: int|
            0 <= i < spec_rack_piles(c, cap).len() ==> (#[trigger] spec_rack_piles(c, cap)[i]).1
                <= cap,
{
    let a = piles_for(Denomination::FiveHundred, c.five_hundreds, cap);
    let b = piles_for(Denomination::Hundred, c.hundreds, cap);
    let e = piles_for(Denomination::TwentyFive, c.twenty_fives, cap);
    let f = piles_for(Denomination::Five, c.fives, cap);
    let g = piles_for(Denomination::One, c.ones, cap);
    lemma_piles_for(Denomination::FiveHundred, c.five_hundreds, cap);
    lemma_piles_for(Denomination::Hundred, c.hundreds, cap);
    lemma_piles_for(Denomination::TwentyFive, c.twenty_fives, cap);
    lemma_piles_for(Denomination::Five, c.fives, cap);
    lemma_piles_for(Denomination::One, c.ones, cap);
    lemma_pile_heights_concat(a, b);
    lemma_pile_heights_concat(a + b, e);
    lemma_pile_heights_concat(a + b + e, f);
    lemma_pile_heights_concat(a + b + e + f, g);
    let all = a + b + e + f + g;
    assert forall|i: int| 0 <= i < all.len() implies (#[trigger] all[i]).1 <= cap by {
        if i < a.len() {
            assert(all[i] == a[i]);
        } else if i < a.len() + b.len() {
            assert(all[i] == b[i - a.len()]);
        } else if i < a.len() + b.len() + e.len() {
            assert(all[i] == e[i - a.len() - b.len()]);
        } else if i < a.len() + b.len() + e.len() + f.len() {
            assert(all[i] == f[i - a.len() - b.len() - e.len()]);
        } else {
            assert(all[i] == g[i - a.len() - b.len() - e.len() - f.len()]);
        }
    }
}

/// The placard's lines, top to bottom, every one read off the posted
/// rules.
pub open spec fn placard_text(rules: Rules) -> Seq<Seq<char>> {
    seq![
        match rules.blackjack_payout {
            BlackjackPayout::ThreeToTwo => "BLACKJACK PAYS 3 TO 2"@,
            BlackjackPayout::SixToFive => "BLACKJACK PAYS 6 TO 5"@,
        },
        match rules.soft_17 {
            Soft17::Stand => "DEALER STANDS ON SOFT 17"@,
            Soft17::Hit => "DEALER HITS SOFT 17"@,
        },
        "$"@ + decimal(rules.min_bet as nat) + " MIN \u{2014} $"@ + decimal(rules.max_bet as nat)
            + " MAX"@,
        if rules.double_on_any_two {
            "DOUBLE ON ANY TWO CARDS"@
        } else {
            "DOUBLE ON 9 \u{00b7} 10 \u{00b7} 11 ONLY"@
        },
        if rules.double_after_split {
            "DOUBLE AFTER SPLIT"@
        } else {
            "NO DOUBLE AFTER SPLIT"@
        },
        if rules.late_surrender {
            "LATE SURRENDER"@
        } else {
            "NO SURRENDER"@
        },
    ]
}

/// The placard's six lines, top to bottom, every one derived from the
/// posted [`Rules`]: nothing here is ever hardcoded in the view.
pub fn placard_lines(rules: &Rules) -> (lines: Vec<String>)
    ensures
        lines@.len() == 6,
        forall|i: int| 0 <= i < 6 ==> #[trigger] lines@[i]@ == placard_text(*rules)[i],
{
    let payout = match rules.blackjack_payout {
        BlackjackPayout::ThreeToTwo => String::from_str("BLACKJACK PAYS 3 TO 2"),
        BlackjackPayout::SixToFive => String::from_str("BLACKJACK PAYS 6 TO 5"),
    };
    let soft = match rules.soft_17 {
        Soft17::Stand => String::from_str("DEALER STANDS ON SOFT 17"),
        Soft17::Hit => String::from_str("DEALER HITS SOFT 17"),
    };
    let mut limits = String::from_str("$");
    push_decimal(&mut limits, rules.min_bet as u64);
    limits.append(" MIN \u{2014} $");
    push_decimal(&mut limits, rules.max_bet as u64);
    limits.append(" MAX");
    let double = if rules.double_on_any_two {
        String::from_str("DOUBLE ON ANY TWO CARDS")
    } else {
        String::from_str("DOUBLE ON 9 \u{00b7} 10 \u{00b7} 11 ONLY")
    };
    let das = if rules.double_after_split {
        String::from_str("DOUBLE AFTER SPLIT")
    } else {
        String::from_str("NO DOUBLE AFTER SPLIT")
    };
    let surrender = if rules.late_surrender {
        String::from_str("LATE SURRENDER")
    } else {
        String::from_str("NO SURRENDER")
    };
    let mut lines: Vec<String> = Vec::new();
    lines.push(payout);
    lines.push(soft);
    lines.push(limits);
    lines.push(double);
    lines.push(das);
    lines.push(surrender);
    lines
}

/// The placard conventions in plain words, one line each, in the order
/// soft 17, double after split, surrender, insurance.
pub open spec fn placard_note_text(rules: Rules) -> Seq<Seq<char>> {
    seq![
        match rules.soft_17 {
            Soft17::Stand => "Soft 17: the dealer stands on ace-6."@,
            Soft17::Hit => "Soft 17: the dealer hits ace-6."@,
        },
        if rules.double_after_split {
            "You may double after splitting."@
        } else {
            "No doubling after a split."@
        },
        if rules.late_surrender {
            "Surrender after the peek: keep half."@
        } else {
            "No surrender at this table."@
        },
        if rules.insurance_offered {
            "Insurance: 2 to 1 the dealer has it."@
        } else {
            "No insurance at this table."@
        },
    ]
}

/// The placard conventions, explained in plain language: one terse line
/// each, every word derived from the posted [`Rules`].
pub fn placard_notes(rules: &Rules) -> (notes: Vec<String>)
    ensures
        notes@.len() == 4,
        forall|i: int| 0 <= i < 4 ==> #[trigger] notes@[i]@ == placard_note_text(*rules)[i],
{
    let soft = match rules.soft_17 {
        Soft17::Stand => String::from_str("Soft 17: the dealer stands on ace-6."),
        Soft17::Hit => String::from_str("Soft 17: the dealer hits ace-6."),
    };
    let das = if rules.double_after_split {
        String::from_str("You may double after splitting.")
    } else {
        String::from_str("No doubling after a split.")
    };
    let surrender = if rules.late_surrender {
        String::from_str("Surrender after the peek: keep half.")
    } else {
        String::from_str("No surrender at this table.")
    };
    let insurance = if rules.insurance_offered {
        String::from_str("Insurance: 2 to 1 the dealer has it.")
    } else {
        String::from_str("No insurance at this table.")
    };
    let mut notes: Vec<String> = Vec::new();
    notes.push(soft);
    notes.push(das);
    notes.push(surrender);
    notes.push(insurance);
    notes
}

} // verus!
