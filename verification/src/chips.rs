//! Chips: the physical money of the table — denominations, stacks, change
//! making, payouts as chips, and racks.
//!
//! The engine settles rounds in whole-dollar net deltas; this module turns
//! those numbers into the chips that physically move across the felt.
//! Everything is integer `u32` dollars end to end, so fractional amounts
//! are impossible by construction: the engine rounds fractional payouts
//! down to whole dollars before they ever reach the chip layer.
use vstd::prelude::*;
use crate::text::{decimal, push_decimal};

verus! {

/// A casino chip denomination, in the standard American colors.
///
/// Denominations order by face value, smallest first, and each value
/// divides the next ($1, $5, $25, $100, $500), which is why greedy
/// largest-first change making is exact and minimal.
#[derive(Debug, Clone, Copy, PartialEq, Eq, Structural, PartialOrd, Ord, Hash)]
pub enum Denomination {
    /// $1, white.
    One,
    /// $5, red.
    Five,
    /// $25, green.
    TwentyFive,
    /// $100, black.
    Hundred,
    /// $500, purple.
    FiveHundred,
}

/// The face value of a denomination, in whole dollars.
pub open spec fn denom_value(d: Denomination) -> nat {
    match d {
        Denomination::One => 1,
        Denomination::Five => 5,
        Denomination::TwentyFive => 25,
        Denomination::Hundred => 100,
        Denomination::FiveHundred => 500,
    }
}

/// The position of a denomination in [`Denomination::ALL`].
pub open spec fn denom_index(d: Denomination) -> nat {
    match d {
        Denomination::One => 0,
        Denomination::Five => 1,
        Denomination::TwentyFive => 2,
        Denomination::Hundred => 3,
        Denomination::FiveHundred => 4,
    }
}

/// The standard color of a chip denomination.
#[derive(Debug, Clone, Copy, PartialEq, Eq, Structural, Hash)]
pub enum ChipColor {
    /// $1 chips.
    White,
    /// $5 chips.
    Red,
    /// $25 chips.
    Green,
    /// $100 chips.
    Black,
    /// $500 chips.
    Purple,
}

/// The standard color of a denomination, as a specification.
pub open spec fn denom_color(d: Denomination) -> ChipColor {
    match d {
        Denomination::One => ChipColor::White,
        Denomination::Five => ChipColor::Red,
        Denomination::TwentyFive => ChipColor::Green,
        Denomination::Hundred => ChipColor::Black,
        Denomination::FiveHundred => ChipColor::Purple,
    }
}

/// The denomination's name, as it reads in messages.
pub open spec fn denom_name(d: Denomination) -> Seq<char> {
    match d {
        Denomination::One => "One"@,
        Denomination::Five => "Five"@,
        Denomination::TwentyFive => "TwentyFive"@,
        Denomination::Hundred => "Hundred"@,
        Denomination::FiveHundred => "FiveHundred"@,
    }
}

impl Denomination {
    /// All five denominations, in ascending (face value) order.
    pub const ALL: [Denomination; 5] = [
        Denomination::One,
        Denomination::Five,
        Denomination::TwentyFive,
        Denomination::Hundred,
        Denomination::FiveHundred,
    ];

    /// The chip's face value in whole dollars.
    pub fn value(self) -> (v: u32)
        ensures
            v == denom_value(self),
    {
        match self {
            Denomination::One => 1,
            Denomination::Five => 5,
            Denomination::TwentyFive => 25,
            Denomination::Hundred => 100,
            Denomination::FiveHundred => 500,
        }
    }

    /// The chip's standard casino color, for frontends to key rendering on.
    pub fn color(self) -> (c: ChipColor)
        ensures
            c == denom_color(self),
    {
        match self {
            Denomination::One => ChipColor::White,
            Denomination::Five => ChipColor::Red,
            Denomination::TwentyFive => ChipColor::Green,
            Denomination::Hundred => ChipColor::Black,
            Denomination::FiveHundred => ChipColor::Purple,
        }
    }

    /// Position in [`Denomination::ALL`].
    pub fn index(self) -> (i: usize)
        ensures
            i == denom_index(self),
    {
        match self {
            Denomination::One => 0,
            Denomination::Five => 1,
            Denomination::TwentyFive => 2,
            Denomination::Hundred => 3,
            Denomination::FiveHundred => 4,
        }
    }

    /// The denomination's name, as it reads in messages.
    pub fn name(self) -> (s: &'static str)
        ensures
            s@ == denom_name(self),
    {
        match self {
            Denomination::One => "One",
            Denomination::Five => "Five",
            Denomination::TwentyFive => "TwentyFive",
            Denomination::Hundred => "Hundred",
            Denomination::FiveHundred => "FiveHundred",
        }
    }
}

/// The color's lowercase, CSS-friendly name.
pub open spec fn color_name(c: ChipColor) -> Seq<char> {
    match c {
        ChipColor::White => "white"@,
        ChipColor::Red => "red"@,
        ChipColor::Green => "green"@,
        ChipColor::Black => "black"@,
        ChipColor::Purple => "purple"@,
    }
}

impl ChipColor {
    /// The color as a lowercase CSS-friendly name.
    pub fn name(self) -> (s: &'static str)
        ensures
            s@ == color_name(self),
    {
        match self {
            ChipColor::White => "white",
            ChipColor::Red => "red",
            ChipColor::Green => "green",
            ChipColor::Black => "black",
            ChipColor::Purple => "purple",
        }
    }

    /// The color's name as an owned string, as it displays.
    pub fn to_string(&self) -> (s: String)
        ensures
            s@ == color_name(*self),
    {
        String::from_str(self.name())
    }
}

/// Why a chip operation failed.
///
/// A failed operation never mutates the stack: the caller gets one of
/// these and the chips are exactly as they were.
#[derive(Debug, Clone, Copy, PartialEq, Eq, Structural)]
pub enum ChipError {
    /// A withdrawal asked for more value than the stack holds.
    InsufficientValue { requested: u32, available: u32 },
    /// A removal asked for more chips of a denomination than the stack
    /// holds.
    InsufficientChips { denomination: Denomination, requested: u32, available: u32 },
}

/// The human-readable message for a chip error.
pub open spec fn chip_error_message(err: ChipError) -> Seq<char> {
    match err {
        ChipError::InsufficientValue { requested, available } => "cannot withdraw $"@ + decimal(
            requested as nat,
        ) + " from a $"@ + decimal(available as nat) + " stack"@,
        ChipError::InsufficientChips { denomination, requested, available } => "cannot remove "@
            + decimal(requested as nat) + " "@ + denom_name(denomination)
            + " chips from a stack holding "@ + decimal(available as nat),
    }
}

impl ChipError {
    /// The error as a human-readable message.
    pub fn to_string(&self) -> (s: String)
        ensures
            s@ == chip_error_message(*self),
    {
        match *self {
            ChipError::InsufficientValue { requested, available } => {
                let mut s = String::from_str("cannot withdraw $");
                push_decimal(&mut s, requested as u64);
                s.append(" from a $");
                push_decimal(&mut s, available as u64);
                s.append(" stack");
                s
            },
            ChipError::InsufficientChips { denomination, requested, available } => {
                let mut s = String::from_str("cannot remove ");
                push_decimal(&mut s, requested as u64);
                s.append(" ");
                s.append(denomination.name());
                s.append(" chips from a stack holding ");
                push_decimal(&mut s, available as u64);
                s
            },
        }
    }
}

/// Chip counts per denomination: the mathematical content of a stack.
pub ghost struct Counts {
    pub ones: nat,
    pub fives: nat,
    pub twenty_fives: nat,
    pub hundreds: nat,
    pub five_hundreds: nat,
}

impl Counts {
    /// No chips at all.
    pub open spec fn empty() -> Counts {
        Counts { ones: 0, fives: 0, twenty_fives: 0, hundreds: 0, five_hundreds: 0 }
    }

    /// How many chips of `d`.
    pub open spec fn get(self, d: Denomination) -> nat {
        match d {
            Denomination::One => self.ones,
            Denomination::Five => self.fives,
            Denomination::TwentyFive => self.twenty_fives,
            Denomination::Hundred => self.hundreds,
            Denomination::FiveHundred => self.five_hundreds,
        }
    }

    /// The same counts with `d` replaced by `n`.
    pub open spec fn set(self, d: Denomination, n: nat) -> Counts {
        match d {
            Denomination::One => Counts { ones: n, ..self },
            Denomination::Five => Counts { fives: n, ..self },
            Denomination::TwentyFive => Counts { twenty_fives: n, ..self },
            Denomination::Hundred => Counts { hundreds: n, ..self },
            Denomination::FiveHundred => Counts { five_hundreds: n, ..self },
        }
    }

    /// Total value in whole dollars.
    pub open spec fn total(self) -> nat {
        self.ones + 5 * self.fives + 25 * self.twenty_fives + 100 * self.hundreds + 500
            * self.five_hundreds
    }

    /// Number of physical chips.
    pub open spec fn chip_count(self) -> nat {
        self.ones + self.fives + self.twenty_fives + self.hundreds + self.five_hundreds
    }

    /// Chip-wise sum of two stacks.
    pub open spec fn plus(self, other: Counts) -> Counts {
        Counts {
            ones: self.ones + other.ones,
            fives: self.fives + other.fives,
            twenty_fives: self.twenty_fives + other.twenty_fives,
            hundreds: self.hundreds + other.hundreds,
            five_hundreds: self.five_hundreds + other.five_hundreds,
        }
    }
}

/// Change for a multiple of five needs no $1 chips.
pub proof fn lemma_change_no_ones(amount: nat)
    requires
        amount % 5 == 0,
    ensures
        change_counts(amount).ones == 0,
{
}

/// Greedy change for `amount`: the largest-first breakdown.
pub open spec fn change_counts(amount: nat) -> Counts {
    Counts {
        five_hundreds: amount / 500,
        hundreds: (amount % 500) / 100,
        twenty_fives: (amount % 100) / 25,
        fives: (amount % 25) / 5,
        ones: amount % 5,
    }
}

// ----------------------------------------------------------------------
// The withdrawal procedure, as mathematics: greedy passes, largest chip
// first, breaking the smallest chip worth more than the remainder (a par
// exchange with the cage) whenever a pass leaves something owed.
// ----------------------------------------------------------------------

/// One greedy step at denomination `d`: take as many `d` chips as fit in
/// the remainder and are on hand.
pub open spec fn take_step(s: Counts, t: Counts, rem: nat, d: Denomination) -> (Counts, Counts, nat) {
    let k = if rem / denom_value(d) <= s.get(d) {
        rem / denom_value(d)
    } else {
        s.get(d)
    };
    (s.set(d, (s.get(d) - k) as nat), t.set(d, t.get(d) + k), (rem - k * denom_value(d)) as nat)
}

/// A full greedy pass, largest denomination first.
pub open spec fn greedy_pass(s: Counts, t: Counts, rem: nat) -> (Counts, Counts, nat) {
    let a = take_step(s, t, rem, Denomination::FiveHundred);
    let b = take_step(a.0, a.1, a.2, Denomination::Hundred);
    let c = take_step(b.0, b.1, b.2, Denomination::TwentyFive);
    let d = take_step(c.0, c.1, c.2, Denomination::Five);
    take_step(d.0, d.1, d.2, Denomination::One)
}

/// The smallest denomination on hand worth more than `rem`, if any.
pub open spec fn breakable(s: Counts, rem: nat) -> Option<Denomination> {
    if 1 > rem && s.ones > 0 {
        Some(Denomination::One)
    } else if 5 > rem && s.fives > 0 {
        Some(Denomination::Five)
    } else if 25 > rem && s.twenty_fives > 0 {
        Some(Denomination::TwentyFive)
    } else if 100 > rem && s.hundreds > 0 {
        Some(Denomination::Hundred)
    } else if 500 > rem && s.five_hundreds > 0 {
        Some(Denomination::FiveHundred)
    } else {
        None
    }
}

/// The next denomination down (the ones stay ones).
pub open spec fn lower(d: Denomination) -> Denomination {
    match d {
        Denomination::One => Denomination::One,
        Denomination::Five => Denomination::One,
        Denomination::TwentyFive => Denomination::Five,
        Denomination::Hundred => Denomination::TwentyFive,
        Denomination::FiveHundred => Denomination::Hundred,
    }
}

/// Exchange one `d` chip at par for chips of the next denomination down.
pub open spec fn break_chip(s: Counts, d: Denomination) -> Counts {
    let once = s.set(d, (s.get(d) - 1) as nat);
    once.set(lower(d), once.get(lower(d)) + denom_value(d) / denom_value(lower(d)))
}

/// A weight that every greedy take and every chip break strictly lowers.
pub open spec fn break_measure(s: Counts) -> nat {
    s.ones + 6 * s.fives + 31 * s.twenty_fives + 125 * s.hundreds + 626 * s.five_hundreds
}

/// Greedy passes and chip breaks until nothing is owed (or nothing can
/// be broken): the stack left behind and the chips taken.
pub open spec fn withdraw_loop(s: Counts, t: Counts, rem: nat) -> (Counts, Counts)
    decreases break_measure(s),
{
    let p = greedy_pass(s, t, rem);
    if p.2 == 0 {
        (p.0, p.1)
    } else {
        match breakable(p.0, p.2) {
            Some(d) => if d != Denomination::One && break_measure(break_chip(p.0, d))
                < break_measure(s) {
                withdraw_loop(break_chip(p.0, d), p.1, p.2)
            } else {
                (p.0, p.1)
            },
            None => (p.0, p.1),
        }
    }
}

/// Withdrawing `amount` from a stack: what is left and what comes out.
pub open spec fn withdraw_counts(s: Counts, amount: nat) -> (Counts, Counts) {
    withdraw_loop(s, Counts::empty(), amount)
}

/// A stack of chips: a multiset of [`Denomination`]s.
///
/// A `ChipStack` is a plain value — a bet on the felt, a payout being
/// pushed across it, the contents of a [`Rack`]. Two stacks are equal
/// when they hold the same chips, not merely the same total. A stack's
/// value always fits in `u32` dollars.
#[derive(Debug, Clone, Copy, PartialEq, Eq, Structural, Hash)]
pub struct ChipStack {
    ones: u32,
    fives: u32,
    twenty_fives: u32,
    hundreds: u32,
    five_hundreds: u32,
}

impl View for ChipStack {
    type V = Counts;

    closed spec fn view(&self) -> Counts {
        Counts {
            ones: self.ones as nat,
            fives: self.fives as nat,
            twenty_fives: self.twenty_fives as nat,
            hundreds: self.hundreds as nat,
            five_hundreds: self.five_hundreds as nat,
        }
    }
}

/// Stacks with the same counts are the same stack.
pub proof fn lemma_stack_ext(a: ChipStack, b: ChipStack)
    requires
        a@ == b@,
    ensures
        a == b,
{
}

impl ChipStack {
    /// Every stack's value fits in `u32` dollars.
    #[verifier::type_invariant]
    spec fn fits(self) -> bool {
        self@.total() <= u32::MAX
    }

    fn from_counts(c: Ghost<Counts>, ones: u32, fives: u32, twenty_fives: u32, hundreds: u32, five_hundreds: u32) -> (s: ChipStack)
        requires
            c@ == (Counts { ones: ones as nat, fives: fives as nat, twenty_fives: twenty_fives as nat, hundreds: hundreds as nat, five_hundreds: five_hundreds as nat }),
            c@.total() <= u32::MAX,
        ensures
            s@ == c@,
    {
        ChipStack { ones, fives, twenty_fives, hundreds, five_hundreds }
    }

    /// An empty stack.
    pub fn new() -> (s: ChipStack)
        ensures
            s@ == Counts::empty(),
    {
        ChipStack { ones: 0, fives: 0, twenty_fives: 0, hundreds: 0, five_hundreds: 0 }
    }

    /// Make change for `amount` dollars: the greedy largest-first
    /// breakdown, which is exact and uses the fewest possible chips
    /// because every denomination divides the next.
    pub fn change(amount: u32) -> (s: ChipStack)
        ensures
            s@ == change_counts(amount as nat),
            s@.total() == amount,
    {
        let five_hundreds = amount / 500;
        let mut remaining = amount % 500;
        let hundreds = remaining / 100;
        remaining = remaining % 100;
        let twenty_fives = remaining / 25;
        remaining = remaining % 25;
        let fives = remaining / 5;
        let ones = remaining % 5;
        proof {
            assert(amount % 500 % 100 == amount % 100) by (nonlinear_arith);
            assert(amount % 100 % 25 == amount % 25) by (nonlinear_arith);
        }
        ChipStack { ones, fives, twenty_fives, hundreds, five_hundreds }
    }

    /// The stack's total value in whole dollars.
    pub fn total(&self) -> (t: u32)
        ensures
            t == self@.total(),
    {
        proof { use_type_invariant(self); }
        self.ones + 5 * self.fives + 25 * self.twenty_fives + 100 * self.hundreds + 500
            * self.five_hundreds
    }

    /// How many chips of `denomination` the stack holds.
    pub fn count(&self, denomination: Denomination) -> (n: u32)
        ensures
            n == self@.get(denomination),
    {
        match denomination {
            Denomination::One => self.ones,
            Denomination::Five => self.fives,
            Denomination::TwentyFive => self.twenty_fives,
            Denomination::Hundred => self.hundreds,
            Denomination::FiveHundred => self.five_hundreds,
        }
    }

    /// The number of physical chips in the stack.
    pub fn chip_count(&self) -> (n: u32)
        ensures
            n == self@.chip_count(),
    {
        proof { use_type_invariant(self); }
        self.ones + self.fives + self.twenty_fives + self.hundreds + self.five_hundreds
    }

    /// Whether the stack holds no chips at all.
    pub fn is_empty(&self) -> (b: bool)
        ensures
            b == (self@ == Counts::empty()),
            b == (self@.chip_count() == 0),
    {
        self.ones == 0 && self.fives == 0 && self.twenty_fives == 0 && self.hundreds == 0
            && self.five_hundreds == 0
    }

    /// Add `count` chips of `denomination`.
    pub fn add_chips(&mut self, denomination: Denomination, count: u32)
        requires
            old(self)@.total() + count * denom_value(denomination) <= u32::MAX,
        ensures
            final(self)@ == old(self)@.set(denomination, (old(self)@.get(denomination) + count) as nat),
            final(self)@.total() == old(self)@.total() + count * denom_value(denomination),
    {
        match denomination {
            Denomination::One => self.ones = self.ones + count,
            Denomination::Five => self.fives = self.fives + count,
            Denomination::TwentyFive => self.twenty_fives = self.twenty_fives + count,
            Denomination::Hundred => self.hundreds = self.hundreds + count,
            Denomination::FiveHundred => self.five_hundreds = self.five_hundreds + count,
        }
    }

    /// Remove `count` chips of `denomination`, failing (without mutation)
    /// if the stack holds fewer.
    pub fn remove_chips(&mut self, denomination: Denomination, count: u32) -> (r: Result<(), ChipError>)
        ensures
            r is Ok <==> count <= old(self)@.get(denomination),
            r is Ok ==> final(self)@ == old(self)@.set(
                denomination,
                (old(self)@.get(denomination) - count) as nat,
            ),
            r is Err ==> *final(self) == *old(self) && r == Err::<(), ChipError>(
                ChipError::InsufficientChips {
                    denomination,
                    requested: count,
                    available: old(self)@.get(denomination) as u32,
                },
            ),
    {
        proof { use_type_invariant(&*self); }
        let available = self.count(denomination);
        if count > available {
            return Err(
                ChipError::InsufficientChips { denomination, requested: count, available },
            );
        }
        match denomination {
            Denomination::One => self.ones = self.ones - count,
            Denomination::Five => self.fives = self.fives - count,
            Denomination::TwentyFive => self.twenty_fives = self.twenty_fives - count,
            Denomination::Hundred => self.hundreds = self.hundreds - count,
            Denomination::FiveHundred => self.five_hundreds = self.five_hundreds - count,
        }
        Ok(())
    }

    /// Pour `other` into this stack.
    pub fn merge(&mut self, other: ChipStack)
        requires
            old(self)@.total() + other@.total() <= u32::MAX,
        ensures
            final(self)@ == old(self)@.plus(other@),
            final(self)@.total() == old(self)@.total() + other@.total(),
    {
        proof {
            use_type_invariant(&other);
            use_type_invariant(&*self);
        }
        self.ones = self.ones + other.ones;
        self.fives = self.fives + other.fives;
        self.twenty_fives = self.twenty_fives + other.twenty_fives;
        self.hundreds = self.hundreds + other.hundreds;
        self.five_hundreds = self.five_hundreds + other.five_hundreds;
    }
}


/// What one greedy pass does: value moves from the stack to the taken
/// chips and out of the remainder, the break measure never rises, and
/// afterwards every denomination still on hand is worth more than what
/// is left owed.
pub proof fn lemma_greedy_pass(s: Counts, t: Counts, rem: nat)
    ensures
        ({
            let p = greedy_pass(s, t, rem);
            &&& p.0.total() + p.1.total() == s.total() + t.total()
            &&& p.1.total() + p.2 == t.total() + rem
            &&& break_measure(p.0) <= break_measure(s)
            &&& p.0.ones > 0 ==> p.2 < 1
            &&& p.0.fives > 0 ==> p.2 < 5
            &&& p.0.twenty_fives > 0 ==> p.2 < 25
            &&& p.0.hundreds > 0 ==> p.2 < 100
            &&& p.0.five_hundreds > 0 ==> p.2 < 500
        }),
{
    let a = take_step(s, t, rem, Denomination::FiveHundred);
    let b = take_step(a.0, a.1, a.2, Denomination::Hundred);
    let c = take_step(b.0, b.1, b.2, Denomination::TwentyFive);
    let d = take_step(c.0, c.1, c.2, Denomination::Five);
    let e = take_step(d.0, d.1, d.2, Denomination::One);
    assert(rem / 500 * 500 <= rem && rem - rem / 500 * 500 < 500) by (nonlinear_arith);
    assert(a.2 / 100 * 100 <= a.2 && a.2 - a.2 / 100 * 100 < 100) by (nonlinear_arith);
    assert(b.2 / 25 * 25 <= b.2 && b.2 - b.2 / 25 * 25 < 25) by (nonlinear_arith);
    assert(c.2 / 5 * 5 <= c.2 && c.2 - c.2 / 5 * 5 < 5) by (nonlinear_arith);
    assert(d.2 / 1 * 1 <= d.2 && d.2 - d.2 / 1 * 1 < 1) by (nonlinear_arith);
}

/// Chips taken largest first: counting what is still owed after each
/// denomination from the $500s down, every denomination gives as many of
/// its chips as fit in what is still owed, or all it has, and nothing is
/// owed at the end.
pub open spec fn largest_first(s: Counts, t: Counts, amount: nat) -> bool {
    let r500 = amount - 500 * t.five_hundreds;
    let r100 = r500 - 100 * t.hundreds;
    let r25 = r100 - 25 * t.twenty_fives;
    let r5 = r25 - 5 * t.fives;
    let r1 = r5 - t.ones;
    &&& t.five_hundreds <= s.five_hundreds && 0 <= r500 && (t.five_hundreds == s.five_hundreds || r500 < 500)
    &&& t.hundreds <= s.hundreds && 0 <= r100 && (t.hundreds == s.hundreds || r100 < 100)
    &&& t.twenty_fives <= s.twenty_fives && 0 <= r25 && (t.twenty_fives == s.twenty_fives || r25 < 25)
    &&& t.fives <= s.fives && 0 <= r5 && (t.fives == s.fives || r5 < 5)
    &&& t.ones <= s.ones && r1 == 0
}

/// A greedy pass only moves chips from the stack to the chips taken.
pub proof fn lemma_greedy_pass_moves(s: Counts, t: Counts, rem: nat)
    ensures
        greedy_pass(s, t, rem).0.plus(greedy_pass(s, t, rem).1) == s.plus(t),
{
}

/// A greedy pass that pays the amount off takes the chips largest first.
pub proof fn lemma_greedy_pass_largest_first(s: Counts, amount: nat)
    ensures
        greedy_pass(s, Counts::empty(), amount).2 == 0 ==> largest_first(
            s,
            greedy_pass(s, Counts::empty(), amount).1,
            amount,
        ),
{
    let a = take_step(s, Counts::empty(), amount, Denomination::FiveHundred);
    let b = take_step(a.0, a.1, a.2, Denomination::Hundred);
    let c = take_step(b.0, b.1, b.2, Denomination::TwentyFive);
    let d = take_step(c.0, c.1, c.2, Denomination::Five);
    assert(amount / 500 * 500 <= amount && amount - amount / 500 * 500 < 500) by (nonlinear_arith);
    assert(a.2 / 100 * 100 <= a.2 && a.2 - a.2 / 100 * 100 < 100) by (nonlinear_arith);
    assert(b.2 / 25 * 25 <= b.2 && b.2 - b.2 / 25 * 25 < 25) by (nonlinear_arith);
    assert(c.2 / 5 * 5 <= c.2 && c.2 - c.2 / 5 * 5 < 5) by (nonlinear_arith);
}

/// Breaking chips only ever adds chips: what a withdrawal leaves and takes
/// together holds at least as many chips as it started with, and exactly
/// as many only when no chip was broken, the first greedy pass settling it.
pub proof fn lemma_withdraw_loop_chips(s: Counts, t: Counts, rem: nat)
    ensures
        ({
            let r = withdraw_loop(s, t, rem);
            let p = greedy_pass(s, t, rem);
            &&& r.0.chip_count() + r.1.chip_count() >= s.chip_count() + t.chip_count()
            &&& r.0.chip_count() + r.1.chip_count() == s.chip_count() + t.chip_count() ==> r == (p.0, p.1)
        }),
    decreases break_measure(s),
{
    let p = greedy_pass(s, t, rem);
    lemma_greedy_pass_moves(s, t, rem);
    if p.2 != 0 {
        match breakable(p.0, p.2) {
            Some(d) => if d != Denomination::One && break_measure(break_chip(p.0, d)) < break_measure(s) {
                lemma_withdraw_loop_chips(break_chip(p.0, d), p.1, p.2);
                assert(p.0.get(d) > 0);
                assert(denom_value(d) / denom_value(lower(d)) >= 2) by {
                    match d {
                        Denomination::One => {},
                        Denomination::Five => {
                            assert(5nat / 1nat == 5);
                        },
                        Denomination::TwentyFive => {
                            assert(25nat / 5nat == 5);
                        },
                        Denomination::Hundred => {
                            assert(100nat / 25nat == 4);
                        },
                        Denomination::FiveHundred => {
                            assert(500nat / 100nat == 5);
                        },
                    }
                }
                assert(break_chip(p.0, d).chip_count() > p.0.chip_count());
            },
            None => {},
        }
    }
}

/// Chips come out largest first: in a withdrawal that breaks no chip —
/// what is left and what comes out together are the stack as it was —
/// every denomination, from the largest down, gives as many chips as fit
/// in what is still owed, or all it has.
pub proof fn lemma_withdraw_largest_first(s: Counts, amount: nat)
    ensures
        ({
            let r = withdraw_counts(s, amount);
            r.0.plus(r.1) == s && r.1.total() == amount ==> largest_first(s, r.1, amount)
        }),
{
    lemma_withdraw_loop_chips(s, Counts::empty(), amount);
    lemma_greedy_pass(s, Counts::empty(), amount);
    lemma_greedy_pass_largest_first(s, amount);
}

/// Whenever the stack can pay the amount largest first without breaking a
/// chip, that is exactly what a withdrawal takes, and what is left is the
/// rest of the stack.
pub proof fn lemma_withdraw_takes_largest_first(s: Counts, t: Counts, amount: nat)
    requires
        largest_first(s, t, amount),
    ensures
        withdraw_counts(s, amount).1 == t,
        withdraw_counts(s, amount).0.plus(t) == s,
{
    let r500 = amount - 500 * t.five_hundreds;
    let r100 = r500 - 100 * t.hundreds;
    let r25 = r100 - 25 * t.twenty_fives;
    let r5 = r25 - 5 * t.fives;
    let a = take_step(s, Counts::empty(), amount, Denomination::FiveHundred);
    let b = take_step(a.0, a.1, a.2, Denomination::Hundred);
    let c = take_step(b.0, b.1, b.2, Denomination::TwentyFive);
    let d = take_step(c.0, c.1, c.2, Denomination::Five);
    let e = take_step(d.0, d.1, d.2, Denomination::One);
    lemma_taken_step(amount as int, t.five_hundreds as int, s.five_hundreds as int, 500);
    assert(a.1.five_hundreds == t.five_hundreds && a.2 == r500);
    lemma_taken_step(r500, t.hundreds as int, s.hundreds as int, 100);
    assert(b.1.hundreds == t.hundreds && b.2 == r100);
    lemma_taken_step(r100, t.twenty_fives as int, s.twenty_fives as int, 25);
    assert(c.1.twenty_fives == t.twenty_fives && c.2 == r25);
    lemma_taken_step(r25, t.fives as int, s.fives as int, 5);
    assert(d.1.fives == t.fives && d.2 == r5);
    lemma_taken_step(r5, t.ones as int, s.ones as int, 1);
    assert(e.1 == t);
    assert(e.2 == 0);
    assert(greedy_pass(s, Counts::empty(), amount) == e);
    lemma_greedy_pass_moves(s, Counts::empty(), amount);
    assert(Counts::empty().plus(s) == s);
}

/// One largest-first step: taking `k` chips worth `v` each out of `have`
/// from `rem` owed, with all of them taken or less than `v` left owed, is
/// taking as many as fit.
pub proof fn lemma_taken_step(rem: int, k: int, have: int, v: int)
    requires
        v > 0,
        0 <= k <= have,
        0 <= rem - v * k,
        k == have || rem - v * k < v,
    ensures
        (if rem / v <= have {
            rem / v
        } else {
            have
        }) == k,
{
    if k == have {
        assert(rem / v >= k) by (nonlinear_arith)
            requires
                v > 0,
                rem - v * k >= 0,
                k >= 0,
        ;
    } else {
        assert(rem / v == k) by (nonlinear_arith)
            requires
                v > 0,
                0 <= rem - v * k < v,
        ;
    }
}

/// After a greedy pass leaves something owed on a solvent stack, there is
/// a chip worth more than the remainder to break, it is not a $1 chip,
/// and breaking it lowers the measure.
pub proof fn lemma_break_available(s: Counts, rem: nat)
    requires
        rem > 0,
        s.total() >= rem,
        s.ones > 0 ==> rem < 1,
        s.fives > 0 ==> rem < 5,
        s.twenty_fives > 0 ==> rem < 25,
        s.hundreds > 0 ==> rem < 100,
        s.five_hundreds > 0 ==> rem < 500,
    ensures
        breakable(s, rem) is Some,
        breakable(s, rem)->0 != Denomination::One,
        s.get(breakable(s, rem)->0) > 0,
        break_measure(break_chip(s, breakable(s, rem)->0)) < break_measure(s),
        break_chip(s, breakable(s, rem)->0).total() == s.total(),
{
    assert(5nat / 1 == 5 && 25nat / 5 == 5 && 100nat / 25 == 4 && 500nat / 100 == 5);
}

impl ChipStack {
    fn set_count(&mut self, denomination: Denomination, n: u32)
        requires
            old(self)@.set(denomination, n as nat).total() <= u32::MAX,
        ensures
            final(self)@ == old(self)@.set(denomination, n as nat),
    {
        match denomination {
            Denomination::One => self.ones = n,
            Denomination::Five => self.fives = n,
            Denomination::TwentyFive => self.twenty_fives = n,
            Denomination::Hundred => self.hundreds = n,
            Denomination::FiveHundred => self.five_hundreds = n,
        }
    }

    /// One greedy step: move as many `denomination` chips as fit in the
    /// remainder from this stack to `taken`.
    fn take_greedy(&mut self, taken: &mut ChipStack, remaining: &mut u32, denomination: Denomination)
        requires
            old(self)@.total() + old(taken)@.total() <= u32::MAX,
        ensures
            (final(self)@, final(taken)@, *final(remaining) as nat) == take_step(
                old(self)@,
                old(taken)@,
                *old(remaining) as nat,
                denomination,
            ),
    {
        proof {
            use_type_invariant(&*self);
            use_type_invariant(&*taken);
        }
        let v = denomination.value();
        let have = self.count(denomination);
        let fit = *remaining / v;
        let take = if fit <= have { fit } else { have };
        proof {
            assert(take * denom_value(denomination) <= *remaining) by (nonlinear_arith)
                requires take <= fit, fit == *remaining / v, v == denom_value(denomination), v > 0;
            let h = have as nat;
            let dv = denom_value(denomination);
            assert(take * dv <= h * dv) by (nonlinear_arith)
                requires take <= h;
        }
        let now_taken = taken.count(denomination);
        self.set_count(denomination, have - take);
        taken.set_count(denomination, now_taken + take);
        *remaining = *remaining - take * v;
    }

    /// Exchange one `denomination` chip at par for chips of the next
    /// denomination down.
    fn break_one(&mut self, denomination: Denomination)
        requires
            denomination != Denomination::One,
            old(self)@.get(denomination) > 0,
        ensures
            final(self)@ == break_chip(old(self)@, denomination),
    {
        proof { use_type_invariant(&*self); }
        match denomination {
            Denomination::Five => {
                self.fives = self.fives - 1;
                self.ones = self.ones + 5;
            },
            Denomination::TwentyFive => {
                self.twenty_fives = self.twenty_fives - 1;
                self.fives = self.fives + 5;
            },
            Denomination::Hundred => {
                self.hundreds = self.hundreds - 1;
                self.twenty_fives = self.twenty_fives + 4;
            },
            _ => {
                self.five_hundreds = self.five_hundreds - 1;
                self.hundreds = self.hundreds + 5;
            },
        }
    }

    fn find_breakable(&self, remaining: u32) -> (d: Option<Denomination>)
        ensures
            d == breakable(self@, remaining as nat),
    {
        if 1 > remaining && self.ones > 0 {
            Some(Denomination::One)
        } else if 5 > remaining && self.fives > 0 {
            Some(Denomination::Five)
        } else if 25 > remaining && self.twenty_fives > 0 {
            Some(Denomination::TwentyFive)
        } else if 100 > remaining && self.hundreds > 0 {
            Some(Denomination::Hundred)
        } else if 500 > remaining && self.five_hundreds > 0 {
            Some(Denomination::FiveHundred)
        } else {
            None
        }
    }

    /// Withdraw exactly `amount` dollars in chips, failing (without
    /// mutation) if the stack is worth less.
    ///
    /// Chips come out greedily, largest first. When the stack cannot pay
    /// exactly with the chips on hand (say a lone black chip owing $10), a
    /// chip is broken — exchanged at par for the next denomination down,
    /// as a player makes change with the cage — until the amount can be
    /// cut. The withdrawal and the remaining stack always sum to the
    /// original total.
    pub fn withdraw(&mut self, amount: u32) -> (r: Result<ChipStack, ChipError>)
        ensures
            r is Ok <==> amount <= old(self)@.total(),
            r matches Ok(taken) ==> (final(self)@, taken@) == withdraw_counts(
                old(self)@,
                amount as nat,
            ),
            r matches Ok(taken) ==> taken@.total() == amount,
            r matches Ok(taken) ==> final(self)@.total() == old(self)@.total() - amount,
            r is Err ==> *final(self) == *old(self) && r == Err::<ChipStack, ChipError>(
                ChipError::InsufficientValue {
                    requested: amount,
                    available: old(self)@.total() as u32,
                },
            ),
    {
        let available = self.total();
        if available < amount {
            return Err(ChipError::InsufficientValue { requested: amount, available });
        }
        let mut taken = ChipStack::new();
        let mut remaining = amount;
        loop
            invariant
                withdraw_loop(self@, taken@, remaining as nat) == withdraw_counts(
                    old(self)@,
                    amount as nat,
                ),
                self@.total() + taken@.total() == old(self)@.total(),
                taken@.total() + remaining == amount,
                remaining <= self@.total(),
                old(self)@.total() <= u32::MAX,
            decreases break_measure(self@),
        {
            let ghost s0 = self@;
            let ghost t0 = taken@;
            let ghost r0 = remaining as nat;
            proof { lemma_greedy_pass(s0, t0, r0); }
            // Greedy pass, largest first. Afterwards every denomination
            // still in the stack is worth more than what remains owed.
            self.take_greedy(&mut taken, &mut remaining, Denomination::FiveHundred);
            self.take_greedy(&mut taken, &mut remaining, Denomination::Hundred);
            self.take_greedy(&mut taken, &mut remaining, Denomination::TwentyFive);
            self.take_greedy(&mut taken, &mut remaining, Denomination::Five);
            self.take_greedy(&mut taken, &mut remaining, Denomination::One);
            assert((self@, taken@, remaining as nat) == greedy_pass(s0, t0, r0));
            if remaining == 0 {
                return Ok(taken);
            }
            // Break the smallest chip larger than the remainder into the
            // next denomination down (a par exchange with the cage).
            proof { lemma_break_available(self@, remaining as nat); }
            let broken = self.find_breakable(remaining);
            match broken {
                Some(d) => self.break_one(d),
                None => {},
            }
        }
    }

    /// Color up: the same total in the fewest possible chips — exactly
    /// [`ChipStack::change`] of the total.
    pub fn color_up(&self) -> (s: ChipStack)
        ensures
            s@ == change_counts(self@.total()),
            s@.total() == self@.total(),
    {
        ChipStack::change(self.total())
    }
}

/// The present denominations of a stack, smallest first, with counts.
pub open spec fn present_entries(c: Counts) -> Seq<(Denomination, u32)> {
    entry(c, Denomination::One) + entry(c, Denomination::Five) + entry(
        c,
        Denomination::TwentyFive,
    ) + entry(c, Denomination::Hundred) + entry(c, Denomination::FiveHundred)
}

/// One denomination's entry: empty when no chip of it is present.
pub open spec fn entry(c: Counts, d: Denomination) -> Seq<(Denomination, u32)> {
    if c.get(d) > 0 {
        seq![(d, c.get(d) as u32)]
    } else {
        Seq::empty()
    }
}

/// Every physical chip of a stack, smallest first.
pub open spec fn chip_sequence(c: Counts) -> Seq<Denomination> {
    Seq::new(c.ones, |i: int| Denomination::One) + Seq::new(c.fives, |i: int| Denomination::Five)
        + Seq::new(c.twenty_fives, |i: int| Denomination::TwentyFive) + Seq::new(
        c.hundreds,
        |i: int| Denomination::Hundred,
    ) + Seq::new(c.five_hundreds, |i: int| Denomination::FiveHundred)
}

/// How many chips of `d` a sequence of chips holds.
pub open spec fn occurrences(chips: Seq<Denomination>, d: Denomination) -> nat
    decreases chips.len(),
{
    if chips.len() == 0 {
        0
    } else {
        occurrences(chips.drop_last(), d) + if chips.last() == d {
            1nat
        } else {
            0nat
        }
    }
}

/// The dollar value of a sequence of chips.
pub open spec fn sequence_value(chips: Seq<Denomination>) -> nat
    decreases chips.len(),
{
    if chips.len() == 0 {
        0
    } else {
        sequence_value(chips.drop_last()) + denom_value(chips.last())
    }
}

/// The counts of a sequence of chips.
pub open spec fn sequence_counts(chips: Seq<Denomination>) -> Counts {
    Counts {
        ones: occurrences(chips, Denomination::One),
        fives: occurrences(chips, Denomination::Five),
        twenty_fives: occurrences(chips, Denomination::TwentyFive),
        hundreds: occurrences(chips, Denomination::Hundred),
        five_hundreds: occurrences(chips, Denomination::FiveHundred),
    }
}

/// Chips gathered from two runs are the chips of each.
pub proof fn lemma_occurrences_concat(a: Seq<Denomination>, b: Seq<Denomination>, d: Denomination)
    ensures
        occurrences(a + b, d) == occurrences(a, d) + occurrences(b, d),
    decreases b.len(),
{
    if b.len() == 0 {
        assert(a + b =~= a);
    } else {
        assert((a + b).drop_last() =~= a + b.drop_last());
        assert((a + b).last() == b.last());
        lemma_occurrences_concat(a, b.drop_last(), d);
    }
}

/// A run of `n` chips of `e` holds `n` chips of `e` and none of any other.
pub proof fn lemma_occurrences_run(n: nat, e: Denomination, d: Denomination)
    ensures
        occurrences(Seq::new(n, |i: int| e), d) == if e == d {
            n
        } else {
            0
        },
    decreases n,
{
    if n > 0 {
        assert(Seq::new(n, |i: int| e).drop_last() =~= Seq::new((n - 1) as nat, |i: int| e));
        lemma_occurrences_run((n - 1) as nat, e, d);
    }
}

/// The walk of a stack holds each denomination as often as the stack.
pub proof fn lemma_occurrences_chip_sequence(c: Counts, d: Denomination)
    ensures
        occurrences(chip_sequence(c), d) == c.get(d),
{
    let r1 = Seq::new(c.ones, |i: int| Denomination::One);
    let r2 = Seq::new(c.fives, |i: int| Denomination::Five);
    let r3 = Seq::new(c.twenty_fives, |i: int| Denomination::TwentyFive);
    let r4 = Seq::new(c.hundreds, |i: int| Denomination::Hundred);
    let r5 = Seq::new(c.five_hundreds, |i: int| Denomination::FiveHundred);
    lemma_occurrences_concat(r1 + r2 + r3 + r4, r5, d);
    lemma_occurrences_concat(r1 + r2 + r3, r4, d);
    lemma_occurrences_concat(r1 + r2, r3, d);
    lemma_occurrences_concat(r1, r2, d);
    lemma_occurrences_run(c.ones, Denomination::One, d);
    lemma_occurrences_run(c.fives, Denomination::Five, d);
    lemma_occurrences_run(c.twenty_fives, Denomination::TwentyFive, d);
    lemma_occurrences_run(c.hundreds, Denomination::Hundred, d);
    lemma_occurrences_run(c.five_hundreds, Denomination::FiveHundred, d);
}

/// Walking a stack chip by chip, smallest first, and gathering the chips
/// again gives the same stack: the walk holds every chip once, in
/// ascending denomination, and is worth what the stack is worth.
pub proof fn lemma_chips_round_trip(c: Counts)
    ensures
        sequence_counts(chip_sequence(c)) == c,
        sequence_value(chip_sequence(c)) == c.total(),
        chip_sequence(c).len() == c.chip_count(),
        forall|i: int, j: int|
            0 <= i <= j < chip_sequence(c).len() ==> denom_index(chip_sequence(c)[i]) <= denom_index(
                chip_sequence(c)[j],
            ),
{
    lemma_occurrences_chip_sequence(c, Denomination::One);
    lemma_occurrences_chip_sequence(c, Denomination::Five);
    lemma_occurrences_chip_sequence(c, Denomination::TwentyFive);
    lemma_occurrences_chip_sequence(c, Denomination::Hundred);
    lemma_occurrences_chip_sequence(c, Denomination::FiveHundred);
    lemma_sequence_counts_total(chip_sequence(c));
    let q = chip_sequence(c);
    let b1 = c.ones as int;
    let b2 = b1 + c.fives;
    let b3 = b2 + c.twenty_fives;
    let b4 = b3 + c.hundreds;
    assert forall|i: int| 0 <= i < q.len() implies denom_index(#[trigger] q[i]) == (if i < b1 {
        0int
    } else if i < b2 {
        1int
    } else if i < b3 {
        2int
    } else if i < b4 {
        3int
    } else {
        4int
    }) by {}
}

/// Counting a sequence of chips agrees with its value.
pub proof fn lemma_sequence_counts_total(chips: Seq<Denomination>)
    ensures
        sequence_counts(chips).total() == sequence_value(chips),
    decreases chips.len(),
{
    if chips.len() > 0 {
        lemma_sequence_counts_total(chips.drop_last());
    }
}

/// Every prefix of a sequence of chips is worth no more than the whole.
pub proof fn lemma_sequence_value_prefix(chips: Seq<Denomination>, i: int)
    requires
        0 <= i <= chips.len(),
    ensures
        sequence_value(chips.subrange(0, i)) <= sequence_value(chips),
    decreases chips.len() - i,
{
    if i < chips.len() {
        lemma_sequence_value_prefix(chips, i + 1);
        assert(chips.subrange(0, i + 1).drop_last() =~= chips.subrange(0, i));
    } else {
        assert(chips.subrange(0, i) =~= chips);
    }
}

impl ChipStack {
    /// The denominations present, smallest first, with their counts.
    /// Denominations with no chips are skipped.
    pub fn iter(&self) -> (v: Vec<(Denomination, u32)>)
        ensures
            v@ == present_entries(self@),
    {
        let mut v: Vec<(Denomination, u32)> = Vec::new();
        if self.ones > 0 {
            v.push((Denomination::One, self.ones));
        }
        if self.fives > 0 {
            v.push((Denomination::Five, self.fives));
        }
        if self.twenty_fives > 0 {
            v.push((Denomination::TwentyFive, self.twenty_fives));
        }
        if self.hundreds > 0 {
            v.push((Denomination::Hundred, self.hundreds));
        }
        if self.five_hundreds > 0 {
            v.push((Denomination::FiveHundred, self.five_hundreds));
        }
        proof {
            assert(v@ =~= present_entries(self@));
        }
        v
    }

    fn push_repeated(v: &mut Vec<Denomination>, d: Denomination, n: u32)
        ensures
            final(v)@ == old(v)@ + Seq::new(n as nat, |i: int| d),
    {
        let mut k: u32 = 0;
        while k < n
            invariant
                k <= n,
                v@ == old(v)@ + Seq::new(k as nat, |i: int| d),
            decreases n - k,
        {
            v.push(d);
            k = k + 1;
            proof {
                assert(v@ =~= old(v)@ + Seq::new(k as nat, |i: int| d));
            }
        }
    }

    /// Every physical chip in the stack, one at a time, smallest first —
    /// for rendering each chip individually.
    pub fn chips(&self) -> (v: Vec<Denomination>)
        ensures
            v@ == chip_sequence(self@),
    {
        let mut v: Vec<Denomination> = Vec::new();
        ChipStack::push_repeated(&mut v, Denomination::One, self.ones);
        ChipStack::push_repeated(&mut v, Denomination::Five, self.fives);
        ChipStack::push_repeated(&mut v, Denomination::TwentyFive, self.twenty_fives);
        ChipStack::push_repeated(&mut v, Denomination::Hundred, self.hundreds);
        ChipStack::push_repeated(&mut v, Denomination::FiveHundred, self.five_hundreds);
        proof {
            assert(v@ =~= chip_sequence(self@));
        }
        v
    }

    /// Gather individual chips into a stack, one chip at a time.
    pub fn from_chips(chips: &[Denomination]) -> (s: ChipStack)
        requires
            sequence_value(chips@) <= u32::MAX,
        ensures
            s@ == sequence_counts(chips@),
    {
        let mut s = ChipStack::new();
        let mut i: usize = 0;
        while i < chips.len()
            invariant
                i <= chips@.len(),
                sequence_value(chips@) <= u32::MAX,
                s@ == sequence_counts(chips@.subrange(0, i as int)),
            decreases chips.len() - i,
        {
            let d = chips[i];
            proof {
                let prefix = chips@.subrange(0, i as int);
                assert(chips@.subrange(0, i + 1).drop_last() =~= prefix);
                lemma_sequence_counts_total(prefix);
                lemma_sequence_value_prefix(chips@, i + 1);
                lemma_sequence_counts_total(chips@.subrange(0, i + 1));
            }
            s.add_chips(d, 1);
            i = i + 1;
        }
        proof {
            assert(chips@.subrange(0, chips@.len() as int) =~= chips@);
        }
        s
    }
}

impl core::ops::Add for ChipStack {
    type Output = ChipStack;

    /// Two stacks poured together: the chips of both.
    fn add(self, rhs: ChipStack) -> (r: ChipStack) {
        let mut r = self;
        r.merge(rhs);
        r
    }
}

impl vstd::std_specs::ops::AddSpecImpl for ChipStack {
    open spec fn obeys_add_spec() -> bool {
        true
    }

    open spec fn add_req(self, rhs: ChipStack) -> bool {
        self@.total() + rhs@.total() <= u32::MAX
    }

    /// The stack holding the chips of both (stacks with the same chips are
    /// the same stack).
    open spec fn add_spec(self, rhs: ChipStack) -> ChipStack {
        choose|r: ChipStack| r@ == self@.plus(rhs@)
    }
}

impl core::ops::AddAssign for ChipStack {
    /// Pour `rhs` into this stack, as [`ChipStack::merge`] does.
    fn add_assign(&mut self, rhs: ChipStack)
        requires
            old(self)@.total() + rhs@.total() <= u32::MAX,
        ensures
            final(self)@ == old(self)@.plus(rhs@),
    {
        self.merge(rhs);
    }
}

impl Default for ChipStack {
    /// An empty stack.
    fn default() -> (s: ChipStack)
        ensures
            s@ == Counts::empty(),
    {
        ChipStack::new()
    }
}

/// The chips the dealer pushes for winning `winnings` on `bet`: the bet
/// mirrored chip for chip on an even-money win, minimal change otherwise.
pub open spec fn spec_payout_chips(bet: Counts, winnings: nat) -> Counts {
    if winnings == bet.total() {
        bet
    } else {
        change_counts(winnings)
    }
}

/// The chips the dealer physically pushes toward the player for winning
/// `winnings` dollars on the bet sitting on the felt as `bet_stack`.
///
/// An even-money win is paid by mirroring the bet chip for chip, exactly
/// as a real dealer sizes the payout against the bet; any other amount (a
/// 3:2 natural, a rounded surrender return) is cut as minimal change. The
/// returned stack always totals exactly `winnings`.
pub fn payout_chips(bet_stack: &ChipStack, winnings: u32) -> (s: ChipStack)
    ensures
        s@ == spec_payout_chips(bet_stack@, winnings as nat),
        s@.total() == winnings,
{
    if winnings == bet_stack.total() {
        *bet_stack
    } else {
        ChipStack::change(winnings)
    }
}

/// A rack of chips: a player's bankroll, or the house tray.
///
/// The rack is the bridge between chips and rounds: chips leave it when a
/// bet (or insurance stake, double, or split) goes onto the felt, and come
/// back when a settlement pays out.
#[derive(Debug, Clone, Copy, PartialEq, Eq, Structural)]
pub struct Rack {
    chips: ChipStack,
}

impl View for Rack {
    type V = Counts;

    closed spec fn view(&self) -> Counts {
        self.chips@
    }
}

impl Rack {
    /// An empty rack.
    pub fn new() -> (r: Rack)
        ensures
            r@ == Counts::empty(),
    {
        Rack { chips: ChipStack::new() }
    }

    /// A rack holding `amount` dollars as minimal change.
    pub fn with_bankroll(amount: u32) -> (r: Rack)
        ensures
            r@ == change_counts(amount as nat),
            r@.total() == amount,
    {
        Rack { chips: ChipStack::change(amount) }
    }

    /// A rack holding exactly `chips`.
    pub fn from_chips(chips: ChipStack) -> (r: Rack)
        ensures
            r@ == chips@,
    {
        Rack { chips }
    }

    /// The chips in the rack.
    pub fn chips(&self) -> (c: &ChipStack)
        ensures
            c@ == self@,
    {
        &self.chips
    }

    /// The rack's total value in whole dollars.
    pub fn total(&self) -> (t: u32)
        ensures
            t == self@.total(),
    {
        self.chips.total()
    }

    /// Take `amount` dollars of chips out of the rack to place on the
    /// felt, breaking chips as needed. Fails (without mutation) if the
    /// rack is worth less than `amount`.
    pub fn place_bet(&mut self, amount: u32) -> (r: Result<ChipStack, ChipError>)
        ensures
            r is Ok <==> amount <= old(self)@.total(),
            r matches Ok(taken) ==> (final(self)@, taken@) == withdraw_counts(
                old(self)@,
                amount as nat,
            ),
            r matches Ok(taken) ==> taken@.total() == amount,
            r matches Ok(taken) ==> final(self)@.total() == old(self)@.total() - amount,
            r is Err ==> *final(self) == *old(self) && r == Err::<ChipStack, ChipError>(
                ChipError::InsufficientValue {
                    requested: amount,
                    available: old(self)@.total() as u32,
                },
            ),
    {
        self.chips.withdraw(amount)
    }

    /// Pour chips into the rack — a settlement payout, a returned bet, or
    /// a buy-in.
    pub fn receive(&mut self, chips: ChipStack)
        requires
            old(self)@.total() + chips@.total() <= u32::MAX,
        ensures
            final(self)@ == old(self)@.plus(chips@),
            final(self)@.total() == old(self)@.total() + chips@.total(),
    {
        self.chips.merge(chips);
    }

    /// Settle a bet against this rack acting as the house tray: sweep the
    /// felt chips (`bet`) into the tray, then cut and return the chips
    /// owed back to the player — the stake plus `net`.
    ///
    /// Fails (without losing the swept bet) if the tray cannot cover the
    /// payout. The engine never settles a hand for more than its stake,
    /// so `net` is never below `-bet.total()`.
    pub fn settle(&mut self, bet: ChipStack, net: i32) -> (r: Result<ChipStack, ChipError>)
        requires
            bet@.total() + net >= 0,
            bet@.total() + net <= u32::MAX,
            old(self)@.total() + bet@.total() <= u32::MAX,
        ensures
            r is Ok <==> bet@.total() + net <= old(self)@.total() + bet@.total(),
            r matches Ok(returned) ==> (final(self)@, returned@) == withdraw_counts(
                old(self)@.plus(bet@),
                (bet@.total() + net) as nat,
            ),
            r matches Ok(returned) ==> returned@.total() == bet@.total() + net,
            r matches Ok(returned) ==> final(self)@.total() == old(self)@.total() - net,
            r is Err ==> final(self)@ == old(self)@.plus(bet@) && r == Err::<ChipStack, ChipError>(
                ChipError::InsufficientValue {
                    requested: (bet@.total() + net) as u32,
                    available: (old(self)@.total() + bet@.total()) as u32,
                },
            ),
    {
        let stake = bet.total() as i64;
        let returned = stake + net as i64;
        self.chips.merge(bet);
        self.chips.withdraw(returned as u32)
    }

    /// Color up the rack in place: same total, fewest chips.
    pub fn color_up(&mut self)
        ensures
            final(self)@ == change_counts(old(self)@.total()),
            final(self)@.total() == old(self)@.total(),
    {
        self.chips = self.chips.color_up();
    }
}

impl Default for Rack {
    /// An empty rack.
    fn default() -> (r: Rack)
        ensures
            r@ == Counts::empty(),
    {
        Rack::new()
    }
}

/// Greedy change is exact: it is worth precisely the amount asked for.
pub proof fn lemma_change_is_exact(amount: nat)
    ensures
        change_counts(amount).total() == amount,
{
    assert(amount % 500 % 100 == amount % 100) by (nonlinear_arith);
    assert(amount % 100 % 25 == amount % 25) by (nonlinear_arith);
    assert(amount == 500 * (amount / 500) + amount % 500) by (nonlinear_arith);
    assert(amount % 500 == 100 * ((amount % 500) / 100) + amount % 100) by (nonlinear_arith);
    assert(amount % 100 == 25 * ((amount % 100) / 25) + amount % 25) by (nonlinear_arith);
    assert(amount % 25 == 5 * ((amount % 25) / 5) + amount % 5) by (nonlinear_arith);
}

/// A stack that cannot be colored up any further (fewer than five $1,
/// five $5, four $25, and five $100 chips) is exactly the greedy change
/// for its total.
pub proof fn lemma_canonical_is_change(c: Counts)
    requires
        c.ones < 5,
        c.fives < 5,
        c.twenty_fives < 4,
        c.hundreds < 5,
    ensures
        change_counts(c.total()) == c,
{
    let t = c.total();
    let rest = c.ones + 5 * c.fives + 25 * c.twenty_fives + 100 * c.hundreds;
    assert(rest < 500);
    assert(t / 500 == c.five_hundreds && t % 500 == rest) by (nonlinear_arith)
        requires t == rest + 500 * c.five_hundreds, rest < 500;
    let r2 = c.ones + 5 * c.fives + 25 * c.twenty_fives;
    assert(rest / 100 == c.hundreds && t % 100 == r2) by (nonlinear_arith)
        requires rest == r2 + 100 * c.hundreds, r2 < 100, t == rest + 500 * c.five_hundreds;
    let r3 = c.ones + 5 * c.fives;
    assert(r2 / 25 == c.twenty_fives && t % 25 == r3) by (nonlinear_arith)
        requires r2 == r3 + 25 * c.twenty_fives, r3 < 25, t == r2 + 100 * c.hundreds + 500
            * c.five_hundreds;
    assert(r3 / 5 == c.fives && t % 5 == c.ones) by (nonlinear_arith)
        requires r3 == c.ones + 5 * c.fives, c.ones < 5, t == r3 + 25 * c.twenty_fives + 100
            * c.hundreds + 500 * c.five_hundreds;
    assert(t % 500 % 100 == t % 100) by (nonlinear_arith);
    assert(t % 100 % 25 == t % 25) by (nonlinear_arith);
}

/// Greedy change uses the fewest chips of any stack worth the same: no
/// arrangement of chips with the same total has fewer chips.
pub proof fn lemma_change_is_minimal(c: Counts)
    ensures
        change_counts(c.total()).chip_count() <= c.chip_count(),
    decreases c.chip_count(),
{
    if c.ones >= 5 {
        let d = Counts { ones: (c.ones - 5) as nat, fives: c.fives + 1, ..c };
        lemma_change_is_minimal(d);
    } else if c.fives >= 5 {
        let d = Counts { fives: (c.fives - 5) as nat, twenty_fives: c.twenty_fives + 1, ..c };
        lemma_change_is_minimal(d);
    } else if c.twenty_fives >= 4 {
        let d = Counts { twenty_fives: (c.twenty_fives - 4) as nat, hundreds: c.hundreds + 1, ..c };
        lemma_change_is_minimal(d);
    } else if c.hundreds >= 5 {
        let d = Counts { hundreds: (c.hundreds - 5) as nat, five_hundreds: c.five_hundreds + 1, ..c };
        lemma_change_is_minimal(d);
    } else {
        lemma_canonical_is_change(c);
    }
}

/// Coloring up never adds chips, and keeps the value.
pub proof fn lemma_color_up_never_grows(c: Counts)
    ensures
        change_counts(c.total()).total() == c.total(),
        change_counts(c.total()).chip_count() <= c.chip_count(),
{
    lemma_change_is_exact(c.total());
    lemma_change_is_minimal(c);
}

/// A withdrawal conserves value: what is taken plus what is left is the
/// original stack's worth, whenever the stack can cover the amount.
pub proof fn lemma_withdraw_conserves(s: Counts, amount: nat)
    requires
        amount <= s.total(),
    ensures
        withdraw_counts(s, amount).0.total() + withdraw_counts(s, amount).1.total() == s.total(),
        withdraw_counts(s, amount).1.total() == amount,
{
    lemma_withdraw_loop_conserves(s, Counts::empty(), amount);
}

proof fn lemma_withdraw_loop_conserves(s: Counts, t: Counts, rem: nat)
    requires
        rem <= s.total(),
    ensures
        withdraw_loop(s, t, rem).0.total() + withdraw_loop(s, t, rem).1.total() == s.total()
            + t.total(),
        withdraw_loop(s, t, rem).1.total() == t.total() + rem,
    decreases break_measure(s),
{
    lemma_greedy_pass(s, t, rem);
    let p = greedy_pass(s, t, rem);
    if p.2 != 0 {
        lemma_break_available(p.0, p.2);
        let d = breakable(p.0, p.2)->0;
        lemma_withdraw_loop_conserves(break_chip(p.0, d), p.1, p.2);
    }
}
} // verus!
