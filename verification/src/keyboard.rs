//! The keyboard mirror of the felt gestures.
//!
//! # Key map
//!
//! | Key | Meaning |
//! |---|---|
//! | `H` | hit |
//! | `S` | stand |
//! | `D` | double |
//! | `P` | split |
//! | `R` | surrender |
//! | `Y` / `N` | take / decline insurance |
//! | `Enter` | post the staged bet (betting) or next round (round over) |
//! | `+` / `=` / `ArrowUp` | staged bet up one table minimum |
//! | `-` / `_` / `ArrowDown` | staged bet down one table minimum |
//! | `1`..`9` | staged bet = digit × table minimum |
//! | `W` | walk away (between rounds) |
//!
//! [`key_command`] is the pure key-name map.
use vstd::prelude::*;
use crate::action::ActionKind;
use crate::gesture::{GestureCtx, Intent, ctx_allows, spec_resolve};
use crate::snapshot::Phase;
use crate::staging::stage_ready;

verus! {

/// A key press, decoded but not yet gated.
#[derive(Debug, Clone, Copy, PartialEq, Eq, Structural)]
pub enum KeyCommand {
    /// `H`.
    Hit,
    /// `S`.
    Stand,
    /// `D`.
    Double,
    /// `P`.
    Split,
    /// `R`.
    Surrender,
    /// `Y`.
    InsuranceYes,
    /// `N`.
    InsuranceNo,
    /// `Enter`.
    Confirm,
    /// `+` / `=` / `ArrowUp`.
    BetUp,
    /// `-` / `_` / `ArrowDown`.
    BetDown,
    /// A digit: stage this many table minimums.
    BetUnits(u32),
    /// `W`.
    WalkAway,
}

/// The command a single-character key stands for. Letters match in
/// either case; a digit `1` through `9` stages that many minimums.
pub open spec fn char_command(c: char) -> Option<KeyCommand> {
    if c == 'h' || c == 'H' {
        Some(KeyCommand::Hit)
    } else if c == 's' || c == 'S' {
        Some(KeyCommand::Stand)
    } else if c == 'd' || c == 'D' {
        Some(KeyCommand::Double)
    } else if c == 'p' || c == 'P' {
        Some(KeyCommand::Split)
    } else if c == 'r' || c == 'R' {
        Some(KeyCommand::Surrender)
    } else if c == 'y' || c == 'Y' {
        Some(KeyCommand::InsuranceYes)
    } else if c == 'n' || c == 'N' {
        Some(KeyCommand::InsuranceNo)
    } else if c == '+' || c == '=' {
        Some(KeyCommand::BetUp)
    } else if c == '-' || c == '_' {
        Some(KeyCommand::BetDown)
    } else if c == 'w' || c == 'W' {
        Some(KeyCommand::WalkAway)
    } else if '1' <= c <= '9' {
        Some(KeyCommand::BetUnits((c as u32 - '0' as u32) as u32))
    } else {
        None
    }
}

/// The documented key map, over the key's characters: single-character
/// keys by [`char_command`], and the named keys `Enter`, `ArrowUp`, and
/// `ArrowDown`.
pub open spec fn spec_key_command(k: Seq<char>) -> Option<KeyCommand> {
    if k.len() == 1 {
        char_command(k[0])
    } else if k == seq!['E', 'n', 't', 'e', 'r'] {
        Some(KeyCommand::Confirm)
    } else if k == seq!['A', 'r', 'r', 'o', 'w', 'U', 'p'] {
        Some(KeyCommand::BetUp)
    } else if k == seq!['A', 'r', 'r', 'o', 'w', 'D', 'o', 'w', 'n'] {
        Some(KeyCommand::BetDown)
    } else {
        None
    }
}

/// Whether every character is ASCII.
pub open spec fn all_ascii(k: Seq<char>) -> bool {
    forall|i: int| 0 <= i < k.len() ==> '\0' <= #[trigger] k[i] <= '\u{7f}'
}

/// The bytes of an ASCII key, one per character.
pub open spec fn ascii_bytes(k: Seq<char>) -> Seq<u8> {
    Seq::new(k.len(), |i: int| k[i] as u8)
}

/// ASCII keys are equal exactly when their bytes are.
proof fn lemma_ascii_eq(k: Seq<char>, w: Seq<char>)
    requires
        all_ascii(k),
        all_ascii(w),
    ensures
        (ascii_bytes(k) == ascii_bytes(w)) == (k == w),
{
    if ascii_bytes(k) == ascii_bytes(w) {
        assert(k.len() == ascii_bytes(k).len());
        assert(w.len() == ascii_bytes(w).len());
        assert forall|i: int| 0 <= i < k.len() implies k[i] == w[i] by {
            assert(ascii_bytes(k)[i] == ascii_bytes(w)[i]);
            assert(k[i] as u8 == k[i] as u32);
            assert(w[i] as u8 == w[i] as u32);
        }
        assert(k =~= w);
    }
}

/// Whether an ASCII key's bytes spell the ASCII word `w`.
fn key_is(bytes: &[u8], Ghost(k): Ghost<Seq<char>>, word: &[u8], Ghost(w): Ghost<Seq<char>>) -> (b: bool)
    requires
        all_ascii(k),
        all_ascii(w),
        bytes@ == ascii_bytes(k),
        word@ == ascii_bytes(w),
    ensures
        b == (k == w),
{
    proof {
        lemma_ascii_eq(k, w);
    }
    if bytes.len() != word.len() {
        return false;
    }
    let mut i: usize = 0;
    while i < bytes.len()
        invariant
            i <= bytes@.len(),
            bytes@.len() == word@.len(),
            forall|j: int| 0 <= j < i ==> bytes@[j] == word@[j],
            bytes@ == ascii_bytes(k),
            word@ == ascii_bytes(w),
            (ascii_bytes(k) == ascii_bytes(w)) == (k == w),
        decreases bytes.len() - i,
    {
        if bytes[i] != word[i] {
            return false;
        }
        i = i + 1;
    }
    proof {
        assert(bytes@ =~= word@);
    }
    true
}

/// The command a single-byte key stands for.
fn byte_command(b: u8, Ghost(c): Ghost<char>) -> (r: Option<KeyCommand>)
    requires
        b as int == c as int,
    ensures
        r == char_command(c),
{
    match b {
        104u8 | 72u8 => Some(KeyCommand::Hit),
        115u8 | 83u8 => Some(KeyCommand::Stand),
        100u8 | 68u8 => Some(KeyCommand::Double),
        112u8 | 80u8 => Some(KeyCommand::Split),
        114u8 | 82u8 => Some(KeyCommand::Surrender),
        121u8 | 89u8 => Some(KeyCommand::InsuranceYes),
        110u8 | 78u8 => Some(KeyCommand::InsuranceNo),
        43u8 | 61u8 => Some(KeyCommand::BetUp),
        45u8 | 95u8 => Some(KeyCommand::BetDown),
        119u8 | 87u8 => Some(KeyCommand::WalkAway),
        49u8..=57u8 => Some(KeyCommand::BetUnits((b - 48u8) as u32)),
        _ => None,
    }
}

/// Decode a `KeyboardEvent.key` value. Unknown keys are `None`.
pub fn key_command(key: &str) -> (c: Option<KeyCommand>)
    ensures
        c == spec_key_command(key@),
{
    let ghost k = key@;
    let ghost enter = seq!['E', 'n', 't', 'e', 'r'];
    let ghost arrow_up = seq!['A', 'r', 'r', 'o', 'w', 'U', 'p'];
    let ghost arrow_down = seq!['A', 'r', 'r', 'o', 'w', 'D', 'o', 'w', 'n'];
    proof {
        assert(all_ascii(enter));
        assert(all_ascii(arrow_up));
        assert(all_ascii(arrow_down));
    }
    if !key.is_ascii() {
        proof {
            let i = choose|i: int| 0 <= i < k.len() && !('\0' <= #[trigger] k[i] <= '\u{7f}');
            assert(k != enter);
            assert(k != arrow_up);
            assert(k != arrow_down);
        }
        return None;
    }
    let bytes = key.as_bytes();
    proof {
        vstd::string::is_ascii_spec_bytes(key);
        assert(bytes@ =~= ascii_bytes(k));
    }
    if bytes.len() == 1 {
        proof {
            assert(bytes@[0] == k[0] as u8);
            assert(k[0] as u8 == k[0] as u32);
        }
        return byte_command(bytes[0], Ghost(k[0]));
    }
    proof {
        assert(ascii_bytes(enter) =~= seq![69u8, 110u8, 116u8, 101u8, 114u8]);
        assert(ascii_bytes(arrow_up) =~= seq![65u8, 114u8, 114u8, 111u8, 119u8, 85u8, 112u8]);
        assert(ascii_bytes(arrow_down) =~= seq![65u8, 114u8, 114u8, 111u8, 119u8, 68u8, 111u8, 119u8, 110u8]);
    }
    if key_is(bytes, Ghost(k), &[69u8, 110u8, 116u8, 101u8, 114u8], Ghost(enter)) {
        Some(KeyCommand::Confirm)
    } else if key_is(bytes, Ghost(k), &[65u8, 114u8, 114u8, 111u8, 119u8, 85u8, 112u8], Ghost(arrow_up)) {
        Some(KeyCommand::BetUp)
    } else if key_is(
        bytes,
        Ghost(k),
        &[65u8, 114u8, 114u8, 111u8, 119u8, 68u8, 111u8, 119u8, 110u8],
        Ghost(arrow_down),
    ) {
        Some(KeyCommand::BetDown)
    } else {
        None
    }
}

/// First line of the keyboard cheat rows shown by the help overlay.
pub const KEY_ROW_1: &'static str = "H hit \u{b7} S stand \u{b7} D double \u{b7} P split \u{b7} R surrender";

/// Second line of the keyboard cheat rows.
pub const KEY_ROW_2: &'static str = "Y/N insurance \u{b7} Enter post \u{b7} W walk away";

/// The intent a decoded key stands for under `ctx`, gated exactly as the
/// pointer recognizers gate strokes.
pub open spec fn spec_command_intent(ctx: GestureCtx, command: KeyCommand, staged_total: u32) -> Option<Intent> {
    let hand = ctx.phase == Phase::PlayerTurn && ctx.human_active;
    let offer = ctx.phase == Phase::InsuranceOffer && ctx.human_active;
    match command {
        KeyCommand::Hit => if hand && ctx_allows(ctx, ActionKind::Hit) {
            Some(Intent::Hit)
        } else {
            None
        },
        KeyCommand::Stand => if hand && ctx_allows(ctx, ActionKind::Stand) {
            Some(Intent::Stand)
        } else {
            None
        },
        KeyCommand::Double => if hand && ctx_allows(ctx, ActionKind::Double) {
            Some(Intent::Double)
        } else {
            None
        },
        KeyCommand::Split => if hand && ctx_allows(ctx, ActionKind::Split) {
            Some(Intent::Split)
        } else {
            None
        },
        KeyCommand::Surrender => if hand && ctx_allows(ctx, ActionKind::Surrender) {
            Some(Intent::Surrender)
        } else {
            None
        },
        KeyCommand::InsuranceYes => if offer && ctx_allows(ctx, ActionKind::TakeInsurance) {
            Some(Intent::TakeInsurance)
        } else {
            None
        },
        KeyCommand::InsuranceNo => if offer && ctx_allows(ctx, ActionKind::DeclineInsurance) {
            Some(Intent::DeclineInsurance)
        } else {
            None
        },
        KeyCommand::Confirm => if ctx.phase == Phase::Betting && ctx_allows(
            ctx,
            ActionKind::PlaceBet,
        ) && ctx.min_bet <= staged_total <= ctx.max_bet {
            Some(Intent::ConfirmBet(staged_total))
        } else if ctx.phase == Phase::RoundOver && ctx_allows(ctx, ActionKind::NextRound) {
            Some(Intent::NextRound)
        } else {
            None
        },
        KeyCommand::WalkAway => if ctx.phase == Phase::Betting || ctx.phase == Phase::RoundOver {
            Some(Intent::WalkAway)
        } else {
            None
        },
        KeyCommand::BetUp | KeyCommand::BetDown | KeyCommand::BetUnits(_) => None,
    }
}

/// Gate a decoded key against the current context, exactly as the
/// pointer recognizers gate strokes.
///
/// Bet-adjustment keys ([`KeyCommand::BetUp`], [`KeyCommand::BetDown`],
/// [`KeyCommand::BetUnits`]) return `None` here: they change only the
/// UI-local stage.
pub fn command_intent(ctx: &GestureCtx, command: KeyCommand, staged_total: u32) -> (i: Option<Intent>)
    ensures
        i == spec_command_intent(*ctx, command, staged_total),
{
    let hand = ctx.phase == Phase::PlayerTurn && ctx.human_active;
    let offer = ctx.phase == Phase::InsuranceOffer && ctx.human_active;
    match command {
        KeyCommand::Hit => if hand && ctx.allows(ActionKind::Hit) {
            Some(Intent::Hit)
        } else {
            None
        },
        KeyCommand::Stand => if hand && ctx.allows(ActionKind::Stand) {
            Some(Intent::Stand)
        } else {
            None
        },
        KeyCommand::Double => if hand && ctx.allows(ActionKind::Double) {
            Some(Intent::Double)
        } else {
            None
        },
        KeyCommand::Split => if hand && ctx.allows(ActionKind::Split) {
            Some(Intent::Split)
        } else {
            None
        },
        KeyCommand::Surrender => if hand && ctx.allows(ActionKind::Surrender) {
            Some(Intent::Surrender)
        } else {
            None
        },
        KeyCommand::InsuranceYes => if offer && ctx.allows(ActionKind::TakeInsurance) {
            Some(Intent::TakeInsurance)
        } else {
            None
        },
        KeyCommand::InsuranceNo => if offer && ctx.allows(ActionKind::DeclineInsurance) {
            Some(Intent::DeclineInsurance)
        } else {
            None
        },
        KeyCommand::Confirm => if ctx.phase == Phase::Betting && ctx.allows(ActionKind::PlaceBet)
            && stage_ready(staged_total, ctx.min_bet, ctx.max_bet) {
            Some(Intent::ConfirmBet(staged_total))
        } else if ctx.phase == Phase::RoundOver && ctx.allows(ActionKind::NextRound) {
            Some(Intent::NextRound)
        } else {
            None
        },
        KeyCommand::WalkAway => if ctx.phase == Phase::Betting || ctx.phase == Phase::RoundOver {
            Some(Intent::WalkAway)
        } else {
            None
        },
        KeyCommand::BetUp | KeyCommand::BetDown | KeyCommand::BetUnits(_) => None,
    }
}

/// The keyboard is a mirror of the felt, not a side door: every intent a
/// key produces, other than walking away, passes the same legality gate
/// that [`resolve`](crate::gesture::resolve) applies to gestures.
pub proof fn lemma_keys_pass_the_gesture_gate(ctx: GestureCtx, command: KeyCommand, staged_total: u32)
    ensures
        spec_command_intent(ctx, command, staged_total) matches Some(i) ==> (i is WalkAway
            || spec_resolve(ctx, i) is Some),
{
}

/// Whether a key raises the help glass: `?` or `F1`.
pub open spec fn spec_is_help_key(k: Seq<char>) -> bool {
    k == seq!['?'] || k == seq!['F', '1']
}

/// Whether releasing a key drops the help glass: `?`, `/`, `F1`, or
/// `Shift` (`?` is a shifted key, so its release may report either).
pub open spec fn spec_releases_help_key(k: Seq<char>) -> bool {
    spec_is_help_key(k) || k == seq!['/'] || k == seq!['S', 'h', 'i', 'f', 't']
}

/// Whether a `KeyboardEvent.key` raises the help glass: `?` or `F1`.
pub fn is_help_key(key: &str) -> (b: bool)
    ensures
        b == spec_is_help_key(key@),
{
    let ghost k = key@;
    let ghost q = seq!['?'];
    let ghost f1 = seq!['F', '1'];
    proof {
        assert(all_ascii(q));
        assert(all_ascii(f1));
    }
    if !key.is_ascii() {
        proof {
            let i = choose|i: int| 0 <= i < k.len() && !('\0' <= #[trigger] k[i] <= '\u{7f}');
            assert(k != q);
            assert(k != f1);
        }
        return false;
    }
    let bytes = key.as_bytes();
    proof {
        vstd::string::is_ascii_spec_bytes(key);
        assert(bytes@ =~= ascii_bytes(k));
        assert(ascii_bytes(q) =~= seq![63u8]);
        assert(ascii_bytes(f1) =~= seq![70u8, 49u8]);
    }
    let q_word: [u8; 1] = [63u8];
    proof {
        assert(q_word@ =~= seq![63u8]);
    }
    key_is(bytes, Ghost(k), &q_word, Ghost(q)) || key_is(bytes, Ghost(k), &[70u8, 49u8], Ghost(f1))
}

/// Whether releasing this key drops the help glass. `?` is a shifted
/// key, so its keyup may report `/` (Shift already up) or `Shift`
/// (released first); accepting all of them keeps the glass from
/// sticking.
pub fn releases_help_key(key: &str) -> (b: bool)
    ensures
        b == spec_releases_help_key(key@),
{
    let ghost k = key@;
    let ghost slash = seq!['/'];
    let ghost shift = seq!['S', 'h', 'i', 'f', 't'];
    proof {
        assert(all_ascii(slash));
        assert(all_ascii(shift));
    }
    if is_help_key(key) {
        return true;
    }
    if !key.is_ascii() {
        proof {
            let i = choose|i: int| 0 <= i < k.len() && !('\0' <= #[trigger] k[i] <= '\u{7f}');
            assert(k != slash);
            assert(k != shift);
        }
        return false;
    }
    let bytes = key.as_bytes();
    proof {
        vstd::string::is_ascii_spec_bytes(key);
        assert(bytes@ =~= ascii_bytes(k));
        assert(ascii_bytes(slash) =~= seq![47u8]);
        assert(ascii_bytes(shift) =~= seq![83u8, 104u8, 105u8, 102u8, 116u8]);
    }
    let slash_word: [u8; 1] = [47u8];
    proof {
        assert(slash_word@ =~= seq![47u8]);
    }
    key_is(bytes, Ghost(k), &slash_word, Ghost(slash)) || key_is(
        bytes,
        Ghost(k),
        &[83u8, 104u8, 105u8, 102u8, 116u8],
        Ghost(shift),
    )
}

} // verus!
