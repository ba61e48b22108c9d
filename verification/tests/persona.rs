
use blackjack::action::{Action, ActionKind};
use blackjack::card::{Card, Rank, Suit};
use blackjack::persona::{Archetype, bet_size, decide, decide_insurance};
use blackjack::snapshot::{HandSnapshot, HandStatus};
use rand::SeedableRng;
use rand_chacha::ChaCha8Rng;

fn rng() -> ChaCha8Rng {
    ChaCha8Rng::seed_from_u64(7)
}

fn up(rank: Rank) -> Card {
    Card::new(rank, Suit::Spades)
}

fn snapshot(ranks: &[Rank]) -> HandSnapshot {
    let cards: Vec<Card> = ranks
        .iter()
        .zip(Suit::ALL.iter().cycle())
        .map(|(&rank, &suit)| Card::new(rank, suit))
        .collect();
    let value = blackjack::hand::HandValue::of(&cards);
    HandSnapshot {
        cards,
        bet: 10,
        doubled: false,
        from_split: false,
        status: HandStatus::Playing,
        total: value.total(),
        soft: value.is_soft(),
        outcome: None,
        payout: None,
    }
}

const FULL: [ActionKind; 5] = [
    ActionKind::Hit,
    ActionKind::Stand,
    ActionKind::Double,
    ActionKind::Split,
    ActionKind::Surrender,
];
const HIT_STAND: [ActionKind; 2] = [ActionKind::Hit, ActionKind::Stand];

#[test]
fn by_the_book_plays_the_canonical_cells() {
    let mut r = rng();
    let a = Archetype::ByTheBook;
    let sixteen = snapshot(&[Rank::Ten, Rank::Six]);
    assert_eq!(
        decide(a, &sixteen, up(Rank::Ten), &FULL, &mut r),
        Action::Surrender
    );
    assert_eq!(
        decide(a, &sixteen, up(Rank::Ten), &HIT_STAND, &mut r),
        Action::Hit
    );
    let eleven = snapshot(&[Rank::Six, Rank::Five]);
    assert_eq!(
        decide(a, &eleven, up(Rank::Ace), &FULL, &mut r),
        Action::Double
    );
    let eights = snapshot(&[Rank::Eight, Rank::Eight]);
    assert_eq!(
        decide(a, &eights, up(Rank::Ace), &FULL, &mut r),
        Action::Split
    );
    let soft19 = snapshot(&[Rank::Ace, Rank::Eight]);
    assert_eq!(
        decide(a, &soft19, up(Rank::Six), &FULL, &mut r),
        Action::Stand
    );
}

#[test]
fn timid_never_doubles_or_splits_and_stands_too_early() {
    let mut r = rng();
    let a = Archetype::Timid;
    // A pair of eights against a six: the book splits, nerves stand.
    let eights = snapshot(&[Rank::Eight, Rank::Eight]);
    assert_eq!(
        decide(a, &eights, up(Rank::Six), &FULL, &mut r),
        Action::Stand
    );
    // Eleven against a six: the book doubles, nerves just hit.
    let eleven = snapshot(&[Rank::Six, Rank::Five]);
    assert_eq!(
        decide(a, &eleven, up(Rank::Six), &FULL, &mut r),
        Action::Hit
    );
    // Fourteen against a ten: the book draws to 17, nerves stand.
    let fourteen = snapshot(&[Rank::Ten, Rank::Four]);
    assert_eq!(
        decide(a, &fourteen, up(Rank::Ten), &HIT_STAND, &mut r),
        Action::Stand
    );
    // Thirteen against a ten still hits...
    let thirteen = snapshot(&[Rank::Ten, Rank::Three]);
    assert_eq!(
        decide(a, &thirteen, up(Rank::Ten), &HIT_STAND, &mut r),
        Action::Hit
    );
    // ...and any twelve freezes against a weak card, even the deuce.
    let twelve = snapshot(&[Rank::Ten, Rank::Two]);
    assert_eq!(
        decide(a, &twelve, up(Rank::Two), &HIT_STAND, &mut r),
        Action::Stand
    );
}

#[test]
fn reckless_splits_tens_hits_seventeen_and_doubles_soft_hands() {
    let mut r = rng();
    let a = Archetype::Reckless;
    let tens = snapshot(&[Rank::King, Rank::Queen]);
    assert_eq!(
        decide(a, &tens, up(Rank::Ten), &FULL, &mut r),
        Action::Split
    );
    let seventeen = snapshot(&[Rank::Ten, Rank::Seven]);
    assert_eq!(
        decide(a, &seventeen, up(Rank::Ace), &HIT_STAND, &mut r),
        Action::Hit
    );
    let soft18 = snapshot(&[Rank::Ace, Rank::Seven]);
    assert_eq!(
        decide(
            a,
            &soft18,
            up(Rank::Ten),
            &[ActionKind::Hit, ActionKind::Stand, ActionKind::Double],
            &mut r
        ),
        Action::Double
    );
    let eighteen = snapshot(&[Rank::Ten, Rank::Eight]);
    assert_eq!(
        decide(a, &eighteen, up(Rank::Ace), &HIT_STAND, &mut r),
        Action::Stand
    );
}

#[test]
fn superstitious_follows_the_folk_rules() {
    let mut r = rng();
    let a = Archetype::Superstitious;
    // "Never hit against a bust card": 12 vs 2 stands (book hits).
    let twelve = snapshot(&[Rank::Ten, Rank::Two]);
    assert_eq!(
        decide(a, &twelve, up(Rank::Two), &HIT_STAND, &mut r),
        Action::Stand
    );
    // Against a strong card, draw to 17 — never surrender.
    let sixteen = snapshot(&[Rank::Ten, Rank::Six]);
    assert_eq!(
        decide(a, &sixteen, up(Rank::Ten), &FULL, &mut r),
        Action::Hit
    );
    // Aces and eights split; nines never do (the book splits vs 5).
    let eights = snapshot(&[Rank::Eight, Rank::Eight]);
    assert_eq!(
        decide(a, &eights, up(Rank::Ten), &FULL, &mut r),
        Action::Split
    );
    let nines = snapshot(&[Rank::Nine, Rank::Nine]);
    assert_eq!(
        decide(a, &nines, up(Rank::Five), &FULL, &mut r),
        Action::Stand
    );
    // Eleven always doubles; soft 18 always stands, even vs an ace.
    let eleven = snapshot(&[Rank::Six, Rank::Five]);
    assert_eq!(
        decide(a, &eleven, up(Rank::Ace), &FULL, &mut r),
        Action::Double
    );
    let soft18 = snapshot(&[Rank::Ace, Rank::Seven]);
    assert_eq!(
        decide(a, &soft18, up(Rank::Ace), &HIT_STAND, &mut r),
        Action::Stand
    );
}

#[test]
fn insurance_split_follows_temperament() {
    let mut r = rng();
    assert!(!decide_insurance(Archetype::ByTheBook, &mut r));
    assert!(!decide_insurance(Archetype::Reckless, &mut r));
    assert!(decide_insurance(Archetype::Timid, &mut r));
    // Superstitious insurance is a mood: over many offers both answers
    // occur, deterministically under the seed.
    let answers: Vec<bool> = (0..100)
        .map(|_| decide_insurance(Archetype::Superstitious, &mut r))
        .collect();
    assert!(answers.iter().any(|&b| b));
    assert!(answers.iter().any(|&b| !b));
}

#[test]
fn bets_stay_within_limits_and_bankroll() {
    for archetype in Archetype::ALL {
        for streak in -6..=6 {
            for bankroll in [10, 35, 120, 100_000] {
                for base in [10, 30, 90] {
                    let bet = bet_size(archetype, base, streak, bankroll, 10, 500);
                    assert!(bet >= 10, "{archetype:?} bet {bet} below table minimum");
                    assert!(bet <= 500, "{archetype:?} bet {bet} above table maximum");
                    assert!(
                        bet <= bankroll.max(10),
                        "{archetype:?} bet {bet} above bankroll {bankroll}"
                    );
                }
            }
        }
    }
}

#[test]
fn bet_styles_are_distinct() {
    // Flat.
    assert_eq!(bet_size(Archetype::ByTheBook, 30, 4, 1000, 10, 500), 30);
    assert_eq!(bet_size(Archetype::ByTheBook, 30, -4, 1000, 10, 500), 30);
    // Scared money shrinks after losses but never presses.
    assert_eq!(bet_size(Archetype::Timid, 40, -1, 1000, 10, 500), 20);
    assert_eq!(bet_size(Archetype::Timid, 40, -2, 1000, 10, 500), 10);
    assert_eq!(bet_size(Archetype::Timid, 40, 3, 1000, 10, 500), 40);
    // The press doubles per win and caps at the table max.
    assert_eq!(bet_size(Archetype::Reckless, 20, 2, 1000, 10, 500), 80);
    assert_eq!(bet_size(Archetype::Reckless, 20, 9, 1000, 10, 500), 500);
    assert_eq!(bet_size(Archetype::Reckless, 20, -3, 1000, 10, 500), 20);
    // Streak swings both ways.
    assert_eq!(bet_size(Archetype::Superstitious, 20, 2, 1000, 10, 500), 60);
    assert_eq!(
        bet_size(Archetype::Superstitious, 20, -1, 1000, 10, 500),
        10
    );
}
