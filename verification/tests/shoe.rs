
use blackjack::card::Card;
use blackjack::rules::Fraction;
use blackjack::shoe::{DECK_SIZE, Shoe};
use rand::SeedableRng;
use rand_chacha::ChaCha8Rng;
use std::collections::HashMap;

fn frac(numerator: u32, denominator: u32) -> Fraction {
    Fraction { numerator, denominator }
}

fn drain(shoe: &mut Shoe) -> Vec<Card> {
    std::iter::from_fn(|| shoe.draw()).collect()
}

#[test]
fn shoe_holds_deck_count_times_fifty_two_cards() {
    for decks in [1, 2, 6, 8] {
        let shoe = Shoe::from_seed(decks, frac(3, 4), 0);
        assert_eq!(shoe.capacity(), decks * DECK_SIZE);
        assert_eq!(shoe.cards_remaining(), decks * DECK_SIZE);
        assert_eq!(shoe.cards_dealt(), 0);
        assert_eq!(shoe.discard_pile_size(), 0);
    }
}

#[test]
fn shoe_contains_every_card_the_right_number_of_times() {
    let decks = 6;
    let mut shoe = Shoe::from_seed(decks, frac(3, 4), 42);
    let mut counts: HashMap<Card, usize> = HashMap::new();
    for card in drain(&mut shoe) {
        *counts.entry(card).or_default() += 1;
    }
    assert_eq!(counts.len(), DECK_SIZE);
    assert!(counts.values().all(|&n| n == decks));
}

#[test]
fn drawing_past_the_last_card_returns_none() {
    let mut shoe = Shoe::from_seed(1, frac(1, 1), 7);
    for _ in 0..DECK_SIZE {
        assert!(shoe.draw().is_some());
    }
    assert_eq!(shoe.cards_remaining(), 0);
    assert_eq!(shoe.cards_dealt(), DECK_SIZE);
    assert_eq!(shoe.draw(), None);
    assert_eq!(shoe.burn(), None);
}

#[test]
fn same_seed_yields_the_same_sequence() {
    let mut a = Shoe::from_seed(6, frac(3, 4), 1234);
    let mut b = Shoe::from_seed(6, frac(3, 4), 1234);
    assert_eq!(drain(&mut a), drain(&mut b));
}

#[test]
fn different_seeds_yield_different_sequences() {
    let mut a = Shoe::from_seed(6, frac(3, 4), 1);
    let mut b = Shoe::from_seed(6, frac(3, 4), 2);
    assert_ne!(drain(&mut a), drain(&mut b));
}

#[test]
fn cut_card_is_reached_at_the_configured_penetration() {
    let mut shoe = Shoe::from_seed(1, frac(1, 2), 9);
    // Cut card sits after floor(52 * 0.5) = 26 cards.
    for _ in 0..25 {
        shoe.draw();
        assert!(!shoe.cut_card_reached());
    }
    shoe.draw();
    assert!(shoe.cut_card_reached());
}

#[test]
fn drawing_past_the_cut_card_still_works() {
    let mut shoe = Shoe::from_seed(1, frac(1, 4), 3);
    while !shoe.cut_card_reached() {
        shoe.draw();
    }
    let dealt_at_cut = shoe.cards_dealt();
    assert_eq!(dealt_at_cut, DECK_SIZE / 4);
    // The round in progress can keep drawing to the last card.
    let rest = drain(&mut shoe);
    assert_eq!(rest.len(), DECK_SIZE - dealt_at_cut);
    assert_eq!(shoe.cards_remaining(), 0);
    assert!(shoe.cut_card_reached());
}

#[test]
fn full_penetration_reaches_the_cut_card_only_on_the_last_card() {
    let mut shoe = Shoe::from_seed(1, frac(1, 1), 11);
    for _ in 0..(DECK_SIZE - 1) {
        shoe.draw();
        assert!(!shoe.cut_card_reached());
    }
    shoe.draw();
    assert!(shoe.cut_card_reached());
}

#[test]
fn burning_and_discarding_feed_the_discard_pile() {
    let mut shoe = Shoe::from_seed(2, frac(3, 4), 5);
    let burned = shoe.burn().unwrap();
    assert_eq!(shoe.discard_pile_size(), 1);
    assert_eq!(shoe.discards(), [burned]);
    assert_eq!(shoe.cards_dealt(), 1);

    let dealt: Vec<Card> = (0..4).map(|_| shoe.draw().unwrap()).collect();
    assert_eq!(shoe.cards_dealt(), 5);
    assert_eq!(shoe.discard_pile_size(), 1);

    shoe.discard_all(dealt.clone());
    assert_eq!(shoe.discard_pile_size(), 5);
    assert_eq!(&shoe.discards()[1..], dealt);

    // Every card is accounted for: in the shoe or in the pile.
    assert_eq!(
        shoe.cards_remaining() + shoe.discard_pile_size(),
        shoe.capacity()
    );
}

#[test]
fn reshuffle_restores_a_fully_discarded_shoe() {
    let mut shoe = Shoe::from_seed(1, frac(1, 2), 21);
    while let Some(card) = shoe.draw() {
        shoe.discard(card);
    }
    assert!(shoe.cut_card_reached());
    assert_eq!(shoe.discard_pile_size(), DECK_SIZE);

    shoe.reshuffle();
    assert_eq!(shoe.cards_remaining(), DECK_SIZE);
    assert_eq!(shoe.cards_dealt(), 0);
    assert_eq!(shoe.discard_pile_size(), 0);
    assert!(!shoe.cut_card_reached());
}

#[test]
fn reshuffle_shuffles_only_cards_the_shoe_holds() {
    let mut shoe = Shoe::from_seed(1, frac(1, 2), 8);
    // Draw three cards and keep them "in hand" — do not discard.
    let in_hand: Vec<Card> = (0..3).map(|_| shoe.draw().unwrap()).collect();
    // Discard two more.
    for _ in 0..2 {
        let card = shoe.draw().unwrap();
        shoe.discard(card);
    }
    shoe.reshuffle();
    // The three in-hand cards stay out of the shoe.
    assert_eq!(shoe.cards_remaining(), DECK_SIZE - 3);
    assert_eq!(shoe.discard_pile_size(), 0);
    let mut all = drain(&mut shoe);
    all.extend(in_hand);
    all.sort();
    let mut full: Vec<Card> = drain(&mut Shoe::from_seed(1, frac(1, 2), 0));
    full.sort();
    assert_eq!(all, full);
}

#[test]
fn reshuffle_produces_a_different_order_than_dealt() {
    let mut shoe = Shoe::from_seed(6, frac(3, 4), 99);
    let before = drain(&mut shoe);
    shoe.discard_all(before.clone());
    shoe.reshuffle();
    let after = drain(&mut shoe);
    assert_eq!(before.len(), after.len());
    // With 312 cards the odds of an identical order are astronomically
    // small; a fixed seed makes this check fully deterministic anyway.
    assert_ne!(before, after);
}

#[test]
fn generic_seam_accepts_any_rng_core() {
    // Any RngCore works; use the ChaCha generator through the generic
    // constructor to prove the seam.
    let rng = ChaCha8Rng::seed_from_u64(77);
    let mut a = Shoe::new(2, frac(3, 5), rng);
    let mut b = Shoe::from_seed(2, frac(3, 5), 77);
    assert_eq!(drain(&mut a), drain(&mut b));
}

