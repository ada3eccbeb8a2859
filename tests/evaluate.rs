use poker::card::{Card, Rank, Suit};
use poker::combo::{evaluate, find_best_card, find_straight, find_two_pairs, CardCombo, HandError};

use std::cmp::Ordering;

type CC = CardCombo;
type R = Rank;
type S = Suit;

fn c(s: S, r: R) -> Card {
    Card::new(s, r)
}

#[test]
fn best_royal_flush() {
    let cards = [
        c(S::Clubs, R::Four), c(S::Hearts, R::Jack), c(S::Hearts, R::King), c(S::Spades, R::Three),
        c(S::Hearts, R::Ace), c(S::Hearts, R::Queen), c(S::Hearts, R::Ten),
    ];
    assert_eq!(find_best_card(&cards), CC::RoyalFlush);
}

#[test]
fn best_straight_flush() {
    let cards = [
        c(S::Hearts, R::Eight), c(S::Hearts, R::Jack), c(S::Hearts, R::Nine), c(S::Spades, R::Three),
        c(S::Spades, R::Ace), c(S::Hearts, R::Queen), c(S::Hearts, R::Ten),
    ];
    assert_eq!(find_best_card(&cards), CC::StraightFlush(R::Queen));
}

#[test]
fn best_four_of_a_kind() {
    let cards = [
        c(S::Clubs, R::Eight), c(S::Hearts, R::Eight), c(S::Clubs, R::Nine), c(S::Diamonds, R::Eight),
        c(S::Clubs, R::Four), c(S::Diamonds, R::Nine), c(S::Spades, R::Eight),
    ];
    assert_eq!(find_best_card(&cards), CC::FourOfAKind(R::Eight, R::Nine));
}

#[test]
fn best_full_house() {
    let cards = [
        c(S::Clubs, R::Eight), c(S::Hearts, R::Eight), c(S::Clubs, R::Nine), c(S::Diamonds, R::Eight),
        c(S::Clubs, R::Four), c(S::Diamonds, R::Nine), c(S::Hearts, R::Seven),
    ];
    assert_eq!(find_best_card(&cards), CC::FullHouse(R::Eight));
}

#[test]
fn best_flush() {
    let cards = [
        c(S::Clubs, R::Eight), c(S::Hearts, R::Three), c(S::Clubs, R::Nine), c(S::Diamonds, R::Two),
        c(S::Clubs, R::Four), c(S::Clubs, R::Six), c(S::Clubs, R::Seven),
    ];
    assert_eq!(find_best_card(&cards), CC::Flush(R::Nine, R::Eight, R::Seven, R::Six, R::Four));
}

#[test]
fn best_straight() {
    let cards = [
        c(S::Clubs, R::Eight), c(S::Hearts, R::Nine), c(S::Spades, R::Seven), c(S::Diamonds, R::Nine),
        c(S::Hearts, R::Five), c(S::Diamonds, R::Six), c(S::Hearts, R::Three),
    ];
    assert_eq!(find_best_card(&cards), CC::Straight(R::Nine));
}

#[test]
fn best_high_card() {
    let cards = [
        c(S::Clubs, R::Eight), c(S::Hearts, R::Three), c(S::Spades, R::Nine), c(S::Diamonds, R::Two),
        c(S::Hearts, R::Four), c(S::Diamonds, R::Six), c(S::Clubs, R::Seven),
    ];
    assert_eq!(find_best_card(&cards), CC::HighCard(R::Nine, R::Eight, R::Seven, R::Six, R::Four));
}

#[test]
fn best_three_two_pairs_and_pair() {
    let three = [
        c(S::Clubs, R::Eight), c(S::Hearts, R::Eight), c(S::Spades, R::Eight), c(S::Diamonds, R::Nine),
        c(S::Hearts, R::Four), c(S::Diamonds, R::Six), c(S::Hearts, R::Three),
    ];
    assert_eq!(find_best_card(&three), CC::ThreeOfAKind(R::Eight, R::Nine));
    let two = [
        c(S::Clubs, R::Eight), c(S::Hearts, R::Three), c(S::Spades, R::Nine), c(S::Diamonds, R::Nine),
        c(S::Hearts, R::Four), c(S::Diamonds, R::Six), c(S::Hearts, R::Eight),
    ];
    assert_eq!(find_best_card(&two), CC::TwoPairs(R::Nine, R::Eight, R::Six));
    let one = [
        c(S::Clubs, R::Eight), c(S::Hearts, R::Three), c(S::Spades, R::Nine), c(S::Diamonds, R::Two),
        c(S::Hearts, R::Four), c(S::Diamonds, R::Six), c(S::Hearts, R::Eight),
    ];
    assert_eq!(find_best_card(&one), CC::Pair(R::Eight, R::Nine));
}

#[test]
fn five_cards_without_combination_give_their_ranks_sorted() {
    let cards = [
        c(S::Clubs, R::Two), c(S::Hearts, R::King), c(S::Spades, R::Seven), c(S::Diamonds, R::Nine),
        c(S::Hearts, R::Four),
    ];
    assert_eq!(find_best_card(&cards), CC::HighCard(R::King, R::Nine, R::Seven, R::Four, R::Two));
}

#[test]
fn order_of_cards_does_not_matter() {
    let mut cards = vec![
        c(S::Clubs, R::Eight), c(S::Hearts, R::Eight), c(S::Clubs, R::Nine), c(S::Diamonds, R::Eight),
        c(S::Clubs, R::Four), c(S::Diamonds, R::Nine), c(S::Hearts, R::Seven),
    ];
    let first = evaluate(&cards);
    cards.reverse();
    assert_eq!(evaluate(&cards), first);
    cards.rotate_left(3);
    assert_eq!(evaluate(&cards), first);
    assert_eq!(first, Ok(CC::FullHouse(R::Eight)));
}

#[test]
fn evaluate_needs_five_cards() {
    let cards = [c(S::Clubs, R::Ace), c(S::Hearts, R::Ace), c(S::Spades, R::Ace), c(S::Diamonds, R::Ace)];
    assert_eq!(evaluate(&cards), Err(HandError::TooFewCards));
    assert_eq!(evaluate(&[]), Err(HandError::TooFewCards));
}

#[test]
fn evaluate_refuses_a_single_rank() {
    let cards = [c(S::Clubs, R::Ace); 5];
    assert_eq!(evaluate(&cards), Err(HandError::SingleRank));
}

#[test]
fn evaluate_every_distinct_five() {
    let cards = [
        c(S::Clubs, R::Ace), c(S::Hearts, R::Ace), c(S::Spades, R::Ace), c(S::Diamonds, R::Ace),
        c(S::Clubs, R::Two),
    ];
    assert_eq!(evaluate(&cards), Ok(CC::FourOfAKind(R::Ace, R::Two)));
}

#[test]
fn categories_outrank_each_other() {
    let ladder = [
        CC::HighCard(R::Ace, R::King, R::Queen, R::Jack, R::Nine),
        CC::Pair(R::Two, R::Three),
        CC::TwoPairs(R::Three, R::Two, R::Four),
        CC::ThreeOfAKind(R::Two, R::Three),
        CC::Straight(R::Six),
        CC::Flush(R::Seven, R::Five, R::Four, R::Three, R::Two),
        CC::FullHouse(R::Two),
        CC::FourOfAKind(R::Two, R::Three),
        CC::StraightFlush(R::Six),
        CC::RoyalFlush,
    ];
    for i in 0..ladder.len() {
        assert_eq!(ladder[i].category() as usize, i);
        for j in 0..ladder.len() {
            assert_eq!(ladder[i].compare(&ladder[j]), i.cmp(&j));
        }
    }
}

#[test]
fn ties_break_on_the_carried_ranks() {
    assert_eq!(CC::Pair(R::Eight, R::Four).compare(&CC::Pair(R::Seven, R::Six)), Ordering::Greater);
    assert_eq!(CC::Pair(R::Seven, R::Six).compare(&CC::Pair(R::Seven, R::Four)), Ordering::Greater);
    assert_eq!(CC::Pair(R::Seven, R::Four).compare(&CC::Pair(R::Seven, R::Four)), Ordering::Equal);
    assert!(CC::TwoPairs(R::Nine, R::Eight, R::Two) < CC::TwoPairs(R::Nine, R::Eight, R::Three));
    assert_eq!(CC::FullHouse(R::Ten).tie_break(), vec![R::Ten]);
}

#[test]
fn straight_counts_a_held_rank_once() {
    let cards = [
        c(S::Clubs, R::Nine), c(S::Hearts, R::Eight), c(S::Spades, R::Eight), c(S::Diamonds, R::Seven),
        c(S::Hearts, R::Six), c(S::Diamonds, R::Five), c(S::Hearts, R::Two),
    ];
    assert_eq!(find_straight(&cards), Some(CC::Straight(R::Nine)));
}

#[test]
fn no_straight_wraps_round_the_ace() {
    let cards = [
        c(S::Clubs, R::Queen), c(S::Hearts, R::King), c(S::Spades, R::Ace), c(S::Diamonds, R::Two),
        c(S::Hearts, R::Three),
    ];
    assert_eq!(find_straight(&cards), None);
    assert_eq!(find_best_card(&cards), CC::HighCard(R::Ace, R::King, R::Queen, R::Three, R::Two));
}

#[test]
fn three_pairs_keep_the_two_highest() {
    let cards = [
        c(S::Clubs, R::Two), c(S::Hearts, R::Two), c(S::Spades, R::Jack), c(S::Diamonds, R::Jack),
        c(S::Hearts, R::Five), c(S::Diamonds, R::Five), c(S::Hearts, R::Three),
    ];
    assert_eq!(find_two_pairs(&cards), Some(CC::TwoPairs(R::Jack, R::Five, R::Three)));
}

#[test]
fn two_triples_make_a_full_house() {
    let cards = [
        c(S::Clubs, R::Two), c(S::Hearts, R::Two), c(S::Spades, R::Two), c(S::Diamonds, R::Jack),
        c(S::Hearts, R::Jack), c(S::Clubs, R::Jack), c(S::Hearts, R::Three),
    ];
    assert_eq!(find_best_card(&cards), CC::FullHouse(R::Jack));
}

#[test]
fn ranks_step_round_the_cycle() {
    assert_eq!(R::Ace.next(), R::Two);
    assert_eq!(R::Two.prev(), R::Ace);
    assert_eq!(R::Nine.next(), R::Ten);
    assert!(R::Ten.is_next(R::Nine));
    assert!(R::Nine.is_prev(R::Ten));
    assert!(!R::Nine.is_next(R::Nine));
    assert_eq!(R::from_index(12), R::Ace);
    assert_eq!(R::Queen.index(), 10);
    let card = c(S::Spades, R::Queen);
    assert_eq!(card.suit(), S::Spades);
    assert_eq!(card.rank(), R::Queen);
}

#[test]
fn royal_flush_in_the_second_flush_suit() {
    let cards = [
        c(S::Clubs, R::Two), c(S::Clubs, R::Three), c(S::Clubs, R::Four), c(S::Clubs, R::Five),
        c(S::Clubs, R::Seven), c(S::Spades, R::Ten), c(S::Spades, R::Jack), c(S::Spades, R::Queen),
        c(S::Spades, R::King), c(S::Spades, R::Ace),
    ];
    assert_eq!(poker::combo::find_royal_flush(&cards), Some(CC::RoyalFlush));
    assert_eq!(find_best_card(&cards), CC::RoyalFlush);
}

#[test]
fn straight_flush_in_the_second_flush_suit() {
    let cards = [
        c(S::Clubs, R::Two), c(S::Clubs, R::Three), c(S::Clubs, R::Four), c(S::Clubs, R::Five),
        c(S::Clubs, R::Seven), c(S::Spades, R::Nine), c(S::Spades, R::Ten), c(S::Spades, R::Jack),
        c(S::Spades, R::Queen), c(S::Spades, R::King),
    ];
    assert_eq!(poker::combo::find_straight_flush(&cards), Some(CC::StraightFlush(R::King)));
}

#[test]
fn strongest_of_two_flushes() {
    let cards = [
        c(S::Clubs, R::Two), c(S::Clubs, R::Three), c(S::Clubs, R::Four), c(S::Clubs, R::Six),
        c(S::Clubs, R::Ace), c(S::Hearts, R::Nine), c(S::Hearts, R::Jack), c(S::Hearts, R::Queen),
        c(S::Hearts, R::King), c(S::Hearts, R::Ace),
    ];
    assert_eq!(
        poker::combo::find_flush(&cards),
        Some(CC::Flush(R::Ace, R::King, R::Queen, R::Jack, R::Nine))
    );
}
