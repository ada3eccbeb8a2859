use poker::card::{Card, Rank, Suit};
use poker::table::{Board, Deck, Game, Hand, PlayerRing};

#[test]
fn deck() {
    let mut deck = Deck::new();
    // Deck should start with 51 cards.
    assert_eq!(deck.len(), 52);
    let card = deck.pop().unwrap();
    // When taking out a card, it should not be in the deck.
    assert!(!deck.contains(&card));
    // After taking out a card, there shall only be 51 cards.
    assert_eq!(deck.len(), 51);
    for _ in 0..51 {
        deck.pop();
    }
    // After taking out all the cards, taking out more will give you None.
    assert_eq!(deck.pop(), None);
}

#[test]
fn board() {
    let c1 = Card(Suit::Clubs, Rank::Ace);
    let c2 = Card(Suit::Hearts, Rank::Ten);
    let c3 = Card(Suit::Diamonds, Rank::Jack);
    let c4 = Card(Suit::Spades, Rank::Seven);
    let c5 = Card(Suit::Clubs, Rank::Two);

    let board = Board::from_cards(c1, c2, c3, c4, c5);

    assert_eq!(board.flop(), (c1, c2, c3));
    assert_eq!(board.turn(), c4);
    assert_eq!(board.river(), c5);
}

#[test]
fn player_ring() {
    let players = [1, 2, 3];
    let mut ring = PlayerRing::new(&players, 0);
    assert_eq!(ring.next().id, 1);
    assert_eq!(ring.next().id, 2);
    assert_eq!(ring.next().id, 3);
    assert_eq!(ring.next().id, 1);
}

#[test]
fn fresh_deck_holds_every_card_once() {
    let deck = Deck::new();
    for s in [Suit::Clubs, Suit::Diamonds, Suit::Hearts, Suit::Spades] {
        for r in [
            Rank::Two, Rank::Three, Rank::Four, Rank::Five, Rank::Six, Rank::Seven, Rank::Eight,
            Rank::Nine, Rank::Ten, Rank::Jack, Rank::Queen, Rank::King, Rank::Ace,
        ] {
            assert!(deck.contains(&Card::new(s, r)));
        }
    }
}

#[test]
fn popped_cards_are_all_different() {
    let mut deck = Deck::new();
    let mut seen: Vec<Card> = Vec::new();
    while let Some(c) = deck.pop() {
        assert!(!seen.contains(&c));
        seen.push(c);
    }
    assert_eq!(seen.len(), 52);
    assert_eq!(deck.len(), 0);
}

#[test]
fn draw_at_takes_that_card() {
    let mut deck = Deck::new();
    let c = deck.draw_at(0);
    assert_eq!(c, Card(Suit::Clubs, Rank::Ace));
    assert_eq!(deck.len(), 51);
    assert!(!deck.contains(&c));
    deck.push(c);
    assert!(deck.contains(&c));
    assert_eq!(deck.len(), 52);
}

#[test]
fn hand_and_board_draw_from_the_deck() {
    let mut deck = Deck::new();
    let hand = Hand::new(&mut deck).unwrap();
    assert_ne!(hand.0, hand.1);
    assert!(!deck.contains(&hand.0) && !deck.contains(&hand.1));
    assert_eq!(deck.len(), 50);
    let board = Board::new(&mut deck).unwrap();
    assert_eq!(deck.len(), 45);
    let (a, b, c) = board.flop();
    for x in [a, b, c, board.turn(), board.river()] {
        assert!(!deck.contains(&x));
    }
}

#[test]
fn short_deck_gives_no_hand() {
    let mut deck = Deck::new();
    while deck.len() > 1 {
        deck.pop();
    }
    assert_eq!(Hand::new(&mut deck), None);
    assert_eq!(deck.len(), 0);
    assert!(Board::new(&mut deck).is_none());
}

#[test]
fn ring_finds_players() {
    let mut ring = PlayerRing::new(&[7, 9], 100);
    let p = ring.get_player(9).unwrap();
    assert_eq!(p.id, 9);
    assert_eq!(p.money, 100);
    assert!(p.hand.is_none());
    assert!(!p.is_playing);
    assert!(ring.get_player(8).is_none());
}

#[test]
fn new_game_has_no_hands() {
    let g = Game::new(vec![4, 5]);
    assert_eq!(g.deck.len(), 52);
    assert!(g.board.is_none());
    assert_eq!(g.bet, 0);
    assert_eq!(g.players.len(), 2);
    assert_eq!(g.players.get(&4), Some(&None));
    assert_eq!(g.players.get(&6), None);
}

#[test]
fn cards_read_rank_of_suit() {
    assert_eq!(Card(Suit::Spades, Rank::Queen).to_string(), "Queen of Spades");
    assert_eq!(Card::new(Suit::Diamonds, Rank::Ten).to_string(), "Ten of Diamonds");
    assert_eq!(Rank::Ace.to_string(), "Ace");
    assert_eq!(Suit::Hearts.to_string(), "Hearts");
}
