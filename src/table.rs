//! What stands on the table around the evaluator: the deck cards are drawn
//! from, the players' hands, the board of shared cards, and the rotation of
//! players.

use vstd::prelude::*;

use std::collections::HashMap;

use rand::seq::SliceRandom;

use crate::card::{Card, Rank, Suit, rank_index, suit_at, suit_index, lemma_rank_index};

verus! {

broadcast use {vstd::std_specs::hash::group_hash_axioms, vstd::seq_lib::group_to_multiset_ensures};

/// Relies on rand's `SliceRandom::choose` with `rand::thread_rng()`: it gives
/// `None` for an empty slice and otherwise one of the slice's elements.
#[verifier::external_body]
fn choose_position(positions: &[usize]) -> (r: Option<usize>)
    ensures
        r is None <==> positions@.len() == 0,
        r matches Some(p) ==> positions@.contains(p),
{
    positions.choose(&mut rand::thread_rng()).copied()
}

/// Taking one more element of `s` adds that element and nothing else.
proof fn lemma_take_one_more(s: Seq<u64>, i: int, x: u64)
    requires
        0 <= i < s.len(),
    ensures
        s.take(i + 1).contains(x) <==> s.take(i).contains(x) || x == s[i],
{
    if s.take(i + 1).contains(x) {
        let k = choose|k: int| 0 <= k < i + 1 && #[trigger] s.take(i + 1)[k] == x;
        if k < i {
            assert(s.take(i)[k] == x);
        }
    }
    if s.take(i).contains(x) {
        let k = choose|k: int| 0 <= k < i && #[trigger] s.take(i)[k] == x;
        assert(s.take(i + 1)[k] == x);
    }
    if x == s[i] {
        assert(s.take(i + 1)[i] == x);
    }
}

/// The cards that are left to draw.
pub struct Deck {
    cards: Vec<Card>,
}

impl View for Deck {
    type V = Seq<Card>;

    closed spec fn view(&self) -> Seq<Card> {
        self.cards@
    }
}

/// Position of a rank in the order a fresh deck lists ranks: the ace first,
/// then two up to king.
pub open spec fn deck_position(r: Rank) -> int {
    (rank_index(r) + 1) % 13
}

impl Deck {
    /// A full deck: each of the 52 cards once.
    pub fn new() -> (d: Deck)
        ensures
            d@.len() == 52,
            d@.no_duplicates(),
            forall|c: Card| #[trigger] d@.contains(c),
    {
        let mut cards: Vec<Card> = Vec::with_capacity(52);
        let mut si: usize = 0;
        while si < 4
            invariant
                si <= 4,
                cards@.len() == 13 * si,
                cards@.no_duplicates(),
                forall|c: Card| #[trigger] cards@.contains(c) <==> suit_index(c.0) < si,
            decreases 4 - si,
        {
            let s = Suit::from_index(si);
            let mut j: usize = 0;
            while j < 13
                invariant
                    si < 4,
                    j <= 13,
                    s == suit_at(si as int),
                    suit_index(s) == si,
                    cards@.len() == 13 * si + j,
                    cards@.no_duplicates(),
                    forall|c: Card| #[trigger]
                        cards@.contains(c) <==> suit_index(c.0) < si || (suit_index(c.0) == si
                            && deck_position(c.1) < j),
                decreases 13 - j,
            {
                let r = Rank::from_index((j + 12) % 13);
                let c = Card::new(s, r);
                proof {
                    assert(deck_position(r) == j);
                    assert(!cards@.contains(c));
                    let old_cards = cards@;
                    assert forall|x: Card| #[trigger]
                        old_cards.push(c).contains(x) <==> old_cards.contains(x) || x == c by {
                        if old_cards.push(c).contains(x) {
                            let k = choose|k: int| 0 <= k < old_cards.len() + 1 && old_cards.push(c)[k] == x;
                            if k < old_cards.len() {
                                assert(old_cards[k] == x);
                            }
                        }
                        if old_cards.contains(x) {
                            let k = choose|k: int| 0 <= k < old_cards.len() && old_cards[k] == x;
                            assert(old_cards.push(c)[k] == x);
                        }
                        if x == c {
                            assert(old_cards.push(c)[old_cards.len() as int] == x);
                        }
                    }
                    assert forall|a: int, b: int|
                        0 <= a < b < old_cards.len() + 1 implies old_cards.push(c)[a] != old_cards.push(c)[b] by {
                        if b == old_cards.len() {
                            assert(old_cards.contains(old_cards[a]));
                        }
                    }
                }
                cards.push(c);
                proof {
                    assert forall|x: Card| #[trigger]
                        cards@.contains(x) <==> suit_index(x.0) < si || (suit_index(x.0) == si
                            && deck_position(x.1) < j + 1) by {
                        if x.0 == s && deck_position(x.1) == j {
                            lemma_rank_index(x.1);
                            lemma_rank_index(r);
                            assert(x.1 == r);
                            assert(x == c);
                        }
                    }
                }
                j = j + 1;
            }
            si = si + 1;
        }
        proof {
            assert forall|c: Card| #[trigger] cards@.contains(c) by {
                assert(suit_index(c.0) < 4);
            }
        }
        Deck { cards }
    }

    /// Draws a card chosen at random among those left, or `None` when the deck
    /// is empty.
    pub fn pop(&mut self) -> (r: Option<Card>)
        ensures
            r is None <==> old(self)@.len() == 0,
            r is None ==> final(self)@ == old(self)@,
            r matches Some(c) ==> exists|i: int|
                0 <= i < old(self)@.len() && old(self)@[i] == c
                    && final(self)@ == old(self)@.remove(i),
    {
        let mut positions: Vec<usize> = Vec::new();
        let mut i: usize = 0;
        while i < self.cards.len()
            invariant
                i <= self.cards@.len(),
                self.cards@ == old(self).cards@,
                positions@.len() == i,
                forall|k: int| 0 <= k < i ==> positions@[k] == k,
            decreases self.cards@.len() - i,
        {
            positions.push(i);
            i = i + 1;
        }
        match choose_position(positions.as_slice()) {
            Some(p) => {
                proof {
                    let k = choose|k: int| 0 <= k < positions@.len() && positions@[k] == p;
                    assert(p < self.cards@.len());
                }
                Some(self.draw_at(p))
            },
            None => None,
        }
    }

    /// Draws a card chosen at random, as `pop` does, stated by what the deck
    /// loses: the card drawn, once.
    fn draw(&mut self) -> (r: Option<Card>)
        ensures
            r is None <==> old(self)@.len() == 0,
            r is None ==> final(self)@.len() == 0,
            r matches Some(c) ==> old(self)@.to_multiset() == final(self)@.to_multiset().insert(c)
                && final(self)@.len() + 1 == old(self)@.len(),
    {
        let r = self.pop();
        proof {
            if let Some(c) = r {
                let i = choose|i: int|
                    0 <= i < old(self)@.len() && old(self)@[i] == c && self@ == old(self)@.remove(i);
                assert(old(self)@.remove(i).to_multiset() == old(self)@.to_multiset().remove(c));
                assert(old(self)@.to_multiset().count(c) > 0);
                assert(self@.to_multiset().insert(c) =~= old(self)@.to_multiset());
            }
        }
        r
    }

    /// Draws the card at position `i`.
    pub fn draw_at(&mut self, i: usize) -> (c: Card)
        requires
            i < old(self)@.len(),
        ensures
            c == old(self)@[i as int],
            final(self)@ == old(self)@.remove(i as int),
    {
        self.cards.remove(i)
    }

    /// Puts a card back at the end of the deck.
    pub fn push(&mut self, card: Card)
        ensures
            final(self)@ == old(self)@.push(card),
    {
        self.cards.push(card);
    }

    /// Number of cards left.
    pub fn len(&self) -> (n: usize)
        ensures
            n == self@.len(),
    {
        self.cards.len()
    }

    /// Whether the card is still in the deck.
    pub fn contains(&self, card: &Card) -> (b: bool)
        ensures
            b == self@.contains(*card),
    {
        let mut i: usize = 0;
        while i < self.cards.len()
            invariant
                i <= self.cards@.len(),
                forall|k: int| 0 <= k < i ==> self.cards@[k] != *card,
            decreases self.cards@.len() - i,
        {
            if self.cards[i] == *card {
                return true;
            }
            i = i + 1;
        }
        false
    }
}

/// A player's two private cards.
#[derive(PartialEq, Eq, Structural, Clone, Copy, Debug)]
pub struct Hand(pub Card, pub Card);

impl Hand {
    /// Draws two cards from the deck; `None` when it holds fewer than two,
    /// after drawing what there was.
    pub fn new(deck: &mut Deck) -> (r: Option<Hand>)
        ensures
            r is Some <==> old(deck)@.len() >= 2,
            r is None ==> final(deck)@.len() == 0,
            r matches Some(h) ==> old(deck)@.to_multiset()
                == final(deck)@.to_multiset().insert(h.0).insert(h.1),
    {
        let a = match deck.draw() {
            Some(c) => c,
            None => return None,
        };
        let b = match deck.draw() {
            Some(c) => c,
            None => return None,
        };
        Some(Hand(a, b))
    }
}

/// A seated player.
#[derive(Clone, Copy, Debug)]
pub struct Player {
    pub id: u64,
    pub hand: Option<Hand>,
    pub is_playing: bool,
    pub money: u32,
}

/// Players are told apart by their identifier alone.
impl PartialEq for Player {
    fn eq(&self, other: &Player) -> (b: bool)
        ensures
            b == (self.id == other.id),
    {
        self.id == other.id
    }
}

impl vstd::std_specs::cmp::PartialEqSpecImpl for Player {
    open spec fn obeys_eq_spec() -> bool {
        true
    }

    open spec fn eq_spec(&self, other: &Player) -> bool {
        self.id == other.id
    }
}

impl Eq for Player {

}

/// A newly seated player: no hand, not yet playing.
pub open spec fn seated(id: u64, money: u32) -> Player {
    Player { id, hand: None, is_playing: false, money }
}

impl Player {
    pub fn new(id: u64, money: u32) -> (p: Player)
        ensures
            p == seated(id, money),
    {
        Player { id, hand: None, is_playing: false, money }
    }
}

/// The players in their turn order, with a cursor on whose turn comes next.
pub struct PlayerRing {
    vec: Vec<u64>,
    map: HashMap<u64, Player>,
    order_count: usize,
}

impl PlayerRing {
    /// The identifiers in turn order (an identifier given twice takes two turns).
    pub closed spec fn order(&self) -> Seq<u64> {
        self.vec@
    }

    /// The players by identifier.
    pub closed spec fn seats(&self) -> Map<u64, Player> {
        self.map@
    }

    /// Position in the turn order of the next player.
    pub closed spec fn cursor(&self) -> int {
        self.order_count as int
    }

    /// The cursor points into the order (or is 0 when no one sits), and every
    /// identifier in the order has its player.
    pub closed spec fn wf(&self) -> bool {
        &&& (self.vec@.len() == 0 ==> self.order_count == 0)
        &&& (self.vec@.len() > 0 ==> self.order_count < self.vec@.len())
        &&& forall|i: int| 0 <= i < self.vec@.len() ==> #[trigger] self.map@.contains_key(self.vec@[i])
    }

    /// Seats the given players in that order, each with the same money.
    pub fn new(players: &[u64], starting_money: u32) -> (r: PlayerRing)
        ensures
            r.wf(),
            r.order() == players@,
            r.cursor() == 0,
            forall|id: u64| #[trigger] r.seats().contains_key(id) <==> players@.contains(id),
            forall|id: u64| #[trigger]
                r.seats().contains_key(id) ==> r.seats()[id] == seated(id, starting_money),
    {
        let mut vec: Vec<u64> = Vec::new();
        let mut map: HashMap<u64, Player> = HashMap::new();
        let mut i: usize = 0;
        while i < players.len()
            invariant
                i <= players@.len(),
                vec@ == players@.take(i as int),
                forall|id: u64| #[trigger]
                    map@.contains_key(id) <==> players@.take(i as int).contains(id),
                forall|id: u64| #[trigger]
                    map@.contains_key(id) ==> map@[id] == seated(id, starting_money),
            decreases players@.len() - i,
        {
            let id = players[i];
            vec.push(id);
            map.insert(id, Player::new(id, starting_money));
            proof {
                assert(players@.take(i + 1) =~= players@.take(i as int).push(id));
                assert forall|x: u64| #[trigger] players@.take(i + 1).contains(x) <==> players@.take(
                    i as int,
                ).contains(x) || x == id by {
                    lemma_take_one_more(players@, i as int, x);
                }
            }
            i = i + 1;
        }
        proof {
            assert(players@.take(players@.len() as int) =~= players@);
            assert forall|k: int| 0 <= k < vec@.len() implies #[trigger] map@.contains_key(vec@[k]) by {
                assert(players@.contains(players@[k]));
            }
        }
        PlayerRing { vec, map, order_count: 0 }
    }

    /// The player whose turn it is; the cursor moves on to the next, wrapping
    /// round after the last.
    pub fn next(&mut self) -> (p: &Player)
        requires
            old(self).wf(),
            old(self).order().len() > 0,
        ensures
            final(self).wf(),
            final(self).order() == old(self).order(),
            final(self).seats() == old(self).seats(),
            final(self).cursor() == (old(self).cursor() + 1) % (old(self).order().len() as int),
            *p == old(self).seats()[old(self).order()[old(self).cursor()]],
    {
        assert(self.order_count < self.vec@.len());
        let return_player = self.vec[self.order_count];
        let n = self.vec.len();
        self.order_count = (self.order_count + 1) % n;
        assert(self.map@.contains_key(return_player));
        self.map.get(&return_player).unwrap()
    }

    /// The player with this identifier, if seated.
    pub fn get_player(&mut self, id: u64) -> (p: Option<&Player>)
        ensures
            *final(self) == *old(self),
            p is Some <==> old(self).seats().contains_key(id),
            p matches Some(q) ==> *q == old(self).seats()[id],
    {
        self.map.get(&id)
    }
}

/// The five shared cards.
pub struct Board(Card, Card, Card, Card, Card);

impl View for Board {
    type V = Seq<Card>;

    closed spec fn view(&self) -> Seq<Card> {
        seq![self.0, self.1, self.2, self.3, self.4]
    }
}

impl Board {
    /// Draws the five shared cards from the deck; `None` when it holds fewer
    /// than five, after drawing what there was.
    pub fn new(deck: &mut Deck) -> (r: Option<Board>)
        ensures
            r is Some <==> old(deck)@.len() >= 5,
            r is None ==> final(deck)@.len() == 0,
            r matches Some(b) ==> old(deck)@.to_multiset() == final(deck)@.to_multiset().insert(
                b@[0],
            ).insert(b@[1]).insert(b@[2]).insert(b@[3]).insert(b@[4]),
    {
        let c1 = match deck.draw() {
            Some(c) => c,
            None => return None,
        };
        let c2 = match deck.draw() {
            Some(c) => c,
            None => return None,
        };
        let c3 = match deck.draw() {
            Some(c) => c,
            None => return None,
        };
        let c4 = match deck.draw() {
            Some(c) => c,
            None => return None,
        };
        let c5 = match deck.draw() {
            Some(c) => c,
            None => return None,
        };
        Some(Board(c1, c2, c3, c4, c5))
    }

    pub fn from_cards(c1: Card, c2: Card, c3: Card, c4: Card, c5: Card) -> (b: Board)
        ensures
            b@ == seq![c1, c2, c3, c4, c5],
    {
        Board(c1, c2, c3, c4, c5)
    }

    /// The first three shared cards.
    pub fn flop(&self) -> (f: (Card, Card, Card))
        ensures
            f == (self@[0], self@[1], self@[2]),
    {
        (self.0, self.1, self.2)
    }

    /// The fourth shared card.
    pub fn turn(&self) -> (c: Card)
        ensures
            c == self@[3],
    {
        self.3
    }

    /// The fifth shared card.
    pub fn river(&self) -> (c: Card)
        ensures
            c == self@[4],
    {
        self.4
    }
}

/// A game: its deck, the board once dealt, each player's hand once dealt, and
/// the current bet.
pub struct Game {
    pub deck: Deck,
    pub board: Option<Board>,
    pub players: HashMap<u64, Option<Hand>>,
    pub bet: u16,
}

impl Game {
    /// A fresh game: a full deck, no board, no hands dealt, no bet.
    pub fn new(players: Vec<u64>) -> (g: Game)
        ensures
            g.deck@.len() == 52,
            g.deck@.no_duplicates(),
            forall|c: Card| #[trigger] g.deck@.contains(c),
            g.board is None,
            g.bet == 0,
            forall|id: u64| #[trigger] g.players@.contains_key(id) <==> players@.contains(id),
            forall|id: u64| #[trigger] g.players@.contains_key(id) ==> g.players@[id] is None,
    {
        let mut map: HashMap<u64, Option<Hand>> = HashMap::new();
        let mut i: usize = 0;
        while i < players.len()
            invariant
                i <= players@.len(),
                forall|id: u64| #[trigger]
                    map@.contains_key(id) <==> players@.take(i as int).contains(id),
                forall|id: u64| #[trigger] map@.contains_key(id) ==> map@[id] is None,
            decreases players@.len() - i,
        {
            let id = players[i];
            map.insert(id, None);
            proof {
                assert forall|x: u64| #[trigger] players@.take(i + 1).contains(x) <==> players@.take(
                    i as int,
                ).contains(x) || x == id by {
                    lemma_take_one_more(players@, i as int, x);
                }
            }
            i = i + 1;
        }
        proof {
            assert(players@.take(players@.len() as int) =~= players@);
        }
        Game { deck: Deck::new(), board: None, players: map, bet: 0 }
    }
}

} // verus!
