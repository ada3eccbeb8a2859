//! Suits, ranks and cards.

use vstd::prelude::*;
use vstd::string::StringExecFns;

verus! {

/// One of the four suits. Suits carry no order.
#[derive(PartialEq, Eq, Structural, Hash, Clone, Copy, Debug)]
pub enum Suit {
    Clubs,
    Diamonds,
    Hearts,
    Spades,
}

/// One of the thirteen ranks, from lowest to highest.
#[derive(PartialEq, Eq, Structural, PartialOrd, Ord, Hash, Clone, Copy, Debug)]
pub enum Rank {
    Two,
    Three,
    Four,
    Five,
    Six,
    Seven,
    Eight,
    Nine,
    Ten,
    Jack,
    Queen,
    King,
    Ace,
}

/// A card: its suit and its rank.
#[derive(PartialEq, Eq, Structural, Clone, Copy, Debug)]
pub struct Card(pub Suit, pub Rank);

/// Position of a rank in the order of ranks: `Two` is 0 and `Ace` is 12.
pub open spec fn rank_index(r: Rank) -> int {
    match r {
        Rank::Two => 0,
        Rank::Three => 1,
        Rank::Four => 2,
        Rank::Five => 3,
        Rank::Six => 4,
        Rank::Seven => 5,
        Rank::Eight => 6,
        Rank::Nine => 7,
        Rank::Ten => 8,
        Rank::Jack => 9,
        Rank::Queen => 10,
        Rank::King => 11,
        Rank::Ace => 12,
    }
}

/// The rank at position `i` (taken modulo 13 outside `0..13`).
pub open spec fn rank_at(i: int) -> Rank {
    let j = i % 13;
    if j == 0 {
        Rank::Two
    } else if j == 1 {
        Rank::Three
    } else if j == 2 {
        Rank::Four
    } else if j == 3 {
        Rank::Five
    } else if j == 4 {
        Rank::Six
    } else if j == 5 {
        Rank::Seven
    } else if j == 6 {
        Rank::Eight
    } else if j == 7 {
        Rank::Nine
    } else if j == 8 {
        Rank::Ten
    } else if j == 9 {
        Rank::Jack
    } else if j == 10 {
        Rank::Queen
    } else if j == 11 {
        Rank::King
    } else {
        Rank::Ace
    }
}

/// Position of a suit: `Clubs` 0, `Diamonds` 1, `Hearts` 2, `Spades` 3.
pub open spec fn suit_index(s: Suit) -> int {
    match s {
        Suit::Clubs => 0,
        Suit::Diamonds => 1,
        Suit::Hearts => 2,
        Suit::Spades => 3,
    }
}

/// The suit at position `i` in `0..4`.
pub open spec fn suit_at(i: int) -> Suit {
    if i == 0 {
        Suit::Clubs
    } else if i == 1 {
        Suit::Diamonds
    } else if i == 2 {
        Suit::Hearts
    } else {
        Suit::Spades
    }
}

/// Ranks and positions correspond one to one.
pub proof fn lemma_rank_index(r: Rank)
    ensures
        0 <= rank_index(r) < 13,
        rank_at(rank_index(r)) == r,
{
}

/// Positions in `0..13` and ranks correspond one to one.
pub proof fn lemma_rank_at(i: int)
    requires
        0 <= i < 13,
    ensures
        rank_index(rank_at(i)) == i,
{
}

impl Rank {
    /// Position of the rank, `Two` being 0 and `Ace` 12.
    pub fn index(&self) -> (i: usize)
        ensures
            i == rank_index(*self),
    {
        match self {
            Rank::Two => 0,
            Rank::Three => 1,
            Rank::Four => 2,
            Rank::Five => 3,
            Rank::Six => 4,
            Rank::Seven => 5,
            Rank::Eight => 6,
            Rank::Nine => 7,
            Rank::Ten => 8,
            Rank::Jack => 9,
            Rank::Queen => 10,
            Rank::King => 11,
            Rank::Ace => 12,
        }
    }

    /// The rank at position `i`.
    pub fn from_index(i: usize) -> (r: Rank)
        requires
            i < 13,
        ensures
            r == rank_at(i as int),
            rank_index(r) == i,
    {
        if i == 0 {
            Rank::Two
        } else if i == 1 {
            Rank::Three
        } else if i == 2 {
            Rank::Four
        } else if i == 3 {
            Rank::Five
        } else if i == 4 {
            Rank::Six
        } else if i == 5 {
            Rank::Seven
        } else if i == 6 {
            Rank::Eight
        } else if i == 7 {
            Rank::Nine
        } else if i == 8 {
            Rank::Ten
        } else if i == 9 {
            Rank::Jack
        } else if i == 10 {
            Rank::Queen
        } else if i == 11 {
            Rank::King
        } else {
            Rank::Ace
        }
    }

    /// The cyclic successor: the next higher rank, `Two` after `Ace`.
    pub fn next(&self) -> (r: Rank)
        ensures
            rank_index(r) == (rank_index(*self) + 1) % 13,
    {
        match self {
            Rank::Two => Rank::Three,
            Rank::Three => Rank::Four,
            Rank::Four => Rank::Five,
            Rank::Five => Rank::Six,
            Rank::Six => Rank::Seven,
            Rank::Seven => Rank::Eight,
            Rank::Eight => Rank::Nine,
            Rank::Nine => Rank::Ten,
            Rank::Ten => Rank::Jack,
            Rank::Jack => Rank::Queen,
            Rank::Queen => Rank::King,
            Rank::King => Rank::Ace,
            Rank::Ace => Rank::Two,
        }
    }

    /// Whether `self` is the cyclic successor of `other`.
    pub fn is_next(self, other: Rank) -> (b: bool)
        ensures
            b <==> rank_index(self) == (rank_index(other) + 1) % 13,
    {
        self == other.next()
    }

    /// The cyclic predecessor: the next lower rank, `Ace` before `Two`.
    pub fn prev(&self) -> (r: Rank)
        ensures
            rank_index(r) == (rank_index(*self) + 12) % 13,
    {
        match self {
            Rank::Three => Rank::Two,
            Rank::Four => Rank::Three,
            Rank::Five => Rank::Four,
            Rank::Six => Rank::Five,
            Rank::Seven => Rank::Six,
            Rank::Eight => Rank::Seven,
            Rank::Nine => Rank::Eight,
            Rank::Ten => Rank::Nine,
            Rank::Jack => Rank::Ten,
            Rank::Queen => Rank::Jack,
            Rank::King => Rank::Queen,
            Rank::Ace => Rank::King,
            Rank::Two => Rank::Ace,
        }
    }

    /// Whether `self` is the cyclic predecessor of `other`.
    pub fn is_prev(self, other: Rank) -> (b: bool)
        ensures
            b <==> rank_index(self) == (rank_index(other) + 12) % 13,
    {
        self == other.prev()
    }
}

impl Card {
    pub fn new(s: Suit, r: Rank) -> (c: Card)
        ensures
            c == Card(s, r),
    {
        Card(s, r)
    }

    pub fn suit(&self) -> (s: Suit)
        ensures
            s == self.0,
    {
        self.0
    }

    pub fn rank(&self) -> (r: Rank)
        ensures
            r == self.1,
    {
        self.1
    }
}

/// The name of a rank, as a card reads it.
pub open spec fn rank_name(r: Rank) -> Seq<char> {
    match r {
        Rank::Two => "Two"@,
        Rank::Three => "Three"@,
        Rank::Four => "Four"@,
        Rank::Five => "Five"@,
        Rank::Six => "Six"@,
        Rank::Seven => "Seven"@,
        Rank::Eight => "Eight"@,
        Rank::Nine => "Nine"@,
        Rank::Ten => "Ten"@,
        Rank::Jack => "Jack"@,
        Rank::Queen => "Queen"@,
        Rank::King => "King"@,
        Rank::Ace => "Ace"@,
    }
}

/// The name of a suit.
pub open spec fn suit_name(s: Suit) -> Seq<char> {
    match s {
        Suit::Clubs => "Clubs"@,
        Suit::Diamonds => "Diamonds"@,
        Suit::Hearts => "Hearts"@,
        Suit::Spades => "Spades"@,
    }
}

/// How a card reads: "<rank> of <suit>".
pub open spec fn card_text(c: Card) -> Seq<char> {
    rank_name(c.1) + " of "@ + suit_name(c.0)
}

impl Rank {
    pub fn name(&self) -> (s: &'static str)
        ensures
            s@ == rank_name(*self),
    {
        match self {
            Rank::Two => "Two",
            Rank::Three => "Three",
            Rank::Four => "Four",
            Rank::Five => "Five",
            Rank::Six => "Six",
            Rank::Seven => "Seven",
            Rank::Eight => "Eight",
            Rank::Nine => "Nine",
            Rank::Ten => "Ten",
            Rank::Jack => "Jack",
            Rank::Queen => "Queen",
            Rank::King => "King",
            Rank::Ace => "Ace",
        }
    }

    pub fn to_string(&self) -> (s: String)
        ensures
            s@ == rank_name(*self),
    {
        String::from_str(self.name())
    }
}

impl Suit {
    /// The suit at position `i`: clubs, diamonds, hearts, spades.
    pub fn from_index(i: usize) -> (s: Suit)
        requires
            i < 4,
        ensures
            s == suit_at(i as int),
            suit_index(s) == i,
    {
        if i == 0 {
            Suit::Clubs
        } else if i == 1 {
            Suit::Diamonds
        } else if i == 2 {
            Suit::Hearts
        } else {
            Suit::Spades
        }
    }

    pub fn name(&self) -> (s: &'static str)
        ensures
            s@ == suit_name(*self),
    {
        match self {
            Suit::Clubs => "Clubs",
            Suit::Diamonds => "Diamonds",
            Suit::Hearts => "Hearts",
            Suit::Spades => "Spades",
        }
    }

    pub fn to_string(&self) -> (s: String)
        ensures
            s@ == suit_name(*self),
    {
        String::from_str(self.name())
    }
}

impl Card {
    /// The card as text, "<rank> of <suit>".
    pub fn to_string(&self) -> (s: String)
        ensures
            s@ == card_text(*self),
    {
        let mut s = String::from_str(self.1.name());
        s.append(" of ");
        s.append(self.0.name());
        s
    }
}

} // verus!
