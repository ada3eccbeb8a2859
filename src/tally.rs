//! What the detectors read of a set of cards: how many cards there are of each
//! rank (and suit), the highest rank that forms a group, the highest run of
//! five consecutive ranks, and the ranks sorted from highest to lowest.
//!
//! A set of cards is modelled by the multiset of its cards, so every notion here
//! depends on which cards are held and not on their order.

use vstd::multiset::Multiset;
use vstd::prelude::*;

use crate::card::{Card, Rank, Suit, rank_at, rank_index, lemma_rank_at, lemma_rank_index};

verus! {

broadcast use vstd::seq_lib::group_to_multiset_ensures;

/// Number of cards of rank `r`; with `Some(s)`, only those of suit `s`.
pub open spec fn tally(m: Multiset<Card>, suit: Option<Suit>, r: Rank) -> nat {
    match suit {
        Some(s) => m.count(Card(s, r)),
        None => m.count(Card(Suit::Clubs, r)) + m.count(Card(Suit::Diamonds, r)) + m.count(
            Card(Suit::Hearts, r),
        ) + m.count(Card(Suit::Spades, r)),
    }
}

/// Whether a card is counted by `tally(_, suit, _)`.
pub open spec fn in_suit(c: Card, suit: Option<Suit>) -> bool {
    match suit {
        Some(s) => c.0 == s,
        None => true,
    }
}

/// Number of cards (of the given suit, if any) whose rank has position `i` or above.
pub open spec fn tally_from(m: Multiset<Card>, suit: Option<Suit>, i: int) -> nat
    decreases 13 - i,
{
    if 0 <= i < 13 {
        tally(m, suit, rank_at(i)) + tally_from(m, suit, i + 1)
    } else {
        0
    }
}

/// Number of cards of suit `s`.
pub open spec fn suit_count(m: Multiset<Card>, s: Suit) -> nat {
    tally_from(m, Some(s), 0)
}

/// The ranks of the cards (of the given suit, if any) at position `i` or
/// above, from highest to lowest, each as often as it is held.
pub open spec fn sorted_from(m: Multiset<Card>, suit: Option<Suit>, i: int) -> Seq<Rank>
    decreases 13 - i,
{
    if 0 <= i < 13 {
        sorted_from(m, suit, i + 1) + Seq::new(tally(m, suit, rank_at(i)), |_j: int| rank_at(i))
    } else {
        Seq::empty()
    }
}

/// The ranks of the cards (of the given suit, if any), from highest to lowest,
/// each as often as it is held.
pub open spec fn sorted_ranks(m: Multiset<Card>, suit: Option<Suit>) -> Seq<Rank> {
    sorted_from(m, suit, 0)
}

/// Whether the rank at position `i` is held at least `k` times and is not in `ex`.
pub open spec fn is_group(m: Multiset<Card>, k: nat, ex: Seq<Rank>, i: int) -> bool {
    tally(m, None, rank_at(i)) >= k && !ex.contains(rank_at(i))
}

/// The highest rank below position `n` that is held at least `k` times and is
/// not in `ex`.
pub open spec fn group_below(m: Multiset<Card>, k: nat, ex: Seq<Rank>, n: int) -> Option<Rank>
    decreases n,
{
    if n <= 0 {
        None
    } else if is_group(m, k, ex, n - 1) {
        Some(rank_at(n - 1))
    } else {
        group_below(m, k, ex, n - 1)
    }
}

/// The highest rank that is held at least `k` times and is not in `ex`.
pub open spec fn highest_group(m: Multiset<Card>, k: nat, ex: Seq<Rank>) -> Option<Rank> {
    group_below(m, k, ex, 13)
}

/// Whether the five ranks at positions `t`, `t - 1`, ..., `t - 4` are all held
/// (by cards of the given suit, if any). A rank held twice counts once, and
/// runs do not wrap round: an ace never stands below a two.
pub open spec fn is_run(m: Multiset<Card>, suit: Option<Suit>, t: int) -> bool {
    &&& 4 <= t < 13
    &&& forall|d: int| 0 <= d < 5 ==> #[trigger] tally(m, suit, rank_at(t - d)) > 0
}

/// The top rank of the highest run whose top lies below position `n`.
pub open spec fn run_below(m: Multiset<Card>, suit: Option<Suit>, n: int) -> Option<Rank>
    decreases n,
{
    if n <= 0 {
        None
    } else if is_run(m, suit, n - 1) {
        Some(rank_at(n - 1))
    } else {
        run_below(m, suit, n - 1)
    }
}

/// The top rank of the highest run of five consecutive ranks.
pub open spec fn highest_run(m: Multiset<Card>, suit: Option<Suit>) -> Option<Rank> {
    run_below(m, suit, 13)
}

/// Whether some suit holds a run topped at position `t`.
pub open spec fn is_suited_run(m: Multiset<Card>, t: int) -> bool {
    ||| is_run(m, Some(Suit::Clubs), t)
    ||| is_run(m, Some(Suit::Diamonds), t)
    ||| is_run(m, Some(Suit::Hearts), t)
    ||| is_run(m, Some(Suit::Spades), t)
}

/// The top rank of the highest run within one suit whose top lies below position `n`.
pub open spec fn suited_run_below(m: Multiset<Card>, n: int) -> Option<Rank>
    decreases n,
{
    if n <= 0 {
        None
    } else if is_suited_run(m, n - 1) {
        Some(rank_at(n - 1))
    } else {
        suited_run_below(m, n - 1)
    }
}

/// The top rank of the highest run of five consecutive ranks within one suit,
/// whichever suit holds it.
pub open spec fn highest_suited_run(m: Multiset<Card>) -> Option<Rank> {
    suited_run_below(m, 13)
}

/// Whether all the cards have the rank of the first.
pub open spec fn one_rank(cards: Seq<Card>) -> bool {
    forall|i: int| 0 <= i < cards.len() ==> #[trigger] cards[i].1 == cards[0].1
}

/// Adding a card adds one to its own count and leaves the others alone.
pub proof fn lemma_tally_insert(m: Multiset<Card>, c: Card, suit: Option<Suit>, r: Rank)
    ensures
        tally(m.insert(c), suit, r) == tally(m, suit, r) + if in_suit(c, suit) && c.1 == r {
            1int
        } else {
            0int
        },
{
}

/// Adding a card adds one to the count from position `i` if its rank is there.
pub proof fn lemma_tally_from_insert(m: Multiset<Card>, c: Card, suit: Option<Suit>, i: int)
    requires
        0 <= i <= 13,
    ensures
        tally_from(m.insert(c), suit, i) == tally_from(m, suit, i) + if in_suit(c, suit)
            && rank_index(c.1) >= i {
            1int
        } else {
            0int
        },
    decreases 13 - i,
{
    if i < 13 {
        lemma_tally_insert(m, c, suit, rank_at(i));
        lemma_tally_from_insert(m, c, suit, i + 1);
        lemma_rank_at(i);
        lemma_rank_index(c.1);
    }
}

/// No cards, no count.
pub proof fn lemma_tally_from_empty(suit: Option<Suit>, i: int)
    ensures
        tally_from(Multiset::empty(), suit, i) == 0,
    decreases 13 - i,
{
    if 0 <= i < 13 {
        lemma_tally_from_empty(suit, i + 1);
    }
}

/// Counted over all ranks, every card is counted once.
pub proof fn lemma_tally_total(cards: Seq<Card>)
    ensures
        tally_from(cards.to_multiset(), None, 0) == cards.len(),
    decreases cards.len(),
{
    if cards.len() == 0 {
        assert(cards.to_multiset() =~= Multiset::empty());
        lemma_tally_from_empty(None, 0);
    } else {
        let s = cards.drop_last();
        let c = cards.last();
        assert(cards =~= s.push(c));
        lemma_tally_total(s);
        lemma_tally_from_insert(s.to_multiset(), c, None, 0);
        lemma_rank_index(c.1);
    }
}

/// The sorted ranks hold as many ranks as are counted.
pub proof fn lemma_sorted_len(m: Multiset<Card>, suit: Option<Suit>, i: int)
    ensures
        sorted_from(m, suit, i).len() == tally_from(m, suit, i),
    decreases 13 - i,
{
    if 0 <= i < 13 {
        lemma_sorted_len(m, suit, i + 1);
    }
}

/// What a scan for a group finds: a group, with none above it below `n`; or
/// no group below `n` at all.
pub proof fn lemma_group_below(m: Multiset<Card>, k: nat, ex: Seq<Rank>, n: int)
    requires
        n <= 13,
    ensures
        match group_below(m, k, ex, n) {
            Some(r) => {
                &&& 0 <= rank_index(r) < n
                &&& is_group(m, k, ex, rank_index(r))
                &&& forall|t: int| rank_index(r) < t < n ==> !#[trigger] is_group(m, k, ex, t)
            },
            None => forall|t: int| 0 <= t < n ==> !#[trigger] is_group(m, k, ex, t),
        },
    decreases n,
{
    if n > 0 {
        lemma_group_below(m, k, ex, n - 1);
        lemma_rank_at(n - 1);
    }
}

/// What a scan for a run finds, in the same way.
pub proof fn lemma_run_below(m: Multiset<Card>, suit: Option<Suit>, n: int)
    requires
        n <= 13,
    ensures
        match run_below(m, suit, n) {
            Some(r) => {
                &&& 0 <= rank_index(r) < n
                &&& is_run(m, suit, rank_index(r))
                &&& forall|t: int| rank_index(r) < t < n ==> !#[trigger] is_run(m, suit, t)
            },
            None => forall|t: int| 0 <= t < n ==> !#[trigger] is_run(m, suit, t),
        },
    decreases n,
{
    if n > 0 {
        lemma_run_below(m, suit, n - 1);
        lemma_rank_at(n - 1);
    }
}

/// The sorted ranks run from highest to lowest, all at position `i` or above.
pub proof fn lemma_sorted_descending(m: Multiset<Card>, suit: Option<Suit>, i: int)
    requires
        0 <= i <= 13,
    ensures
        forall|a: int|
            0 <= a < sorted_from(m, suit, i).len() ==> rank_index(
                #[trigger] sorted_from(m, suit, i)[a],
            ) >= i,
        forall|a: int, b: int|
            0 <= a < b < sorted_from(m, suit, i).len() ==> rank_index(
                #[trigger] sorted_from(m, suit, i)[a],
            ) >= rank_index(#[trigger] sorted_from(m, suit, i)[b]),
    decreases 13 - i,
{
    if i < 13 {
        lemma_sorted_descending(m, suit, i + 1);
        lemma_rank_at(i);
        let hi = sorted_from(m, suit, i + 1);
        let lo = Seq::new(tally(m, suit, rank_at(i)), |_j: int| rank_at(i));
        assert(sorted_from(m, suit, i) == hi + lo);
        assert forall|a: int| 0 <= a < hi.len() + lo.len() implies rank_index((hi + lo)[a]) >= i by {
            if a < hi.len() {
                assert((hi + lo)[a] == hi[a]);
            }
        }
        assert forall|a: int, b: int|
            0 <= a < b < hi.len() + lo.len() implies rank_index(#[trigger] (hi + lo)[a]) >= rank_index(
            #[trigger] (hi + lo)[b],
        ) by {
            if b < hi.len() {
                assert((hi + lo)[a] == hi[a]);
                assert((hi + lo)[b] == hi[b]);
            } else if a < hi.len() {
                assert((hi + lo)[a] == hi[a]);
                assert(rank_index(hi[a]) >= i + 1);
            }
        }
    }
}

proof fn lemma_repeat_count(k: nat, r: Rank, x: Rank)
    ensures
        Seq::new(k, |_j: int| r).to_multiset().count(x) == if x == r {
            k
        } else {
            0
        },
    decreases k,
{
    if k == 0 {
        assert(Seq::new(k, |_j: int| r).to_multiset() =~= Multiset::empty());
    } else {
        lemma_repeat_count((k - 1) as nat, r, x);
        assert(Seq::new(k, |_j: int| r) =~= Seq::new((k - 1) as nat, |_j: int| r).push(r));
    }
}

/// The sorted ranks hold each rank at position `i` or above as often as it is held.
pub proof fn lemma_sorted_counts(m: Multiset<Card>, suit: Option<Suit>, i: int, x: Rank)
    requires
        0 <= i <= 13,
    ensures
        sorted_from(m, suit, i).to_multiset().count(x) == if rank_index(x) >= i {
            tally(m, suit, x)
        } else {
            0
        },
    decreases 13 - i,
{
    lemma_rank_index(x);
    if i < 13 {
        lemma_sorted_counts(m, suit, i + 1, x);
        lemma_rank_at(i);
        let hi = sorted_from(m, suit, i + 1);
        let lo = Seq::new(tally(m, suit, rank_at(i)), |_j: int| rank_at(i));
        vstd::seq_lib::lemma_multiset_commutative(hi, lo);
        lemma_repeat_count(tally(m, suit, rank_at(i)), rank_at(i), x);
    } else {
        assert(sorted_from(m, suit, i).to_multiset() =~= Multiset::empty());
    }
}

/// Counting the cards of a rank is counting that rank among the cards' ranks.
pub proof fn lemma_tally_ranks(cards: Seq<Card>, x: Rank)
    ensures
        tally(cards.to_multiset(), None, x) == cards.map_values(|c: Card| c.1).to_multiset().count(x),
    decreases cards.len(),
{
    if cards.len() == 0 {
        assert(cards.to_multiset() =~= Multiset::empty());
        assert(cards.map_values(|c: Card| c.1).to_multiset() =~= Multiset::empty());
    } else {
        let s = cards.drop_last();
        let c = cards.last();
        assert(cards =~= s.push(c));
        assert(cards.map_values(|c: Card| c.1) =~= s.map_values(|c: Card| c.1).push(c.1));
        lemma_tally_ranks(s, x);
        lemma_tally_insert(s.to_multiset(), c, None, x);
    }
}

/// No suit holds more cards than there are, and a suit that some card lacks
/// holds fewer.
pub proof fn lemma_suit_count_bound(cards: Seq<Card>, s: Suit)
    ensures
        suit_count(cards.to_multiset(), s) <= cards.len(),
        (exists|i: int| 0 <= i < cards.len() && #[trigger] cards[i].0 != s) ==> suit_count(
            cards.to_multiset(),
            s,
        ) < cards.len(),
    decreases cards.len(),
{
    if cards.len() == 0 {
        assert(cards.to_multiset() =~= Multiset::empty());
        lemma_tally_from_empty(Some(s), 0);
    } else {
        let t = cards.drop_last();
        let c = cards.last();
        assert(cards =~= t.push(c));
        lemma_suit_count_bound(t, s);
        lemma_tally_from_insert(t.to_multiset(), c, Some(s), 0);
        lemma_rank_index(c.1);
        if exists|i: int| 0 <= i < cards.len() && #[trigger] cards[i].0 != s {
            let i = choose|i: int| 0 <= i < cards.len() && #[trigger] cards[i].0 != s;
            if i < t.len() {
                assert(t[i].0 != s);
            }
        }
    }
}

/// Counts the cards of rank `r` (and suit `s`, if given).
pub fn count_rank(cards: &[Card], suit: Option<Suit>, r: Rank) -> (n: usize)
    ensures
        n == tally(cards@.to_multiset(), suit, r),
{
    let mut n: usize = 0;
    let mut i: usize = 0;
    proof {
        assert(cards@.take(0).to_multiset() =~= Multiset::empty());
    }
    while i < cards.len()
        invariant
            i <= cards.len(),
            n <= i,
            n == tally(cards@.take(i as int).to_multiset(), suit, r),
        decreases cards.len() - i,
    {
        let c = cards[i];
        proof {
            assert(cards@.take(i + 1) =~= cards@.take(i as int).push(c));
            lemma_tally_insert(cards@.take(i as int).to_multiset(), c, suit, r);
        }
        let counted = match suit {
            Some(s) => c.0 == s,
            None => true,
        };
        if counted && c.1 == r {
            n = n + 1;
        }
        i = i + 1;
    }
    proof {
        assert(cards@.take(cards.len() as int) =~= cards@);
    }
    n
}

/// Counts the cards of suit `s`.
pub fn count_suit(cards: &[Card], s: Suit) -> (n: usize)
    ensures
        n == suit_count(cards@.to_multiset(), s),
{
    let mut n: usize = 0;
    let mut i: usize = 0;
    proof {
        assert(cards@.take(0).to_multiset() =~= Multiset::empty());
        lemma_tally_from_empty(Some(s), 0);
    }
    while i < cards.len()
        invariant
            i <= cards.len(),
            n <= i,
            n == suit_count(cards@.take(i as int).to_multiset(), s),
        decreases cards.len() - i,
    {
        let c = cards[i];
        proof {
            assert(cards@.take(i + 1) =~= cards@.take(i as int).push(c));
            lemma_tally_from_insert(cards@.take(i as int).to_multiset(), c, Some(s), 0);
            lemma_rank_index(c.1);
        }
        if c.0 == s {
            n = n + 1;
        }
        i = i + 1;
    }
    proof {
        assert(cards@.take(cards.len() as int) =~= cards@);
    }
    n
}

/// Whether `r` is one of `ex`.
fn is_listed(ex: &[Rank], r: Rank) -> (b: bool)
    ensures
        b == ex@.contains(r),
{
    let mut i: usize = 0;
    while i < ex.len()
        invariant
            i <= ex.len(),
            forall|j: int| 0 <= j < i ==> ex@[j] != r,
        decreases ex.len() - i,
    {
        if ex[i] == r {
            return true;
        }
        i = i + 1;
    }
    false
}

/// The highest rank held at least `k` times that is not one of `ex`.
pub fn find_group(cards: &[Card], k: usize, ex: &[Rank]) -> (g: Option<Rank>)
    ensures
        g == highest_group(cards@.to_multiset(), k as nat, ex@),
{
    let ghost m = cards@.to_multiset();
    let mut n: usize = 13;
    while n > 0
        invariant
            n <= 13,
            m == cards@.to_multiset(),
            group_below(m, k as nat, ex@, 13) == group_below(m, k as nat, ex@, n as int),
        decreases n,
    {
        let r = Rank::from_index(n - 1);
        if count_rank(cards, None, r) >= k && !is_listed(ex, r) {
            return Some(r);
        }
        n = n - 1;
    }
    None
}

/// Whether the five ranks from position `t` down are all held (in suit `s`, if given).
fn run_at(cards: &[Card], suit: Option<Suit>, t: usize) -> (b: bool)
    requires
        4 <= t < 13,
    ensures
        b == is_run(cards@.to_multiset(), suit, t as int),
{
    let ghost m = cards@.to_multiset();
    let mut d: usize = 0;
    while d < 5
        invariant
            d <= 5,
            m == cards@.to_multiset(),
            4 <= t < 13,
            forall|e: int| 0 <= e < d ==> #[trigger] tally(m, suit, rank_at(t - e)) > 0,
        decreases 5 - d,
    {
        if count_rank(cards, suit, Rank::from_index(t - d)) == 0 {
            return false;
        }
        d = d + 1;
    }
    true
}

/// The top rank of the highest run of five consecutive ranks (in suit `s`, if given).
pub fn find_run(cards: &[Card], suit: Option<Suit>) -> (t: Option<Rank>)
    ensures
        t == highest_run(cards@.to_multiset(), suit),
{
    let ghost m = cards@.to_multiset();
    let mut n: usize = 13;
    while n > 0
        invariant
            n <= 13,
            m == cards@.to_multiset(),
            run_below(m, suit, 13) == run_below(m, suit, n as int),
        decreases n,
    {
        if n - 1 >= 4 && run_at(cards, suit, n - 1) {
            return Some(Rank::from_index(n - 1));
        }
        n = n - 1;
    }
    None
}

/// The top rank of the highest run of five consecutive ranks within one suit.
pub fn find_suited_run(cards: &[Card]) -> (t: Option<Rank>)
    ensures
        t == highest_suited_run(cards@.to_multiset()),
{
    let ghost m = cards@.to_multiset();
    let mut n: usize = 13;
    while n > 0
        invariant
            n <= 13,
            m == cards@.to_multiset(),
            suited_run_below(m, 13) == suited_run_below(m, n as int),
        decreases n,
    {
        if n - 1 >= 4 && (run_at(cards, Some(Suit::Clubs), n - 1) || run_at(
            cards,
            Some(Suit::Diamonds),
            n - 1,
        ) || run_at(cards, Some(Suit::Hearts), n - 1) || run_at(cards, Some(Suit::Spades), n - 1)) {
            return Some(Rank::from_index(n - 1));
        }
        n = n - 1;
    }
    None
}

/// The ranks of the cards (of suit `s`, if given), from highest to lowest.
pub fn sort_ranks(cards: &[Card], suit: Option<Suit>) -> (v: Vec<Rank>)
    ensures
        v@ == sorted_ranks(cards@.to_multiset(), suit),
{
    let ghost m = cards@.to_multiset();
    let mut v: Vec<Rank> = Vec::new();
    let mut n: usize = 13;
    while n > 0
        invariant
            n <= 13,
            m == cards@.to_multiset(),
            v@ == sorted_from(m, suit, n as int),
        decreases n,
    {
        let r = Rank::from_index(n - 1);
        let k = count_rank(cards, suit, r);
        let mut j: usize = 0;
        while j < k
            invariant
                j <= k,
                m == cards@.to_multiset(),
                k == tally(m, suit, r),
                r == rank_at(n - 1),
                v@ == sorted_from(m, suit, n as int) + Seq::new(j as nat, |_e: int| r),
            decreases k - j,
        {
            v.push(r);
            proof {
                assert(v@ =~= sorted_from(m, suit, n as int) + Seq::new((j + 1) as nat, |_e: int| r));
            }
            j = j + 1;
        }
        proof {
            assert(v@ =~= sorted_from(m, suit, n - 1));
        }
        n = n - 1;
    }
    v
}

} // verus!
