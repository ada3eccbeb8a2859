//! Hand categories, their strength order, and the detectors that find the best
//! category a set of cards can form.

use vstd::multiset::Multiset;
use vstd::prelude::*;

use std::cmp::Ordering;

use crate::card::{Card, Rank, Suit, rank_at, suit_at, rank_index, lemma_rank_index, lemma_rank_at};
use crate::tally::{
    tally, tally_from, one_rank, is_group, highest_group, highest_run, highest_suited_run, suit_count,
    sorted_ranks, find_group, find_run, find_suited_run, count_suit, sort_ranks, lemma_group_below,
    lemma_sorted_len, lemma_tally_total, lemma_sorted_descending, lemma_sorted_counts,
    lemma_tally_ranks, is_run, is_suited_run, suited_run_below, lemma_run_below,
    lemma_suit_count_bound,
};

verus! {

broadcast use vstd::seq_lib::group_to_multiset_ensures;

/// A hand category with the ranks that break ties inside it, most significant
/// first. Variants are listed from the weakest to the strongest.
#[derive(PartialEq, Eq, Structural, Ord, Clone, Copy, Debug)]
pub enum CardCombo {
    HighCard(Rank, Rank, Rank, Rank, Rank),
    Pair(Rank, Rank),
    TwoPairs(Rank, Rank, Rank),
    ThreeOfAKind(Rank, Rank),
    Straight(Rank),
    Flush(Rank, Rank, Rank, Rank, Rank),
    FullHouse(Rank),
    FourOfAKind(Rank, Rank),
    StraightFlush(Rank),
    RoyalFlush,
}

/// Strength of a category: 0 for a high card up to 9 for a royal flush.
pub open spec fn category(c: CardCombo) -> int {
    match c {
        CardCombo::HighCard(..) => 0,
        CardCombo::Pair(..) => 1,
        CardCombo::TwoPairs(..) => 2,
        CardCombo::ThreeOfAKind(..) => 3,
        CardCombo::Straight(..) => 4,
        CardCombo::Flush(..) => 5,
        CardCombo::FullHouse(..) => 6,
        CardCombo::FourOfAKind(..) => 7,
        CardCombo::StraightFlush(..) => 8,
        CardCombo::RoyalFlush => 9,
    }
}

/// The ranks a combination carries, in the order they break ties.
pub open spec fn tie_break(c: CardCombo) -> Seq<Rank> {
    match c {
        CardCombo::HighCard(a, b, d, e, f) => seq![a, b, d, e, f],
        CardCombo::Pair(a, b) => seq![a, b],
        CardCombo::TwoPairs(a, b, d) => seq![a, b, d],
        CardCombo::ThreeOfAKind(a, b) => seq![a, b],
        CardCombo::Straight(a) => seq![a],
        CardCombo::Flush(a, b, d, e, f) => seq![a, b, d, e, f],
        CardCombo::FullHouse(a) => seq![a],
        CardCombo::FourOfAKind(a, b) => seq![a, b],
        CardCombo::StraightFlush(a) => seq![a],
        CardCombo::RoyalFlush => seq![],
    }
}

/// Lexicographic order of two rank sequences: the first differing rank decides.
pub open spec fn compare_ranks(a: Seq<Rank>, b: Seq<Rank>) -> Ordering
    decreases a.len(),
{
    if a.len() == 0 || b.len() == 0 {
        if a.len() == b.len() {
            Ordering::Equal
        } else if a.len() < b.len() {
            Ordering::Less
        } else {
            Ordering::Greater
        }
    } else if rank_index(a[0]) < rank_index(b[0]) {
        Ordering::Less
    } else if rank_index(a[0]) > rank_index(b[0]) {
        Ordering::Greater
    } else {
        compare_ranks(a.drop_first(), b.drop_first())
    }
}

/// Strength order of combinations: the category decides, and within one
/// category the carried ranks do, most significant first.
pub open spec fn compare_combos(a: CardCombo, b: CardCombo) -> Ordering {
    if category(a) < category(b) {
        Ordering::Less
    } else if category(a) > category(b) {
        Ordering::Greater
    } else {
        compare_ranks(tie_break(a), tie_break(b))
    }
}

impl CardCombo {
    /// Strength of the category, from 0 (high card) to 9 (royal flush).
    pub fn category(&self) -> (k: u8)
        ensures
            k == category(*self),
    {
        match self {
            CardCombo::HighCard(..) => 0,
            CardCombo::Pair(..) => 1,
            CardCombo::TwoPairs(..) => 2,
            CardCombo::ThreeOfAKind(..) => 3,
            CardCombo::Straight(..) => 4,
            CardCombo::Flush(..) => 5,
            CardCombo::FullHouse(..) => 6,
            CardCombo::FourOfAKind(..) => 7,
            CardCombo::StraightFlush(..) => 8,
            CardCombo::RoyalFlush => 9,
        }
    }

    /// The carried ranks, most significant first.
    pub fn tie_break(&self) -> (v: Vec<Rank>)
        ensures
            v@ == tie_break(*self),
    {
        let v = match *self {
            CardCombo::HighCard(a, b, d, e, f) => vec![a, b, d, e, f],
            CardCombo::Pair(a, b) => vec![a, b],
            CardCombo::TwoPairs(a, b, d) => vec![a, b, d],
            CardCombo::ThreeOfAKind(a, b) => vec![a, b],
            CardCombo::Straight(a) => vec![a],
            CardCombo::Flush(a, b, d, e, f) => vec![a, b, d, e, f],
            CardCombo::FullHouse(a) => vec![a],
            CardCombo::FourOfAKind(a, b) => vec![a, b],
            CardCombo::StraightFlush(a) => vec![a],
            CardCombo::RoyalFlush => vec![],
        };
        proof {
            assert(v@ =~= tie_break(*self));
        }
        v
    }

    /// Compares two combinations by strength.
    pub fn compare(&self, other: &CardCombo) -> (o: Ordering)
        ensures
            o == compare_combos(*self, *other),
    {
        let a = self.category();
        let b = other.category();
        if a < b {
            return Ordering::Less;
        } else if a > b {
            return Ordering::Greater;
        }
        let x = self.tie_break();
        let y = other.tie_break();
        let mut i: usize = 0;
        proof {
            assert(x@.skip(0) =~= x@);
            assert(y@.skip(0) =~= y@);
        }
        while i < x.len() && i < y.len()
            invariant
                x@ == tie_break(*self),
                y@ == tie_break(*other),
                category(*self) == category(*other),
                i <= x.len(),
                i <= y.len(),
                compare_ranks(x@, y@) == compare_ranks(x@.skip(i as int), y@.skip(i as int)),
            decreases x.len() - i,
        {
            let p = x[i].index();
            let q = y[i].index();
            proof {
                assert(x@.skip(i as int)[0] == x@[i as int]);
                assert(y@.skip(i as int)[0] == y@[i as int]);
                assert(x@.skip(i as int).drop_first() =~= x@.skip(i + 1));
                assert(y@.skip(i as int).drop_first() =~= y@.skip(i + 1));
            }
            if p < q {
                return Ordering::Less;
            } else if p > q {
                return Ordering::Greater;
            }
            i = i + 1;
        }
        if x.len() == y.len() {
            Ordering::Equal
        } else if x.len() < y.len() {
            Ordering::Less
        } else {
            Ordering::Greater
        }
    }
}

impl PartialOrd for CardCombo {
    fn partial_cmp(&self, other: &CardCombo) -> (o: Option<Ordering>)
        ensures
            o == Some(compare_combos(*self, *other)),
    {
        Some(self.compare(other))
    }
}

impl vstd::std_specs::cmp::PartialOrdSpecImpl for CardCombo {
    open spec fn obeys_partial_cmp_spec() -> bool {
        true
    }

    open spec fn partial_cmp_spec(&self, other: &CardCombo) -> Option<Ordering> {
        Some(compare_combos(*self, *other))
    }
}

/// The highest rank held by a card whose rank is not one of `ex`.
pub open spec fn kicker(m: Multiset<Card>, ex: Seq<Rank>) -> Rank {
    highest_group(m, 1, ex).unwrap()
}

/// A straight flush: the highest run of five consecutive ranks within any one
/// suit, named by its top rank.
pub open spec fn straight_flush_in(m: Multiset<Card>) -> Option<CardCombo> {
    match highest_suited_run(m) {
        Some(t) => Some(CardCombo::StraightFlush(t)),
        None => None,
    }
}

/// A royal flush: a straight flush topped by an ace.
pub open spec fn royal_flush_in(m: Multiset<Card>) -> Option<CardCombo> {
    if straight_flush_in(m) == Some(CardCombo::StraightFlush(Rank::Ace)) {
        Some(CardCombo::RoyalFlush)
    } else {
        None
    }
}

/// Four of a kind: the highest rank held four times, with the highest other rank.
pub open spec fn four_of_a_kind_in(m: Multiset<Card>) -> Option<CardCombo> {
    match highest_group(m, 4, seq![]) {
        Some(q) => Some(CardCombo::FourOfAKind(q, kicker(m, seq![q]))),
        None => None,
    }
}

/// A full house: the highest rank held three times, provided another rank is
/// held at least twice.
pub open spec fn full_house_in(m: Multiset<Card>) -> Option<CardCombo> {
    match highest_group(m, 3, seq![]) {
        Some(t) => if highest_group(m, 2, seq![t]) is Some {
            Some(CardCombo::FullHouse(t))
        } else {
            None
        },
        None => None,
    }
}

/// The flush suit `s` gives: its five highest ranks, from highest to lowest.
pub open spec fn suit_flush(m: Multiset<Card>, s: Suit) -> CardCombo {
    let d = sorted_ranks(m, Some(s));
    CardCombo::Flush(d[0], d[1], d[2], d[3], d[4])
}

/// The strongest flush among the first `k` suits (clubs, diamonds, hearts,
/// spades) that hold five cards or more; between equal flushes the earlier suit's.
pub open spec fn flush_upto(m: Multiset<Card>, k: int) -> Option<CardCombo>
    decreases k,
{
    if k <= 0 {
        None
    } else {
        let prev = flush_upto(m, k - 1);
        let f = suit_flush(m, suit_at(k - 1));
        if suit_count(m, suit_at(k - 1)) < 5 {
            prev
        } else {
            match prev {
                Some(b) => if compare_combos(f, b) == Ordering::Greater {
                    Some(f)
                } else {
                    prev
                },
                None => Some(f),
            }
        }
    }
}

/// A flush: the strongest of the flushes that the suits holding five cards or
/// more give.
pub open spec fn flush_in(m: Multiset<Card>) -> Option<CardCombo> {
    flush_upto(m, 4)
}

/// A straight: the highest run of five consecutive ranks, named by its top rank.
pub open spec fn straight_in(m: Multiset<Card>) -> Option<CardCombo> {
    match highest_run(m, None) {
        Some(t) => Some(CardCombo::Straight(t)),
        None => None,
    }
}

/// Three of a kind: the highest rank held three times, with the highest other rank.
pub open spec fn three_of_a_kind_in(m: Multiset<Card>) -> Option<CardCombo> {
    match highest_group(m, 3, seq![]) {
        Some(t) => Some(CardCombo::ThreeOfAKind(t, kicker(m, seq![t]))),
        None => None,
    }
}

/// Two pairs: the highest rank held twice, the next highest rank held twice,
/// and the highest rank of the rest.
pub open spec fn two_pairs_in(m: Multiset<Card>) -> Option<CardCombo> {
    match highest_group(m, 2, seq![]) {
        Some(p) => match highest_group(m, 2, seq![p]) {
            Some(q) => Some(CardCombo::TwoPairs(p, q, kicker(m, seq![p, q]))),
            None => None,
        },
        None => None,
    }
}

/// Whether, where two pairs are found, some card lies outside both of them.
pub open spec fn two_pairs_have_kicker(m: Multiset<Card>) -> bool {
    match highest_group(m, 2, seq![]) {
        Some(p) => match highest_group(m, 2, seq![p]) {
            Some(q) => highest_group(m, 1, seq![p, q]) is Some,
            None => true,
        },
        None => true,
    }
}

/// A pair: the highest rank held twice, with the highest other rank.
pub open spec fn pair_in(m: Multiset<Card>) -> Option<CardCombo> {
    match highest_group(m, 2, seq![]) {
        Some(p) => Some(CardCombo::Pair(p, kicker(m, seq![p]))),
        None => None,
    }
}

/// A high card: the five highest ranks, from highest to lowest.
pub open spec fn high_card_in(m: Multiset<Card>) -> CardCombo {
    let d = sorted_ranks(m, None);
    CardCombo::HighCard(d[0], d[1], d[2], d[3], d[4])
}

/// The best combination: the first category found, trying the strongest first.
pub open spec fn best_hand(m: Multiset<Card>) -> CardCombo {
    if let Some(c) = royal_flush_in(m) {
        c
    } else if let Some(c) = straight_flush_in(m) {
        c
    } else if let Some(c) = four_of_a_kind_in(m) {
        c
    } else if let Some(c) = full_house_in(m) {
        c
    } else if let Some(c) = flush_in(m) {
        c
    } else if let Some(c) = straight_in(m) {
        c
    } else if let Some(c) = three_of_a_kind_in(m) {
        c
    } else if let Some(c) = two_pairs_in(m) {
        c
    } else if let Some(c) = pair_in(m) {
        c
    } else {
        high_card_in(m)
    }
}

/// When not all cards share a rank, every rank leaves some card outside it.
pub proof fn lemma_other_rank(cards: Seq<Card>, q: Rank)
    requires
        cards.len() > 0,
        !one_rank(cards),
    ensures
        highest_group(cards.to_multiset(), 1, seq![q]) is Some,
{
    let m = cards.to_multiset();
    let i = choose|i: int| 0 <= i < cards.len() && #[trigger] cards[i].1 != cards[0].1;
    let j = if cards[i].1 != q { i } else { 0 };
    let c = cards[j];
    assert(cards.contains(c));
    assert(m.count(Card(c.0, c.1)) > 0);
    assert(tally(m, None, c.1) >= 1);
    lemma_rank_index(c.1);
    assert(is_group(m, 1, seq![q], rank_index(c.1)));
    lemma_group_below(m, 1, seq![q], 13);
}

/// The count of ranks from position `i` up, when no rank but `p` and `q` is held.
proof fn lemma_two_ranks_bound(m: Multiset<Card>, p: Rank, q: Rank, i: int)
    requires
        0 <= i <= 13,
        forall|t: int|
            i <= t < 13 && rank_at(t) != p && rank_at(t) != q ==> #[trigger] tally(
                m,
                None,
                rank_at(t),
            ) == 0,
    ensures
        tally_from(m, None, i) <= (if rank_index(p) >= i {
            tally(m, None, p)
        } else {
            0
        }) + (if rank_index(q) >= i {
            tally(m, None, q)
        } else {
            0
        }),
    decreases 13 - i,
{
    lemma_rank_index(p);
    lemma_rank_index(q);
    if i < 13 {
        lemma_two_ranks_bound(m, p, q, i + 1);
        lemma_rank_at(i);
    }
}

/// Without three of a kind, five cards or more leave a kicker beside two pairs.
pub proof fn lemma_two_pairs_kicker(cards: Seq<Card>)
    requires
        cards.len() >= 5,
        highest_group(cards.to_multiset(), 3, seq![]) is None,
    ensures
        two_pairs_have_kicker(cards.to_multiset()),
{
    let m = cards.to_multiset();
    lemma_group_below(m, 3, seq![], 13);
    if let Some(p) = highest_group(m, 2, seq![]) {
        if let Some(q) = highest_group(m, 2, seq![p]) {
            lemma_group_below(m, 2, seq![p], 13);
            lemma_group_below(m, 1, seq![p, q], 13);
            lemma_rank_index(p);
            lemma_rank_index(q);
            assert(!is_group(m, 3, seq![], rank_index(p)));
            assert(!is_group(m, 3, seq![], rank_index(q)));
            if highest_group(m, 1, seq![p, q]) is None {
                assert forall|t: int|
                    0 <= t < 13 && rank_at(t) != p && rank_at(t) != q implies #[trigger] tally(
                    m,
                    None,
                    rank_at(t),
                ) == 0 by {
                    assert(!is_group(m, 1, seq![p, q], t));
                    assert(!seq![p, q].contains(rank_at(t))) by {
                        if seq![p, q].contains(rank_at(t)) {
                            let k = choose|k: int| 0 <= k < 2 && seq![p, q][k] == rank_at(t);
                        }
                    }
                }
                lemma_two_ranks_bound(m, p, q, 0);
                lemma_tally_total(cards);
            }
        }
    }
}

/// The flush found is the strongest any suit gives: it comes from a suit
/// holding five cards or more, and no such suit gives a stronger one.
pub proof fn lemma_flush_is_strongest(m: Multiset<Card>, k: int)
    requires
        0 <= k <= 4,
    ensures
        flush_upto(m, k) is Some <==> exists|j: int| 0 <= j < k && suit_count(m, suit_at(j)) >= 5,
        flush_upto(m, k) matches Some(f) ==> exists|j: int|
            0 <= j < k && suit_count(m, suit_at(j)) >= 5 && f == suit_flush(m, suit_at(j)),
        forall|j: int|
            0 <= j < k && suit_count(m, suit_at(j)) >= 5 ==> flush_upto(m, k) is Some
                && compare_combos(#[trigger] suit_flush(m, suit_at(j)), flush_upto(m, k).unwrap())
                != Ordering::Greater,
    decreases k,
{
    if k > 0 {
        lemma_flush_is_strongest(m, k - 1);
        let f = suit_flush(m, suit_at(k - 1));
        lemma_total_order(f, f, f);
        if let Some(b) = flush_upto(m, k - 1) {
            lemma_total_order(f, b, f);
            lemma_total_order(b, f, b);
            assert forall|j: int|
                0 <= j < k && suit_count(m, suit_at(j)) >= 5 implies flush_upto(m, k) is Some
                && compare_combos(#[trigger] suit_flush(m, suit_at(j)), flush_upto(m, k).unwrap())
                != Ordering::Greater by {
                let x = suit_flush(m, suit_at(j));
                lemma_total_order(x, b, f);
                lemma_total_order(x, f, b);
                lemma_total_order(b, x, f);
                lemma_total_order(f, x, b);
            }
        }
    }
}

/// Five cards that form no category give a high card carrying exactly their
/// five ranks, from highest to lowest.
pub proof fn lemma_five_cards_high_card(cards: Seq<Card>)
    requires
        cards.len() == 5,
        royal_flush_in(cards.to_multiset()) is None,
        straight_flush_in(cards.to_multiset()) is None,
        four_of_a_kind_in(cards.to_multiset()) is None,
        full_house_in(cards.to_multiset()) is None,
        flush_in(cards.to_multiset()) is None,
        straight_in(cards.to_multiset()) is None,
        three_of_a_kind_in(cards.to_multiset()) is None,
        two_pairs_in(cards.to_multiset()) is None,
        pair_in(cards.to_multiset()) is None,
    ensures
        best_hand(cards.to_multiset()) is HighCard,
        tie_break(best_hand(cards.to_multiset())).to_multiset() == cards.map_values(
            |c: Card| c.1,
        ).to_multiset(),
        forall|i: int, j: int|
            0 <= i < j < 5 ==> rank_index(#[trigger] tie_break(best_hand(cards.to_multiset()))[i])
                >= rank_index(#[trigger] tie_break(best_hand(cards.to_multiset()))[j]),
{
    let m = cards.to_multiset();
    let d = sorted_ranks(m, None);
    lemma_sorted_len(m, None, 0);
    lemma_tally_total(cards);
    lemma_sorted_descending(m, None, 0);
    assert(tie_break(best_hand(m)) =~= d);
    assert forall|x: Rank| #[trigger] d.to_multiset().count(x) == cards.map_values(
        |c: Card| c.1,
    ).to_multiset().count(x) by {
        lemma_sorted_counts(m, None, 0, x);
        lemma_tally_ranks(cards, x);
        lemma_rank_index(x);
    }
    assert(d.to_multiset() =~= cards.map_values(|c: Card| c.1).to_multiset());
}

/// Whether every card's rank lies among the five positions from `t - 4` to `t`.
pub open spec fn ranks_within(cards: Seq<Card>, t: int) -> bool {
    forall|i: int| 0 <= i < cards.len() ==> t - 4 <= #[trigger] rank_index(cards[i].1) <= t
}

/// Five cards of distinct ranks that hold a run of five ranks hold nothing
/// outside it.
proof fn lemma_run_covers_five(cards: Seq<Card>, t: int)
    requires
        cards.len() == 5,
        cards.map_values(|c: Card| c.1).no_duplicates(),
        is_run(cards.to_multiset(), None, t),
    ensures
        ranks_within(cards, t),
{
    let m = cards.to_multiset();
    let r = cards.map_values(|c: Card| c.1);
    assert(tally(m, None, rank_at(t - 0)) > 0);
    assert(tally(m, None, rank_at(t - 1)) > 0);
    assert(tally(m, None, rank_at(t - 2)) > 0);
    assert(tally(m, None, rank_at(t - 3)) > 0);
    assert(tally(m, None, rank_at(t - 4)) > 0);
    lemma_tally_ranks(cards, rank_at(t - 0));
    lemma_tally_ranks(cards, rank_at(t - 1));
    lemma_tally_ranks(cards, rank_at(t - 2));
    lemma_tally_ranks(cards, rank_at(t - 3));
    lemma_tally_ranks(cards, rank_at(t - 4));
    lemma_rank_at(t - 0);
    lemma_rank_at(t - 1);
    lemma_rank_at(t - 2);
    lemma_rank_at(t - 3);
    lemma_rank_at(t - 4);
    assert(r.contains(rank_at(t - 0)));
    assert(r.contains(rank_at(t - 1)));
    assert(r.contains(rank_at(t - 2)));
    assert(r.contains(rank_at(t - 3)));
    assert(r.contains(rank_at(t - 4)));
    let j0 = choose|j: int| 0 <= j < 5 && r[j] == rank_at(t - 0);
    let j1 = choose|j: int| 0 <= j < 5 && r[j] == rank_at(t - 1);
    let j2 = choose|j: int| 0 <= j < 5 && r[j] == rank_at(t - 2);
    let j3 = choose|j: int| 0 <= j < 5 && r[j] == rank_at(t - 3);
    let j4 = choose|j: int| 0 <= j < 5 && r[j] == rank_at(t - 4);
    assert forall|i: int| 0 <= i < 5 implies t - 4 <= #[trigger] rank_index(cards[i].1) <= t by {
        assert(r[i] == cards[i].1);
        if !(t - 4 <= rank_index(cards[i].1) <= t) {
            assert(i != j0 && i != j1 && i != j2 && i != j3 && i != j4);
            assert(j0 != j1 && j0 != j2 && j0 != j3 && j0 != j4);
            assert(j1 != j2 && j1 != j3 && j1 != j4);
            assert(j2 != j3 && j2 != j4 && j3 != j4);
        }
    }
}

proof fn lemma_no_suited_run_below(m: Multiset<Card>, n: int)
    requires
        forall|t: int| 0 <= t < n ==> !#[trigger] is_suited_run(m, t),
    ensures
        suited_run_below(m, n) is None,
    decreases n,
{
    if n > 0 {
        lemma_no_suited_run_below(m, n - 1);
    }
}

/// Five cards of five different ranks, not all of one suit, whose ranks do not
/// lie within five consecutive positions, form no category: they evaluate to a
/// high card carrying exactly their five ranks, strictly from highest to lowest.
pub proof fn lemma_plain_five_cards(cards: Seq<Card>)
    requires
        cards.len() == 5,
        cards.map_values(|c: Card| c.1).no_duplicates(),
        exists|i: int| 0 <= i < 5 && #[trigger] cards[i].0 != cards[0].0,
        forall|t: int| !#[trigger] ranks_within(cards, t),
    ensures
        evaluation(cards) == Ok::<CardCombo, HandError>(best_hand(cards.to_multiset())),
        best_hand(cards.to_multiset()) is HighCard,
        tie_break(best_hand(cards.to_multiset())).to_multiset() == cards.map_values(
            |c: Card| c.1,
        ).to_multiset(),
        forall|i: int, j: int|
            0 <= i < j < 5 ==> rank_index(#[trigger] tie_break(best_hand(cards.to_multiset()))[i])
                > rank_index(#[trigger] tie_break(best_hand(cards.to_multiset()))[j]),
{
    let m = cards.to_multiset();
    let r = cards.map_values(|c: Card| c.1);
    r.lemma_multiset_has_no_duplicates();
    assert forall|x: Rank| #[trigger] tally(m, None, x) <= 1 by {
        lemma_tally_ranks(cards, x);
    }
    // No rank is held twice, so no group of two or more.
    lemma_group_below(m, 2, seq![], 13);
    lemma_group_below(m, 3, seq![], 13);
    lemma_group_below(m, 4, seq![], 13);
    if let Some(p) = highest_group(m, 2, seq![]) {
        lemma_rank_index(p);
    }
    if let Some(p) = highest_group(m, 3, seq![]) {
        lemma_rank_index(p);
    }
    if let Some(p) = highest_group(m, 4, seq![]) {
        lemma_rank_index(p);
    }
    // No run, plain or suited.
    assert forall|t: int| 0 <= t < 13 implies !#[trigger] is_run(m, None, t) by {
        if is_run(m, None, t) {
            lemma_run_covers_five(cards, t);
        }
    }
    assert forall|t: int| 0 <= t < 13 implies !#[trigger] is_suited_run(m, t) by {
        assert(!is_run(m, None, t));
        if is_suited_run(m, t) {
            let s = if is_run(m, Some(Suit::Clubs), t) {
                Suit::Clubs
            } else if is_run(m, Some(Suit::Diamonds), t) {
                Suit::Diamonds
            } else if is_run(m, Some(Suit::Hearts), t) {
                Suit::Hearts
            } else {
                Suit::Spades
            };
            assert forall|d: int| 0 <= d < 5 implies #[trigger] tally(m, None, rank_at(t - d)) > 0 by {
                assert(tally(m, Some(s), rank_at(t - d)) > 0);
            }
        }
    }
    lemma_run_below(m, None, 13);
    lemma_no_suited_run_below(m, 13);
    // No suit holds all five cards.
    let i0 = choose|i: int| 0 <= i < 5 && #[trigger] cards[i].0 != cards[0].0;
    assert forall|j: int| 0 <= j < 4 implies #[trigger] suit_count(m, suit_at(j)) < 5 by {
        if suit_at(j) == cards[0].0 {
            assert(cards[i0].0 != suit_at(j));
        } else {
            assert(cards[0].0 != suit_at(j));
        }
        lemma_suit_count_bound(cards, suit_at(j));
    }
    lemma_flush_is_strongest(m, 4);
    lemma_five_cards_high_card(cards);
    // Distinct ranks come out strictly ordered.
    let d = tie_break(best_hand(m));
    assert forall|x: Rank| d.to_multiset().contains(x) implies d.to_multiset().count(x) == 1 by {
        assert(r.to_multiset().contains(x));
    }
    d.lemma_multiset_has_no_duplicates_conv();
    assert forall|i: int, j: int| 0 <= i < j < 5 implies rank_index(#[trigger] d[i]) > rank_index(
        #[trigger] d[j],
    ) by {
        lemma_rank_index(d[i]);
        lemma_rank_index(d[j]);
    }
    assert(cards[1].1 != cards[0].1) by {
        assert(r[1] != r[0]);
    }
}

/// Finds a royal flush: a straight flush topped by an ace.
pub fn find_royal_flush(cards: &[Card]) -> (r: Option<CardCombo>)
    requires
        cards.len() >= 5,
    ensures
        r == royal_flush_in(cards@.to_multiset()),
{
    if let Some(CardCombo::StraightFlush(Rank::Ace)) = find_straight_flush(cards) {
        Some(CardCombo::RoyalFlush)
    } else {
        None
    }
}

/// Finds the highest straight flush, looking in every suit.
pub fn find_straight_flush(cards: &[Card]) -> (r: Option<CardCombo>)
    requires
        cards.len() >= 5,
    ensures
        r == straight_flush_in(cards@.to_multiset()),
{
    match find_suited_run(cards) {
        Some(t) => Some(CardCombo::StraightFlush(t)),
        None => None,
    }
}

/// Finds four of a kind and its kicker. The cards must not all share one rank,
/// or no kicker could be named.
pub fn find_four_of_a_kind(cards: &[Card]) -> (r: Option<CardCombo>)
    requires
        cards.len() >= 5,
        !one_rank(cards@),
    ensures
        r == four_of_a_kind_in(cards@.to_multiset()),
{
    let none: [Rank; 0] = [];
    match find_group(cards, 4, &none) {
        Some(q) => {
            proof {
                assert(none@ =~= seq![]);
                lemma_other_rank(cards@, q);
            }
            let ex = [q];
            assert(ex@ =~= seq![q]);
            let k = find_group(cards, 1, &ex).unwrap();
            Some(CardCombo::FourOfAKind(q, k))
        },
        None => {
            assert(none@ =~= seq![]);
            None
        },
    }
}

/// Finds a full house, named by the rank of its three of a kind.
pub fn find_full_house(cards: &[Card]) -> (r: Option<CardCombo>)
    requires
        cards.len() >= 5,
    ensures
        r == full_house_in(cards@.to_multiset()),
{
    let none: [Rank; 0] = [];
    assert(none@ =~= seq![]);
    if let Some(t) = find_group(cards, 3, &none) {
        let ex = [t];
        assert(ex@ =~= seq![t]);
        if find_group(cards, 2, &ex).is_some() {
            return Some(CardCombo::FullHouse(t));
        }
    }
    None
}

/// Finds the strongest flush: over the suits holding five cards or more, the
/// one whose five highest ranks compare highest.
pub fn find_flush(cards: &[Card]) -> (r: Option<CardCombo>)
    requires
        cards.len() >= 5,
    ensures
        r == flush_in(cards@.to_multiset()),
{
    let ghost m = cards@.to_multiset();
    let mut best: Option<CardCombo> = None;
    let mut k: usize = 0;
    while k < 4
        invariant
            k <= 4,
            m == cards@.to_multiset(),
            best == flush_upto(m, k as int),
        decreases 4 - k,
    {
        let s = Suit::from_index(k);
        if count_suit(cards, s) >= 5 {
            let d = sort_ranks(cards, Some(s));
            proof {
                lemma_sorted_len(m, Some(s), 0);
            }
            let f = CardCombo::Flush(d[0], d[1], d[2], d[3], d[4]);
            best = match best {
                Some(b) => match f.compare(&b) {
                    Ordering::Greater => Some(f),
                    _ => Some(b),
                },
                None => Some(f),
            };
        }
        k = k + 1;
    }
    best
}

/// Finds the highest straight, named by its top rank.
pub fn find_straight(cards: &[Card]) -> (r: Option<CardCombo>)
    requires
        cards.len() >= 5,
    ensures
        r == straight_in(cards@.to_multiset()),
{
    match find_run(cards, None) {
        Some(t) => Some(CardCombo::Straight(t)),
        None => None,
    }
}

/// Finds three of a kind and its kicker. The cards must not all share one rank,
/// or no kicker could be named.
pub fn find_three_of_a_kind(cards: &[Card]) -> (r: Option<CardCombo>)
    requires
        cards.len() >= 5,
        !one_rank(cards@),
    ensures
        r == three_of_a_kind_in(cards@.to_multiset()),
{
    let none: [Rank; 0] = [];
    assert(none@ =~= seq![]);
    match find_group(cards, 3, &none) {
        Some(t) => {
            proof {
                lemma_other_rank(cards@, t);
            }
            let ex = [t];
            assert(ex@ =~= seq![t]);
            let k = find_group(cards, 1, &ex).unwrap();
            Some(CardCombo::ThreeOfAKind(t, k))
        },
        None => None,
    }
}

/// Finds two pairs and the kicker beside them. Where two pairs are found, some
/// card must lie outside both (which holds whenever no rank is held three times).
pub fn find_two_pairs(cards: &[Card]) -> (r: Option<CardCombo>)
    requires
        cards.len() >= 5,
        two_pairs_have_kicker(cards@.to_multiset()),
    ensures
        r == two_pairs_in(cards@.to_multiset()),
{
    let none: [Rank; 0] = [];
    assert(none@ =~= seq![]);
    match find_group(cards, 2, &none) {
        Some(p) => {
            let ex = [p];
            assert(ex@ =~= seq![p]);
            match find_group(cards, 2, &ex) {
                Some(q) => {
                    let both = [p, q];
                    assert(both@ =~= seq![p, q]);
                    let k = find_group(cards, 1, &both).unwrap();
                    Some(CardCombo::TwoPairs(p, q, k))
                },
                None => None,
            }
        },
        None => None,
    }
}

/// Finds a pair and its kicker. The cards must not all share one rank, or no
/// kicker could be named.
pub fn find_pair(cards: &[Card]) -> (r: Option<CardCombo>)
    requires
        cards.len() >= 5,
        !one_rank(cards@),
    ensures
        r == pair_in(cards@.to_multiset()),
{
    let none: [Rank; 0] = [];
    assert(none@ =~= seq![]);
    match find_group(cards, 2, &none) {
        Some(p) => {
            proof {
                lemma_other_rank(cards@, p);
            }
            let ex = [p];
            assert(ex@ =~= seq![p]);
            let k = find_group(cards, 1, &ex).unwrap();
            Some(CardCombo::Pair(p, k))
        },
        None => None,
    }
}

/// The five highest ranks, from highest to lowest.
pub fn find_high_card(cards: &[Card]) -> (r: CardCombo)
    requires
        cards.len() >= 5,
    ensures
        r == high_card_in(cards@.to_multiset()),
{
    let d = sort_ranks(cards, None);
    proof {
        lemma_sorted_len(cards@.to_multiset(), None, 0);
        lemma_tally_total(cards@);
    }
    CardCombo::HighCard(d[0], d[1], d[2], d[3], d[4])
}

/// The best combination the cards form: the detectors are tried from the
/// strongest category down, and the first that finds its category decides.
pub fn find_best_card(cards: &[Card]) -> (r: CardCombo)
    requires
        cards.len() >= 5,
        !one_rank(cards@),
    ensures
        r == best_hand(cards@.to_multiset()),
{
    if let Some(cc) = find_royal_flush(cards) {
        return cc;
    }
    if let Some(cc) = find_straight_flush(cards) {
        return cc;
    }
    if let Some(cc) = find_four_of_a_kind(cards) {
        return cc;
    }
    if let Some(cc) = find_full_house(cards) {
        return cc;
    }
    if let Some(cc) = find_flush(cards) {
        return cc;
    }
    if let Some(cc) = find_straight(cards) {
        return cc;
    }
    if let Some(cc) = find_three_of_a_kind(cards) {
        return cc;
    }
    proof {
        lemma_two_pairs_kicker(cards@);
    }
    if let Some(cc) = find_two_pairs(cards) {
        return cc;
    }
    if let Some(cc) = find_pair(cards) {
        return cc;
    }
    find_high_card(cards)
}

/// Why a set of cards cannot be evaluated.
#[derive(PartialEq, Eq, Structural, Clone, Copy, Debug)]
pub enum HandError {
    /// Fewer than five cards were given.
    TooFewCards,
    /// Every card has the same rank, which only repeated cards allow: no kicker
    /// can be named beside the group.
    SingleRank,
}

/// What evaluating a sequence of cards gives.
pub open spec fn evaluation(cards: Seq<Card>) -> Result<CardCombo, HandError> {
    if cards.len() < 5 {
        Err(HandError::TooFewCards)
    } else if one_rank(cards) {
        Err(HandError::SingleRank)
    } else {
        Ok(best_hand(cards.to_multiset()))
    }
}

/// Whether every card has the rank of the first.
fn all_one_rank(cards: &[Card]) -> (b: bool)
    ensures
        b == one_rank(cards@),
{
    let mut i: usize = 0;
    while i < cards.len()
        invariant
            i <= cards.len(),
            forall|j: int| 0 <= j < i ==> #[trigger] cards@[j].1 == cards@[0].1,
        decreases cards.len() - i,
    {
        if cards[i].1 != cards[0].1 {
            return false;
        }
        i = i + 1;
    }
    true
}

/// Evaluates a set of cards: the best combination they form, or the reason
/// they cannot be evaluated.
pub fn evaluate(cards: &[Card]) -> (r: Result<CardCombo, HandError>)
    ensures
        r == evaluation(cards@),
        r is Ok <==> cards.len() >= 5 && !one_rank(cards@),
{
    if cards.len() < 5 {
        Err(HandError::TooFewCards)
    } else if all_one_rank(cards) {
        Err(HandError::SingleRank)
    } else {
        Ok(find_best_card(cards))
    }
}

/// Evaluation depends only on which cards are given, not on their order: two
/// sequences holding the same cards as often evaluate alike.
pub proof fn lemma_evaluation_ignores_order(a: Seq<Card>, b: Seq<Card>)
    requires
        a.to_multiset() == b.to_multiset(),
    ensures
        evaluation(a) == evaluation(b),
        best_hand(a.to_multiset()) == best_hand(b.to_multiset()),
{
    assert(a.len() == a.to_multiset().len());
    assert(b.len() == b.to_multiset().len());
    if one_rank(a) {
        lemma_one_rank_ignores_order(a, b);
    }
    if one_rank(b) {
        lemma_one_rank_ignores_order(b, a);
    }
}

proof fn lemma_one_rank_ignores_order(a: Seq<Card>, b: Seq<Card>)
    requires
        a.to_multiset() == b.to_multiset(),
        one_rank(a),
    ensures
        one_rank(b),
{
    assert forall|j: int| 0 <= j < b.len() implies #[trigger] b[j].1 == b[0].1 by {
        assert(b.contains(b[j]));
        assert(b.contains(b[0]));
        assert(b.to_multiset().count(b[j]) > 0);
        assert(b.to_multiset().count(b[0]) > 0);
        assert(a.to_multiset().count(b[j]) > 0);
        assert(a.to_multiset().count(b[0]) > 0);
        assert(a.contains(b[j]));
        assert(a.contains(b[0]));
        let x = choose|x: int| 0 <= x < a.len() && a[x] == b[j];
        let y = choose|y: int| 0 <= y < a.len() && a[y] == b[0];
        assert(a[x].1 == a[0].1);
        assert(a[y].1 == a[0].1);
    }
}

/// Five or more distinct cards always evaluate to a combination: four suits
/// cannot give five distinct cards of one rank.
pub proof fn lemma_distinct_cards_evaluate(cards: Seq<Card>)
    requires
        cards.len() >= 5,
        cards.no_duplicates(),
    ensures
        evaluation(cards) is Ok,
{
    if one_rank(cards) {
        assert(cards[1].1 == cards[0].1);
        assert(cards[2].1 == cards[0].1);
        assert(cards[3].1 == cards[0].1);
        assert(cards[4].1 == cards[0].1);
        assert(cards[0] != cards[1] && cards[0] != cards[2] && cards[0] != cards[3] && cards[0]
            != cards[4]);
        assert(cards[1] != cards[2] && cards[1] != cards[3] && cards[1] != cards[4]);
        assert(cards[2] != cards[3] && cards[2] != cards[4] && cards[3] != cards[4]);
    }
}

/// A stronger category beats a weaker one whatever ranks either carries.
pub proof fn lemma_category_precedence(a: CardCombo, b: CardCombo)
    requires
        category(a) < category(b),
    ensures
        compare_combos(a, b) == Ordering::Less,
        compare_combos(b, a) == Ordering::Greater,
{
}

/// The strength order is a total order: two combinations compare equal only
/// when they are the same, swapping them reverses the outcome, and it is
/// transitive.
pub proof fn lemma_total_order(a: CardCombo, b: CardCombo, c: CardCombo)
    ensures
        compare_combos(a, b) == Ordering::Equal <==> a == b,
        compare_combos(a, b) == Ordering::Less <==> compare_combos(b, a) == Ordering::Greater,
        compare_combos(a, b) == Ordering::Less && compare_combos(b, c) == Ordering::Less
            ==> compare_combos(a, c) == Ordering::Less,
{
    lemma_compare_ranks_equal(tie_break(a), tie_break(b));
    lemma_compare_ranks_swap(tie_break(a), tie_break(b));
    lemma_compare_ranks_transitive(tie_break(a), tie_break(b), tie_break(c));
    if category(a) == category(b) && tie_break(a) == tie_break(b) {
        let (x, y) = (tie_break(a), tie_break(b));
        assert(x.len() == y.len());
        assert(forall|i: int| 0 <= i < x.len() ==> x[i] == y[i]);
    }
}

proof fn lemma_compare_ranks_equal(a: Seq<Rank>, b: Seq<Rank>)
    ensures
        compare_ranks(a, b) == Ordering::Equal <==> a == b,
    decreases a.len(),
{
    if a.len() > 0 && b.len() > 0 {
        lemma_compare_ranks_equal(a.drop_first(), b.drop_first());
        lemma_rank_index(a[0]);
        lemma_rank_index(b[0]);
        if a[0] == b[0] && a.drop_first() == b.drop_first() {
            assert(a =~= seq![a[0]] + a.drop_first());
            assert(b =~= seq![b[0]] + b.drop_first());
        }
        if a == b {
            assert(a.drop_first() == b.drop_first());
        }
    } else if a.len() == 0 && b.len() == 0 {
        assert(a =~= b);
    }
}

proof fn lemma_compare_ranks_swap(a: Seq<Rank>, b: Seq<Rank>)
    ensures
        compare_ranks(a, b) == Ordering::Less <==> compare_ranks(b, a) == Ordering::Greater,
    decreases a.len(),
{
    if a.len() > 0 && b.len() > 0 {
        lemma_compare_ranks_swap(a.drop_first(), b.drop_first());
    }
}

proof fn lemma_compare_ranks_transitive(a: Seq<Rank>, b: Seq<Rank>, c: Seq<Rank>)
    ensures
        compare_ranks(a, b) == Ordering::Less && compare_ranks(b, c) == Ordering::Less
            ==> compare_ranks(a, c) == Ordering::Less,
    decreases a.len(),
{
    if a.len() > 0 && b.len() > 0 && c.len() > 0 {
        lemma_compare_ranks_transitive(a.drop_first(), b.drop_first(), c.drop_first());
        lemma_compare_ranks_length(a.drop_first(), b.drop_first());
        lemma_compare_ranks_length(b.drop_first(), c.drop_first());
    }
}

/// An empty sequence comes first; a longer one after an equal-prefix shorter one.
proof fn lemma_compare_ranks_length(a: Seq<Rank>, b: Seq<Rank>)
    ensures
        a.len() == 0 && b.len() > 0 ==> compare_ranks(a, b) == Ordering::Less,
        b.len() == 0 ==> compare_ranks(a, b) != Ordering::Less,
{
}

/// Within one category, `a` is weaker than `b` exactly when, at the first
/// carried rank where they differ, the rank of `a` is lower.
pub proof fn lemma_tie_break(a: CardCombo, b: CardCombo)
    requires
        category(a) == category(b),
    ensures
        compare_combos(a, b) == Ordering::Less <==> exists|i: int|
            0 <= i < tie_break(a).len() && (forall|j: int|
                0 <= j < i ==> tie_break(a)[j] == #[trigger] tie_break(b)[j]) && rank_index(
                tie_break(a)[i],
            ) < rank_index(tie_break(b)[i]),
{
    lemma_compare_ranks_first_difference(tie_break(a), tie_break(b));
}

proof fn lemma_compare_ranks_first_difference(a: Seq<Rank>, b: Seq<Rank>)
    requires
        a.len() == b.len(),
    ensures
        compare_ranks(a, b) == Ordering::Less <==> exists|i: int|
            0 <= i < a.len() && (forall|j: int| 0 <= j < i ==> a[j] == #[trigger] b[j])
                && rank_index(a[i]) < rank_index(b[i]),
    decreases a.len(),
{
    if a.len() > 0 {
        let (a1, b1) = (a.drop_first(), b.drop_first());
        lemma_compare_ranks_first_difference(a1, b1);
        lemma_rank_index(a[0]);
        lemma_rank_index(b[0]);
        if compare_ranks(a, b) == Ordering::Less {
            if rank_index(a[0]) < rank_index(b[0]) {
                assert(forall|j: int| 0 <= j < 0 ==> a[j] == #[trigger] b[j]);
            } else {
                assert(a[0] == b[0]);
                let i = choose|i: int|
                    0 <= i < a1.len() && (forall|j: int| 0 <= j < i ==> a1[j] == #[trigger] b1[j])
                        && rank_index(a1[i]) < rank_index(b1[i]);
                assert forall|j: int| 0 <= j < i + 1 implies a[j] == #[trigger] b[j] by {
                    if j > 0 {
                        assert(a1[j - 1] == b1[j - 1]);
                    }
                }
                assert(rank_index(a[i + 1]) < rank_index(b[i + 1]));
            }
        } else {
            if exists|i: int|
                0 <= i < a.len() && (forall|j: int| 0 <= j < i ==> a[j] == #[trigger] b[j])
                    && rank_index(a[i]) < rank_index(b[i]) {
                let i = choose|i: int|
                    0 <= i < a.len() && (forall|j: int| 0 <= j < i ==> a[j] == #[trigger] b[j])
                        && rank_index(a[i]) < rank_index(b[i]);
                if i > 0 {
                    assert(a[0] == b[0]);
                    assert forall|j: int| 0 <= j < i - 1 implies a1[j] == #[trigger] b1[j] by {
                        assert(a[j + 1] == b[j + 1]);
                    }
                    assert(rank_index(a1[i - 1]) < rank_index(b1[i - 1]));
                }
            }
        }
    }
}

} // verus!
