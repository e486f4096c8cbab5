//! Grouping and counting of cards by rank and by suit.

use std::collections::HashMap;

use vstd::prelude::*;
use vstd::std_specs::hash::group_hash_axioms;

use crate::card::CardUtils;
use crate::getters::StraghtValueGetter;
use crate::types::{Card, Rank, Suit};

verus! {

/// The test "has this rank".
pub open spec fn has_rank(rank: Rank) -> spec_fn(Card) -> bool {
    |card: Card| card.rank == rank
}

/// The cards of one rank, in the order in which they were played.
pub open spec fn cards_of_rank(cards: Seq<Card>, rank: Rank) -> Seq<Card> {
    cards.filter(has_rank(rank))
}

/// How many cards have the rank. A wild card counts for its own rank only.
pub open spec fn rank_count(cards: Seq<Card>, rank: Rank) -> nat {
    cards_of_rank(cards, rank).len()
}

/// The largest `rank_count` among the ranks whose straight value is below `v`.
pub open spec fn max_count_below(cards: Seq<Card>, v: int) -> nat
    decreases v,
{
    if v <= 2 {
        0
    } else {
        let rest = max_count_below(cards, v - 1);
        let here = rank_count(cards, Rank::at(v - 1));
        if here >= rest {
            here
        } else {
            rest
        }
    }
}

/// The size of the largest group of cards of one rank; 0 for no cards.
pub open spec fn max_rank_count(cards: Seq<Card>) -> nat {
    max_count_below(cards, 15)
}

/// The test "is of one of these suits, or wild".
pub open spec fn suit_among(suits: Seq<Suit>) -> spec_fn(Card) -> bool {
    |card: Card| suits.contains(card.suit) || card.wild()
}

/// The test "is of one of these ranks, or wild".
pub open spec fn rank_among(ranks: Seq<Rank>) -> spec_fn(Card) -> bool {
    |card: Card| ranks.contains(card.rank) || card.wild()
}

/// `Rank::at` undoes `Rank::straight`, and the straight values are 2 to 14.
pub proof fn lemma_rank_at_straight(rank: Rank)
    ensures
        2 <= rank.straight() <= 14,
        Rank::at(rank.straight()) == rank,
{
}

/// `Rank::straight` undoes `Rank::at` between 2 and 14.
pub proof fn lemma_straight_at(v: int)
    requires
        2 <= v <= 14,
    ensures
        Rank::at(v).straight() == v,
{
}

/// What one more card does to the cards of a rank.
pub proof fn lemma_cards_of_rank_push(cards: Seq<Card>, card: Card, rank: Rank)
    ensures
        cards_of_rank(cards.push(card), rank) == if card.rank == rank {
            cards_of_rank(cards, rank).push(card)
        } else {
            cards_of_rank(cards, rank)
        },
{
    cards.lemma_filter_push(card, has_rank(rank));
}

/// No cards, no cards of any rank.
pub proof fn lemma_cards_of_rank_empty(rank: Rank)
    ensures
        cards_of_rank(Seq::<Card>::empty(), rank) == Seq::<Card>::empty(),
{
    reveal(Seq::filter);
}

/// How many cards have a rank whose straight value is at least `from` and
/// under `to`.
pub open spec fn count_between(cards: Seq<Card>, from: int, to: int) -> nat
    decreases to - from,
{
    if from >= to {
        0
    } else {
        count_between(cards, from, to - 1) + rank_count(cards, Rank::at(to - 1))
    }
}

/// What one more card does to the count over a stretch of ranks.
pub proof fn lemma_count_between_push(cards: Seq<Card>, card: Card, from: int, to: int)
    requires
        2 <= from <= to <= 15,
    ensures
        count_between(cards.push(card), from, to) == count_between(cards, from, to) + if from
            <= card.rank.straight() < to {
            1nat
        } else {
            0nat
        },
    decreases to - from,
{
    if from < to {
        lemma_count_between_push(cards, card, from, to - 1);
        lemma_cards_of_rank_push(cards, card, Rank::at(to - 1));
        lemma_straight_at(to - 1);
        lemma_rank_at_straight(card.rank);
    }
}

/// A stretch of ranks can be counted in two parts.
pub proof fn lemma_count_between_split(cards: Seq<Card>, from: int, mid: int, to: int)
    requires
        from <= mid <= to,
    ensures
        count_between(cards, from, to) == count_between(cards, from, mid) + count_between(
            cards,
            mid,
            to,
        ),
    decreases to - mid,
{
    if mid < to {
        lemma_count_between_split(cards, from, mid, to - 1);
    }
}

/// Every card has one of the thirteen ranks.
pub proof fn lemma_count_all(cards: Seq<Card>)
    ensures
        count_between(cards, 2, 15) == cards.len(),
    decreases cards.len(),
{
    if cards.len() == 0 {
        lemma_count_between_none(cards, 2, 15);
        assert forall|v: int| 2 <= v < 15 implies rank_count(cards, Rank::at(v)) == 0 by {
            assert(cards =~= Seq::<Card>::empty());
            lemma_cards_of_rank_empty(Rank::at(v));
        }
    } else {
        let front = cards.drop_last();
        lemma_count_all(front);
        assert(cards =~= front.push(cards.last()));
        lemma_count_between_push(front, cards.last(), 2, 15);
        lemma_rank_at_straight(cards.last().rank);
    }
}

/// A stretch of ranks holds no card exactly where none of its ranks does.
pub proof fn lemma_count_between_none(cards: Seq<Card>, from: int, to: int)
    ensures
        count_between(cards, from, to) == 0 <==> forall|v: int|
            from <= v < to ==> rank_count(cards, Rank::at(v)) == 0,
    decreases to - from,
{
    if from < to {
        lemma_count_between_none(cards, from, to - 1);
    }
}

/// A stretch of ranks without a repeated rank holds at most one card for
/// each of its ranks, and that many only where each rank occurs.
pub proof fn lemma_count_between_single(cards: Seq<Card>, from: int, to: int)
    requires
        from <= to,
        forall|v: int| from <= v < to ==> rank_count(cards, Rank::at(v)) <= 1,
    ensures
        count_between(cards, from, to) <= to - from,
        count_between(cards, from, to) == to - from <==> forall|v: int|
            from <= v < to ==> rank_count(cards, Rank::at(v)) == 1,
    decreases to - from,
{
    if from < to {
        lemma_count_between_single(cards, from, to - 1);
    }
}

/// A test keeps every card exactly where every card passes it.
pub proof fn lemma_filter_all(cards: Seq<Card>, pred: spec_fn(Card) -> bool)
    ensures
        cards.filter(pred).len() == cards.len() <==> forall|i: int|
            0 <= i < cards.len() ==> pred(#[trigger] cards[i]),
    decreases cards.len(),
{
    reveal(Seq::filter);
    if cards.len() > 0 {
        let front = cards.drop_last();
        lemma_filter_all(front, pred);
        front.lemma_filter_len(pred);
        assert(cards =~= front.push(cards.last()));
        front.lemma_filter_push(cards.last(), pred);
        if forall|i: int| 0 <= i < cards.len() ==> pred(#[trigger] cards[i]) {
            assert forall|i: int| 0 <= i < front.len() implies pred(#[trigger] front[i]) by {
                assert(front[i] == cards[i]);
            }
        }
        if cards.filter(pred).len() == cards.len() {
            assert forall|i: int| 0 <= i < cards.len() implies pred(#[trigger] cards[i]) by {
                if i < front.len() {
                    assert(front[i] == cards[i]);
                }
            }
        }
    }
}

/// A card is among the cards of its own rank.
pub proof fn lemma_rank_count_at(cards: Seq<Card>, i: int)
    requires
        0 <= i < cards.len(),
    ensures
        rank_count(cards, cards[i].rank) >= 1,
        cards_of_rank(cards, cards[i].rank).contains(cards[i]),
{
    let pred = has_rank(cards[i].rank);
    assert(pred(cards[i]));
    assert(cards.contains(cards[i]));
    cards.lemma_filter_contains_rev(pred, cards[i]);
}

/// Every rank's group is at most the largest, and the largest is the group
/// of some rank unless it is empty.
pub proof fn lemma_max_rank_count(cards: Seq<Card>)
    ensures
        forall|rank: Rank| #[trigger] rank_count(cards, rank) <= max_rank_count(cards),
        max_rank_count(cards) > 0 ==> exists|rank: Rank| #[trigger]
            rank_count(cards, rank) == max_rank_count(cards),
        max_rank_count(cards) <= cards.len(),
{
    lemma_max_count_below(cards, 15);
    assert forall|rank: Rank| #[trigger] rank_count(cards, rank) <= max_rank_count(cards) by {
        lemma_rank_at_straight(rank);
    }
}

proof fn lemma_max_count_below(cards: Seq<Card>, v: int)
    requires
        2 <= v <= 15,
    ensures
        forall|u: int| 2 <= u < v ==> #[trigger] rank_count(cards, Rank::at(u)) <= max_count_below(
            cards,
            v,
        ),
        max_count_below(cards, v) > 0 ==> exists|rank: Rank| #[trigger]
            rank_count(cards, rank) == max_count_below(cards, v),
        max_count_below(cards, v) <= cards.len(),
    decreases v,
{
    if v > 2 {
        lemma_max_count_below(cards, v - 1);
        cards.lemma_filter_len(has_rank(Rank::at(v - 1)));
        let here = rank_count(cards, Rank::at(v - 1));
        if max_count_below(cards, v) > 0 {
            if here >= max_count_below(cards, v - 1) {
                assert(rank_count(cards, Rank::at(v - 1)) == max_count_below(cards, v));
            } else {
                let rank = choose|rank: Rank| #[trigger]
                    rank_count(cards, rank) == max_count_below(cards, v - 1);
                assert(rank_count(cards, rank) == max_count_below(cards, v));
            }
        }
    }
}

/// Whether the groups are those of the cards, rank by rank.
pub open spec fn groups_match(groups: Map<u8, Vec<Card>>, cards: Seq<Card>) -> bool {
    &&& forall|v: u8|
        groups.contains_key(v) <==> 2 <= v <= 14 && rank_count(cards, Rank::at(v as int)) > 0
    &&& forall|v: u8|
        groups.contains_key(v) ==> (#[trigger] groups[v])@ == cards_of_rank(
            cards,
            Rank::at(v as int),
        )
}

/// Whether the counts are those of the cards, rank by rank.
pub open spec fn counts_match(counts: Map<u8, usize>, cards: Seq<Card>) -> bool {
    &&& forall|v: u8|
        counts.contains_key(v) <==> 2 <= v <= 14 && rank_count(cards, Rank::at(v as int)) > 0
    &&& forall|v: u8|
        counts.contains_key(v) ==> #[trigger] counts[v] == rank_count(cards, Rank::at(v as int))
}

/// The played cards by rank: under the straight value of each rank that
/// occurs, its cards in the order in which they were played.
pub fn group_poker_by_rank(cards_played: &Vec<Card>) -> (groups: HashMap<u8, Vec<Card>>)
    ensures
        groups_match(groups@, cards_played@),
{
    broadcast use group_hash_axioms;

    let mut groups: HashMap<u8, Vec<Card>> = HashMap::new();
    let mut i: usize = 0;
    proof {
        assert(cards_played@.take(0) =~= Seq::<Card>::empty());
        assert forall|v: u8| rank_count(cards_played@.take(0), Rank::at(v as int)) == 0 by {
            lemma_cards_of_rank_empty(Rank::at(v as int));
        }
    }
    while i < cards_played.len()
        invariant
            i <= cards_played.len(),
            groups_match(groups@, cards_played@.take(i as int)),
        decreases cards_played.len() - i,
    {
        let card = cards_played[i];
        let key = card.rank.straight_value();
        let mut group: Vec<Card> = match groups.remove(&key) {
            Some(group) => group,
            None => Vec::new(),
        };
        let ghost group_before = group@;
        group.push(card);
        groups.insert(key, group);
        proof {
            let prefix = cards_played@.take(i as int);
            assert(cards_played@.take(i + 1) =~= prefix.push(card));
            lemma_rank_at_straight(card.rank);
            lemma_cards_of_rank_empty(card.rank);
            assert(group_before == cards_of_rank(prefix, card.rank));
            assert forall|v: u8|
                groups@.contains_key(v) <==> 2 <= v <= 14 && rank_count(
                    cards_played@.take(i + 1),
                    Rank::at(v as int),
                ) > 0 by {
                lemma_cards_of_rank_push(prefix, card, Rank::at(v as int));
                if 2 <= v <= 14 {
                    lemma_straight_at(v as int);
                }
            }
            assert forall|v: u8| groups@.contains_key(v) implies (#[trigger] groups@[v])@
                == cards_of_rank(cards_played@.take(i + 1), Rank::at(v as int)) by {
                lemma_cards_of_rank_push(prefix, card, Rank::at(v as int));
                if 2 <= v <= 14 {
                    lemma_straight_at(v as int);
                }
            }
        }
        i += 1;
    }
    proof {
        assert(cards_played@.take(i as int) =~= cards_played@);
    }
    groups
}

/// The number of played cards of each rank: under the straight value of each
/// rank that occurs, how many cards have it.
pub fn count_poker_by_rank(cards_played: &Vec<Card>) -> (counts: HashMap<u8, usize>)
    ensures
        counts_match(counts@, cards_played@),
{
    broadcast use group_hash_axioms;

    let mut counts: HashMap<u8, usize> = HashMap::new();
    let mut i: usize = 0;
    proof {
        assert(cards_played@.take(0) =~= Seq::<Card>::empty());
        assert forall|v: u8| rank_count(cards_played@.take(0), Rank::at(v as int)) == 0 by {
            lemma_cards_of_rank_empty(Rank::at(v as int));
        }
    }
    while i < cards_played.len()
        invariant
            i <= cards_played.len(),
            counts_match(counts@, cards_played@.take(i as int)),
        decreases cards_played.len() - i,
    {
        let card = cards_played[i];
        let key = card.rank.straight_value();
        let seen: usize = match counts.get(&key) {
            Some(n) => *n,
            None => 0,
        };
        proof {
            let prefix = cards_played@.take(i as int);
            lemma_rank_at_straight(card.rank);
            prefix.lemma_filter_len(has_rank(card.rank));
            assert(seen == rank_count(prefix, card.rank));
        }
        counts.insert(key, seen + 1);
        proof {
            let prefix = cards_played@.take(i as int);
            assert(cards_played@.take(i + 1) =~= prefix.push(card));
            assert forall|v: u8|
                counts@.contains_key(v) <==> 2 <= v <= 14 && rank_count(
                    cards_played@.take(i + 1),
                    Rank::at(v as int),
                ) > 0 by {
                lemma_cards_of_rank_push(prefix, card, Rank::at(v as int));
                if 2 <= v <= 14 {
                    lemma_straight_at(v as int);
                }
            }
            assert forall|v: u8| counts@.contains_key(v) implies #[trigger] counts@[v]
                == rank_count(cards_played@.take(i + 1), Rank::at(v as int)) by {
                lemma_cards_of_rank_push(prefix, card, Rank::at(v as int));
                if 2 <= v <= 14 {
                    lemma_straight_at(v as int);
                }
            }
        }
        i += 1;
    }
    proof {
        assert(cards_played@.take(i as int) =~= cards_played@);
    }
    counts
}

/// The number of cards of the rank with straight value `v`.
pub(crate) fn count_at(counts: &HashMap<u8, usize>, v: u8, Ghost(cards): Ghost<Seq<Card>>) -> (n: usize)
    requires
        counts_match(counts@, cards),
        2 <= v <= 14,
    ensures
        n == rank_count(cards, Rank::at(v as int)),
{
    broadcast use group_hash_axioms;

    match counts.get(&v) {
        Some(n) => *n,
        None => 0,
    }
}

/// The size of the largest group of played cards of one rank.
pub fn max_num_of_rank(cards_played: &Vec<Card>) -> (count: usize)
    ensures
        count == max_rank_count(cards_played@),
{
    let counts = count_poker_by_rank(cards_played);
    let mut best: usize = 0;
    let mut v: u8 = 2;
    while v <= 14
        invariant
            2 <= v <= 15,
            best == max_count_below(cards_played@, v as int),
            counts_match(counts@, cards_played@),
        decreases 15 - v,
    {
        let here = count_at(&counts, v, Ghost(cards_played@));
        if here >= best {
            best = here;
        }
        v += 1;
    }
    best
}

/// How many of the cards are of one of the given suits or wild.
pub fn num_of_poker_by_suits(cards: &Vec<Card>, suits: Vec<Suit>) -> (count: usize)
    ensures
        count == cards@.filter(suit_among(suits@)).len(),
{
    let mut count: usize = 0;
    let mut i: usize = 0;
    proof {
        assert(cards@.take(0) =~= Seq::<Card>::empty());
        reveal(Seq::filter);
    }
    while i < cards.len()
        invariant
            i <= cards.len(),
            count == cards@.take(i as int).filter(suit_among(suits@)).len(),
            count <= i,
        decreases cards.len() - i,
    {
        let card = cards[i];
        proof {
            assert(cards@.take(i + 1) =~= cards@.take(i as int).push(card));
            cards@.take(i as int).lemma_filter_push(card, suit_among(suits@));
        }
        if contains_suit(&suits, card.suit) || card.is_wild() {
            count += 1;
        }
        i += 1;
    }
    proof {
        assert(cards@.take(i as int) =~= cards@);
    }
    count
}

/// How many of the cards are of one of the given ranks or wild.
pub fn num_of_poker_by_ranks(cards: &Vec<Card>, ranks: Vec<Rank>) -> (count: usize)
    ensures
        count == cards@.filter(rank_among(ranks@)).len(),
{
    let mut count: usize = 0;
    let mut i: usize = 0;
    proof {
        assert(cards@.take(0) =~= Seq::<Card>::empty());
        reveal(Seq::filter);
    }
    while i < cards.len()
        invariant
            i <= cards.len(),
            count == cards@.take(i as int).filter(rank_among(ranks@)).len(),
            count <= i,
        decreases cards.len() - i,
    {
        let card = cards[i];
        proof {
            assert(cards@.take(i + 1) =~= cards@.take(i as int).push(card));
            cards@.take(i as int).lemma_filter_push(card, rank_among(ranks@));
        }
        if contains_rank(&ranks, card.rank) || card.is_wild() {
            count += 1;
        }
        i += 1;
    }
    proof {
        assert(cards@.take(i as int) =~= cards@);
    }
    count
}

/// Whether `suit` is one of `suits`.
pub fn contains_suit(suits: &Vec<Suit>, suit: Suit) -> (found: bool)
    ensures
        found == suits@.contains(suit),
{
    let mut i: usize = 0;
    while i < suits.len()
        invariant
            i <= suits.len(),
            forall|j: int| 0 <= j < i ==> suits@[j] != suit,
        decreases suits.len() - i,
    {
        if suits[i] == suit {
            return true;
        }
        i += 1;
    }
    false
}

/// Whether `rank` is one of `ranks`.
pub fn contains_rank(ranks: &Vec<Rank>, rank: Rank) -> (found: bool)
    ensures
        found == ranks@.contains(rank),
{
    let mut i: usize = 0;
    while i < ranks.len()
        invariant
            i <= ranks.len(),
            forall|j: int| 0 <= j < i ==> ranks@[j] != rank,
        decreases ranks.len() - i,
    {
        if ranks[i] == rank {
            return true;
        }
        i += 1;
    }
    false
}

} // verus!
