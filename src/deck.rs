//! Ranks, suits, cards, the 52-card deck and per-rank counting.
use rand::seq::SliceRandom;
use vstd::prelude::*;

verus! {

/// Face value of a card, ordered from `Two` (lowest) to `A` (highest).
#[derive(Debug, PartialEq, Eq, Structural, PartialOrd, Ord, Clone, Copy)]
pub enum Rank {
    Two,
    Three,
    Four,
    Five,
    Six,
    Seven,
    Eight,
    Nine,
    Ten,
    J,
    Q,
    K,
    A,
}

#[derive(Debug, PartialEq, Eq, Structural, PartialOrd, Ord, Clone, Copy)]
pub enum Suit {
    Spade,
    Heart,
    Club,
    Diamond,
}

/// A card: a rank and a suit.
#[derive(Debug, PartialEq, Eq, Structural, PartialOrd, Ord, Clone, Copy)]
pub struct Card(pub Rank, pub Suit);

/// Position of a rank in the order `Two < Three < ... < A`.
pub open spec fn rank_index(r: Rank) -> int {
    match r {
        Rank::Two => 0,
        Rank::Three => 1,
        Rank::Four => 2,
        Rank::Five => 3,
        Rank::Six => 4,
        Rank::Seven => 5,
        Rank::Eight => 6,
        Rank::Nine => 7,
        Rank::Ten => 8,
        Rank::J => 9,
        Rank::Q => 10,
        Rank::K => 11,
        Rank::A => 12,
    }
}

/// The rank at position `i`; positions past the last one give the ace.
pub open spec fn rank_at(i: int) -> Rank {
    if i <= 0 {
        Rank::Two
    } else if i == 1 {
        Rank::Three
    } else if i == 2 {
        Rank::Four
    } else if i == 3 {
        Rank::Five
    } else if i == 4 {
        Rank::Six
    } else if i == 5 {
        Rank::Seven
    } else if i == 6 {
        Rank::Eight
    } else if i == 7 {
        Rank::Nine
    } else if i == 8 {
        Rank::Ten
    } else if i == 9 {
        Rank::J
    } else if i == 10 {
        Rank::Q
    } else if i == 11 {
        Rank::K
    } else {
        Rank::A
    }
}

pub open spec fn suit_index(s: Suit) -> int {
    match s {
        Suit::Spade => 0,
        Suit::Heart => 1,
        Suit::Club => 2,
        Suit::Diamond => 3,
    }
}

/// The suit at position `i`; positions past the last one give spades.
pub open spec fn suit_at(i: int) -> Suit {
    if i == 1 {
        Suit::Heart
    } else if i == 2 {
        Suit::Club
    } else if i == 3 {
        Suit::Diamond
    } else {
        Suit::Spade
    }
}

/// Position of a card in the canonical deck order (suit blocks of thirteen ranks).
pub open spec fn card_index(c: Card) -> int {
    suit_index(c.1) * 13 + rank_index(c.0)
}

/// All ranks, ascending.
pub open spec fn all_ranks() -> Seq<Rank> {
    Seq::new(13, |i: int| rank_at(i))
}

/// Number of cards of rank position `i` in `cards`.
pub open spec fn rank_count(cards: Seq<Card>, i: int) -> nat
    decreases cards.len(),
{
    if cards.len() == 0 {
        0
    } else {
        rank_count(cards.drop_last(), i) + if rank_index(cards.last().0) == i {
            1nat
        } else {
            0nat
        }
    }
}

/// The ranks, ascending, among the first `n` positions whose count is `k`.
pub open spec fn ranks_with_count(counts: Seq<usize>, k: int, n: int) -> Seq<Rank>
    decreases n,
{
    if n <= 0 {
        Seq::empty()
    } else {
        let prev = ranks_with_count(counts, k, n - 1);
        if counts[n - 1] == k {
            prev.push(rank_at(n - 1))
        } else {
            prev
        }
    }
}

pub proof fn lemma_rank_round_trip(r: Rank)
    ensures
        rank_at(rank_index(r)) == r,
        0 <= rank_index(r) < 13,
{
}

/// The ranks of a given count are listed in strictly ascending order, and are
/// exactly the ranks of that count.
pub proof fn lemma_ranks_with_count(counts: Seq<usize>, k: int, n: int)
    requires
        0 <= n <= 13,
        counts.len() == 13,
    ensures
        forall|r: Rank|
            ranks_with_count(counts, k, n).contains(r) <==> (rank_index(r) < n
                && counts[rank_index(r)] == k),
        forall|a: int, b: int|
            0 <= a < b < ranks_with_count(counts, k, n).len() ==> rank_index(
                ranks_with_count(counts, k, n)[a],
            ) < rank_index(ranks_with_count(counts, k, n)[b]),
        forall|a: int|
            0 <= a < ranks_with_count(counts, k, n).len() ==> rank_index(
                ranks_with_count(counts, k, n)[a],
            ) < n,
    decreases n,
{
    if n > 0 {
        lemma_ranks_with_count(counts, k, n - 1);
        let prev = ranks_with_count(counts, k, n - 1);
        if counts[n - 1] == k {
            let x = rank_at(n - 1);
            let t = prev.push(x);
            assert(t[prev.len() as int] == x);
            assert forall|r: Rank| t.contains(r) <==> (prev.contains(r) || r == x) by {
                if t.contains(r) && r != x {
                    let j = choose|j: int| 0 <= j < t.len() && #[trigger] t[j] == r;
                    assert(prev[j] == r);
                }
                if prev.contains(r) {
                    let j = choose|j: int| 0 <= j < prev.len() && #[trigger] prev[j] == r;
                    assert(t[j] == r);
                }
            }
        }
    }
}

/// The deck order: rank varies fastest within each suit block.
pub open spec fn card_at(k: int) -> Card {
    Card(rank_at(k % 13), suit_at(k / 13))
}

/// A standard 52-card deck.
#[derive(Debug)]
pub struct Deck {
    rng: rand::rngs::ThreadRng,
    pub cards: Vec<Card>,
}

/// rand's thread-local generator, carried by the deck as an opaque value.
#[verifier::external_type_specification]
#[verifier::external_body]
pub struct ExThreadRng(rand::rngs::ThreadRng);

/// Relies on `rand::thread_rng` to hand out a generator; nothing is promised
/// of its state.
pub assume_specification[ rand::thread_rng ]() -> rand::rngs::ThreadRng;

/// Relies on rand's `SliceRandom::shuffle`, which permutes the slice in place
/// by swaps: the cards stay the same, only their order changes.
#[verifier::external_body]
fn shuffle_cards(cards: &mut Vec<Card>, rng: &mut rand::rngs::ThreadRng)
    ensures
        final(cards)@.to_multiset() == old(cards)@.to_multiset(),
        final(cards)@.len() == old(cards)@.len(),
{
    cards.as_mut_slice().shuffle(rng);
}

impl Deck {
    /// The cards, in deck order.
    pub closed spec fn cards_view(&self) -> Seq<Card> {
        self.cards@
    }

    /// Every rank and suit pair appears exactly once.
    pub closed spec fn wf(&self) -> bool {
        &&& self.cards@.len() == 52
        &&& forall|c: Card| #[trigger] self.cards@.to_multiset().count(c) == 1
    }

    /// A well-formed deck holds 52 cards, each rank and suit pair exactly once.
    pub proof fn lemma_each_card_once(&self)
        requires
            self.wf(),
        ensures
            self.cards_view().len() == 52,
            forall|c: Card| #[trigger] self.cards_view().to_multiset().count(c) == 1,
    {
    }

    pub fn cards(&self) -> (r: &Vec<Card>)
        ensures
            r@ == self.cards_view(),
    {
        &self.cards
    }

    pub fn new() -> (d: Deck)
        ensures
            d.wf(),
            d.cards_view() == Seq::new(52, |k: int| card_at(k)),
    {
        broadcast use vstd::seq_lib::group_to_multiset_ensures;

        let mut cards: Vec<Card> = Vec::new();
        let mut s: usize = 0;
        while s < 4
            invariant
                0 <= s <= 4,
                cards@.len() == 13 * s,
                forall|k: int| 0 <= k < cards@.len() ==> #[trigger] cards@[k] == card_at(k),
                forall|c: Card|
                    #[trigger] cards@.to_multiset().count(c) == if card_index(c) < 13 * s {
                        1nat
                    } else {
                        0nat
                    },
            decreases 4 - s,
        {
            let suit = suit_from_index(s);
            let mut r: usize = 0;
            while r < 13
                invariant
                    0 <= s < 4,
                    0 <= r <= 13,
                    suit == suit_at(s as int),
                    cards@.len() == 13 * s + r,
                    forall|k: int| 0 <= k < cards@.len() ==> #[trigger] cards@[k] == card_at(k),
                    forall|c: Card|
                        #[trigger] cards@.to_multiset().count(c) == if card_index(c) < 13 * s
                            + r {
                            1nat
                        } else {
                            0nat
                        },
                decreases 13 - r,
            {
                let card = Card(rank_from_index(r), suit);
                let ghost before = cards@;
                assert(card_index(card) == 13 * s + r);
                assert(card == card_at(13 * s + r));
                cards.push(card);
                assert(cards@ == before.push(card));
                proof {
                    vstd::seq_lib::to_multiset_build(before, card);
                }
                assert forall|c: Card|
                    #[trigger] cards@.to_multiset().count(c) == if card_index(c) < 13 * s + r
                        + 1 {
                        1nat
                    } else {
                        0nat
                    } by {
                    if c != card {
                        assert(card_index(c) != card_index(card)) by {
                            lemma_rank_round_trip(c.0);
                        }
                    }
                }
                r += 1;
            }
            s += 1;
        }
        assert forall|c: Card| #[trigger] cards@.to_multiset().count(c) == 1 by {
            lemma_rank_round_trip(c.0);
        }
        assert(cards@ == Seq::new(52, |k: int| card_at(k)));
        Deck { rng: rand::thread_rng(), cards }
    }

    /// Puts the cards in a random order; the cards themselves stay the same.
    pub fn shuffle(&mut self)
        requires
            old(self).wf(),
        ensures
            final(self).wf(),
            final(self).cards_view().to_multiset() == old(self).cards_view().to_multiset(),
    {
        shuffle_cards(&mut self.cards, &mut self.rng);
    }
}

impl Rank {
    /// All thirteen ranks, ascending.
    pub fn iterator() -> (r: Vec<Rank>)
        ensures
            r@ == all_ranks(),
    {
        let mut out: Vec<Rank> = Vec::new();
        let mut i: usize = 0;
        while i < 13
            invariant
                0 <= i <= 13,
                out@ == all_ranks().take(i as int),
            decreases 13 - i,
        {
            out.push(rank_from_index(i));
            assert(all_ranks().take(i + 1) == all_ranks().take(i as int).push(rank_at(i as int)));
            i += 1;
        }
        assert(all_ranks().take(13) == all_ranks());
        out
    }
}

/// Rank at a position; positions past the last give the ace.
pub fn rank_from_index(rank_index: usize) -> (r: Rank)
    ensures
        r == rank_at(rank_index as int),
{
    match rank_index {
        0 => Rank::Two,
        1 => Rank::Three,
        2 => Rank::Four,
        3 => Rank::Five,
        4 => Rank::Six,
        5 => Rank::Seven,
        6 => Rank::Eight,
        7 => Rank::Nine,
        8 => Rank::Ten,
        9 => Rank::J,
        10 => Rank::Q,
        11 => Rank::K,
        _ => Rank::A,
    }
}

pub fn index_from_rank(rank: &Rank) -> (r: usize)
    ensures
        r == rank_index(*rank),
{
    match rank {
        Rank::Two => 0,
        Rank::Three => 1,
        Rank::Four => 2,
        Rank::Five => 3,
        Rank::Six => 4,
        Rank::Seven => 5,
        Rank::Eight => 6,
        Rank::Nine => 7,
        Rank::Ten => 8,
        Rank::J => 9,
        Rank::Q => 10,
        Rank::K => 11,
        Rank::A => 12,
    }
}

/// Suit at a position; positions past the last give spades.
pub fn suit_from_index(suit_index: usize) -> (r: Suit)
    ensures
        r == suit_at(suit_index as int),
{
    match suit_index {
        1 => Suit::Heart,
        2 => Suit::Club,
        3 => Suit::Diamond,
        _ => Suit::Spade,
    }
}

fn increment_rank(card: &Card, counter: &[usize; 13]) -> (r: [usize; 13])
    requires
        counter@[rank_index(card.0)] < usize::MAX,
    ensures
        r@ == counter@.update(rank_index(card.0), (counter@[rank_index(card.0)] + 1) as usize),
{
    let mut mycount = *counter;
    let i = index_from_rank(&card.0);
    mycount[i] = mycount[i] + 1;
    mycount
}

/// For each rank position, how many of `cards` have that rank.
pub fn count_ranks(cards: &[Card]) -> (r: [usize; 13])
    ensures
        forall|i: int| 0 <= i < 13 ==> #[trigger] r@[i] == rank_count(cards@, i),
{
    let mut acc: [usize; 13] = [0; 13];
    let mut k: usize = 0;
    while k < cards.len()
        invariant
            0 <= k <= cards@.len(),
            forall|i: int|
                0 <= i < 13 ==> #[trigger] acc@[i] == rank_count(cards@.take(k as int), i),
            forall|i: int| 0 <= i < 13 ==> #[trigger] acc@[i] <= k,
        decreases cards@.len() - k,
    {
        assert(cards@.take(k + 1).drop_last() == cards@.take(k as int));
        acc = increment_rank(&cards[k], &acc);
        k += 1;
    }
    assert(cards@.take(cards@.len() as int) == cards@);
    acc
}

/// For each count 0 to 4, the ranks with that count, ascending.
pub fn get_count_ranks(counts: [usize; 13]) -> (r: [Vec<Rank>; 5])
    requires
        forall|i: int| 0 <= i < 13 ==> #[trigger] counts@[i] <= 4,
    ensures
        forall|k: int| 0 <= k < 5 ==> (#[trigger] r@[k])@ == ranks_with_count(counts@, k, 13),
{
    let mut v0: Vec<Rank> = Vec::new();
    let mut v1: Vec<Rank> = Vec::new();
    let mut v2: Vec<Rank> = Vec::new();
    let mut v3: Vec<Rank> = Vec::new();
    let mut v4: Vec<Rank> = Vec::new();
    let mut i: usize = 0;
    while i < 13
        invariant
            0 <= i <= 13,
            forall|j: int| 0 <= j < 13 ==> #[trigger] counts@[j] <= 4,
            v0@ == ranks_with_count(counts@, 0, i as int),
            v1@ == ranks_with_count(counts@, 1, i as int),
            v2@ == ranks_with_count(counts@, 2, i as int),
            v3@ == ranks_with_count(counts@, 3, i as int),
            v4@ == ranks_with_count(counts@, 4, i as int),
        decreases 13 - i,
    {
        let rank = rank_from_index(i);
        match counts[i] {
            0 => v0.push(rank),
            1 => v1.push(rank),
            2 => v2.push(rank),
            3 => v3.push(rank),
            _ => v4.push(rank),
        }
        i += 1;
    }
    [v0, v1, v2, v3, v4]
}

} // verus!
