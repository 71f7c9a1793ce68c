//! Adding cards never lowers the category of the best hand, so the evaluator
//! finds at least the category of any five cards drawn from the set.
use crate::deck::{
    lemma_ranks_with_count, rank_at, rank_count, rank_index, ranks_with_count, suit_at, suit_index,
    Card, Rank, Suit,
};
use crate::hand::{
    best_flush, best_hand, best_multiple, best_straight, capped_counts, category, desc_present,
    first_flush, flush_of_suit, lemma_hand_order, lemma_top_run_complete,
    lemma_top_run_range, opt_max, presence, run_at, suit_cards, top_run,
    HandValue,
};
use vstd::multiset::Multiset;
use vstd::prelude::*;

verus! {

/// How many copies of the card of rank position `i` and suit position `k`
/// the cards hold.
pub open spec fn copies(s: Seq<Card>, i: int, k: int) -> nat {
    s.to_multiset().count(Card(rank_at(i), suit_at(k)))
}

proof fn lemma_card_positions(c: Card)
    ensures
        c == Card(rank_at(rank_index(c.0)), suit_at(suit_index(c.1))),
        0 <= rank_index(c.0) < 13,
        0 <= suit_index(c.1) < 4,
{
}

proof fn lemma_push_copies(s: Seq<Card>, x: Card, i: int, k: int)
    requires
        0 <= i < 13,
        0 <= k < 4,
    ensures
        copies(s.push(x), i, k) == copies(s, i, k) + if rank_index(x.0) == i && suit_index(x.1)
            == k {
            1nat
        } else {
            0nat
        },
{
    vstd::seq_lib::to_multiset_build(s, x);
    lemma_card_positions(x);
}

/// A rank's count is the sum of its copies over the four suits.
proof fn lemma_rank_count_copies(s: Seq<Card>, i: int)
    requires
        0 <= i < 13,
    ensures
        rank_count(s, i) == copies(s, i, 0) + copies(s, i, 1) + copies(s, i, 2) + copies(s, i, 3),
    decreases s.len(),
{
    broadcast use vstd::multiset::group_multiset_axioms;

    if s.len() == 0 {
        assert(s.to_multiset() =~= Multiset::empty()) by {
            vstd::seq_lib::to_multiset_len(s);
        }
    } else {
        let p = s.drop_last();
        lemma_rank_count_copies(p, i);
        assert(s == p.push(s.last()));
        lemma_push_copies(p, s.last(), i, 0);
        lemma_push_copies(p, s.last(), i, 1);
        lemma_push_copies(p, s.last(), i, 2);
        lemma_push_copies(p, s.last(), i, 3);
        lemma_card_positions(s.last());
    }
}

/// Within one suit, a rank's count is the number of copies of that card.
proof fn lemma_suit_count_copies(s: Seq<Card>, i: int, k: int)
    requires
        0 <= i < 13,
        0 <= k < 4,
    ensures
        rank_count(suit_cards(s, suit_at(k)), i) == copies(s, i, k),
    decreases s.len(),
{
    broadcast use vstd::multiset::group_multiset_axioms;

    if s.len() == 0 {
        assert(s.to_multiset() =~= Multiset::empty()) by {
            vstd::seq_lib::to_multiset_len(s);
        }
    } else {
        let p = s.drop_last();
        lemma_suit_count_copies(p, i, k);
        assert(s == p.push(s.last()));
        lemma_push_copies(p, s.last(), i, k);
        lemma_card_positions(s.last());
        let sc = suit_cards(s, suit_at(k));
        if s.last().1 == suit_at(k) {
            assert(sc.drop_last() == suit_cards(p, suit_at(k)));
        }
    }
}

/// Ranks held by a sub-multiset are held by the whole, overall and per suit.
pub proof fn lemma_counts_grow(small: Seq<Card>, big: Seq<Card>, i: int)
    requires
        small.to_multiset().subset_of(big.to_multiset()),
        0 <= i < 13,
    ensures
        rank_count(small, i) <= rank_count(big, i),
        forall|k: int|
            0 <= k < 4 ==> rank_count(#[trigger] suit_cards(small, suit_at(k)), i) <= rank_count(
                suit_cards(big, suit_at(k)),
                i,
            ),
{
    lemma_rank_count_copies(small, i);
    lemma_rank_count_copies(big, i);
    assert forall|k: int|
        0 <= k < 4 implies rank_count(#[trigger] suit_cards(small, suit_at(k)), i) <= rank_count(
        suit_cards(big, suit_at(k)),
        i,
    ) by {
        lemma_suit_count_copies(small, i, k);
        lemma_suit_count_copies(big, i, k);
    }
}

/// Category of an optional hand; -1 for none.
pub open spec fn cat_of(o: Option<HandValue>) -> int {
    match o {
        Some(h) => category(h),
        None => -1,
    }
}

/// At most one suit of the cards holds five ranks or more.
pub open spec fn one_flush_suit(cards: Seq<Card>) -> bool {
    forall|j1: int, j2: int|
        0 <= j1 < 4 && 0 <= j2 < 4 && (#[trigger] flush_of_suit(suit_cards(cards, suit_at(j1))))
            is Some && (#[trigger] flush_of_suit(suit_cards(cards, suit_at(j2)))) is Some ==> j1
            == j2
}

proof fn lemma_opt_max_cat(a: Option<HandValue>, b: Option<HandValue>)
    ensures
        cat_of(opt_max(a, b)) >= cat_of(a),
        cat_of(opt_max(a, b)) >= cat_of(b),
{
    if let (Some(x), Some(y)) = (a, b) {
        lemma_hand_order(x, y, x);
        lemma_hand_order(y, x, y);
    }
}

proof fn lemma_presence_grows(small: Seq<Card>, big: Seq<Card>)
    requires
        small.to_multiset().subset_of(big.to_multiset()),
    ensures
        forall|i: int| 0 <= i < 13 && presence(small)[i] ==> #[trigger] presence(big)[i],
        forall|i: int, k: int|
            0 <= i < 13 && 0 <= k < 4 && presence(suit_cards(small, suit_at(k)))[i]
                ==> #[trigger] presence(suit_cards(big, suit_at(k)))[i],
        forall|i: int|
            0 <= i < 13 ==> #[trigger] capped_counts(small)[i] <= capped_counts(big)[i],
{
    assert forall|i: int| 0 <= i < 13 implies rank_count(small, i) <= rank_count(big, i) by {
        lemma_counts_grow(small, big, i);
    }
    assert forall|i: int, k: int|
        0 <= i < 13 && 0 <= k < 4 && presence(suit_cards(small, suit_at(k)))[i]
            implies #[trigger] presence(suit_cards(big, suit_at(k)))[i] by {
        lemma_counts_grow(small, big, i);
        assert(rank_count(suit_cards(small, suit_at(k)), i) <= rank_count(
            suit_cards(big, suit_at(k)),
            i,
        ));
    }
}

proof fn lemma_runs_grow(p: Seq<bool>, q: Seq<bool>)
    requires
        p.len() == 13,
        q.len() == 13,
        forall|i: int| 0 <= i < 13 && p[i] ==> #[trigger] q[i],
    ensures
        top_run(p, 12) is Some ==> top_run(q, 12) is Some,
{
    lemma_top_run_range(p, 12);
    if let Some(t) = top_run(p, 12) {
        assert(run_at(q, t));
        lemma_top_run_complete(q, 12, t);
    }
}

proof fn lemma_desc_grows(p: Seq<bool>, q: Seq<bool>, lo: int)
    requires
        p.len() == 13,
        q.len() == 13,
        0 <= lo <= 13,
        forall|i: int| 0 <= i < 13 && p[i] ==> #[trigger] q[i],
    ensures
        desc_present(p, lo).len() <= desc_present(q, lo).len(),
    decreases 13 - lo,
{
    if lo < 13 {
        lemma_desc_grows(p, q, lo + 1);
    }
}

proof fn lemma_first_flush_suit(cards: Seq<Card>, k: int) -> (j: int)
    requires
        0 <= k,
        first_flush(cards, k) is Some,
    ensures
        k <= j < 4,
        first_flush(cards, k) == flush_of_suit(suit_cards(cards, suit_at(j))),
    decreases 4 - k,
{
    if flush_of_suit(suit_cards(cards, suit_at(k))) is Some {
        k
    } else {
        lemma_first_flush_suit(cards, k + 1)
    }
}

proof fn lemma_first_flush_single(cards: Seq<Card>, k: int, j: int)
    requires
        0 <= k <= j < 4,
        flush_of_suit(suit_cards(cards, suit_at(j))) is Some,
        one_flush_suit(cards),
    ensures
        first_flush(cards, k) == flush_of_suit(suit_cards(cards, suit_at(j))),
    decreases 4 - k,
{
    if k < j {
        if flush_of_suit(suit_cards(cards, suit_at(k))) is Some {
            assert(k == j);
        }
        lemma_first_flush_single(cards, k + 1, j);
    }
}

proof fn lemma_flush_grows(small: Seq<Card>, big: Seq<Card>)
    requires
        small.to_multiset().subset_of(big.to_multiset()),
        one_flush_suit(big),
    ensures
        cat_of(best_flush(small)) <= cat_of(best_flush(big)),
{
    lemma_presence_grows(small, big);
    if best_flush(small) is Some {
        let j = lemma_first_flush_suit(small, 0);
        let ps = presence(suit_cards(small, suit_at(j)));
        let pb = presence(suit_cards(big, suit_at(j)));
        assert forall|i: int| 0 <= i < 13 && ps[i] implies #[trigger] pb[i] by {
            assert(presence(suit_cards(big, suit_at(j)))[i]);
        }
        lemma_desc_grows(ps, pb, 0);
        lemma_runs_grow(ps, pb);
        assert(flush_of_suit(suit_cards(big, suit_at(j))) is Some);
        lemma_first_flush_single(big, 0, j);
    }
}

proof fn lemma_len_grows(small: Seq<Card>, big: Seq<Card>)
    requires
        small.to_multiset().subset_of(big.to_multiset()),
    ensures
        small.len() <= big.len(),
{
    broadcast use vstd::multiset::group_multiset_axioms;

    vstd::seq_lib::to_multiset_len(small);
    vstd::seq_lib::to_multiset_len(big);
    assert(big.to_multiset().sub(small.to_multiset()).len() == big.len() - small.len());
}

proof fn lemma_straight_grows(small: Seq<Card>, big: Seq<Card>)
    requires
        small.to_multiset().subset_of(big.to_multiset()),
    ensures
        cat_of(best_straight(small)) <= cat_of(best_straight(big)),
{
    broadcast use vstd::multiset::group_multiset_axioms;

    lemma_presence_grows(small, big);
    vstd::seq_lib::to_multiset_len(small);
    vstd::seq_lib::to_multiset_len(big);
    assert(big.to_multiset().sub(small.to_multiset()).len() == big.len() - small.len());
    lemma_runs_grow(presence(small), presence(big));
}

/// Some rank position has capped count `k`.
pub open spec fn some_count(c: Seq<usize>, k: int) -> bool {
    exists|i: int| 0 <= i < 13 && #[trigger] c[i] == k
}

/// Two different rank positions have capped count `k`.
pub open spec fn two_counts(c: Seq<usize>, k: int) -> bool {
    exists|i: int, j: int| 0 <= i < 13 && 0 <= j < 13 && i != j && #[trigger] c[i] == k && #[trigger] c[j] == k
}

/// Category of the multiples classification, read off the capped counts.
pub open spec fn multiple_category(c: Seq<usize>) -> int {
    if some_count(c, 4) {
        7
    } else if two_counts(c, 3) || (some_count(c, 3) && some_count(c, 2)) {
        6
    } else if some_count(c, 3) {
        3
    } else if two_counts(c, 2) {
        2
    } else if some_count(c, 2) {
        1
    } else if some_count(c, 1) {
        0
    } else {
        -1
    }
}

proof fn lemma_group_sizes(c: Seq<usize>, k: int)
    requires
        c.len() == 13,
    ensures
        ranks_with_count(c, k, 13).len() > 0 <==> some_count(c, k),
        ranks_with_count(c, k, 13).len() >= 2 <==> two_counts(c, k),
{
    let g = ranks_with_count(c, k, 13);
    lemma_ranks_with_count(c, k, 13);
    assert forall|r: Rank| rank_at(#[trigger] rank_index(r)) == r && 0 <= rank_index(r) < 13 by {}
    if g.len() > 0 {
        assert(g.contains(g[0]));
        assert(c[rank_index(g[0])] == k);
    }
    if some_count(c, k) {
        let i = choose|i: int| 0 <= i < 13 && #[trigger] c[i] == k;
        assert(rank_index(rank_at(i)) == i);
        assert(g.contains(rank_at(i)));
    }
    if g.len() >= 2 {
        assert(g.contains(g[0]));
        assert(g.contains(g[1]));
        assert(c[rank_index(g[0])] == k && c[rank_index(g[1])] == k);
        assert(rank_index(g[0]) < rank_index(g[1]));
    }
    if two_counts(c, k) {
        let (i, j) = choose|i: int, j: int|
            0 <= i < 13 && 0 <= j < 13 && i != j && #[trigger] c[i] == k && #[trigger] c[j] == k;
        assert(rank_index(rank_at(i)) == i);
        assert(rank_index(rank_at(j)) == j);
        assert(g.contains(rank_at(i)));
        assert(g.contains(rank_at(j)));
        if g.len() < 2 {
            let a = choose|a: int| 0 <= a < g.len() && g[a] == rank_at(i);
            let b = choose|b: int| 0 <= b < g.len() && g[b] == rank_at(j);
            assert(a == b);
        }
    }
}

proof fn lemma_multiple_category(cards: Seq<Card>)
    ensures
        cat_of(best_multiple(cards)) == multiple_category(capped_counts(cards)),
{
    let c = capped_counts(cards);
    lemma_group_sizes(c, 4);
    lemma_group_sizes(c, 3);
    lemma_group_sizes(c, 2);
    lemma_group_sizes(c, 1);
}

proof fn lemma_multiple_category_grows(a: Seq<usize>, b: Seq<usize>)
    requires
        a.len() == 13,
        b.len() == 13,
        forall|i: int| 0 <= i < 13 ==> #[trigger] a[i] <= b[i],
        forall|i: int| 0 <= i < 13 ==> #[trigger] b[i] <= 4,
    ensures
        multiple_category(a) <= multiple_category(b),
{
    if some_count(a, 4) {
        let i = choose|i: int| 0 <= i < 13 && #[trigger] a[i] == 4;
        assert(b[i] == 4);
    } else if two_counts(a, 3) {
        let (i, j) = choose|i: int, j: int|
            0 <= i < 13 && 0 <= j < 13 && i != j && #[trigger] a[i] == 3 && #[trigger] a[j] == 3;
        assert(b[i] >= 3 && b[j] >= 3);
        if b[i] == 4 || b[j] == 4 {
            assert(some_count(b, 4));
        } else {
            assert(two_counts(b, 3));
        }
    } else if some_count(a, 3) && some_count(a, 2) {
        let i = choose|i: int| 0 <= i < 13 && #[trigger] a[i] == 3;
        let j = choose|j: int| 0 <= j < 13 && #[trigger] a[j] == 2;
        if b[i] == 4 {
            assert(some_count(b, 4));
        } else if b[j] == 4 {
            assert(some_count(b, 4));
        } else if b[j] == 3 {
            assert(two_counts(b, 3));
        } else {
            assert(some_count(b, 3) && some_count(b, 2));
        }
    } else if some_count(a, 3) {
        let i = choose|i: int| 0 <= i < 13 && #[trigger] a[i] == 3;
        if b[i] == 4 {
            assert(some_count(b, 4));
        } else {
            assert(some_count(b, 3));
        }
    } else if two_counts(a, 2) {
        let (i, j) = choose|i: int, j: int|
            0 <= i < 13 && 0 <= j < 13 && i != j && #[trigger] a[i] == 2 && #[trigger] a[j] == 2;
        if b[i] == 4 || b[j] == 4 {
            assert(some_count(b, 4));
        } else if b[i] == 3 {
            assert(some_count(b, 3));
        } else if b[j] == 3 {
            assert(some_count(b, 3));
        } else {
            assert(two_counts(b, 2));
        }
    } else if some_count(a, 2) {
        let i = choose|i: int| 0 <= i < 13 && #[trigger] a[i] == 2;
        if b[i] == 4 {
            assert(some_count(b, 4));
        } else if b[i] == 3 {
            assert(some_count(b, 3));
        } else {
            assert(some_count(b, 2));
        }
    } else if some_count(a, 1) {
        let i = choose|i: int| 0 <= i < 13 && #[trigger] a[i] == 1;
        if b[i] == 4 {
            assert(some_count(b, 4));
        } else if b[i] == 3 {
            assert(some_count(b, 3));
        } else if b[i] == 2 {
            assert(some_count(b, 2));
        } else {
            assert(some_count(b, 1));
        }
    }
}

/// Drawing cards from a set never finds a better hand category than the
/// evaluator finds for the whole set: for every sub-multiset (in particular
/// every five-card hand drawn from the set), the category of its best hand is
/// at most that of the set's best hand. The flush classifier looks only at the
/// first suit that holds five ranks, so the statement is made for card sets in
/// which at most one suit does.
pub proof fn lemma_no_category_missed(hand: Seq<Card>, cards: Seq<Card>)
    requires
        hand.to_multiset().subset_of(cards.to_multiset()),
        one_flush_suit(cards),
    ensures
        cat_of(best_hand(hand)) <= cat_of(best_hand(cards)),
{
    lemma_presence_grows(hand, cards);
    lemma_len_grows(hand, cards);
    lemma_multiple_category(hand);
    lemma_multiple_category(cards);
    lemma_multiple_category_grows(capped_counts(hand), capped_counts(cards));
    lemma_straight_grows(hand, cards);
    lemma_flush_grows(hand, cards);
    let mb = best_multiple(cards);
    let sb = best_straight(cards);
    let fb = best_flush(cards);
    lemma_opt_max_cat(mb, sb);
    lemma_opt_max_cat(opt_max(mb, sb), fb);
    let ms = best_multiple(hand);
    let ss = best_straight(hand);
    let fs = best_flush(hand);
    lemma_opt_max_cat(ms, ss);
    lemma_opt_max_cat(opt_max(ms, ss), fs);
    if hand.len() >= 5 {
        lemma_opt_max_bound(ms, ss, cat_of(best_hand(cards)));
        lemma_opt_max_bound(opt_max(ms, ss), fs, cat_of(best_hand(cards)));
    }
}

proof fn lemma_opt_max_bound(a: Option<HandValue>, b: Option<HandValue>, m: int)
    requires
        cat_of(a) <= m,
        cat_of(b) <= m,
    ensures
        cat_of(opt_max(a, b)) <= m,
{
}

/// Sum of the rank counts over rank positions `lo..13`.
pub open spec fn counts_from(s: Seq<Card>, lo: int) -> nat
    decreases 13 - lo,
{
    if lo >= 13 {
        0
    } else {
        rank_count(s, lo) + counts_from(s, lo + 1)
    }
}

proof fn lemma_desc_le_counts(s: Seq<Card>, lo: int)
    requires
        0 <= lo <= 13,
    ensures
        desc_present(presence(s), lo).len() <= counts_from(s, lo),
    decreases 13 - lo,
{
    if lo < 13 {
        lemma_desc_le_counts(s, lo + 1);
    }
}

proof fn lemma_counts_from_push(s: Seq<Card>, x: Card, lo: int)
    requires
        0 <= lo <= 13,
    ensures
        counts_from(s.push(x), lo) == counts_from(s, lo) + if lo <= rank_index(x.0) {
            1nat
        } else {
            0nat
        },
    decreases 13 - lo,
{
    assert(s.push(x).drop_last() == s);
    lemma_card_positions(x);
    if lo < 13 {
        lemma_counts_from_push(s, x, lo + 1);
    }
}

proof fn lemma_counts_total(s: Seq<Card>)
    ensures
        counts_from(s, 0) == s.len(),
    decreases s.len(),
{
    if s.len() == 0 {
        lemma_counts_from_empty(s, 0);
    } else {
        let p = s.drop_last();
        lemma_counts_total(p);
        assert(s == p.push(s.last()));
        lemma_counts_from_push(p, s.last(), 0);
        lemma_card_positions(s.last());
    }
}

proof fn lemma_counts_from_empty(s: Seq<Card>, lo: int)
    requires
        s.len() == 0,
        0 <= lo <= 13,
    ensures
        counts_from(s, lo) == 0,
    decreases 13 - lo,
{
    if lo < 13 {
        lemma_counts_from_empty(s, lo + 1);
    }
}

proof fn lemma_two_suits_len(s: Seq<Card>, a: Suit, b: Suit)
    requires
        a != b,
    ensures
        suit_cards(s, a).len() + suit_cards(s, b).len() <= s.len(),
    decreases s.len(),
{
    if s.len() > 0 {
        lemma_two_suits_len(s.drop_last(), a, b);
    }
}

/// A set of at most nine cards has at most one suit holding five ranks or
/// more.
pub proof fn lemma_small_sets_one_flush_suit(cards: Seq<Card>)
    requires
        cards.len() <= 9,
    ensures
        one_flush_suit(cards),
{
    assert forall|j1: int, j2: int|
        0 <= j1 < 4 && 0 <= j2 < 4 && (#[trigger] flush_of_suit(suit_cards(cards, suit_at(j1))))
            is Some && (#[trigger] flush_of_suit(suit_cards(cards, suit_at(j2)))) is Some
            implies j1 == j2 by {
        let s1 = suit_cards(cards, suit_at(j1));
        let s2 = suit_cards(cards, suit_at(j2));
        lemma_desc_le_counts(s1, 0);
        lemma_desc_le_counts(s2, 0);
        lemma_counts_total(s1);
        lemma_counts_total(s2);
        if j1 != j2 {
            lemma_two_suits_len(cards, suit_at(j1), suit_at(j2));
        }
    }
}

/// For any set of at most nine cards, drawing cards from it never finds a
/// better hand category than the evaluator finds for the whole set.
pub proof fn lemma_no_category_missed_small(hand: Seq<Card>, cards: Seq<Card>)
    requires
        hand.to_multiset().subset_of(cards.to_multiset()),
        cards.len() <= 9,
    ensures
        cat_of(best_hand(hand)) <= cat_of(best_hand(cards)),
{
    lemma_small_sets_one_flush_suit(cards);
    lemma_no_category_missed(hand, cards);
}

} // verus!
