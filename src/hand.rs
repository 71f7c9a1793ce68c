//! Hand values, their order, and the best hand a set of cards holds.
use crate::deck::{
    count_ranks, get_count_ranks, index_from_rank, lemma_rank_round_trip, lemma_ranks_with_count,
    rank_at, rank_count, rank_from_index, rank_index, ranks_with_count, suit_at, Card, Rank, Suit,
};
use vstd::prelude::*;

verus! {

/// A poker hand category with its tie-break ranks, most significant first.
#[derive(Debug, PartialEq, Eq, Structural, PartialOrd, Ord, Clone, Copy)]
pub enum HandValue {
    HighCard(Rank),
    Pair(Rank),
    TwoPair(Rank, Rank),
    Trip(Rank),
    Straight(Rank),
    Flush(Rank, Rank, Rank, Rank, Rank),
    FullHouse(Rank, Rank),
    Quad(Rank),
    StraightFlush(Rank),
}

/// Position of a hand's category, from `HighCard` (0) to `StraightFlush` (8).
pub open spec fn category(h: HandValue) -> int {
    match h {
        HandValue::HighCard(_) => 0,
        HandValue::Pair(_) => 1,
        HandValue::TwoPair(_, _) => 2,
        HandValue::Trip(_) => 3,
        HandValue::Straight(_) => 4,
        HandValue::Flush(_, _, _, _, _) => 5,
        HandValue::FullHouse(_, _) => 6,
        HandValue::Quad(_) => 7,
        HandValue::StraightFlush(_) => 8,
    }
}

/// Tie-break rank position `i` of a hand, most significant first; 0 past the
/// hand's last tie-break.
pub open spec fn tie_break(h: HandValue, i: int) -> int {
    match h {
        HandValue::TwoPair(a, b) | HandValue::FullHouse(a, b) => if i == 0 {
            rank_index(a)
        } else if i == 1 {
            rank_index(b)
        } else {
            0
        },
        HandValue::Flush(a, b, c, d, e) => if i == 0 {
            rank_index(a)
        } else if i == 1 {
            rank_index(b)
        } else if i == 2 {
            rank_index(c)
        } else if i == 3 {
            rank_index(d)
        } else if i == 4 {
            rank_index(e)
        } else {
            0
        },
        HandValue::HighCard(r) | HandValue::Pair(r) | HandValue::Trip(r) | HandValue::Straight(r)
        | HandValue::Quad(r) | HandValue::StraightFlush(r) => if i == 0 {
            rank_index(r)
        } else {
            0
        },
    }
}

/// Five base-thirteen digits after a category digit.
pub open spec fn pack(cat: int, a: int, b: int, c: int, d: int, e: int) -> int {
    cat * 371293 + a * 28561 + b * 2197 + c * 169 + d * 13 + e
}

/// The hand as one number in base thirteen: category, then tie-breaks.
pub open spec fn hand_key(h: HandValue) -> int {
    pack(category(h), tie_break(h, 0), tie_break(h, 1), tie_break(h, 2), tie_break(h, 3), tie_break(h, 4))
}

/// `a` ranks strictly below `b`.
pub open spec fn hand_lt(a: HandValue, b: HandValue) -> bool {
    hand_key(a) < hand_key(b)
}

/// A missing hand ranks below every hand.
pub open spec fn opt_lt(a: Option<HandValue>, b: Option<HandValue>) -> bool {
    match (a, b) {
        (None, Some(_)) => true,
        (Some(x), Some(y)) => hand_lt(x, y),
        _ => false,
    }
}

/// The higher of two optional hands.
pub open spec fn opt_max(a: Option<HandValue>, b: Option<HandValue>) -> Option<HandValue> {
    if opt_lt(a, b) {
        b
    } else {
        a
    }
}

proof fn lemma_key_parts(h: HandValue)
    ensures
        0 <= category(h) < 9,
        forall|i: int| 0 <= i < 5 ==> 0 <= #[trigger] tie_break(h, i) < 13,
{
}

proof fn lemma_rank_round_trip_all()
    ensures
        forall|r: Rank| #[trigger] rank_at(rank_index(r)) == r,
{
}

/// The order on hands is a strict total order: irreflexive, transitive, and
/// any two different hands are ordered. The category decides first; within a
/// category the first differing tie-break rank decides.
pub proof fn lemma_hand_order(a: HandValue, b: HandValue, c: HandValue)
    ensures
        !hand_lt(a, a),
        hand_lt(a, b) && hand_lt(b, c) ==> hand_lt(a, c),
        a != b ==> hand_lt(a, b) || hand_lt(b, a),
        !(hand_lt(a, b) && hand_lt(b, a)),
        category(a) < category(b) ==> hand_lt(a, b),
        forall|j: int|
            #![trigger tie_break(a, j), tie_break(b, j)]
            category(a) == category(b) && 0 <= j < 5 && (forall|i: int|
                0 <= i < j ==> tie_break(a, i) == tie_break(b, i)) && tie_break(a, j) < tie_break(
                b,
                j,
            ) ==> hand_lt(a, b),
{
    lemma_key_parts(a);
    lemma_key_parts(b);
    if a != b && hand_key(a) == hand_key(b) {
        assert(category(a) == category(b));
        assert(tie_break(a, 0) == tie_break(b, 0));
        assert(tie_break(a, 1) == tie_break(b, 1));
        assert(tie_break(a, 2) == tie_break(b, 2));
        assert(tie_break(a, 3) == tie_break(b, 3));
        assert(tie_break(a, 4) == tie_break(b, 4));
        lemma_rank_round_trip_all();
        assert(a == b);
    }
    assert forall|j: int|
        #![trigger tie_break(a, j), tie_break(b, j)]
        category(a) == category(b) && 0 <= j < 5 && (forall|i: int|
            0 <= i < j ==> tie_break(a, i) == tie_break(b, i)) && tie_break(a, j) < tie_break(
            b,
            j,
        ) implies hand_lt(a, b) by {
        if j >= 1 {
            assert(tie_break(a, 0) == tie_break(b, 0));
        }
        if j >= 2 {
            assert(tie_break(a, 1) == tie_break(b, 1));
        }
        if j >= 3 {
            assert(tie_break(a, 2) == tie_break(b, 2));
        }
        if j >= 4 {
            assert(tie_break(a, 3) == tie_break(b, 3));
        }
    }
}

/// Rank counts capped at four: a rank held four or more times counts as four.
pub open spec fn capped_counts(cards: Seq<Card>) -> Seq<usize> {
    Seq::new(
        13,
        |i: int|
            if rank_count(cards, i) >= 4 {
                4usize
            } else {
                rank_count(cards, i) as usize
            },
    )
}

/// The multiples classification from the ascending rank lists of count four,
/// three, two and one: the highest qualifying ranks are taken.
pub open spec fn multiple_of_groups(
    g4: Seq<Rank>,
    g3: Seq<Rank>,
    g2: Seq<Rank>,
    g1: Seq<Rank>,
) -> Option<HandValue> {
    if g4.len() > 0 {
        Some(HandValue::Quad(g4.last()))
    } else if g3.len() >= 2 {
        Some(HandValue::FullHouse(g3.last(), g3[g3.len() - 2]))
    } else if g3.len() == 1 {
        if g2.len() > 0 {
            Some(HandValue::FullHouse(g3.last(), g2.last()))
        } else {
            Some(HandValue::Trip(g3.last()))
        }
    } else if g2.len() >= 2 {
        Some(HandValue::TwoPair(g2.last(), g2[g2.len() - 2]))
    } else if g2.len() == 1 {
        Some(HandValue::Pair(g2.last()))
    } else if g1.len() > 0 {
        Some(HandValue::HighCard(g1.last()))
    } else {
        None
    }
}

/// Best quad, full house, trip, two pair, pair or high card in `cards`.
pub open spec fn best_multiple(cards: Seq<Card>) -> Option<HandValue> {
    let c = capped_counts(cards);
    multiple_of_groups(
        ranks_with_count(c, 4, 13),
        ranks_with_count(c, 3, 13),
        ranks_with_count(c, 2, 13),
        ranks_with_count(c, 1, 13),
    )
}

/// Which rank positions occur in `cards`.
pub open spec fn presence(cards: Seq<Card>) -> Seq<bool> {
    Seq::new(13, |i: int| rank_count(cards, i) > 0)
}

/// Rank slot `j` is filled; slot -1, below the two, is the ace.
pub open spec fn slot(p: Seq<bool>, j: int) -> bool {
    if j < 0 {
        p[12]
    } else {
        p[j]
    }
}

/// Five consecutive rank slots ending at `t` are all filled.
pub open spec fn run_at(p: Seq<bool>, t: int) -> bool {
    slot(p, t) && slot(p, t - 1) && slot(p, t - 2) && slot(p, t - 3) && slot(p, t - 4)
}

/// The highest top `t <= top` of a five-slot run, if any.
pub open spec fn top_run(p: Seq<bool>, top: int) -> Option<int>
    decreases top,
{
    if top < 3 {
        None
    } else if run_at(p, top) {
        Some(top)
    } else {
        top_run(p, top - 1)
    }
}

/// A run found at or below `top` ends between the five and `top`, and is a run.
pub proof fn lemma_top_run_range(p: Seq<bool>, top: int)
    ensures
        match top_run(p, top) {
            Some(t) => 3 <= t <= top && run_at(p, t),
            None => true,
        },
    decreases top,
{
    if top >= 3 && !run_at(p, top) {
        lemma_top_run_range(p, top - 1);
    }
}

/// Any run ending at or below `top` is found, or a higher one is.
pub proof fn lemma_top_run_complete(p: Seq<bool>, top: int, t: int)
    requires
        3 <= t <= top,
        run_at(p, t),
    ensures
        top_run(p, top) matches Some(u) && t <= u <= top,
    decreases top,
{
    if !run_at(p, top) {
        lemma_top_run_complete(p, top - 1, t);
    }
}

/// The filled positions from `lo` on, descending, are each filled, lie in
/// `lo..13`, strictly decrease, and include every filled position there.
proof fn lemma_desc_present(p: Seq<bool>, lo: int)
    requires
        p.len() == 13,
        0 <= lo <= 13,
    ensures
        forall|i: int|
            0 <= i < desc_present(p, lo).len() ==> lo <= #[trigger] desc_present(p, lo)[i] < 13
                && p[desc_present(p, lo)[i]],
        forall|i: int, j: int|
            0 <= i < j < desc_present(p, lo).len() ==> desc_present(p, lo)[i] > desc_present(
                p,
                lo,
            )[j],
        forall|x: int| lo <= x < 13 && p[x] ==> #[trigger] desc_present(p, lo).contains(x),
    decreases 13 - lo,
{
    if lo < 13 {
        lemma_desc_present(p, lo + 1);
        let prev = desc_present(p, lo + 1);
        if p[lo] {
            let d = prev.push(lo);
            assert(d[prev.len() as int] == lo);
            assert forall|x: int| lo <= x < 13 && p[x] implies #[trigger] d.contains(x) by {
                if x > lo {
                    assert(prev.contains(x));
                    let k = choose|k: int| 0 <= k < prev.len() && prev[k] == x;
                    assert(d[k] == x);
                }
            }
        }
    }
}

proof fn lemma_rank_count_last(cards: Seq<Card>)
    requires
        cards.len() > 0,
    ensures
        rank_count(cards, rank_index(cards.last().0)) >= 1,
{
}

/// A set of five cards or more always has a best hand, and a nonempty set
/// always has a multiples classification.
pub proof fn lemma_best_hand_exists(cards: Seq<Card>)
    requires
        cards.len() > 0,
    ensures
        best_multiple(cards) is Some,
        cards.len() >= 5 ==> best_hand(cards) is Some,
{
    let r = cards.last().0;
    let i = rank_index(r);
    lemma_rank_count_last(cards);
    lemma_rank_round_trip(r);
    let c = capped_counts(cards);
    let k = c[i] as int;
    assert(1 <= k <= 4);
    lemma_ranks_with_count(c, k, 13);
    assert(ranks_with_count(c, k, 13).contains(r));
}

/// The highest straight in `cards`, if it holds five cards or more.
pub open spec fn best_straight(cards: Seq<Card>) -> Option<HandValue> {
    if cards.len() < 5 {
        None
    } else {
        match top_run(presence(cards), 12) {
            Some(t) => Some(HandValue::Straight(rank_at(t))),
            None => None,
        }
    }
}

/// The cards of suit `s`, in their order in `cards`.
pub open spec fn suit_cards(cards: Seq<Card>, s: Suit) -> Seq<Card>
    decreases cards.len(),
{
    if cards.len() == 0 {
        Seq::empty()
    } else {
        let prev = suit_cards(cards.drop_last(), s);
        if cards.last().1 == s {
            prev.push(cards.last())
        } else {
            prev
        }
    }
}

/// The filled rank positions in `lo..13`, descending.
pub open spec fn desc_present(p: Seq<bool>, lo: int) -> Seq<int>
    decreases 13 - lo,
{
    if lo >= 13 {
        Seq::empty()
    } else if p[lo] {
        desc_present(p, lo + 1).push(lo)
    } else {
        desc_present(p, lo + 1)
    }
}

/// The flush in a single suit's cards: a straight flush when its ranks hold a
/// straight, else the five highest ranks, descending; none under five ranks.
pub open spec fn flush_of_suit(sc: Seq<Card>) -> Option<HandValue> {
    let p = presence(sc);
    let d = desc_present(p, 0);
    if d.len() >= 5 {
        match top_run(p, 12) {
            Some(t) => Some(HandValue::StraightFlush(rank_at(t))),
            None => Some(
                HandValue::Flush(
                    rank_at(d[0]),
                    rank_at(d[1]),
                    rank_at(d[2]),
                    rank_at(d[3]),
                    rank_at(d[4]),
                ),
            ),
        }
    } else {
        None
    }
}

/// The flush of the first suit, from position `k` on, that holds one.
pub open spec fn first_flush(cards: Seq<Card>, k: int) -> Option<HandValue>
    decreases 4 - k,
{
    if k >= 4 {
        None
    } else {
        match flush_of_suit(suit_cards(cards, suit_at(k))) {
            Some(h) => Some(h),
            None => first_flush(cards, k + 1),
        }
    }
}

pub open spec fn best_flush(cards: Seq<Card>) -> Option<HandValue> {
    first_flush(cards, 0)
}

/// The best hand in `cards`: the highest of the three classifications; no
/// hand at all for fewer than five cards.
pub open spec fn best_hand(cards: Seq<Card>) -> Option<HandValue> {
    if cards.len() < 5 {
        None
    } else {
        opt_max(opt_max(best_multiple(cards), best_straight(cards)), best_flush(cards))
    }
}

fn pack_key(cat: u32, a: u32, b: u32, c: u32, d: u32, e: u32) -> (r: u32)
    requires
        cat < 9,
        a < 13,
        b < 13,
        c < 13,
        d < 13,
        e < 13,
    ensures
        r == pack(cat as int, a as int, b as int, c as int, d as int, e as int),
{
    cat * 371293 + a * 28561 + b * 2197 + c * 169 + d * 13 + e
}

fn rank_digit(r: &Rank) -> (d: u32)
    ensures
        d == rank_index(*r),
        d < 13,
{
    index_from_rank(r) as u32
}

/// Straight detection: an ace, two, three, four and five make a straight (the
/// wheel), ten to ace make the ace-high straight, and a straight is only ever
/// reported on top of five consecutive filled rank slots, so four in a row
/// never make one.
pub proof fn lemma_straight_detection(cards: Seq<Card>)
    ensures
        ({
            let p = presence(cards);
            &&& cards.len() >= 5 && p[12] && p[0] && p[1] && p[2] && p[3] ==> best_straight(
                cards,
            ) is Some
            &&& cards.len() >= 5 && p[8] && p[9] && p[10] && p[11] && p[12] ==> best_straight(
                cards,
            ) == Some(HandValue::Straight(Rank::A))
            &&& forall|t: int|
                3 <= t < 13 && cards.len() >= 5 && #[trigger] run_at(p, t) ==> best_straight(
                    cards,
                ) is Some
            &&& best_straight(cards) matches Some(h) ==> (h matches HandValue::Straight(r)
                && run_at(p, rank_index(r)))
        }),
{
    let p = presence(cards);
    lemma_top_run_range(p, 12);
    if p[12] && p[0] && p[1] && p[2] && p[3] {
        lemma_top_run_complete(p, 12, 3);
    }
    assert forall|t: int| 3 <= t < 13 && cards.len() >= 5 && #[trigger] run_at(p, t) implies best_straight(
        cards,
    ) is Some by {
        lemma_top_run_complete(p, 12, t);
    }
}

/// A flush names the five highest ranks of its suit in descending order: each
/// is held in the suit, and any held rank above the fifth is among them. The
/// suit's cards make a straight flush exactly when their ranks hold a straight.
pub proof fn lemma_flush_top_five(sc: Seq<Card>)
    ensures
        flush_of_suit(sc) matches Some(HandValue::Flush(a, b, c, d, e)) ==> {
            let p = presence(sc);
            &&& rank_index(a) > rank_index(b) > rank_index(c) > rank_index(d) > rank_index(e)
            &&& p[rank_index(a)] && p[rank_index(b)] && p[rank_index(c)] && p[rank_index(d)]
                && p[rank_index(e)]
            &&& forall|x: int|
                rank_index(e) < x < 13 && #[trigger] p[x] ==> x == rank_index(a) || x
                    == rank_index(b) || x == rank_index(c) || x == rank_index(d)
            &&& top_run(p, 12) is None
        },
        flush_of_suit(sc) matches Some(HandValue::StraightFlush(r)) ==> top_run(
            presence(sc),
            12,
        ) == Some(rank_index(r)),
        flush_of_suit(sc) is Some ==> flush_of_suit(sc) matches Some(HandValue::Flush(
            _,
            _,
            _,
            _,
            _,
        )) || flush_of_suit(sc) matches Some(HandValue::StraightFlush(_)),
{
    let p = presence(sc);
    let dd = desc_present(p, 0);
    lemma_desc_present(p, 0);
    lemma_top_run_range(p, 12);
    if dd.len() >= 5 {
        assert(dd[0] > dd[1] > dd[2] > dd[3] > dd[4]);
        assert forall|x: int| dd[4] < x < 13 && #[trigger] p[x] implies x == dd[0] || x == dd[1]
            || x == dd[2] || x == dd[3] by {
            assert(dd.contains(x));
            let k = choose|k: int| 0 <= k < dd.len() && dd[k] == x;
            if k >= 4 {
                if k > 4 {
                    assert(dd[4] > dd[k]);
                }
            }
        }
    }
}

fn hand_key_of(h: &HandValue) -> (r: u32)
    ensures
        r == hand_key(*h),
{
    match h {
        HandValue::HighCard(a) => pack_key(0, rank_digit(a), 0, 0, 0, 0),
        HandValue::Pair(a) => pack_key(1, rank_digit(a), 0, 0, 0, 0),
        HandValue::TwoPair(a, b) => pack_key(2, rank_digit(a), rank_digit(b), 0, 0, 0),
        HandValue::Trip(a) => pack_key(3, rank_digit(a), 0, 0, 0, 0),
        HandValue::Straight(a) => pack_key(4, rank_digit(a), 0, 0, 0, 0),
        HandValue::Flush(a, b, c, d, e) => pack_key(
            5,
            rank_digit(a),
            rank_digit(b),
            rank_digit(c),
            rank_digit(d),
            rank_digit(e),
        ),
        HandValue::FullHouse(a, b) => pack_key(6, rank_digit(a), rank_digit(b), 0, 0, 0),
        HandValue::Quad(a) => pack_key(7, rank_digit(a), 0, 0, 0, 0),
        HandValue::StraightFlush(a) => pack_key(8, rank_digit(a), 0, 0, 0, 0),
    }
}

/// Whether hand `a` ranks strictly below hand `b`.
pub fn hand_less(a: &HandValue, b: &HandValue) -> (r: bool)
    ensures
        r == hand_lt(*a, *b),
{
    hand_key_of(a) < hand_key_of(b)
}

/// The higher of two optional hands, a missing one ranking lowest.
pub fn max_hand(a: Option<HandValue>, b: Option<HandValue>) -> (r: Option<HandValue>)
    ensures
        r == opt_max(a, b),
{
    match (a, b) {
        (None, Some(_)) => b,
        (Some(x), Some(y)) => {
            if hand_less(&x, &y) {
                b
            } else {
                a
            }
        },
        _ => a,
    }
}

fn capped(counts: &[usize; 13]) -> (r: [usize; 13])
    ensures
        forall|i: int|
            0 <= i < 13 ==> #[trigger] r@[i] == if counts@[i] >= 4 {
                4usize
            } else {
                counts@[i]
            },
{
    let mut out: [usize; 13] = [0; 13];
    let mut i: usize = 0;
    while i < 13
        invariant
            0 <= i <= 13,
            forall|j: int|
                0 <= j < i ==> #[trigger] out@[j] == if counts@[j] >= 4 {
                    4usize
                } else {
                    counts@[j]
                },
        decreases 13 - i,
    {
        out[i] = if counts[i] >= 4 {
            4
        } else {
            counts[i]
        };
        i += 1;
    }
    out
}

/// Quad, full house, trip, two pair, pair or high card, whichever is best.
fn get_best_multiple(cards: &[Card]) -> (r: Option<HandValue>)
    ensures
        r == best_multiple(cards@),
{
    let c = capped(&count_ranks(cards));
    assert(c@ == capped_counts(cards@));
    let counts = get_count_ranks(c);
    let g4 = &counts[4];
    let g3 = &counts[3];
    let g2 = &counts[2];
    let g1 = &counts[1];
    if g4.len() > 0 {
        Some(HandValue::Quad(g4[g4.len() - 1]))
    } else if g3.len() >= 2 {
        Some(HandValue::FullHouse(g3[g3.len() - 1], g3[g3.len() - 2]))
    } else if g3.len() == 1 {
        if g2.len() > 0 {
            Some(HandValue::FullHouse(g3[0], g2[g2.len() - 1]))
        } else {
            Some(HandValue::Trip(g3[0]))
        }
    } else if g2.len() >= 2 {
        Some(HandValue::TwoPair(g2[g2.len() - 1], g2[g2.len() - 2]))
    } else if g2.len() == 1 {
        Some(HandValue::Pair(g2[0]))
    } else if g1.len() > 0 {
        Some(HandValue::HighCard(g1[g1.len() - 1]))
    } else {
        None
    }
}

fn presence_of(counts: &[usize; 13]) -> (r: [bool; 13])
    ensures
        forall|i: int| 0 <= i < 13 ==> #[trigger] r@[i] == (counts@[i] > 0),
{
    let mut out: [bool; 13] = [false; 13];
    let mut i: usize = 0;
    while i < 13
        invariant
            0 <= i <= 13,
            forall|j: int| 0 <= j < i ==> #[trigger] out@[j] == (counts@[j] > 0),
        decreases 13 - i,
    {
        out[i] = counts[i] > 0;
        i += 1;
    }
    out
}

/// The top of the highest five-slot run, scanning down from the ace.
fn top_run_of(p: &[bool; 13]) -> (r: Option<usize>)
    ensures
        match top_run(p@, 12) {
            Some(t) => r == Some(t as usize),
            None => r is None,
        },
{
    let mut t: usize = 13;
    while t > 3
        invariant
            3 <= t <= 13,
            top_run(p@, 12) == top_run(p@, t - 1),
        decreases t,
    {
        let u = t - 1;
        let low = if u == 3 {
            p[12]
        } else {
            p[u - 4]
        };
        if p[u] && p[u - 1] && p[u - 2] && p[u - 3] && low {
            return Some(u);
        }
        t = u;
    }
    None
}

/// The highest straight, counting the ace both high and below the two.
fn get_straight(cards: &[Card]) -> (r: Option<HandValue>)
    ensures
        r == best_straight(cards@),
{
    if cards.len() < 5 {
        return None;
    }
    let p = presence_of(&count_ranks(cards));
    assert(p@ == presence(cards@));
    proof {
        lemma_top_run_range(p@, 12);
    }
    match top_run_of(&p) {
        Some(t) => Some(HandValue::Straight(rank_from_index(t))),
        None => None,
    }
}

/// The cards of each suit, spades, hearts, clubs, diamonds, in input order.
fn split_suits(cards: &[Card]) -> (r: [Vec<Card>; 4])
    ensures
        forall|k: int| 0 <= k < 4 ==> (#[trigger] r@[k])@ == suit_cards(cards@, suit_at(k)),
{
    let mut spades: Vec<Card> = Vec::new();
    let mut hearts: Vec<Card> = Vec::new();
    let mut clubs: Vec<Card> = Vec::new();
    let mut diamonds: Vec<Card> = Vec::new();
    let mut i: usize = 0;
    while i < cards.len()
        invariant
            0 <= i <= cards@.len(),
            spades@ == suit_cards(cards@.take(i as int), Suit::Spade),
            hearts@ == suit_cards(cards@.take(i as int), Suit::Heart),
            clubs@ == suit_cards(cards@.take(i as int), Suit::Club),
            diamonds@ == suit_cards(cards@.take(i as int), Suit::Diamond),
        decreases cards@.len() - i,
    {
        assert(cards@.take(i + 1).drop_last() == cards@.take(i as int));
        let card = cards[i];
        match card.1 {
            Suit::Spade => spades.push(card),
            Suit::Heart => hearts.push(card),
            Suit::Club => clubs.push(card),
            Suit::Diamond => diamonds.push(card),
        }
        i += 1;
    }
    assert(cards@.take(cards@.len() as int) == cards@);
    [spades, hearts, clubs, diamonds]
}

/// The five highest filled rank positions, descending, or all of them if fewer.
fn top_five(p: &[bool; 13]) -> (r: Vec<usize>)
    ensures
        r@.len() == if desc_present(p@, 0).len() < 5 {
            desc_present(p@, 0).len()
        } else {
            5
        },
        forall|i: int| 0 <= i < r@.len() ==> #[trigger] r@[i] == desc_present(p@, 0)[i],
{
    let mut out: Vec<usize> = Vec::new();
    let mut lo: usize = 13;
    while lo > 0
        invariant
            0 <= lo <= 13,
            out@.len() <= 5,
            out@.len() <= desc_present(p@, lo as int).len(),
            out@.len() < 5 ==> out@.len() == desc_present(p@, lo as int).len(),
            forall|i: int|
                0 <= i < out@.len() ==> #[trigger] out@[i] == desc_present(p@, lo as int)[i],
        decreases lo,
    {
        lo -= 1;
        let ghost prev = desc_present(p@, lo + 1);
        assert(forall|i: int|
            0 <= i < prev.len() ==> #[trigger] desc_present(p@, lo as int)[i] == prev[i]);
        if p[lo] && out.len() < 5 {
            out.push(lo);
        }
    }
    out
}

/// A straight flush or flush within one suit's cards.
fn flush_in_suit(sc: &Vec<Card>) -> (r: Option<HandValue>)
    ensures
        r == flush_of_suit(sc@),
{
    let p = presence_of(&count_ranks(sc.as_slice()));
    assert(p@ == presence(sc@));
    let top = top_five(&p);
    proof {
        lemma_top_run_range(p@, 12);
    }
    if top.len() < 5 {
        return None;
    }
    match top_run_of(&p) {
        Some(t) => Some(HandValue::StraightFlush(rank_from_index(t))),
        None => Some(
            HandValue::Flush(
                rank_from_index(top[0]),
                rank_from_index(top[1]),
                rank_from_index(top[2]),
                rank_from_index(top[3]),
                rank_from_index(top[4]),
            ),
        ),
    }
}

/// The flush of the first suit, in suit order, that holds one.
fn get_flush(cards: &[Card]) -> (r: Option<HandValue>)
    ensures
        r == best_flush(cards@),
{
    let suits = split_suits(cards);
    let mut k: usize = 0;
    while k < 4
        invariant
            0 <= k <= 4,
            forall|j: int|
                0 <= j < 4 ==> (#[trigger] suits@[j])@ == suit_cards(cards@, suit_at(j)),
            first_flush(cards@, 0) == first_flush(cards@, k as int),
        decreases 4 - k,
    {
        let found = flush_in_suit(&suits[k]);
        if found.is_some() {
            return found;
        }
        k += 1;
    }
    None
}

/// The best hand that `cards` hold; none for fewer than five cards.
pub fn get_best_hand(cards: &[Card]) -> (r: Option<HandValue>)
    ensures
        r == best_hand(cards@),
        r is None <==> cards@.len() < 5,
{
    if cards.len() < 5 {
        return None;
    }
    proof {
        lemma_best_hand_exists(cards@);
    }
    let multiples = get_best_multiple(cards);
    let straights = get_straight(cards);
    let flushed = get_flush(cards);
    let big = max_hand(multiples, straights);
    max_hand(big, flushed)
}

} // verus!
