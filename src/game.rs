//! One simulated deal: community and hole cards, each player's best hand,
//! and the winner, tie and push flags that follow from them.
use crate::deck::{card_at, Card, Deck};
use crate::hand::{
    best_hand, get_best_hand, hand_lt, lemma_best_hand_exists, lemma_hand_order, max_hand, opt_max,
    HandValue,
};
use vstd::prelude::*;

verus! {

/// One player's outcome in a deal.
#[derive(Debug, Clone, Copy)]
pub struct Player {
    pub hand: Option<HandValue>,
    pub winner: Option<bool>,
    pub degenerate: Option<bool>,
    pub tied: Option<bool>,
}

/// The outcome of a deal.
#[derive(Debug, Clone, Copy)]
pub struct HandResult {
    /// Best hand of the community cards alone.
    pub common_hand: Option<HandValue>,
    /// Highest hand among the players.
    pub winning_hand: Option<HandValue>,
    /// The winning hand is held by two players or more (a push).
    pub winning_tie: Option<bool>,
    /// Some hand held by two players or more differs from the community hand.
    pub nondegenerate_tie: Option<bool>,
}

/// The five community cards: the first five of the deal.
pub open spec fn community(cards: Seq<Card>) -> Seq<Card> {
    cards.subrange(0, 5)
}

/// Player `i`'s two hole cards, dealt after the community cards.
pub open spec fn hole(cards: Seq<Card>, i: int) -> Seq<Card> {
    cards.subrange(5 + 2 * i, 7 + 2 * i)
}

/// Player `i`'s best hand from hole and community cards.
pub open spec fn player_hand(cards: Seq<Card>, i: int) -> Option<HandValue> {
    best_hand(hole(cards, i) + community(cards))
}

pub open spec fn dealt_hands(cards: Seq<Card>, n: int) -> Seq<Option<HandValue>> {
    Seq::new(n as nat, |i: int| player_hand(cards, i))
}

/// How many of `hs` are the hand `h`.
pub open spec fn occurrences(hs: Seq<Option<HandValue>>, h: HandValue) -> nat
    decreases hs.len(),
{
    if hs.len() == 0 {
        0
    } else {
        occurrences(hs.drop_last(), h) + if hs.last() == Some(h) {
            1nat
        } else {
            0nat
        }
    }
}

/// `h` is held by two players or more.
pub open spec fn is_tied(hs: Seq<Option<HandValue>>, h: HandValue) -> bool {
    occurrences(hs, h) >= 2
}

/// The highest of `hs`; none if no player has a hand.
pub open spec fn top_hand(hs: Seq<Option<HandValue>>) -> Option<HandValue>
    decreases hs.len(),
{
    if hs.len() == 0 {
        None
    } else {
        opt_max(top_hand(hs.drop_last()), hs.last())
    }
}

/// Some tied hand differs from the community hand.
pub open spec fn nondegenerate(hs: Seq<Option<HandValue>>, common: Option<HandValue>) -> bool {
    exists|i: int|
        0 <= i < hs.len() && (#[trigger] hs[i]) is Some && is_tied(hs, hs[i]->0) && hs[i]
            != common
}

/// The flags of player `i`, given all hands and the community hand.
pub open spec fn player_of(
    hs: Seq<Option<HandValue>>,
    i: int,
    common: Option<HandValue>,
) -> Player {
    match hs[i] {
        Some(h) => Player {
            hand: hs[i],
            winner: Some(hs[i] == top_hand(hs)),
            degenerate: Some(hs[i] == common),
            tied: Some(is_tied(hs, h)),
        },
        None => Player { hand: None, winner: None, degenerate: None, tied: Some(false) },
    }
}

/// The players of a deal of `n` players from `cards`.
pub open spec fn deal_players(cards: Seq<Card>, n: int) -> Seq<Player> {
    let hs = dealt_hands(cards, n);
    Seq::new(n as nat, |i: int| player_of(hs, i, best_hand(community(cards))))
}

/// The result of a deal of `n` players from `cards`.
pub open spec fn deal_result(cards: Seq<Card>, n: int) -> HandResult {
    let hs = dealt_hands(cards, n);
    let common = best_hand(community(cards));
    let w = top_hand(hs);
    HandResult {
        common_hand: common,
        winning_hand: w,
        winning_tie: Some(
            match w {
                Some(x) => is_tied(hs, x),
                None => false,
            },
        ),
        nondegenerate_tie: Some(nondegenerate(hs, common)),
    }
}

/// When every hand held by two players or more equals the community hand, the
/// deal reports no nondegenerate tie.
pub proof fn lemma_board_ties_are_degenerate(cards: Seq<Card>, n: int)
    requires
        n >= 0,
        forall|i: int|
            0 <= i < n && (#[trigger] dealt_hands(cards, n)[i]) is Some && is_tied(
                dealt_hands(cards, n),
                dealt_hands(cards, n)[i]->0,
            ) ==> dealt_hands(cards, n)[i] == best_hand(community(cards)),
    ensures
        deal_result(cards, n).nondegenerate_tie == Some(false),
{
}

/// The top hand is the maximum of the hands: it is one of them, and no hand
/// ranks above it.
pub proof fn lemma_top_hand_is_max(hs: Seq<Option<HandValue>>)
    ensures
        forall|i: int|
            0 <= i < hs.len() && (#[trigger] hs[i]) is Some ==> top_hand(hs) is Some && !hand_lt(
                top_hand(hs)->0,
                hs[i]->0,
            ),
        top_hand(hs) is Some ==> exists|i: int| 0 <= i < hs.len() && #[trigger] hs[i] == top_hand(hs),
    decreases hs.len(),
{
    if hs.len() > 0 {
        let p = hs.drop_last();
        lemma_top_hand_is_max(p);
        let t = top_hand(p);
        let x = hs.last();
        assert forall|i: int|
            0 <= i < hs.len() && (#[trigger] hs[i]) is Some implies top_hand(hs) is Some && !hand_lt(
                top_hand(hs)->0,
                hs[i]->0,
            ) by {
            if i < hs.len() - 1 {
                assert(p[i] == hs[i]);
                lemma_hand_order(t->0, hs[i]->0, t->0);
                if x is Some {
                    lemma_hand_order(x->0, t->0, hs[i]->0);
                    lemma_hand_order(t->0, x->0, t->0);
                }
            } else {
                if t is Some {
                    lemma_hand_order(t->0, x->0, t->0);
                    lemma_hand_order(x->0, x->0, x->0);
                } else {
                    lemma_hand_order(x->0, x->0, x->0);
                }
            }
        }
        if top_hand(hs) is Some {
            if top_hand(hs) == x {
                assert(hs[hs.len() - 1] == top_hand(hs));
            } else {
                let j = choose|j: int| 0 <= j < p.len() && #[trigger] p[j] == t;
                assert(hs[j] == top_hand(hs));
            }
        }
    }
}

/// A deal that has its cards sets every hand: the community hand, each
/// player's hand, and, with at least one player, the winning hand.
pub proof fn lemma_deal_complete(cards: Seq<Card>, n: int)
    requires
        n >= 0,
        5 + 2 * n <= cards.len(),
    ensures
        deal_result(cards, n).common_hand is Some,
        forall|i: int| 0 <= i < n ==> (#[trigger] dealt_hands(cards, n)[i]) is Some,
        n >= 1 ==> deal_result(cards, n).winning_hand is Some,
{
    lemma_best_hand_exists(community(cards));
    assert forall|i: int| 0 <= i < n implies (#[trigger] dealt_hands(cards, n)[i]) is Some by {
        lemma_best_hand_exists(hole(cards, i) + community(cards));
    }
    if n >= 1 {
        let hs = dealt_hands(cards, n);
        lemma_top_hand_is_max(hs);
        assert(hs[n - 1] is Some);
    }
}

impl Player {
    pub fn set_tie(&mut self, did_tie: bool)
        ensures
            final(self).tied == Some(did_tie),
            final(self).hand == old(self).hand,
            final(self).winner == old(self).winner,
            final(self).degenerate == old(self).degenerate,
    {
        self.tied = Some(did_tie);
    }

    pub fn set_winner(&mut self, did_win: bool)
        ensures
            final(self).winner == Some(did_win),
            final(self).hand == old(self).hand,
            final(self).tied == old(self).tied,
            final(self).degenerate == old(self).degenerate,
    {
        self.winner = Some(did_win);
    }

    pub fn set_degenerate(&mut self, is_degenerate: bool)
        ensures
            final(self).degenerate == Some(is_degenerate),
            final(self).hand == old(self).hand,
            final(self).winner == old(self).winner,
            final(self).tied == old(self).tied,
    {
        self.degenerate = Some(is_degenerate);
    }
}

fn same_hand(a: Option<HandValue>, b: Option<HandValue>) -> (r: bool)
    ensures
        r == (a == b),
{
    match (a, b) {
        (Some(x), Some(y)) => x == y,
        (None, None) => true,
        _ => false,
    }
}

/// How many of `hs` are the hand `h`.
fn count_hand(hs: &Vec<Option<HandValue>>, h: HandValue) -> (r: usize)
    ensures
        r == occurrences(hs@, h),
{
    let mut n: usize = 0;
    let mut j: usize = 0;
    while j < hs.len()
        invariant
            0 <= j <= hs@.len(),
            n == occurrences(hs@.take(j as int), h),
            n <= j,
        decreases hs@.len() - j,
    {
        assert(hs@.take(j + 1).drop_last() == hs@.take(j as int));
        if same_hand(hs[j], Some(h)) {
            n += 1;
        }
        j += 1;
    }
    assert(hs@.take(hs@.len() as int) == hs@);
    n
}

/// Player `i`'s cards: the two hole cards, then the community cards.
fn player_cards(cards: &[Card], i: usize) -> (r: Vec<Card>)
    requires
        7 + 2 * i <= cards@.len(),
    ensures
        r@ == hole(cards@, i as int) + community(cards@),
{
    assert(cards@.len() == cards.len());
    let mut mine: Vec<Card> = Vec::new();
    mine.push(cards[5 + 2 * i]);
    mine.push(cards[6 + 2 * i]);
    let mut k: usize = 0;
    while k < 5
        invariant
            0 <= k <= 5,
            7 + 2 * i <= cards@.len(),
            mine@ == hole(cards@, i as int) + cards@.subrange(0, k as int),
        decreases 5 - k,
    {
        mine.push(cards[k]);
        k += 1;
    }
    mine
}

/// Deals `player_count` players from `cards`: the first five are the
/// community cards, then two hole cards per player. Nothing is dealt when
/// `cards` cannot supply them all.
pub fn deal_from(cards: &[Card], player_count: usize) -> (r: Option<(HandResult, Vec<Player>)>)
    ensures
        r is Some <==> 5 + 2 * player_count <= cards@.len(),
        r matches Some((res, ps)) ==> res == deal_result(cards@, player_count as int) && ps@
            == deal_players(cards@, player_count as int),
{
    if cards.len() < 5 || (cards.len() - 5) / 2 < player_count {
        return None;
    }
    let ghost hs_spec = dealt_hands(cards@, player_count as int);
    let mut hands: Vec<Option<HandValue>> = Vec::new();
    let mut i: usize = 0;
    while i < player_count
        invariant
            0 <= i <= player_count,
            5 + 2 * player_count <= cards@.len(),
            hs_spec == dealt_hands(cards@, player_count as int),
            hs_spec.len() == player_count,
            hands@ == hs_spec.take(i as int),
        decreases player_count - i,
    {
        let mine = player_cards(cards, i);
        hands.push(get_best_hand(mine.as_slice()));
        assert(hs_spec.take(i + 1) == hs_spec.take(i as int).push(hs_spec[i as int]));
        i += 1;
    }
    assert(hs_spec.take(player_count as int) == hs_spec);
    let mut shared: Vec<Card> = Vec::new();
    let mut k: usize = 0;
    while k < 5
        invariant
            0 <= k <= 5,
            5 <= cards@.len(),
            shared@ == cards@.subrange(0, k as int),
        decreases 5 - k,
    {
        shared.push(cards[k]);
        k += 1;
    }
    let common_hand = get_best_hand(shared.as_slice());
    let mut winning_hand: Option<HandValue> = None;
    let mut j: usize = 0;
    while j < hands.len()
        invariant
            0 <= j <= hands@.len(),
            winning_hand == top_hand(hands@.take(j as int)),
        decreases hands@.len() - j,
    {
        assert(hands@.take(j + 1).drop_last() == hands@.take(j as int));
        winning_hand = max_hand(winning_hand, hands[j]);
        j += 1;
    }
    assert(hands@.take(hands@.len() as int) == hands@);
    let mut players: Vec<Player> = Vec::new();
    let mut nondegenerate_tie = false;
    let mut p: usize = 0;
    while p < hands.len()
        invariant
            0 <= p <= hands@.len(),
            hands@ == hs_spec,
            hs_spec == dealt_hands(cards@, player_count as int),
            hs_spec.len() == player_count,
            winning_hand == top_hand(hs_spec),
            common_hand == best_hand(community(cards@)),
            players@ == deal_players(cards@, player_count as int).take(p as int),
            nondegenerate_tie == exists|q: int|
                0 <= q < p && (#[trigger] hs_spec[q]) is Some && is_tied(hs_spec, hs_spec[q]->0)
                    && hs_spec[q] != common_hand,
        decreases hands@.len() - p,
    {
        let mut player = Player { hand: hands[p], winner: None, degenerate: None, tied: None };
        match hands[p] {
            Some(h) => {
                let tied = count_hand(&hands, h) >= 2;
                player.set_tie(tied);
                player.set_winner(same_hand(Some(h), winning_hand));
                player.set_degenerate(same_hand(Some(h), common_hand));
                if tied && !same_hand(Some(h), common_hand) {
                    nondegenerate_tie = true;
                }
            },
            None => player.set_tie(false),
        }
        assert(player == player_of(hs_spec, p as int, common_hand));
        assert(deal_players(cards@, player_count as int)[p as int] == player);
        players.push(player);
        assert(deal_players(cards@, player_count as int).take(p + 1) == deal_players(
            cards@,
            player_count as int,
        ).take(p as int).push(player));
        p += 1;
    }
    assert(deal_players(cards@, player_count as int).take(player_count as int) == deal_players(
        cards@,
        player_count as int,
    ));
    let winning_tie = match winning_hand {
        Some(w) => count_hand(&hands, w) >= 2,
        None => false,
    };
    let result = HandResult {
        common_hand,
        winning_hand,
        winning_tie: Some(winning_tie),
        nondegenerate_tie: Some(nondegenerate_tie),
    };
    Some((result, players))
}

/// A table of a fixed number of players, dealt from one deck.
#[derive(Debug)]
pub struct Game {
    deck: Deck,
    player_count: usize,
}

impl Game {
    pub closed spec fn wf(&self) -> bool {
        self.deck.wf()
    }

    /// The number of players at the table.
    pub closed spec fn players(&self) -> usize {
        self.player_count
    }

    /// The deck's cards, in their current order.
    pub closed spec fn deck_cards(&self) -> Seq<Card> {
        self.deck.cards_view()
    }

    /// A well-formed game's deck holds 52 cards, each rank and suit pair
    /// exactly once.
    pub proof fn lemma_deck_holds_each_card_once(&self)
        requires
            self.wf(),
        ensures
            self.deck_cards().len() == 52,
            forall|c: Card| #[trigger] self.deck_cards().to_multiset().count(c) == 1,
    {
        self.deck.lemma_each_card_once();
    }

    pub fn new(player_count: usize) -> (g: Game)
        ensures
            g.wf(),
            g.players() == player_count,
            g.deck_cards() == Seq::new(52, |k: int| card_at(k)),
    {
        Game { deck: Deck::new(), player_count }
    }

    /// Shuffles the deck and deals one hand. No result is produced when the
    /// deck cannot supply five community cards and two per player.
    pub fn play_hand(&mut self) -> (r: Option<HandResult>)
        requires
            old(self).wf(),
        ensures
            final(self).wf(),
            final(self).players() == old(self).players(),
            final(self).deck_cards().to_multiset() == old(self).deck_cards().to_multiset(),
            r is Some <==> 5 + 2 * old(self).players() <= 52,
            r matches Some(res) ==> res == deal_result(
                final(self).deck_cards(),
                old(self).players() as int,
            ),
            r matches Some(res) ==> res.common_hand is Some && res.winning_tie is Some
                && res.nondegenerate_tie is Some,
            old(self).players() >= 1 ==> (r matches Some(res) ==> res.winning_hand is Some),
    {
        self.deck.shuffle();
        proof {
            self.deck.lemma_each_card_once();
            if 5 + 2 * self.player_count <= 52 {
                lemma_deal_complete(self.deck.cards_view(), self.player_count as int);
            }
        }
        match deal_from(self.deck.cards().as_slice(), self.player_count) {
            Some((result, _)) => Some(result),
            None => None,
        }
    }
}

} // verus!
