use poker_sim::deck::{
    count_ranks, get_count_ranks, index_from_rank, rank_from_index, suit_from_index, Card, Deck,
    Rank, Suit,
};
use poker_sim::game::{deal_from, Game, HandResult, Player};
use poker_sim::hand::{get_best_hand, hand_less, max_hand, HandValue};

use Rank::{Eight, Five, Four, Nine, Q, Seven, Six, Ten, Three, Two, A, J, K};
use Suit::{Club, Diamond, Heart, Spade};

fn c(r: Rank, s: Suit) -> Card {
    Card(r, s)
}

fn card_number(card: &Card) -> usize {
    index_from_rank(&card.0) + 13 * (card.1 as usize)
}

fn assert_full_deck(cards: &[Card]) {
    assert_eq!(cards.len(), 52);
    let mut seen = [0usize; 52];
    for card in cards {
        seen[card_number(card)] += 1;
    }
    assert!(seen.iter().all(|n| *n == 1));
}

#[test]
fn new_deck_holds_each_card_once() {
    let deck = Deck::new();
    assert_full_deck(&deck.cards);
    assert_eq!(deck.cards[0], c(Two, Spade));
    assert_eq!(deck.cards[12], c(A, Spade));
    assert_eq!(deck.cards[13], c(Two, Heart));
    assert_eq!(deck.cards[51], c(A, Diamond));
}

#[test]
fn shuffle_keeps_the_cards_and_moves_them() {
    let mut deck = Deck::new();
    let before = deck.cards.clone();
    deck.shuffle();
    assert_full_deck(&deck.cards);
    assert_ne!(deck.cards, before);
    deck.shuffle();
    assert_full_deck(&deck.cards);
}

#[test]
fn rank_and_suit_positions() {
    assert_eq!(rank_from_index(0), Two);
    assert_eq!(rank_from_index(8), Ten);
    assert_eq!(rank_from_index(12), A);
    assert_eq!(rank_from_index(40), A);
    assert_eq!(index_from_rank(&Two), 0);
    assert_eq!(index_from_rank(&J), 9);
    assert_eq!(index_from_rank(&A), 12);
    assert_eq!(suit_from_index(0), Spade);
    assert_eq!(suit_from_index(1), Heart);
    assert_eq!(suit_from_index(2), Club);
    assert_eq!(suit_from_index(3), Diamond);
    assert_eq!(suit_from_index(9), Spade);
    let ranks = Rank::iterator();
    assert_eq!(ranks.len(), 13);
    assert_eq!(ranks[0], Two);
    assert_eq!(ranks[12], A);
    for (i, r) in ranks.iter().enumerate() {
        assert_eq!(index_from_rank(r), i);
    }
}

#[test]
fn counts_and_groups() {
    let cards = vec![c(K, Spade), c(Two, Heart), c(K, Club), c(Nine, Heart), c(K, Heart)];
    let counts = count_ranks(&cards);
    assert_eq!(counts[11], 3);
    assert_eq!(counts[0], 1);
    assert_eq!(counts[7], 1);
    assert_eq!(counts.iter().sum::<usize>(), 5);
    let groups = get_count_ranks(counts);
    assert_eq!(groups[3], vec![K]);
    assert_eq!(groups[1], vec![Two, Nine]);
    assert!(groups[2].is_empty());
    assert!(groups[4].is_empty());
    assert_eq!(groups[0].len(), 10);
    assert_eq!(count_ranks(&[]), [0usize; 13]);
}

#[test]
fn hand_order_by_category_then_ranks() {
    assert!(hand_less(&HandValue::HighCard(A), &HandValue::Pair(Two)));
    assert!(hand_less(&HandValue::Pair(A), &HandValue::TwoPair(Three, Two)));
    assert!(hand_less(&HandValue::TwoPair(A, K), &HandValue::Trip(Two)));
    assert!(hand_less(&HandValue::Trip(A), &HandValue::Straight(Five)));
    assert!(hand_less(&HandValue::Straight(A), &HandValue::Flush(Seven, Five, Four, Three, Two)));
    assert!(hand_less(&HandValue::Flush(A, K, Q, J, Nine), &HandValue::FullHouse(Two, Three)));
    assert!(hand_less(&HandValue::FullHouse(A, K), &HandValue::Quad(Two)));
    assert!(hand_less(&HandValue::Quad(A), &HandValue::StraightFlush(Five)));
    assert!(hand_less(&HandValue::TwoPair(K, Q), &HandValue::TwoPair(K, J)) == false);
    assert!(hand_less(&HandValue::TwoPair(K, J), &HandValue::TwoPair(K, Q)));
    assert!(hand_less(
        &HandValue::Flush(A, K, Q, J, Eight),
        &HandValue::Flush(A, K, Q, J, Nine)
    ));
    assert!(!hand_less(&HandValue::Pair(Nine), &HandValue::Pair(Nine)));
    assert_eq!(max_hand(None, Some(HandValue::HighCard(Two))), Some(HandValue::HighCard(Two)));
    assert_eq!(max_hand(Some(HandValue::Pair(Two)), None), Some(HandValue::Pair(Two)));
    assert_eq!(
        max_hand(Some(HandValue::Trip(Two)), Some(HandValue::TwoPair(A, K))),
        Some(HandValue::Trip(Two))
    );
}

#[test]
fn wheel_and_broadway_are_straights() {
    let wheel = vec![c(A, Heart), c(Two, Club), c(Three, Spade), c(Four, Heart), c(Five, Diamond)];
    assert_eq!(get_best_hand(&wheel), Some(HandValue::Straight(Five)));
    let broadway = vec![c(Ten, Heart), c(J, Club), c(Q, Spade), c(K, Heart), c(A, Diamond)];
    assert_eq!(get_best_hand(&broadway), Some(HandValue::Straight(A)));
    let six_high = vec![
        c(A, Heart),
        c(Two, Club),
        c(Three, Spade),
        c(Four, Heart),
        c(Five, Diamond),
        c(Six, Club),
        c(K, Club),
    ];
    assert_eq!(get_best_hand(&six_high), Some(HandValue::Straight(Six)));
}

#[test]
fn four_in_a_row_is_no_straight() {
    let cards = vec![c(Six, Heart), c(Seven, Club), c(Eight, Spade), c(Nine, Heart), c(K, Diamond)];
    assert_eq!(get_best_hand(&cards), Some(HandValue::HighCard(K)));
    let around = vec![c(K, Heart), c(A, Club), c(Two, Spade), c(Three, Heart), c(Four, Diamond)];
    assert_eq!(get_best_hand(&around), Some(HandValue::HighCard(A)));
}

#[test]
fn flush_keeps_five_highest_descending() {
    let cards = vec![
        c(Two, Heart),
        c(Nine, Heart),
        c(K, Heart),
        c(Four, Heart),
        c(J, Heart),
        c(Six, Heart),
        c(A, Spade),
    ];
    assert_eq!(get_best_hand(&cards), Some(HandValue::Flush(K, J, Nine, Six, Four)));
}

#[test]
fn suited_straight_is_straight_flush() {
    let cards = vec![
        c(Nine, Club),
        c(Ten, Club),
        c(J, Club),
        c(Q, Club),
        c(K, Club),
        c(A, Heart),
        c(Two, Club),
    ];
    assert_eq!(get_best_hand(&cards), Some(HandValue::StraightFlush(K)));
    let wheel = vec![c(A, Diamond), c(Two, Diamond), c(Three, Diamond), c(Four, Diamond), c(Five, Diamond)];
    assert_eq!(get_best_hand(&wheel), Some(HandValue::StraightFlush(Five)));
}

#[test]
fn multiples_prefer_higher_ranks() {
    let quad = vec![c(Seven, Spade), c(Seven, Heart), c(Seven, Club), c(Seven, Diamond), c(A, Spade)];
    assert_eq!(get_best_hand(&quad), Some(HandValue::Quad(Seven)));
    let two_trips = vec![
        c(Three, Spade),
        c(Three, Heart),
        c(Three, Club),
        c(Nine, Spade),
        c(Nine, Heart),
        c(Nine, Club),
        c(K, Diamond),
    ];
    assert_eq!(get_best_hand(&two_trips), Some(HandValue::FullHouse(Nine, Three)));
    let trip_pairs = vec![
        c(Three, Spade),
        c(Three, Heart),
        c(Three, Club),
        c(Nine, Spade),
        c(Nine, Heart),
        c(Q, Club),
        c(Q, Diamond),
    ];
    assert_eq!(get_best_hand(&trip_pairs), Some(HandValue::FullHouse(Three, Q)));
    let trip = vec![c(Three, Spade), c(Three, Heart), c(Three, Club), c(Nine, Spade), c(K, Heart)];
    assert_eq!(get_best_hand(&trip), Some(HandValue::Trip(Three)));
    let three_pairs = vec![
        c(Four, Spade),
        c(Four, Heart),
        c(J, Club),
        c(J, Spade),
        c(Eight, Heart),
        c(Eight, Club),
        c(A, Diamond),
    ];
    assert_eq!(get_best_hand(&three_pairs), Some(HandValue::TwoPair(J, Eight)));
    let pair = vec![c(Four, Spade), c(Four, Heart), c(J, Club), c(Two, Spade), c(Eight, Heart)];
    assert_eq!(get_best_hand(&pair), Some(HandValue::Pair(Four)));
    let high = vec![c(Four, Spade), c(Six, Heart), c(J, Club), c(Two, Spade), c(Eight, Heart)];
    assert_eq!(get_best_hand(&high), Some(HandValue::HighCard(J)));
    assert_eq!(get_best_hand(&[]), None);
}

fn result_of(r: &HandResult) -> (Option<HandValue>, Option<HandValue>, Option<bool>, Option<bool>) {
    (r.common_hand, r.winning_hand, r.winning_tie, r.nondegenerate_tie)
}

#[test]
fn board_straight_flush_ties_are_degenerate() {
    let cards = vec![
        c(Two, Spade),
        c(Three, Spade),
        c(Four, Spade),
        c(Five, Spade),
        c(Six, Spade),
        c(K, Heart),
        c(Nine, Diamond),
        c(Q, Club),
        c(Eight, Heart),
    ];
    let (result, players) = deal_from(&cards, 2).unwrap();
    let board = Some(HandValue::StraightFlush(Six));
    assert_eq!(result_of(&result), (board, board, Some(true), Some(false)));
    for p in &players {
        assert_eq!(p.hand, board);
        assert_eq!(p.degenerate, Some(true));
        assert_eq!(p.winner, Some(true));
        assert_eq!(p.tied, Some(true));
    }
}

#[test]
fn quads_beat_full_house() {
    let cards = vec![
        c(Two, Heart),
        c(Two, Diamond),
        c(Seven, Spade),
        c(Nine, Club),
        c(K, Diamond),
        c(Two, Club),
        c(Two, Spade),
        c(K, Spade),
        c(K, Club),
    ];
    let (result, players) = deal_from(&cards, 2).unwrap();
    assert_eq!(result.winning_hand, Some(HandValue::Quad(Two)));
    assert_eq!(result.common_hand, Some(HandValue::Pair(Two)));
    assert_eq!(result.winning_tie, Some(false));
    assert_eq!(result.nondegenerate_tie, Some(false));
    assert_eq!(players[0].hand, Some(HandValue::Quad(Two)));
    assert_eq!(players[1].hand, Some(HandValue::FullHouse(K, Two)));
    assert_eq!(players[0].winner, Some(true));
    assert_eq!(players[1].winner, Some(false));
    assert_eq!(players[0].tied, Some(false));
    assert_eq!(players[1].tied, Some(false));
    assert_eq!(players[0].degenerate, Some(false));
}

#[test]
fn hole_card_tie_is_nondegenerate() {
    let cards = vec![
        c(Two, Heart),
        c(Seven, Diamond),
        c(Nine, Spade),
        c(J, Club),
        c(K, Diamond),
        c(A, Club),
        c(Three, Spade),
        c(A, Heart),
        c(Three, Diamond),
        c(Four, Club),
        c(Five, Heart),
    ];
    let (result, players) = deal_from(&cards, 3).unwrap();
    assert_eq!(players[0].hand, Some(HandValue::HighCard(A)));
    assert_eq!(players[1].hand, Some(HandValue::HighCard(A)));
    assert_eq!(players[2].hand, Some(HandValue::HighCard(K)));
    assert_eq!(result.common_hand, Some(HandValue::HighCard(K)));
    assert_eq!(result.winning_tie, Some(true));
    assert_eq!(result.nondegenerate_tie, Some(true));
    assert_eq!(players[2].degenerate, Some(true));
    assert_eq!(players[2].tied, Some(false));
    assert_eq!(players[2].winner, Some(false));
}

#[test]
fn too_many_players_deal_nothing() {
    let mut game = Game::new(24);
    assert!(game.play_hand().is_none());
    let cards = Deck::new().cards;
    assert!(deal_from(&cards, 24).is_none());
    assert!(deal_from(&cards[..8], 2).is_none());
    assert!(deal_from(&cards[..4], 0).is_none());
    assert!(deal_from(&cards[..9], 2).is_some());
}

#[test]
fn full_table_deals() {
    let mut game = Game::new(23);
    for _ in 0..20 {
        let result = game.play_hand().unwrap();
        assert!(result.winning_hand.is_some());
        assert!(result.common_hand.is_some());
        assert!(result.winning_tie.is_some());
        assert!(result.nondegenerate_tie.is_some());
    }
    let mut small = Game::new(2);
    assert!(small.play_hand().is_some());
}

#[test]
fn no_players_no_winner() {
    let cards = Deck::new().cards;
    let (result, players) = deal_from(&cards, 0).unwrap();
    assert!(players.is_empty());
    assert_eq!(result.winning_hand, None);
    assert_eq!(result.winning_tie, Some(false));
    assert_eq!(result.nondegenerate_tie, Some(false));
    assert_eq!(result.common_hand, Some(HandValue::StraightFlush(Six)));
}

#[test]
fn player_setters() {
    let mut p = Player { hand: Some(HandValue::Pair(Q)), winner: None, degenerate: None, tied: None };
    p.set_tie(true);
    p.set_winner(false);
    p.set_degenerate(true);
    assert_eq!(p.tied, Some(true));
    assert_eq!(p.winner, Some(false));
    assert_eq!(p.degenerate, Some(true));
    assert_eq!(p.hand, Some(HandValue::Pair(Q)));
}

fn category_number(h: &HandValue) -> u8 {
    match h {
        HandValue::HighCard(_) => 0,
        HandValue::Pair(_) => 1,
        HandValue::TwoPair(_, _) => 2,
        HandValue::Trip(_) => 3,
        HandValue::Straight(_) => 4,
        HandValue::Flush(_, _, _, _, _) => 5,
        HandValue::FullHouse(_, _) => 6,
        HandValue::Quad(_) => 7,
        HandValue::StraightFlush(_) => 8,
    }
}

fn best_five_card_category(cards: &[Card]) -> u8 {
    let n = cards.len();
    let mut best = 0u8;
    for a in 0..n {
        for b in a + 1..n {
            for c2 in b + 1..n {
                for d in c2 + 1..n {
                    for e in d + 1..n {
                        let five = [cards[a], cards[b], cards[c2], cards[d], cards[e]];
                        let h = get_best_hand(&five).unwrap();
                        best = best.max(category_number(&h));
                    }
                }
            }
        }
    }
    best
}

#[test]
fn best_hand_not_below_any_five_card_subset() {
    let sets = vec![
        vec![c(Two, Heart), c(Nine, Heart), c(K, Heart), c(Four, Heart), c(J, Heart), c(Six, Heart), c(A, Spade)],
        vec![c(Nine, Club), c(Ten, Club), c(J, Club), c(Q, Club), c(K, Club), c(A, Heart), c(Two, Club)],
        vec![c(Three, Spade), c(Three, Heart), c(Three, Club), c(Nine, Spade), c(Nine, Heart), c(Q, Club), c(Q, Diamond)],
        vec![c(A, Heart), c(Two, Club), c(Three, Spade), c(Four, Heart), c(Five, Diamond), c(Five, Club), c(K, Club)],
        vec![c(Four, Spade), c(Six, Heart), c(J, Club), c(Two, Spade), c(Eight, Heart), c(Q, Spade), c(Nine, Diamond)],
    ];
    for cards in &sets {
        let whole = category_number(&get_best_hand(cards).unwrap());
        assert_eq!(whole, best_five_card_category(cards));
    }
    let mut deck = Deck::new();
    for _ in 0..30 {
        deck.shuffle();
        let seven = &deck.cards[..7];
        let whole = category_number(&get_best_hand(seven).unwrap());
        assert!(whole >= best_five_card_category(seven));
    }
}

#[test]
fn fewer_than_five_cards_have_no_hand() {
    assert_eq!(get_best_hand(&[c(A, Spade)]), None);
    assert_eq!(get_best_hand(&[c(A, Spade), c(A, Heart)]), None);
    assert_eq!(
        get_best_hand(&[c(Seven, Spade), c(Seven, Heart), c(Seven, Club), c(Seven, Diamond)]),
        None
    );
    assert_eq!(
        get_best_hand(&[c(Two, Spade), c(Four, Heart), c(Seven, Club), c(Nine, Diamond), c(Q, Club)]),
        Some(HandValue::HighCard(Q))
    );
}
