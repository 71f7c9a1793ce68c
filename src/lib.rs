//! Simulated deals of community-card poker: a deck, a hand evaluator whose
//! classifications are proved against their definitions, and the winner and
//! tie flags of each deal.
pub mod deck;
pub mod hand;
pub mod game;
pub mod subsets;
