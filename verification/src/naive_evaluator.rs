pub mod best_five;
pub mod card;
pub mod deck;
pub mod evaluator;
pub mod hand;
pub mod hand_ranking;
pub mod pocket;
