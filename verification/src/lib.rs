pub mod calculations;
pub mod card;
pub mod hand;
pub mod laws;
