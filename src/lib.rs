pub mod cards;
pub mod rules;
pub mod scoring;
pub mod search;
pub mod notation;
pub mod deal;
