//! Ballots, rosters and the plain-value logic of the consensus seat: reading vote, trust,
//! anchor and prediction documents, placing ballots on the roster, and the files exchanged
//! with the Seldon engine.

pub mod cli;
pub mod decimal;
pub mod json;
pub mod popular;
pub mod roster;
pub mod seldon;
pub mod text;

pub use json::{anchors_document, anchors_from_json, ballots_from_json, predictions_from_json, trust_from_json, JsonValue};
pub use roster::{roster, Ballot};
