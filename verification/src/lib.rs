//! Rules of the card game Dou Dizhu: hands, the structure of a hand, the
//! catalogue of legal plays, their relative strength, and the search for
//! every play of a given shape that a hand contains.

pub mod builder;
pub mod engine;
pub mod error;
pub mod hand;
pub mod laws;
pub mod order;
pub mod play;
pub mod rank;
pub mod ranks;

pub use error::HandError;
pub use hand::Hand;
pub use play::{Play, PlayKind, PlayView};
pub use rank::Rank;
