//! The building blocks under the methods of `Hand`: the validated wrapper,
//! the structure of a hand, arithmetic and search.

pub mod composition;
pub mod counting;
pub mod guard;
pub mod ops;
mod private;
pub mod search;
pub mod standard;

pub use composition::{Composition, CompositionExt, CompositionView, Group, GroupView};
pub use guard::{Guard, Validated};
pub use ops::{UncheckedAddExt, UncheckedSubExt};
pub use search::{KickerCount, PlaySpec, SearchExt};
