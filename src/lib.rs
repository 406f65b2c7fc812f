//! Tabletop dice expressions: parsing (`2d6+3`, `3d6+2d8-1`, `d20+5`),
//! evaluation with simulated rolls, and summary statistics over totals.

pub mod expr;
pub mod parse;
pub mod roll;
pub mod stats;

pub use expr::{AdvMode, DiceTerm, Expression, FlatMod, ParseError};
pub use roll::{keep_face, RollDetail, RollResult};
pub use stats::{compute_stats, Stats};
