//! Integer StableSwap engine: invariant solving, swap quoting and liquidity
//! withdrawal accounting over unsigned fixed-point reserves.
//!
//! Every operation is stated against a mathematical model over unbounded
//! integers (module [`curve`]) and proved to compute exactly what the model
//! says, including the inputs on which it fails.

pub mod curve;
pub mod error;
pub mod laws;
pub mod model;
pub mod pool;
pub mod solver;
pub mod wide;

pub use crate::error::SwapError;
pub use crate::model::{StableSwapModel, MODEL_FEE_DENOMINATOR, MODEL_FEE_NUMERATOR};
