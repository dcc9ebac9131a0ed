//! A two-sided L2 order book over quantized integer prices and quantities.
//!
//! The book keeps one strictly ordered price-level sequence per side
//! (bids descending, asks ascending), applies snapshot or delta updates,
//! answers top-of-book and depth-weighted queries, and simulates the
//! average fill of a hypothetical market order against resting depth.
//!
//! All values are fixed-point integers: a price or quantity is the decimal
//! value multiplied by a scale factor `10^decimals` and truncated. The
//! conversion from decimal input and the final division back to a ratio are
//! left to callers; everything here is exact integer arithmetic.

pub mod book;
pub mod laws;
pub mod model;

pub use book::ConfigurationError;
pub use book::Orderbook;
pub use model::PriceLevel;
