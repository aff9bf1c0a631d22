//! Customer segmentation library: a fixed-point feature model of customer
//! records and a K-means clustering engine over those features.
//!
//! All real-valued quantities (income, spend amounts, scores, distances) are
//! held as unsigned fixed-point integers with `SCALE` sub-units per whole
//! unit, so that every computation is exact integer arithmetic.

pub mod record;
pub mod clustering;
