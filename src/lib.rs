//! Recursive Bayesian localisation: the decision and index logic shared by
//! the pose estimators, with weighted particle resampling at its core.
pub mod correspondence;
pub mod feature_map;
pub mod particles;
pub mod resampling;
