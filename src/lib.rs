//! An index of images grouped by picture resolution, with two-stage random
//! selection: first a resolution bucket, then an image inside it.

pub mod resolution;
pub mod library;
pub mod listing;
