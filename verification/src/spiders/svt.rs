//! Data model for the svt.se news API.
//!
//! The spider that crawls svt.se does HTTP and JSON work that stays outside
//! the verified library; the plain shapes of the API's listing pages live
//! here so that the logic around them can be stated over ordinary values.

pub mod domain;

pub use domain::{Content, Page};
