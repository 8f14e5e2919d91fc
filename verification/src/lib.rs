//! Search for interferometer length configurations whose pairwise optical
//! path differences are all distinct ("demodulatable" configurations).
//!
//! The crate is organised leaf-first:
//! - [`int_set`] holds the sorted integer set and multiset primitives;
//! - [`model`] holds the configuration model, the candidate enumerator and
//!   the incremental search strategy.

pub mod int_set;
pub mod model;
