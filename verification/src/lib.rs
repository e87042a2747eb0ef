//! Lazy sequence combinators over single-pass sources, with a few slice,
//! string and arithmetic helpers.
//!
//! Every combinator wraps a standard iterator and is pulled one item at a
//! time. Its contract speaks of the items the wrapped source is still going
//! to yield, so each `next` says both what comes out and where the source
//! stands afterwards.

pub mod closures;
pub mod itertools;
pub mod math;
pub mod stringtools;
pub mod vectools;
