//! A small retained-mode layout engine: a tree of rectangular elements is
//! sized along and across each element's direction, then positioned.
use vstd::prelude::*;

pub mod element;
pub mod internal_loop;
pub mod laws;
pub mod model;
pub mod renderer;

verus! {
}
