//! An opinionated Rust code formatter that respects the author's line breaks.
//!
//! The formatter applies a pipeline of passes over the source text; each pass is
//! specified over `Seq<char>` views and verified against that specification.
use vstd::prelude::*;

pub mod config;
pub mod formatter;
pub mod pass;
pub mod syntax;
pub mod text;

verus! {

} // verus!
