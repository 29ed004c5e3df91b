//! The concrete syntax tree and the rules that read it.
pub mod kind;
pub mod tree;
pub mod nav;
pub mod spacing;
pub mod indentation;
pub mod string;
