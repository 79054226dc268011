//! A term-rewriting engine for combinatory logic: terms are read from
//! text, searched for a redex, rewritten one redex at a time under a
//! pluggable environment of combinators, and printed again.

pub mod model;
pub mod syntax;
pub mod term;
pub mod clterm;
pub mod equality;
pub mod laws;
