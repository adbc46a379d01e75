//! A rank-1 constraint system (R1CS) optimizer over a prime field, with the
//! data model, use-index, worklist driver and export-record builders that
//! surround it.
//!
//! The core pass, [`opt::reduce_linearities`], shrinks a constraint system
//! by eliminating variables that are provably linear functions of other
//! variables.  The reduction is equisatisfiable: it preserves every
//! satisfying assignment of the input, and every satisfying assignment of
//! the result extends to one of the input.


pub mod export;
pub mod field;
pub mod lc;
pub mod opt;
pub mod parser;
pub mod pyvisit;
pub mod queue;
pub mod r1cs;
pub mod scalar_fields;
pub mod stdlib;
pub mod uses;
