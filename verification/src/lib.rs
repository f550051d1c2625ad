//! A just-in-time compiler for a small expression language of scalar
//! literals, primitive operations and conditionals.
//!
//! The crate contains the verified front half of the pipeline: the
//! expression tree ([`ast`]), a recursive-descent reader for the surface
//! syntax ([`parser`]), the code generator ([`codegen`]) that lowers an
//! expression into a buffer of register-machine instructions ([`ir`])
//! under a tagged-value runtime convention, a formal semantics for those
//! instructions together with a verified interpreter ([`semantics`]), and
//! a pass that lowers structured branches into label-and-jump form
//! ([`flatten`]) ready for an assembler backend.
//!
//! The chain is proved end to end inside the library: the generator's
//! output means exactly what the source expression means, and the flat
//! label form runs exactly as the generator's output does. What remains
//! outside the proofs is the assembler backend itself: the encoding of
//! the flat form into native instruction bytes and their execution.

pub mod ast;
pub mod ir;
pub mod semantics;
pub mod codegen;
pub mod laws;
pub mod flatten;
pub mod parser;
