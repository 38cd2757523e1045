//! Trait-implementation resolution for a compiler's semantic analysis: an
//! index of `impl Trait for Type` blocks with coherence checking, lookup
//! queries, merging of scopes and memoized checking of trait bounds, over a
//! small arena-based type model.
//!
//! Beside it stand smaller pieces of the surrounding toolchain: where a
//! package's file lives in a registry index, whether a node's network
//! configuration is out of date, debugger breakpoints against a source map,
//! and the header of a source module.

// The type table and declaration store the resolver consults.
pub mod types;
pub mod decls;
pub mod errors;

// The index and the resolver.
pub mod assoc;
pub mod seqs;
pub mod order;
pub mod trait_map;
pub mod resolve;
pub mod coherence;
pub mod queries;
pub mod instantiate;
pub mod filters;
pub mod laws;

// Toolchain pieces.
pub mod registry;
pub mod chain_config;
pub mod breakpoints;
pub mod module_header;
