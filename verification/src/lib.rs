//! Class declaration folding and type localization for a Hack type checker.
pub mod decl_defs;
pub mod driver;
pub mod folded_decl_provider;
pub mod pos;
pub mod shallow_decl_provider;
pub mod typing_defs;
pub mod typing_env;
pub mod typing_phase;
