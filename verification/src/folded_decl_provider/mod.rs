//! Folding class declarations: every class gets what it inherits from its parents.
pub mod cache;
pub mod completion;
pub mod fold;
pub mod inherit;
pub mod inheritance;
pub mod laws;
pub mod provider;
