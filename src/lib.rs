//! Schema-driven binary codec generation for record types.

pub mod attributes;
pub mod codec;
pub mod derive;
pub mod wire;
