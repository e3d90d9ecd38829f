//! Resource packages (REZ) and their index.

pub mod index;
pub mod node;
pub mod pack;
pub mod uri;
pub mod reader;
pub mod rpm;
