pub mod node;
pub mod persistence;
pub mod runtime;
pub mod text;
