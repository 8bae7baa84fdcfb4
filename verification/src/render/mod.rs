//! Renderers of a `ChangeSet`.

pub mod text;
