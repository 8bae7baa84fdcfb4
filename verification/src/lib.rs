//! diff-kdbx: semantic diff for KeePass KDBX vaults.
//!
//! The library works on an in-memory model of a decrypted vault
//! (`model::Database`); reading and decrypting `.kdbx` files is left to
//! the caller.

pub mod change_set;
pub mod compute;
pub mod dump;
pub mod fields;
pub mod mask;
pub mod model;
pub mod options;
pub mod path;
pub mod properties;
pub mod render;
pub mod sums;
pub mod text;
