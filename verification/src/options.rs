//! Options for diff and dump operations.

use vstd::prelude::*;

verus! {

/// Options for `compute`. Default suppresses noisy timestamps and masks secrets.
#[derive(Debug, Clone, PartialEq, Eq)]
pub struct DiffOptions {
    /// If true, do not suppress noisy fields (LastAccessTime, UsageCount, etc.).
    pub strict: bool,
    /// If true, ChangeSet contains plaintext for protected fields. Default false.
    pub show_secrets: bool,
    /// If true, include the recycle bin group and its descendants in the diff.
    /// Default false: the recycle bin is hidden from output.
    pub include_recycle_bin: bool,
}

impl Default for DiffOptions {
    fn default() -> (r: Self)
        ensures
            !r.strict,
            !r.show_secrets,
            !r.include_recycle_bin,
    {
        Self { strict: false, show_secrets: false, include_recycle_bin: false }
    }
}

/// Options for `dump`. Default suppresses noisy timestamps and masks secrets.
#[derive(Debug, Clone, PartialEq, Eq)]
pub struct DumpOptions {
    pub strict: bool,
    pub show_secrets: bool,
    /// If true, include the recycle bin group and its descendants in the dump.
    /// Default false: the recycle bin is hidden from output.
    pub include_recycle_bin: bool,
}

impl Default for DumpOptions {
    fn default() -> (r: Self)
        ensures
            !r.strict,
            !r.show_secrets,
            !r.include_recycle_bin,
    {
        Self { strict: false, show_secrets: false, include_recycle_bin: false }
    }
}

/// Options for renderers.
#[derive(Debug, Clone, PartialEq, Eq)]
pub struct RenderOptions {
    /// Use ANSI color when rendering text. Default false.
    pub color: bool,
}

impl Default for RenderOptions {
    fn default() -> (r: Self)
        ensures
            !r.color,
    {
        Self { color: false }
    }
}

} // verus!
