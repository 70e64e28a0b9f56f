//! The `edited` field of a comment record.

use vstd::prelude::*;

verus! {

/// A comment's edit marker: either a plain flag or the edit timestamp.
#[derive(Debug, Clone, Copy, PartialEq, Eq, Structural)]
pub enum EditState {
    Bool(bool),
    UTC(u32),
}

} // verus!
