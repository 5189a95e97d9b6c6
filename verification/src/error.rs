//! What can go wrong while a tree is printed.

use vstd::prelude::*;

verus! {

/// Why a tree could not be printed. Each of them ends the printing: no
/// text is handed out.
#[derive(Debug, Clone, Copy, PartialEq, Eq, Structural)]
pub enum RenderError {
    /// The tree holds a list without children.
    EmptyListError,
    /// The printer had to keep more undecided tokens than it has room for.
    /// Only the printer can tell: whoever drives it reports this.
    EngineCapacityExceeded,
    /// A group was to be closed while none was open.
    UnbalancedGroupError,
}

} // verus!
