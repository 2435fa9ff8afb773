//! The ways in which a layout operation can be refused.

use vstd::prelude::*;

verus! {

/// Why a layout operation was refused. Each of these is an expected condition
/// that leaves the layout as it was; the caller reports it and goes on.
#[derive(Clone, Copy, Debug, PartialEq, Eq, Structural)]
pub enum LayoutError {
    /// No pane has the given identifier, or no profile the given name.
    NotFound,
    /// The two panes of a merge are not the two children of one split.
    InvalidMerge,
    /// The operation cannot apply to its target, such as closing a pane that
    /// displays the terminal.
    InvalidOperation,
    /// The operation is not allowed in the current mode.
    InvalidState,
    /// The focused pane has no neighbour to merge with: it cannot be closed.
    Unmergeable,
}

} // verus!
