//! Errors that menu operations report to the caller.
use vstd::prelude::*;

verus! {

/// Why a menu operation was refused. A refused operation leaves the logical
/// tree and every native projection as they were.
#[derive(Debug, Clone, Copy, PartialEq, Eq, Structural)]
pub enum MenuError {
    /// The item is not a child of the menu or submenu it was addressed to.
    NotAChildOfThisMenu,
    /// The menu has no native projection for that window yet.
    NotInitialized,
    /// An insert position beyond the current number of children.
    OutOfRange,
    /// The item is already a child of a menu or submenu.
    AlreadyAttached,
    /// The item is the submenu itself or one of its ancestors.
    WouldContainItself,
}

} // verus!
