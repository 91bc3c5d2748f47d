//! A checker for the stacked-borrows aliasing discipline.
//!
//! Every memory location carries a permission stack. Creating a reference
//! pushes a permission; using a reference requires its permission to still be
//! on the stack and pops everything above it. Two checkers are offered: one
//! that tracks every location ([`tracker::SState`]), and a demonic monitor
//! ([`monitor::DemonicState`]) that tracks a single location chosen by a
//! nondeterministic oracle.
use vstd::prelude::*;

pub mod stack;
pub mod tracker;
pub mod monitor;
pub mod replay;
pub mod reduction;
pub mod laws;
pub mod branches;

verus! {

/// Identity of one exclusive permission.
pub type Tag = u32;

/// The most entries that one permission stack may hold.
pub const STACK_DEPTH: usize = 15;

/// What `new_mutable_raw` returns: raw pointers are known by the presence
/// of a shared entry, not by identity.
pub const RAW_TAG: Tag = 0;

/// How a pointer value proves its permission.
#[derive(Clone, Copy, Debug, PartialEq, Eq, Structural)]
pub enum PointerKind {
    /// A reference, identified by its own tag.
    Identified,
    /// A raw pointer, which matches any shared read-write entry.
    Anonymous,
}

/// One entry of a permission stack.
#[derive(Clone, Copy, Debug, PartialEq, Eq, Structural)]
pub enum StackItem {
    /// The exclusive permission of the reference with this tag.
    Unique(Tag),
    /// A shared read-write permission, held by raw pointers.
    SharedReadWrite,
}

/// Why an operation was rejected. Each one ends the run.
#[derive(Clone, Copy, Debug, PartialEq, Eq, Structural)]
pub enum BorrowError {
    /// A push would make a stack exceed `STACK_DEPTH` entries.
    BoundExceeded,
    /// A use found no entry granting the access: the permission was invalidated.
    StackViolated,
    /// The offset is not below the size of the object.
    OutOfRange,
    /// Every tag has been handed out.
    TagsExhausted,
}

/// A pointer resolved to its object, its byte offset and the object's size.
#[derive(Clone, Copy, Debug, PartialEq, Eq, Structural)]
pub struct Place {
    /// The object the pointer points into.
    pub object: usize,
    /// The byte offset within the object.
    pub offset: usize,
    /// The size of the object in bytes.
    pub size: usize,
}

impl Place {
    /// The location this place denotes: two places are the same location
    /// exactly when object and offset agree.
    pub open spec fn loc(self) -> (usize, usize) {
        (self.object, self.offset)
    }

    pub open spec fn in_range(self) -> bool {
        self.offset < self.size
    }
}

} // verus!
