//! Handles and the error type shared by both heap layouts.

use vstd::prelude::*;

verus! {

/// A handle to access stored elements within an addressable pairing heap.
///
/// A handle is handed out when an element is pushed and stays valid until
/// that element is popped. It is only meaningful for the heap that made it.
#[derive(Debug, Copy, Clone, PartialEq, Eq, Structural)]
pub struct Handle(pub(crate) usize);

impl Handle {
    /// The reserved handle that names no element.
    #[inline]
    pub(crate) fn undef() -> (h: Handle)
        ensures
            h.is_undef_spec(),
    {
        Handle(usize::MAX)
    }

    /// Whether `self` is the reserved handle.
    pub open(crate) spec fn is_undef_spec(self) -> bool {
        self.0 == usize::MAX
    }

    /// Whether `self` is the reserved handle.
    #[inline]
    pub(crate) fn is_undef(self) -> (b: bool)
        ensures
            b == self.is_undef_spec(),
    {
        self.0 == usize::MAX
    }
}

impl From<usize> for Handle {
    fn from(val: usize) -> (h: Handle) {
        Handle(val)
    }
}

impl vstd::std_specs::convert::FromSpecImpl<usize> for Handle {
    open spec fn obeys_from_spec() -> bool {
        true
    }

    closed spec fn from_spec(val: usize) -> Handle {
        Handle(val)
    }
}

impl From<Handle> for usize {
    fn from(handle: Handle) -> (val: usize) {
        handle.0
    }
}

impl vstd::std_specs::convert::FromSpecImpl<Handle> for usize {
    open spec fn obeys_from_spec() -> bool {
        true
    }

    closed spec fn from_spec(handle: Handle) -> usize {
        handle.0
    }
}

/// A handle and the number behind it stand for each other: converting one
/// to the other and back gives what one started with.
pub proof fn lemma_handle_round_trip(val: usize, handle: Handle)
    ensures
        <usize as vstd::std_specs::convert::FromSpec<Handle>>::from_spec(
            <Handle as vstd::std_specs::convert::FromSpec<usize>>::from_spec(val),
        ) == val,
        <Handle as vstd::std_specs::convert::FromSpec<usize>>::from_spec(
            <usize as vstd::std_specs::convert::FromSpec<Handle>>::from_spec(handle),
        ) == handle,
{
}

/// Errors that can be caused while using a pairing heap.
#[derive(Debug, Copy, Clone, PartialEq, Eq, Structural)]
pub enum Error {
    /// Caused by `decrease_key` with a new key that is not less than the
    /// key the element already has.
    DecreaseKeyOutOfOrder,
}

/// Generic `Result` type for `PairingHeap` methods.
pub type Result<T> = std::result::Result<T, Error>;

} // verus!
