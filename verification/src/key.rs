//! Typed keys: what an insertion hands back.

use core::marker::PhantomData;
use vstd::prelude::*;

verus! {

/// The integer that a key stores: a byte offset from the start of the arena.
pub type KeyIndex = u32;

/// The handle of a stored value of type `T`.
///
/// A key holds the value's offset and nothing else; the type parameter
/// exists at compile time only. A key is not `Clone`: reading a value uses
/// its key up.
pub struct Key<T> {
    offset: KeyIndex,
    _phantom: PhantomData<T>,
}

impl<T> View for Key<T> {
    type V = nat;

    /// A key is its offset.
    closed spec fn view(&self) -> nat {
        self.offset as nat
    }
}

impl<T> Key<T> {
    /// The key of a value that starts at `offset`.
    pub(crate) fn at(offset: KeyIndex) -> (key: Self)
        ensures
            key@ == offset,
    {
        Key { offset, _phantom: PhantomData }
    }

    /// The offset at which the value starts.
    pub fn offset(&self) -> (offset: KeyIndex)
        ensures
            offset == self@,
    {
        self.offset
    }
}

} // verus!
