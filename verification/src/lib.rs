//! A heterogeneous, append-only byte arena.
//!
//! Values of different types are laid out back to back in one growable byte
//! buffer. Each insertion pads the buffer so that the value starts at a
//! multiple of its alignment, appends the value's byte image, notes the
//! cleanup that the value is owed, and hands back a typed key that holds
//! nothing but the value's offset.

pub mod arena;
pub mod key;
pub mod layout;
pub mod model;

pub use arena::HVec;
pub use key::Key;
pub use key::KeyIndex;
