//! What keeps the containers to those of this crate.

use vstd::prelude::*;

verus! {

/// Implemented by the containers of this crate, and by nothing else.
pub trait Sealed {

}

} // verus!
