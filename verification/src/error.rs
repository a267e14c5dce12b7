//! What reading a name can fail with.

use vstd::prelude::*;

verus! {

/// A name that stands for no order or command.
#[derive(Clone, Copy, Debug, PartialEq, Eq, Structural)]
pub struct InvalidInput;

} // verus!
