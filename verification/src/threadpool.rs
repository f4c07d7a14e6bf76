//! Work that a pool of threads runs.

use vstd::prelude::*;

verus! {

/// A piece of work that can be handed to another thread and is run once.
pub trait Task: Send + 'static {
    fn run(self);
}

} // verus!
