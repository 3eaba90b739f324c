//! What a hart keeps behind `tp`.
use vstd::prelude::*;

use crate::smp::Percpu;

verus! {

impl Percpu {
    /// The hart identifier firmware calls the core by.
    pub fn hart(&self) -> (hart: u64)
        ensures
            hart == self.id,
    {
        self.id
    }
}

} // verus!
