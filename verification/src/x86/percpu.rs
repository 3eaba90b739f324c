//! What a core keeps behind `gs`.
use vstd::prelude::*;

use crate::smp::{numbering, Cpus, Percpu, MAX};

verus! {

/// APIC identifiers as machine identifiers.
pub open spec fn widened(listed: Seq<u8>) -> Seq<u64> {
    listed.map_values(|id: u8| id as u64)
}

impl Percpu {
    /// The local APIC identifier the machine calls the core by.
    pub fn apic(&self) -> (apic: u8)
        requires
            self.id <= 0xff,
        ensures
            apic == self.id,
    {
        self.id as u8
    }
}

impl Cpus {
    /// Numbers the cores ACPI listed, boot core first.
    pub fn declare_apics(&mut self, listed: &[u8], boot: u8) -> (count: u16)
        requires
            old(self).wf(),
        ensures
            final(self).wf(),
            count == final(self).count,
            count == if numbering(widened(listed@), boot as u64).len() <= MAX {
                numbering(widened(listed@), boot as u64).len() as int
            } else {
                MAX as int
            },
            forall|i: int|
                0 <= i < MAX ==> #[trigger] final(self).cpus@[i] == if i < count {
                    Percpu {
                        id: numbering(widened(listed@), boot as u64)[i],
                        ..old(self).cpus@[i]
                    }
                } else {
                    old(self).cpus@[i]
                },
    {
        let mut ids: Vec<u64> = Vec::new();
        let mut i: usize = 0;
        while i < listed.len()
            invariant
                i <= listed@.len(),
                ids@ =~= widened(listed@.take(i as int)),
            decreases listed.len() - i,
        {
            ids.push(listed[i] as u64);
            i = i + 1;
        }
        assert(listed@.take(listed@.len() as int) =~= listed@);
        self.declare(ids.as_slice(), boot as u64)
    }
}

} // verus!
