//! Which translation domain each endpoint is attached to.
use vstd::prelude::*;

use crate::dma::DeviceId;
use crate::virtio::error::VirtioError;

verus! {

/// One endpoint in one domain.
#[derive(Clone, Copy, Debug, PartialEq, Eq, Structural)]
pub struct Attachment {
    pub device: DeviceId,
    pub domain: u32,
}

/// The attachments of up to `N` endpoints, each in a domain of its own out of
/// `start..=end`.
pub struct Domains<const N: usize> {
    pub start: u32,
    pub end: u32,
    pub entries: [Option<Attachment>; N],
}

/// Whether some entry is for `device`.
pub open spec fn knows(entries: Seq<Option<Attachment>>, device: DeviceId) -> bool {
    exists|i: int|
        0 <= i < entries.len() && (#[trigger] entries[i] matches Some(entry) && entry.device
            == device)
}

/// Whether some entry is in `domain`.
pub open spec fn uses(entries: Seq<Option<Attachment>>, domain: u32) -> bool {
    exists|i: int|
        0 <= i < entries.len() && (#[trigger] entries[i] matches Some(entry) && entry.domain
            == domain)
}

/// The slot of a table a new entry goes in.
pub open spec fn first_empty(entries: Seq<Option<Attachment>>, slot: int) -> bool {
    &&& 0 <= slot < entries.len()
    &&& entries[slot] is None
    &&& forall|i: int| 0 <= i < slot ==> #[trigger] entries[i] is Some
}

impl<const N: usize> Domains<N> {
    /// No endpoint is attached twice, no domain is shared, and every domain is
    /// in range.
    pub open spec fn wf(&self) -> bool {
        &&& forall|i: int|
            0 <= i < N ==> (#[trigger] self.entries@[i] matches Some(entry) ==> self.start
                <= entry.domain <= self.end)
        &&& forall|i: int, j: int|
            #![trigger self.entries@[i], self.entries@[j]]
            0 <= i < j < N && self.entries@[i] is Some && self.entries@[j] is Some ==> {
                &&& self.entries@[i]->0.device != self.entries@[j]->0.device
                &&& self.entries@[i]->0.domain != self.entries@[j]->0.domain
            }
    }

    /// Whether domains are taken from the same numbers.
    pub open spec fn same_range(&self, other: Self) -> bool {
        self.start == other.start && self.end == other.end
    }

    /// The domains a new attachment may have.
    pub open spec fn vacant(&self, domain: u32) -> bool {
        self.start <= domain <= self.end && !uses(self.entries@, domain)
    }

    /// Whether `domain` is the lowest a new attachment may have.
    pub open spec fn lowest(&self, domain: u32) -> bool {
        &&& self.vacant(domain)
        &&& forall|lower: u32| lower < domain ==> !#[trigger] self.vacant(lower)
    }

    /// Why `device` is put in no domain: it is in one, the table is full, or
    /// every domain is taken.
    pub open spec fn refusal(&self, device: DeviceId) -> Option<VirtioError> {
        if knows(self.entries@, device) {
            Some(VirtioError::Device)
        } else if forall|i: int| 0 <= i < N ==> #[trigger] self.entries@[i] is Some {
            Some(VirtioError::Full)
        } else if forall|any: u32| !#[trigger] self.vacant(any) {
            Some(
                if self.end == u32::MAX && self.start <= self.end {
                    VirtioError::Device
                } else {
                    VirtioError::Full
                },
            )
        } else {
            None
        }
    }

    pub fn new(start: u32, end: u32) -> (domains: Self)
        ensures
            domains.wf(),
            domains.start == start,
            domains.end == end,
            domains.entries@ == Seq::new(N as nat, |i: int| None::<Attachment>),
    {
        let entries: [Option<Attachment>; N] = [None;N];
        Domains { start, end, entries }
    }

    /// Puts `device` in the lowest domain nobody is in.
    pub fn reserve(&mut self, device: DeviceId) -> (domain: Result<u32, VirtioError>)
        requires
            old(self).wf(),
        ensures
            final(self).wf(),
            final(self).start == old(self).start,
            final(self).end == old(self).end,
            match domain {
                Ok(domain) => {
                    &&& old(self).refusal(device) is None
                    &&& old(self).lowest(domain)
                    &&& exists|slot: int|
                        {
                            &&& #[trigger] first_empty(old(self).entries@, slot)
                            &&& final(self).entries@ == old(self).entries@.update(
                                slot,
                                Some(Attachment { device, domain }),
                            )
                        }
                },
                Err(error) => {
                    &&& old(self).refusal(device) == Some(error)
                    &&& *final(self) == *old(self)
                },
            },
    {
        if self.domain(device).is_some() {
            return Err(VirtioError::Device);
        }
        let slot: usize = match self.empty_slot() {
            Some(slot) => slot,
            None => return Err(VirtioError::Full),
        };
        let ghost before = *self;
        let mut domain: u32 = self.start;
        while domain <= self.end
            invariant
                before == *self,
                before == *old(self),
                self.wf(),
                !knows(self.entries@, device),
                first_empty(self.entries@, slot as int),
                slot < N,
                domain >= self.start,
                forall|lower: u32| lower < domain ==> !#[trigger] before.vacant(lower),
            decreases self.end - domain + 1,
        {
            if !self.in_use(domain) {
                self.entries[slot] = Some(Attachment { device, domain });
                assert(before.vacant(domain));
                assert forall|i: int| 0 <= i < N && i != slot implies (
                #[trigger] before.entries@[i] matches Some(entry) ==> entry.device != device && entry.domain
                    != domain) by {
                    if let Some(entry) = before.entries@[i] {
                        if entry.device == device {
                            assert(knows(before.entries@, device));
                        }
                        if entry.domain == domain {
                            assert(uses(before.entries@, domain));
                        }
                    }
                }
                return Ok(domain);
            }
            if domain == u32::MAX {
                assert forall|any: u32| !#[trigger] before.vacant(any) by {}
                return Err(VirtioError::Device);
            }
            domain = domain + 1;
        }
        assert forall|any: u32| !#[trigger] before.vacant(any) by {}
        assert(self.entries@[slot as int] is None);
        Err(VirtioError::Full)
    }

    fn in_use(&self, domain: u32) -> (used: bool)
        ensures
            used == uses(self.entries@, domain),
    {
        let mut i: usize = 0;
        while i < N
            invariant
                i <= N,
                forall|k: int|
                    0 <= k < i ==> !(#[trigger] self.entries@[k] matches Some(entry)
                        && entry.domain == domain),
            decreases N - i,
        {
            if let Some(entry) = self.entries[i] {
                if entry.domain == domain {
                    assert(self.entries@[i as int] is Some);
                    return true;
                }
            }
            i = i + 1;
        }
        false
    }

    fn empty_slot(&self) -> (slot: Option<usize>)
        ensures
            match slot {
                Some(slot) => first_empty(self.entries@, slot as int),
                None => forall|i: int| 0 <= i < N ==> #[trigger] self.entries@[i] is Some,
            },
    {
        let mut i: usize = 0;
        while i < N
            invariant
                i <= N,
                forall|k: int| 0 <= k < i ==> #[trigger] self.entries@[k] is Some,
            decreases N - i,
        {
            if self.entries[i].is_none() {
                return Some(i);
            }
            i = i + 1;
        }
        None
    }

    fn position(&self, device: DeviceId) -> (slot: Option<usize>)
        requires
            self.wf(),
        ensures
            match slot {
                Some(slot) => slot < N && (self.entries@[slot as int] matches Some(entry)
                    && entry.device == device),
                None => !knows(self.entries@, device),
            },
    {
        let mut i: usize = 0;
        while i < N
            invariant
                i <= N,
                forall|k: int|
                    0 <= k < i ==> !(#[trigger] self.entries@[k] matches Some(entry)
                        && entry.device == device),
            decreases N - i,
        {
            if let Some(entry) = self.entries[i] {
                if entry.device == device {
                    return Some(i);
                }
            }
            i = i + 1;
        }
        None
    }

    /// The domain `device` is in.
    pub fn domain(&self, device: DeviceId) -> (domain: Option<u32>)
        requires
            self.wf(),
        ensures
            domain == self.home(device),
    {
        match self.position(device) {
            Some(slot) => {
                let domain = match self.entries[slot] {
                    Some(entry) => Some(entry.domain),
                    None => None,
                };
                proof {
                    self.lemma_home(device, slot as int);
                }
                domain
            },
            None => None,
        }
    }

    /// The domain `device` is in.
    pub open spec fn home(&self, device: DeviceId) -> Option<u32> {
        if knows(self.entries@, device) {
            let i = choose|i: int|
                0 <= i < N && (#[trigger] self.entries@[i] matches Some(entry) && entry.device
                    == device);
            Some(self.entries@[i]->0.domain)
        } else {
            None
        }
    }

    pub proof fn lemma_home(&self, device: DeviceId, slot: int)
        requires
            self.wf(),
            0 <= slot < N,
            self.entries@[slot] matches Some(entry) && entry.device == device,
        ensures
            self.home(device) == Some(self.entries@[slot]->0.domain),
    {
        assert(knows(self.entries@, device));
        let i = choose|i: int|
            0 <= i < N && (#[trigger] self.entries@[i] matches Some(entry) && entry.device
                == device);
        assert(i == slot);
    }

    /// Takes `device` out of its domain.
    pub fn release(&mut self, device: DeviceId) -> (domain: Result<u32, VirtioError>)
        requires
            old(self).wf(),
        ensures
            final(self).wf(),
            final(self).start == old(self).start,
            final(self).end == old(self).end,
            match domain {
                Ok(domain) => {
                    &&& old(self).home(device) == Some(domain)
                    &&& exists|slot: int|
                        {
                            &&& 0 <= slot < N
                            &&& #[trigger] old(self).entries@[slot] == Some(
                                Attachment { device, domain },
                            )
                            &&& final(self).entries@ == old(self).entries@.update(slot, None)
                        }
                },
                Err(error) => {
                    &&& !knows(old(self).entries@, device)
                    &&& error == VirtioError::Device
                    &&& *final(self) == *old(self)
                },
            },
    {
        let slot: usize = match self.position(device) {
            Some(slot) => slot,
            None => return Err(VirtioError::Device),
        };
        proof {
            self.lemma_home(device, slot as int);
        }
        match self.entries[slot] {
            Some(entry) => {
                self.entries[slot] = None;
                Ok(entry.domain)
            },
            None => Err(VirtioError::Device),
        }
    }

    pub fn is_empty(&self) -> (empty: bool)
        ensures
            empty == forall|i: int| 0 <= i < N ==> #[trigger] self.entries@[i] is None,
    {
        let mut i: usize = 0;
        while i < N
            invariant
                i <= N,
                forall|k: int| 0 <= k < i ==> #[trigger] self.entries@[k] is None,
            decreases N - i,
        {
            if self.entries[i].is_some() {
                return false;
            }
            i = i + 1;
        }
        true
    }
}

/// Two endpoints are never in one domain.
pub proof fn law_domains_isolate<const N: usize>(
    domains: Domains<N>,
    first: DeviceId,
    second: DeviceId,
)
    requires
        domains.wf(),
        first != second,
        domains.home(first) is Some,
    ensures
        domains.home(first) != domains.home(second),
{
    let i = choose|i: int|
        0 <= i < N && (#[trigger] domains.entries@[i] matches Some(entry) && entry.device == first);
    if knows(domains.entries@, second) {
        let j = choose|j: int|
            0 <= j < N && (#[trigger] domains.entries@[j] matches Some(entry) && entry.device
                == second);
        assert(i != j);
    }
}

/// An endpoint is refused a domain where it has one, where every entry is taken,
/// and where every number from the first to the last is somebody's; and nowhere
/// else.
pub proof fn law_domains_are_refused_for_cause<const N: usize>(domains: Domains<N>, device: DeviceId)
    requires
        domains.wf(),
    ensures
        domains.home(device) is Some ==> domains.refusal(device) == Some(VirtioError::Device),
        domains.home(device) is None && (forall|i: int|
            0 <= i < N ==> #[trigger] domains.entries@[i] is Some) ==> domains.refusal(device)
            == Some(VirtioError::Full),
        domains.refusal(device) is None <==> {
            &&& domains.home(device) is None
            &&& exists|i: int| 0 <= i < N && #[trigger] domains.entries@[i] is None
            &&& exists|domain: u32| #[trigger]
                domains.vacant(domain)
        },
{
}

/// A number is free exactly if it is in range and no endpoint has it for a home,
/// and the one given out is the least of those.
pub proof fn law_lowest_domain_nobody_has<const N: usize>(
    domains: Domains<N>,
    domain: u32,
    lower: u32,
    device: DeviceId,
)
    requires
        domains.wf(),
        domains.lowest(domain),
        lower < domain,
        lower >= domains.start,
    ensures
        domains.start <= domain <= domains.end,
        domains.home(device) != Some(domain),
        exists|owner: DeviceId| #[trigger] domains.home(owner) == Some(lower),
{
    if let Some(home) = domains.home(device) {
        let i = choose|i: int|
            0 <= i < N && (#[trigger] domains.entries@[i] matches Some(entry) && entry.device
                == device);
        if home == domain {
            assert(uses(domains.entries@, domain));
        }
    }
    assert(!domains.vacant(lower));
    let i = choose|i: int|
        0 <= i < N && (#[trigger] domains.entries@[i] matches Some(entry) && entry.domain
            == lower);
    domains.lemma_home(domains.entries@[i]->0.device, i);
    assert(domains.home(domains.entries@[i]->0.device) == Some(lower));
}

} // verus!
