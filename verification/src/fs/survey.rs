//! Which checkpoint a mount settles on.
//!
//! The newest superblock copy that verifies is taken. Verifying one reads the
//! device, so a [`Survey`] asks for one verification at a time and is told how
//! it went; what it will settle on is a function of those answers.
use vstd::prelude::*;

use crate::fs::error::FsError;
use crate::fs::layout::{self, Super};

verus! {

/// Sectors per block.
pub const SECTORS: u64 = 8;

/// Which checkpoint a mount settled on, and what the one before it held.
#[derive(Clone, Copy, Debug, PartialEq, Eq, Structural)]
pub struct Checkpoint {
    pub superblock: Super,
    pub active_copy: u64,
    pub previous_log: Option<u64>,
    pub previous_tree: Option<u64>,
}

/// Whether copy `i` holds a superblock nothing was held against yet.
pub open spec fn standing(copies: Seq<Option<Super>>, rejected: Seq<bool>, i: int) -> bool {
    0 <= i < copies.len() && copies[i] is Some && !rejected[i]
}

/// The generation of copy `i`.
pub open spec fn generation(copies: Seq<Option<Super>>, i: int) -> u64 {
    copies[i]->0.generation
}

/// The copy holding the newest generation among the first `n`, ties going to
/// the lower copy.
pub open spec fn best(copies: Seq<Option<Super>>, rejected: Seq<bool>, n: int) -> Option<int>
    decreases n,
{
    if n <= 0 {
        None
    } else {
        let before = best(copies, rejected, n - 1);
        if standing(copies, rejected, n - 1) && (before is None || generation(copies, n - 1)
            > generation(copies, before->0)) {
            Some(n - 1)
        } else {
            before
        }
    }
}

/// The best copy is one still standing, no other is newer, and none as new
/// comes before it; and where one stands, one is best.
pub proof fn law_best_is_newest(copies: Seq<Option<Super>>, rejected: Seq<bool>, n: int)
    requires
        0 <= n <= copies.len(),
    ensures
        match best(copies, rejected, n) {
            Some(at) => {
                &&& at < n
                &&& standing(copies, rejected, at)
                &&& forall|i: int|
                    i < n && #[trigger] standing(copies, rejected, i) ==> generation(copies, i)
                        < generation(copies, at) || (generation(copies, i) == generation(
                        copies,
                        at,
                    ) && at <= i)
            },
            None => forall|i: int| i < n ==> !#[trigger] standing(copies, rejected, i),
        },
    decreases n,
{
    if n > 0 {
        law_best_is_newest(copies, rejected, n - 1);
    }
}

/// The copy holding the newest generation, ties going to the lower copy.
pub fn newest(copies: &[Option<Super>], rejected: &[bool]) -> (newest: Option<usize>)
    requires
        rejected@.len() >= copies@.len(),
    ensures
        match newest {
            Some(at) => best(copies@, rejected@, copies@.len() as int) == Some(at as int)
                && standing(copies@, rejected@, at as int),
            None => best(copies@, rejected@, copies@.len() as int) is None,
        },
{
    let mut found: Option<usize> = None;
    let mut copy: usize = 0;
    while copy < copies.len()
        invariant
            copy <= copies@.len(),
            rejected@.len() >= copies@.len(),
            match found {
                Some(at) => best(copies@, rejected@, copy as int) == Some(at as int) && standing(
                    copies@,
                    rejected@,
                    at as int,
                ),
                None => best(copies@, rejected@, copy as int) is None,
            },
        decreases copies.len() - copy,
    {
        if let Some(parsed) = copies[copy] {
            if !rejected[copy] {
                let newer = match found {
                    None => true,
                    Some(at) => match copies[at] {
                        Some(held) => parsed.generation > held.generation,
                        None => true,
                    },
                };
                if newer {
                    found = Some(copy);
                }
            }
        }
        copy = copy + 1;
    }
    found
}

/// Whether a superblock describes no more than the device has.
pub open spec fn within(value: Super, sectors: u64) -> bool {
    value.blocks * SECTORS <= sectors || sectors == u64::MAX
}

fn is_within(value: &Super, sectors: u64) -> (is: bool)
    ensures
        is == within(*value, sectors),
{
    if value.blocks > u64::MAX / 8 {
        return sectors == u64::MAX;
    }
    value.blocks * 8 <= sectors
}

/// The checkpoint in copy `active`, with copy `previous` before it.
pub open spec fn checkpoint_of(
    copies: Seq<Option<Super>>,
    active: int,
    previous: Option<int>,
) -> Checkpoint {
    Checkpoint {
        superblock: copies[active]->0,
        active_copy: active as u64,
        previous_log: match previous {
            Some(copy) => Some((copies[copy]->0).log.at),
            None => None,
        },
        previous_tree: match previous {
            Some(copy) => if (copies[copy]->0).tree_root != 0 {
                Some((copies[copy]->0).tree_root)
            } else {
                None
            },
            None => None,
        },
    }
}

/// The first copy from `from` on, other than `active`, that verifies.
pub open spec fn previous_from(
    copies: Seq<Option<Super>>,
    active: int,
    sectors: u64,
    verdict: spec_fn(int) -> Result<(), FsError>,
    from: int,
) -> Option<int>
    decreases copies.len() - from,
{
    if from < 0 || from >= copies.len() {
        None
    } else if from != active && copies[from] is Some && within(copies[from]->0, sectors) && verdict(
        from,
    ) is Ok {
        Some(from)
    } else {
        previous_from(copies, active, sectors, verdict, from + 1)
    }
}

/// What a survey settles on when copy `i` verifies as `verdict(i)` says:
/// newest generation first, each candidate dropped if it fails to verify.
pub open spec fn elected(
    copies: Seq<Option<Super>>,
    rejected: Seq<bool>,
    sectors: u64,
    verdict: spec_fn(int) -> Result<(), FsError>,
    last: FsError,
    rounds: nat,
) -> Result<Checkpoint, FsError>
    decreases rounds,
{
    if rounds == 0 {
        Err(last)
    } else {
        match best(copies, rejected, copies.len() as int) {
            None => Err(last),
            Some(active) => {
                let after = rejected.update(active, true);
                if !within(copies[active]->0, sectors) {
                    elected(copies, after, sectors, verdict, FsError::Corrupt, (rounds - 1) as nat)
                } else {
                    match verdict(active) {
                        Err(error) => elected(
                            copies,
                            after,
                            sectors,
                            verdict,
                            error,
                            (rounds - 1) as nat,
                        ),
                        Ok(()) => Ok(
                            checkpoint_of(
                                copies,
                                active,
                                previous_from(copies, active, sectors, verdict, 0),
                            ),
                        ),
                    }
                }
            },
        }
    }
}

/// The verification a survey waits for.
#[derive(Clone, Copy, Debug, PartialEq, Eq, Structural)]
pub enum Asked {
    /// Of the candidate itself.
    Candidate(usize),
    /// Of the one before it, the candidate having verified.
    Previous { active: usize, copy: usize },
}

/// A survey that waits for a verification.
pub struct Survey {
    pub copies: Vec<Option<Super>>,
    pub rejected: Vec<bool>,
    pub sectors: u64,
    pub last_error: FsError,
    pub rounds: usize,
    pub asked: Asked,
}

/// What a survey wants next.
#[derive(Clone, Copy, Debug, PartialEq, Eq, Structural)]
pub enum Next {
    /// The copy with this superblock verified.
    Verify(usize, Super),
    /// Nothing: it settled.
    Settled(Checkpoint),
    /// Nothing: no copy will do.
    Failed(FsError),
}

impl Survey {
    pub open spec fn wf(&self) -> bool {
        &&& self.copies@.len() == self.rejected@.len()
        &&& 0 <= self.asks() < self.copies@.len()
        &&& self.copies@[self.asks()] is Some
        &&& self.asked matches Asked::Previous { active, copy } ==> active < self.copies@.len()
            && self.copies@[active as int] is Some && active != copy
    }

    /// The copy whose verification is waited for.
    pub open spec fn asks(&self) -> int {
        match self.asked {
            Asked::Candidate(copy) => copy as int,
            Asked::Previous { copy, .. } => copy as int,
        }
    }

    /// What the survey will settle on when copy `i` verifies as `verdict(i)`.
    pub open spec fn outlook(&self, verdict: spec_fn(int) -> Result<(), FsError>) -> Result<
        Checkpoint,
        FsError,
    > {
        match self.asked {
            Asked::Candidate(active) => match verdict(active as int) {
                Err(error) => elected(
                    self.copies@,
                    self.rejected@,
                    self.sectors,
                    verdict,
                    error,
                    self.rounds as nat,
                ),
                Ok(()) => Ok(
                    checkpoint_of(
                        self.copies@,
                        active as int,
                        previous_from(self.copies@, active as int, self.sectors, verdict, 0),
                    ),
                ),
            },
            Asked::Previous { active, copy } => Ok(
                checkpoint_of(
                    self.copies@,
                    active as int,
                    if verdict(copy as int) is Ok {
                        Some(copy as int)
                    } else {
                        previous_from(
                            self.copies@,
                            active as int,
                            self.sectors,
                            verdict,
                            copy + 1,
                        )
                    },
                ),
            ),
        }
    }

    /// Whether `next` leads to `expected`, through this survey if it goes on.
    pub open spec fn leads(
        &self,
        next: Next,
        verdict: spec_fn(int) -> Result<(), FsError>,
        expected: Result<Checkpoint, FsError>,
    ) -> bool {
        match next {
            Next::Verify(copy, value) => {
                &&& self.wf()
                &&& self.asks() == copy
                &&& self.copies@[copy as int] == Some(value)
                &&& self.outlook(verdict) == expected
            },
            Next::Settled(checkpoint) => expected == Ok::<Checkpoint, FsError>(checkpoint),
            Next::Failed(error) => expected == Err::<Checkpoint, FsError>(error),
        }
    }

    /// Reads both superblock copies of a device of `sectors` sectors.
    pub fn begin(first: &[u8], second: &[u8], sectors: u64) -> (begun: (Self, Next))
        ensures
            forall|verdict: spec_fn(int) -> Result<(), FsError>|
                #![trigger begun.0.outlook(verdict)]
                begun.0.leads(
                    begun.1,
                    verdict,
                    elected(
                        seq![layout::parsed(first@).ok(), layout::parsed(second@).ok()],
                        seq![false, false],
                        sectors,
                        verdict,
                        last_of(first@, second@),
                        2,
                    ),
                ),
    {
        let mut copies: Vec<Option<Super>> = Vec::new();
        let mut last_error = FsError::Magic;
        match Super::parse(first) {
            Ok(parsed) => copies.push(Some(parsed)),
            Err(error) => {
                copies.push(None);
                last_error = error;
            },
        }
        match Super::parse(second) {
            Ok(parsed) => copies.push(Some(parsed)),
            Err(error) => {
                copies.push(None);
                last_error = error;
            },
        }
        let mut rejected: Vec<bool> = Vec::new();
        rejected.push(false);
        rejected.push(false);
        assert(copies@ =~= seq![layout::parsed(first@).ok(), layout::parsed(second@).ok()]);
        assert(rejected@ =~= seq![false, false]);
        let mut survey = Survey {
            copies,
            rejected,
            sectors,
            last_error,
            rounds: 2,
            asked: Asked::Candidate(0),
        };
        let next = survey.elect();
        (survey, next)
    }

    /// Takes the outcome of the verification asked for.
    pub fn verified(&mut self, outcome: Result<(), FsError>) -> (next: Next)
        requires
            old(self).wf(),
        ensures
            forall|verdict: spec_fn(int) -> Result<(), FsError>|
                #![trigger old(self).outlook(verdict)]
                verdict(old(self).asks()) == outcome ==> final(self).leads(
                    next,
                    verdict,
                    old(self).outlook(verdict),
                ),
    {
        assert(self.copies.len() == self.copies@.len());
        match self.asked {
            Asked::Candidate(active) => match outcome {
                Err(error) => {
                    self.last_error = error;
                    self.elect()
                },
                Ok(()) => self.predecessor(active, 0),
            },
            Asked::Previous { active, copy } => match outcome {
                Err(_) => self.predecessor(active, copy + 1),
                Ok(()) => Next::Settled(self.settle(active, Some(copy))),
            },
        }
    }

    fn settle(&self, active: usize, previous: Option<usize>) -> (checkpoint: Checkpoint)
        requires
            active < self.copies@.len(),
            self.copies@[active as int] is Some,
            previous matches Some(copy) ==> copy < self.copies@.len() && self.copies@[copy as int]
                is Some,
        ensures
            checkpoint == checkpoint_of(
                self.copies@,
                active as int,
                match previous {
                    Some(copy) => Some(copy as int),
                    None => None,
                },
            ),
    {
        let superblock = match self.copies[active] {
            Some(superblock) => superblock,
            None => Super::default(),
        };
        let mut previous_log: Option<u64> = None;
        let mut previous_tree: Option<u64> = None;
        if let Some(copy) = previous {
            if let Some(parsed) = self.copies[copy] {
                previous_log = Some(parsed.log.at);
                if parsed.tree_root != 0 {
                    previous_tree = Some(parsed.tree_root);
                }
            }
        }
        Checkpoint { superblock, active_copy: active as u64, previous_log, previous_tree }
    }

    /// Asks for the next candidate, newest first.
    fn elect(&mut self) -> (next: Next)
        requires
            old(self).copies@.len() == old(self).rejected@.len(),
        ensures
            final(self).copies@ == old(self).copies@,
            final(self).sectors == old(self).sectors,
            forall|verdict: spec_fn(int) -> Result<(), FsError>|
                #![trigger final(self).outlook(verdict)]
                #![trigger elected(
                    old(self).copies@,
                    old(self).rejected@,
                    old(self).sectors,
                    verdict,
                    old(self).last_error,
                    old(self).rounds as nat,
                )]
                final(self).leads(
                    next,
                    verdict,
                    elected(
                        old(self).copies@,
                        old(self).rejected@,
                        old(self).sectors,
                        verdict,
                        old(self).last_error,
                        old(self).rounds as nat,
                    ),
                ),
    {
        let ghost before = *self;
        while self.rounds > 0
            invariant
                before == *old(self),
                self.copies@ == before.copies@,
                self.sectors == before.sectors,
                self.copies@.len() == self.rejected@.len(),
                forall|verdict: spec_fn(int) -> Result<(), FsError>|
                    #![trigger elected(
                        before.copies@,
                        before.rejected@,
                        before.sectors,
                        verdict,
                        before.last_error,
                        before.rounds as nat,
                    )]
                    elected(
                        self.copies@,
                        self.rejected@,
                        self.sectors,
                        verdict,
                        self.last_error,
                        self.rounds as nat,
                    ) == elected(
                        before.copies@,
                        before.rejected@,
                        before.sectors,
                        verdict,
                        before.last_error,
                        before.rounds as nat,
                    ),
            decreases self.rounds,
        {
            let active: usize = match newest(self.copies.as_slice(), self.rejected.as_slice()) {
                Some(active) => active,
                None => return Next::Failed(self.last_error),
            };
            let ghost rejected = self.rejected@;
            self.rejected.set(active, true);
            self.rounds = self.rounds - 1;
            if let Some(superblock) = self.copies[active] {
                if is_within(&superblock, self.sectors) {
                    self.asked = Asked::Candidate(active);
                    return Next::Verify(active, superblock);
                }
            }
            self.last_error = FsError::Corrupt;
        }
        Next::Failed(self.last_error)
    }

    /// Asks for the checkpoint before `active`, from copy `from` on.
    fn predecessor(&mut self, active: usize, from: usize) -> (next: Next)
        requires
            old(self).copies@.len() == old(self).rejected@.len(),
            active < old(self).copies@.len(),
            old(self).copies@[active as int] is Some,
            from <= old(self).copies@.len(),
        ensures
            forall|verdict: spec_fn(int) -> Result<(), FsError>|
                #![trigger final(self).outlook(verdict)]
                #![trigger previous_from(
                    old(self).copies@,
                    active as int,
                    old(self).sectors,
                    verdict,
                    from as int,
                )]
                final(self).leads(
                    next,
                    verdict,
                    Ok(
                        checkpoint_of(
                            old(self).copies@,
                            active as int,
                            previous_from(
                                old(self).copies@,
                                active as int,
                                old(self).sectors,
                                verdict,
                                from as int,
                            ),
                        ),
                    ),
                ),
    {
        let ghost before = *self;
        let mut copy: usize = from;
        while copy < self.copies.len()
            invariant
                *self == before,
                copy <= self.copies@.len(),
                self.copies@.len() == self.rejected@.len(),
                active < self.copies@.len(),
                self.copies@[active as int] is Some,
                before == *old(self),
                forall|verdict: spec_fn(int) -> Result<(), FsError>|
                    #![trigger previous_from(
                        before.copies@,
                        active as int,
                        before.sectors,
                        verdict,
                        from as int,
                    )]
                    previous_from(
                        before.copies@,
                        active as int,
                        before.sectors,
                        verdict,
                        from as int,
                    ) == previous_from(
                        before.copies@,
                        active as int,
                        before.sectors,
                        verdict,
                        copy as int,
                    ),
            decreases self.copies.len() - copy,
        {
            if copy != active {
                if let Some(candidate) = self.copies[copy] {
                    if is_within(&candidate, self.sectors) {
                        self.asked = Asked::Previous { active, copy };
                        return Next::Verify(copy, candidate);
                    }
                }
            }
            copy = copy + 1;
        }
        Next::Settled(self.settle(active, None))
    }
}

/// The last thing that was wrong with the copies of a superblock.
pub open spec fn last_of(first: Seq<u8>, second: Seq<u8>) -> FsError {
    match layout::parsed(second) {
        Err(error) => error,
        Ok(_) => match layout::parsed(first) {
            Err(error) => error,
            Ok(_) => FsError::Magic,
        },
    }
}

/// With both copies sound, the newer generation is mounted and the older one
/// is what came before it.
pub proof fn law_newer_generation_wins(
    older: Super,
    newer: Super,
    sectors: u64,
    verdict: spec_fn(int) -> Result<(), FsError>,
    last: FsError,
)
    requires
        older.generation < newer.generation,
        within(older, sectors),
        within(newer, sectors),
        verdict(0) is Ok,
        verdict(1) is Ok,
    ensures
        elected(seq![Some(older), Some(newer)], seq![false, false], sectors, verdict, last, 2)
            == Ok::<Checkpoint, FsError>(
            checkpoint_of(seq![Some(older), Some(newer)], 1, Some(0)),
        ),
        elected(seq![Some(newer), Some(older)], seq![false, false], sectors, verdict, last, 2)
            == Ok::<Checkpoint, FsError>(
            checkpoint_of(seq![Some(newer), Some(older)], 0, Some(1)),
        ),
{
    let up = seq![Some(older), Some(newer)];
    let down = seq![Some(newer), Some(older)];
    let none = seq![false, false];
    reveal_with_fuel(best, 4);
    reveal_with_fuel(elected, 3);
    reveal_with_fuel(previous_from, 4);
    assert(best(up, none, 2) == Some(1int));
    assert(best(down, none, 2) == Some(0int));
}

/// A newer generation that does not verify, torn or half written, leaves the
/// older one mounted, whichever copy it is in.
pub proof fn law_falls_back(
    older: Super,
    newer: Super,
    sectors: u64,
    verdict: spec_fn(int) -> Result<(), FsError>,
    last: FsError,
)
    requires
        within(older, sectors),
        older.generation < newer.generation,
    ensures
        verdict(0) is Ok && (verdict(1) is Err || !within(newer, sectors)) ==> elected(
            seq![Some(older), Some(newer)],
            seq![false, false],
            sectors,
            verdict,
            last,
            2,
        ) == Ok::<Checkpoint, FsError>(checkpoint_of(seq![Some(older), Some(newer)], 0, None)),
        verdict(1) is Ok && (verdict(0) is Err || !within(newer, sectors)) ==> elected(
            seq![Some(newer), Some(older)],
            seq![false, false],
            sectors,
            verdict,
            last,
            2,
        ) == Ok::<Checkpoint, FsError>(checkpoint_of(seq![Some(newer), Some(older)], 1, None)),
        verdict(0) is Ok ==> elected(
            seq![Some(older), None],
            seq![false, false],
            sectors,
            verdict,
            last,
            2,
        ) == Ok::<Checkpoint, FsError>(checkpoint_of(seq![Some(older), None], 0, None)),
        verdict(1) is Ok ==> elected(
            seq![None, Some(older)],
            seq![false, false],
            sectors,
            verdict,
            last,
            2,
        ) == Ok::<Checkpoint, FsError>(checkpoint_of(seq![None, Some(older)], 1, None)),
{
    let up = seq![Some(older), Some(newer)];
    let down = seq![Some(newer), Some(older)];
    let none = seq![false, false];
    reveal_with_fuel(best, 4);
    reveal_with_fuel(elected, 3);
    reveal_with_fuel(previous_from, 4);
    assert(best(up, none, 2) == Some(1int));
    assert(best(up, none.update(1, true), 2) == Some(0int));
    assert(best(down, none, 2) == Some(0int));
    assert(best(down, none.update(0, true), 2) == Some(1int));
    assert(best(seq![Some(older), None::<Super>], none, 2) == Some(0int));
    assert(best(seq![None::<Super>, Some(older)], none, 2) == Some(1int));
}

/// Whether a copy holds a superblock of a volume no longer than the device,
/// eight sectors a block, and verifies. A device of unknown length, all ones,
/// is long enough for any.
pub open spec fn usable(copy: Option<Super>, sectors: u64, verdict: Result<(), FsError>) -> bool {
    copy is Some && (8 * copy->0.blocks <= sectors || sectors == 0xffff_ffff_ffff_ffff) && verdict
        is Ok
}

/// What a mount remembers of a checkpoint and of the one before it.
pub open spec fn remembered(value: Super, copy: u64, before: Option<Super>) -> Checkpoint {
    Checkpoint {
        superblock: value,
        active_copy: copy,
        previous_log: if before is Some {
            Some(before->0.log.at)
        } else {
            None
        },
        previous_tree: if before is Some && before->0.tree_root != 0 {
            Some(before->0.tree_root)
        } else {
            None
        },
    }
}

/// What a mount settles on, for any two copies: the one of higher generation
/// among those that are usable, the first where they are equal, with the other,
/// if it is usable, as the one before; and nothing where neither is.
pub proof fn law_mount_in_full(
    first: Option<Super>,
    second: Option<Super>,
    sectors: u64,
    verdict: spec_fn(int) -> Result<(), FsError>,
    last: FsError,
)
    ensures
        ({
            let settled = elected(
                seq![first, second],
                seq![false, false],
                sectors,
                verdict,
                last,
                2,
            );
            match (
                usable(first, sectors, verdict(0)),
                usable(second, sectors, verdict(1)),
            ) {
                (false, false) => settled is Err,
                (true, false) => settled == Ok::<Checkpoint, FsError>(
                    remembered(first->0, 0, None),
                ),
                (false, true) => settled == Ok::<Checkpoint, FsError>(
                    remembered(second->0, 1, None),
                ),
                (true, true) => settled == Ok::<Checkpoint, FsError>(
                    if second->0.generation > first->0.generation {
                        remembered(second->0, 1, first)
                    } else {
                        remembered(first->0, 0, second)
                    },
                ),
            }
        }),
{
    reveal_with_fuel(elected, 3);
    reveal_with_fuel(best, 3);
    reveal_with_fuel(previous_from, 3);
    let copies = seq![first, second];
    assert(copies.len() == 2 && copies[0] == first && copies[1] == second);
    let fresh = seq![false, false];
    assert(fresh.update(0, true) =~= seq![true, false]);
    assert(fresh.update(1, true) =~= seq![false, true]);
}

} // verus!
