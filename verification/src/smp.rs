//! The cores of a machine: how they are numbered, and what each keeps.
use vstd::prelude::*;

verus! {

/// Cores molt will bring up, however many the machine has.
pub const MAX: usize = 8;

/// A core's dense index.
#[derive(Clone, Copy, Debug, PartialEq, Eq, Structural)]
pub struct CpuId {
    pub index: u16,
}

impl CpuId {
    pub fn new(index: u16) -> (cpu: Self)
        ensures
            cpu.index == index,
    {
        CpuId { index }
    }

    pub fn get(self) -> (index: u16)
        ensures
            index == self.index,
    {
        self.index
    }

    pub fn index(self) -> (index: usize)
        ensures
            index == self.index,
    {
        self.index as usize
    }
}

/// Why a core was not started.
#[derive(Clone, Copy, Debug, PartialEq, Eq, Structural)]
pub enum SmpError {
    /// No such core was numbered.
    Unknown,
    /// It runs already.
    Running,
    /// This machine has no way to start one.
    Unsupported,
    /// It was asked and did not come up.
    Refused,
}

/// The identifiers among `listed` that are not `boot`, in order.
pub open spec fn others(listed: Seq<u64>, boot: u64) -> Seq<u64> {
    listed.filter(|id: u64| id != boot)
}

/// The order cores are numbered in: the boot core, then the others.
pub open spec fn numbering(listed: Seq<u64>, boot: u64) -> Seq<u64> {
    seq![boot] + others(listed, boot)
}

/// Numbers cores, boot core first, as many as there are blocks for.
pub fn number(listed: &[u64], boot: u64) -> (ids: Vec<u64>)
    ensures
        ids@ == if numbering(listed@, boot).len() <= MAX {
            numbering(listed@, boot)
        } else {
            numbering(listed@, boot).take(MAX as int)
        },
{
    let mut ids: Vec<u64> = Vec::new();
    ids.push(boot);
    let mut i: usize = 0;
    assert(listed@.take(0) =~= seq![]);
    proof {
        reveal(Seq::filter);
    }
    assert(ids@ =~= numbering(listed@.take(0), boot));
    while i < listed.len() && ids.len() < MAX
        invariant
            i <= listed@.len(),
            1 <= ids@.len() <= MAX,
            ids@ == numbering(listed@.take(i as int), boot),
        decreases listed.len() - i,
    {
        proof {
            assert(listed@.take(i + 1).drop_last() =~= listed@.take(i as int));
            assert(listed@.take(i + 1).last() == listed@[i as int]);
            reveal(Seq::filter);
        }
        if listed[i] != boot {
            ids.push(listed[i]);
        }
        assert(ids@ =~= numbering(listed@.take(i + 1), boot));
        i = i + 1;
    }
    proof {
        lemma_prefix(listed@, boot, i as int);
        assert(listed@.take(listed@.len() as int) =~= listed@);
    }
    ids
}

/// The numbering of a prefix is a prefix of the numbering.
proof fn lemma_prefix(listed: Seq<u64>, boot: u64, n: int)
    requires
        0 <= n <= listed.len(),
    ensures
        numbering(listed.take(n), boot).len() <= numbering(listed, boot).len(),
        numbering(listed, boot).take(numbering(listed.take(n), boot).len() as int) == numbering(
            listed.take(n),
            boot,
        ),
    decreases listed.len() - n,
{
    let short = numbering(listed.take(n), boot);
    if n == listed.len() {
        assert(listed.take(n) =~= listed);
        assert(short.take(short.len() as int) =~= short);
    } else {
        lemma_prefix(listed, boot, n + 1);
        let longer = numbering(listed.take(n + 1), boot);
        reveal(Seq::filter);
        assert(listed.take(n + 1).drop_last() =~= listed.take(n));
        assert(longer.take(short.len() as int) =~= short);
        let all = numbering(listed, boot);
        assert(all.take(short.len() as int) =~= all.take(longer.len() as int).take(
            short.len() as int,
        ));
    }
}

/// One core's own block.
///
/// Only the doorbell state is the platform's own. Everything a kernel wants
/// per-core hangs off `block`, which nothing here reads.
#[derive(Clone, Copy, Debug, PartialEq, Eq, Structural)]
pub struct Percpu {
    /// Where what the kernel installed is, or zero.
    pub block: usize,
    /// This core's dense index.
    pub cpu: u16,
    /// What the machine calls it by.
    pub id: u64,
    /// A wake that arrived before the core parked.
    pub doorbell: bool,
    /// Set by the core itself when it arrives: nothing else can tell.
    pub up: bool,
    /// Timer interrupts taken here.
    pub ticks: u64,
}

impl Percpu {
    /// The block of a core nothing is known of yet.
    pub open spec fn blank() -> Percpu {
        Percpu { block: 0, cpu: 0, id: 0, doorbell: false, up: false, ticks: 0 }
    }

    /// The block once a timer interrupt was counted.
    pub open spec fn ticked(self) -> Percpu {
        Percpu {
            ticks: if self.ticks == u64::MAX {
                0
            } else {
                (self.ticks + 1) as u64
            },
            ..self
        }
    }

    /// The block once its core arrived as `cpu`, which the machine calls `id`.
    pub open spec fn attached(self, cpu: u16, id: u64) -> Percpu {
        Percpu { cpu, id, up: true, ..self }
    }

    pub fn new() -> (core: Self)
        ensures
            core == Percpu::blank(),
    {
        Percpu { block: 0, cpu: 0, id: 0, doorbell: false, up: false, ticks: 0 }
    }

    pub fn cpu(&self) -> (cpu: CpuId)
        ensures
            cpu.index == self.cpu,
    {
        CpuId::new(self.cpu)
    }

    /// What the machine calls the core by.
    pub fn id(&self) -> (id: u64)
        ensures
            id == self.id,
    {
        self.id
    }

    /// Whether the core arrived, which is how a start is answered.
    pub fn up(&self) -> (up: bool)
        ensures
            up == self.up,
    {
        self.up
    }

    pub fn block(&self) -> (block: usize)
        ensures
            block == self.block,
    {
        self.block
    }

    pub fn set_block(&mut self, block: usize)
        ensures
            *final(self) == (Percpu { block, ..*old(self) }),
    {
        self.block = block;
    }

    pub fn ticks(&self) -> (ticks: u64)
        ensures
            ticks == self.ticks,
    {
        self.ticks
    }

    /// Counts a timer interrupt.
    pub fn tick(&mut self)
        ensures
            *final(self) == old(self).ticked(),
    {
        self.ticks = self.ticks.wrapping_add(1);
    }

    /// Records a wake, and reports whether the core was still to be told.
    pub fn ring(&mut self) -> (untold: bool)
        ensures
            untold == !old(self).doorbell,
            *final(self) == (Percpu { doorbell: true, ..*old(self) }),
    {
        let untold = !self.doorbell;
        self.doorbell = true;
        untold
    }

    /// Takes a wake that arrived, if one did.
    pub fn answered(&mut self) -> (rung: bool)
        ensures
            rung == old(self).doorbell,
            *final(self) == (Percpu { doorbell: false, ..*old(self) }),
    {
        let rung = self.doorbell;
        self.doorbell = false;
        rung
    }
}

/// However often a core is rung before it answers, it is told once, and it
/// answers once.
pub proof fn law_one_wake_per_answer(idle: Percpu, rung: Percpu, again: Percpu)
    requires
        !idle.doorbell,
        rung == (Percpu { doorbell: true, ..idle }),
        again == (Percpu { doorbell: true, ..rung }),
    ensures
        again == rung,
        (Percpu { doorbell: false, ..again }) == idle,
{
}

/// One call on the blocks of the cores. Calls of several cores at once come to
/// the same as some order of them.
pub enum Call {
    /// Core `cpu` arrived.
    Attach { cpu: u16, id: u64 },
    /// The cores were numbered.
    Declare { listed: Seq<u64>, boot: u64 },
    /// The kernel installed something for core `cpu`.
    Block { cpu: u16, block: usize },
    /// Core `cpu` took a timer interrupt.
    Tick { cpu: u16 },
    /// Core `cpu` was rung.
    Ring { cpu: u16 },
    /// Core `cpu` took a wake.
    Answered { cpu: u16 },
}

/// The blocks once a block was changed, where there is one.
pub open spec fn changed(cpus: Seq<Percpu>, cpu: u16, core: Percpu) -> Seq<Percpu> {
    if cpu < cpus.len() {
        cpus.update(cpu as int, core)
    } else {
        cpus
    }
}

/// The blocks after one call.
pub open spec fn called(cpus: Seq<Percpu>, call: Call) -> Seq<Percpu> {
    match call {
        Call::Attach { cpu, id } => changed(cpus, cpu, cpus[cpu as int].attached(cpu, id)),
        Call::Declare { listed, boot } => Seq::new(
            cpus.len(),
            |i: int|
                if i < numbering(listed, boot).len() {
                    Percpu { id: numbering(listed, boot)[i], ..cpus[i] }
                } else {
                    cpus[i]
                },
        ),
        Call::Block { cpu, block } => changed(cpus, cpu, Percpu { block, ..cpus[cpu as int] }),
        Call::Tick { cpu } => changed(cpus, cpu, cpus[cpu as int].ticked()),
        Call::Ring { cpu } => changed(cpus, cpu, Percpu { doorbell: true, ..cpus[cpu as int] }),
        Call::Answered { cpu } => changed(
            cpus,
            cpu,
            Percpu { doorbell: false, ..cpus[cpu as int] },
        ),
    }
}

/// The blocks after some calls, in order.
pub open spec fn ran(cpus: Seq<Percpu>, calls: Seq<Call>) -> Seq<Percpu>
    decreases calls.len(),
{
    if calls.len() == 0 {
        cpus
    } else {
        called(ran(cpus, calls.drop_last()), calls.last())
    }
}

/// How many timer interrupts of one core are among some calls.
pub open spec fn ticks_of(calls: Seq<Call>, core: u16) -> nat
    decreases calls.len(),
{
    if calls.len() == 0 {
        0
    } else {
        ticks_of(calls.drop_last(), core) + if calls.last() == (Call::Tick { cpu: core }) {
            1nat
        } else {
            0nat
        }
    }
}

/// Whatever else is called in between, and by whichever core, a core counts
/// every timer interrupt it took, round 64 bits.
pub proof fn law_ticks_add_up(cpus: Seq<Percpu>, calls: Seq<Call>, core: u16)
    requires
        core < cpus.len(),
    ensures
        ran(cpus, calls).len() == cpus.len(),
        ran(cpus, calls)[core as int].ticks == (cpus[core as int].ticks + ticks_of(calls, core))
            % 0x1_0000_0000_0000_0000,
    decreases calls.len(),
{
    if calls.len() > 0 {
        law_ticks_add_up(cpus, calls.drop_last(), core);
    }
}

/// Whether a call is a core's arrival.
pub open spec fn arrives(call: Call, core: u16) -> bool {
    call matches Call::Attach { cpu, .. } && cpu == core
}

/// Whether a core arrived during some calls.
pub open spec fn arrived(calls: Seq<Call>, core: u16) -> bool {
    exists|i: int| 0 <= i < calls.len() && arrives(#[trigger] calls[i], core)
}

/// A core is down until it arrives and up ever after, however the cores are
/// numbered and whatever else is called; and once it is up its block holds its
/// own number.
pub proof fn law_up_once_arrived(cpus: Seq<Percpu>, calls: Seq<Call>, core: u16)
    requires
        core < cpus.len(),
        !cpus[core as int].up,
    ensures
        ran(cpus, calls).len() == cpus.len(),
        ran(cpus, calls)[core as int].up == arrived(calls, core),
        ran(cpus, calls)[core as int].up ==> ran(cpus, calls)[core as int].cpu == core,
    decreases calls.len(),
{
    if calls.len() > 0 {
        let before = calls.drop_last();
        law_up_once_arrived(cpus, before, core);
        if arrived(before, core) {
            let i = choose|i: int| 0 <= i < before.len() && arrives(#[trigger] before[i], core);
            assert(calls[i] == before[i]);
        }
        if arrived(calls, core) && !arrived(before, core) {
            let i = choose|i: int| 0 <= i < calls.len() && arrives(#[trigger] calls[i], core);
            if i < before.len() {
                assert(before[i] == calls[i]);
            }
        }
        if arrives(calls.last(), core) {
            assert(arrives(calls[calls.len() - 1], core));
        }
    }
}

/// Every core's block.
pub struct Cpus {
    pub cpus: Vec<Percpu>,
    /// How many were numbered; before that the boot core is all there is.
    pub count: u16,
}

impl Cpus {
    pub open spec fn wf(&self) -> bool {
        self.cpus@.len() == MAX && 1 <= self.count <= MAX
    }

    pub fn new() -> (cpus: Self)
        ensures
            cpus.wf(),
            cpus.count == 1,
            forall|i: int| 0 <= i < MAX ==> #[trigger] cpus.cpus@[i] == Percpu::blank(),
    {
        let mut cpus: Vec<Percpu> = Vec::new();
        let mut i: usize = 0;
        while i < MAX
            invariant
                i <= MAX,
                cpus@.len() == i,
                forall|k: int| 0 <= k < i ==> #[trigger] cpus@[k] == Percpu::blank(),
            decreases MAX - i,
        {
            cpus.push(Percpu::new());
            i = i + 1;
        }
        Cpus { cpus, count: 1 }
    }

    /// Claims `cpu`'s block for the core that is running, which the machine
    /// calls `id`. A core there is no block for claims none.
    pub fn attach(&mut self, cpu: CpuId, id: u64)
        requires
            old(self).wf(),
        ensures
            final(self).wf(),
            final(self).count == old(self).count,
            final(self).cpus@ == called(old(self).cpus@, Call::Attach { cpu: cpu.index, id }),
    {
        let at: usize = cpu.index();
        if at >= self.cpus.len() {
            return;
        }
        let mut slot: Percpu = self.cpus[at];
        slot.cpu = cpu.get();
        slot.id = id;
        slot.up = true;
        self.cpus.set(at, slot);
    }

    /// Numbers the cores firmware listed, boot core first.
    ///
    /// Returns how many molt will use, which is fewer than were found when the
    /// machine has more cores than [`MAX`] blocks.
    pub fn declare(&mut self, listed: &[u64], boot: u64) -> (count: u16)
        requires
            old(self).wf(),
        ensures
            final(self).wf(),
            count == final(self).count,
            count == if numbering(listed@, boot).len() <= MAX {
                numbering(listed@, boot).len() as int
            } else {
                MAX as int
            },
            final(self).cpus@ == called(old(self).cpus@, Call::Declare { listed: listed@, boot }),
    {
        let ids = number(listed, boot);
        let ghost before = self.cpus@;
        let mut i: usize = 0;
        while i < ids.len()
            invariant
                i <= ids@.len() <= MAX,
                self.cpus@.len() == MAX,
                before.len() == MAX,
                forall|k: int|
                    0 <= k < MAX ==> #[trigger] self.cpus@[k] == if k < i {
                        Percpu { id: ids@[k], ..before[k] }
                    } else {
                        before[k]
                    },
            decreases ids.len() - i,
        {
            let mut slot: Percpu = self.cpus[i];
            slot.id = ids[i];
            self.cpus.set(i, slot);
            i = i + 1;
        }
        self.count = ids.len() as u16;
        assert(self.cpus@ =~= called(before, Call::Declare { listed: listed@, boot }));
        self.count
    }

    /// How many cores are numbered.
    pub fn count(&self) -> (count: u16)
        ensures
            count == self.count,
    {
        self.count
    }

    /// A numbered core's block, this one's included.
    ///
    /// Reaching into another core's block is for the doorbell and for bringing
    /// it up; everything else a core keeps is its own.
    pub fn of(&self, cpu: CpuId) -> (core: Option<Percpu>)
        requires
            self.wf(),
        ensures
            core == if cpu.index < self.count {
                Some(self.cpus@[cpu.index as int])
            } else {
                None
            },
    {
        if cpu.get() < self.count {
            Some(self.cpus[cpu.index()])
        } else {
            None
        }
    }
}

/// Cores are numbered boot core first, then the others as they were listed: one
/// more core listed behind the rest takes the next number, unless it is the boot
/// core, which has its number already.
pub proof fn law_numbering_goes_on_in_order(listed: Seq<u64>, boot: u64, id: u64)
    ensures
        numbering(seq![], boot) == seq![boot],
        numbering(listed.push(id), boot) == if id == boot {
            numbering(listed, boot)
        } else {
            numbering(listed, boot).push(id)
        },
{
    reveal(Seq::filter);
    assert(listed.push(id).drop_last() =~= listed);
    assert(numbering(seq![], boot) =~= seq![boot]);
}

/// Numbering names the first block's core the boot core and changes no block in
/// anything but the name; a core that arrives is up under its own number and the
/// machine's name for it, and keeps what was installed for it.
pub proof fn law_blocks_keep_what_is_theirs(
    cpus: Seq<Percpu>,
    listed: Seq<u64>,
    boot: u64,
    cpu: u16,
    id: u64,
)
    requires
        cpu < cpus.len(),
    ensures
        ({
            let declared = called(cpus, Call::Declare { listed, boot });
            let attached = called(cpus, Call::Attach { cpu, id });
            &&& declared.len() == cpus.len()
            &&& declared[0].id == boot
            &&& forall|i: int|
                0 <= i < cpus.len() ==> #[trigger] declared[i] == (Percpu {
                    id: declared[i].id,
                    ..cpus[i]
                })
            &&& forall|k: int|
                0 <= k < listed.len() && #[trigger] listed[k] != boot ==> {
                    let number = numbering(listed.take(k), boot).len();
                    number < cpus.len() ==> declared[number as int].id == listed[k]
                }
            &&& attached.len() == cpus.len()
            &&& attached[cpu as int].id == id
            &&& attached[cpu as int].cpu == cpu
            &&& attached[cpu as int].up
            &&& attached[cpu as int].block == cpus[cpu as int].block
            &&& attached[cpu as int].doorbell == cpus[cpu as int].doorbell
            &&& attached[cpu as int].ticks == cpus[cpu as int].ticks
            &&& forall|i: int|
                0 <= i < cpus.len() && i != cpu ==> #[trigger] attached[i] == cpus[i]
        }),
{
    let declared = called(cpus, Call::Declare { listed, boot });
    assert forall|k: int| 0 <= k < listed.len() && #[trigger] listed[k] != boot implies ({
        let number = numbering(listed.take(k), boot).len();
        number < cpus.len() ==> declared[number as int].id == listed[k]
    }) by {
        lemma_place(listed, boot, k);
        let place = others(listed.take(k), boot).len() as int;
        assert(numbering(listed, boot)[1 + place] == others(listed, boot)[place]);
    }
}

/// A listed core's place among the others is behind those listed before it.
proof fn lemma_place(listed: Seq<u64>, boot: u64, k: int)
    requires
        0 <= k < listed.len(),
        listed[k] != boot,
    ensures
        others(listed.take(k), boot).len() < others(listed, boot).len(),
        others(listed, boot)[others(listed.take(k), boot).len() as int] == listed[k],
    decreases listed.len(),
{
    reveal(Seq::filter);
    let shorter = listed.drop_last();
    if k == listed.len() - 1 {
        assert(listed.take(k) =~= shorter);
    } else {
        lemma_place(shorter, boot, k);
        assert(shorter.take(k) =~= listed.take(k));
    }
}

} // verus!
