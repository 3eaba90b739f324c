//! The in-flight request table: what lets a completion be matched, cancelled,
//! or recognized as stale.
//!
//! Each descriptor head owns one slot. Submitting a request marks its slot
//! pending and hands back a [`Token`] stamped with the slot's generation.
//! [`Requests::cancel`] gives up on a request without freeing its head, since
//! the device may still write it, so a later completion for that head arrives
//! as [`Completion::Stale`] instead of being delivered to a caller that walked
//! away. The generation bumps on every completion, so a token does not match a
//! slot that has since been reused, until the 32-bit generation comes round.
use vstd::prelude::*;

verus! {

/// A submitted request, matched against its slot on completion.
#[derive(Clone, Copy, Debug, PartialEq, Eq, Structural)]
pub struct Token {
    pub head: u16,
    pub generation: u32,
}

/// What became of a completion the device returned.
#[derive(Clone, Copy, Debug, PartialEq, Eq, Structural)]
pub enum Completion {
    /// The head belonged to a live request; deliver its result.
    Delivered,
    /// The head belonged to a cancelled or already-finished request; drop it.
    Stale,
}

/// Where one request is.
#[derive(Clone, Copy, Debug, PartialEq, Eq, Structural)]
pub enum State {
    Free,
    Pending,
    Cancelled,
}

/// One head's request, and how many it has finished.
#[derive(Clone, Copy, Debug, PartialEq, Eq, Structural)]
pub struct Slot {
    pub state: State,
    pub generation: u32,
}

impl Slot {
    /// The slot once its request was issued.
    pub open spec fn issued(self) -> Slot {
        Slot { state: State::Pending, generation: self.generation }
    }

    /// Whether `token` names the request this slot is waiting on.
    pub open spec fn live(self, token: Token) -> bool {
        self.state is Pending && self.generation == token.generation
    }

    /// The slot once `token` was given up on.
    pub open spec fn cancelled(self, token: Token) -> Slot {
        if self.live(token) {
            Slot { state: State::Cancelled, generation: self.generation }
        } else {
            self
        }
    }

    /// The slot once the device returned its head.
    pub open spec fn completed(self) -> Slot {
        Slot {
            state: State::Free,
            generation: if self.generation == u32::MAX {
                0
            } else {
                (self.generation + 1) as u32
            },
        }
    }

    /// What a completion of this slot's head means.
    pub open spec fn outcome(self) -> Completion {
        if self.state is Pending {
            Completion::Delivered
        } else {
            Completion::Stale
        }
    }
}

/// A fixed table of `N` request slots, one per possible descriptor head.
pub struct Requests<const N: usize> {
    pub slots: [Slot; N],
}

impl<const N: usize> Requests<N> {
    pub open spec fn view(&self) -> Seq<Slot> {
        self.slots@
    }

    pub fn new() -> (requests: Self)
        ensures
            requests@ == Seq::new(N as nat, |i: int| Slot { state: State::Free, generation: 0 }),
    {
        let slots: [Slot; N] = [Slot { state: State::Free, generation: 0 };N];
        Requests { slots }
    }

    /// Marks `head` pending and returns a token stamped with its generation.
    pub fn issue(&mut self, head: u16) -> (token: Token)
        requires
            head < N,
        ensures
            token == (Token { head, generation: old(self)@[head as int].generation }),
            final(self)@ == old(self)@.update(head as int, old(self)@[head as int].issued()),
    {
        let slot: Slot = self.slots[head as usize];
        self.slots[head as usize] = Slot { state: State::Pending, generation: slot.generation };
        Token { head, generation: slot.generation }
    }

    /// Gives up on `token`'s request, leaving its head reserved until the
    /// device returns it. Returns whether the token still named a live request.
    pub fn cancel(&mut self, token: Token) -> (live: bool)
        requires
            token.head < N,
        ensures
            live == old(self)@[token.head as int].live(token),
            final(self)@ == old(self)@.update(
                token.head as int,
                old(self)@[token.head as int].cancelled(token),
            ),
    {
        let slot: Slot = self.slots[token.head as usize];
        if slot.state == State::Pending && slot.generation == token.generation {
            self.slots[token.head as usize] =
            Slot { state: State::Cancelled, generation: slot.generation };
            true
        } else {
            assert(self@ == old(self)@.update(token.head as int, slot));
            false
        }
    }

    /// Resolves a completion for `head`, freeing its slot and bumping its
    /// generation so any outstanding token for it can no longer match.
    pub fn complete(&mut self, head: u16) -> (outcome: Completion)
        requires
            head < N,
        ensures
            outcome == old(self)@[head as int].outcome(),
            final(self)@ == old(self)@.update(head as int, old(self)@[head as int].completed()),
    {
        let slot: Slot = self.slots[head as usize];
        let outcome = match slot.state {
            State::Pending => Completion::Delivered,
            State::Free | State::Cancelled => Completion::Stale,
        };
        self.slots[head as usize] =
        Slot { state: State::Free, generation: slot.generation.wrapping_add(1) };
        outcome
    }
}

/// A token names a live request from its issue until its head completes, and
/// cannot cancel whatever its head is issued for next.
pub proof fn law_tokens_expire(slot: Slot, token: Token)
    requires
        token.generation == slot.generation,
    ensures
        slot.issued().live(token),
        !slot.issued().completed().live(token),
        !slot.issued().completed().issued().live(token),
        slot.issued().completed().issued().cancelled(token) == slot.issued().completed().issued(),
{
}

/// A head completes as delivered exactly once per issue: not again before it
/// is reissued, and never after its request was cancelled.
pub proof fn law_delivered_once(slot: Slot, token: Token)
    requires
        token.generation == slot.generation,
    ensures
        slot.issued().outcome() == Completion::Delivered,
        slot.issued().completed().outcome() == Completion::Stale,
        slot.issued().cancelled(token).outcome() == Completion::Stale,
{
}

/// One call on the table.
pub enum Step {
    Issue(u16),
    Cancel(Token),
    Complete(u16),
}

impl Step {
    /// The head a call is about.
    pub open spec fn head(self) -> u16 {
        match self {
            Step::Issue(head) => head,
            Step::Cancel(token) => token.head,
            Step::Complete(head) => head,
        }
    }

    /// The slot of its head once the call was made.
    pub open spec fn on(self, slot: Slot) -> Slot {
        match self {
            Step::Issue(_) => slot.issued(),
            Step::Cancel(token) => slot.cancelled(token),
            Step::Complete(_) => slot.completed(),
        }
    }
}

/// The table after some calls, in order.
pub open spec fn ran(slots: Seq<Slot>, steps: Seq<Step>) -> Seq<Slot>
    decreases steps.len(),
{
    if steps.len() == 0 {
        slots
    } else {
        let before = ran(slots, steps.drop_last());
        let head = steps.last().head() as int;
        if head < before.len() {
            before.update(head, steps.last().on(before[head]))
        } else {
            before
        }
    }
}

/// How often one head completed during some calls.
pub open spec fn completions(steps: Seq<Step>, head: u16) -> nat
    decreases steps.len(),
{
    if steps.len() == 0 {
        0
    } else {
        completions(steps.drop_last(), head) + if steps.last() == Step::Complete(head) {
            1nat
        } else {
            0nat
        }
    }
}

/// A slot's generation counts its completions, round 32 bits.
proof fn lemma_generation(slots: Seq<Slot>, steps: Seq<Step>, head: u16)
    requires
        head < slots.len(),
    ensures
        ran(slots, steps).len() == slots.len(),
        ran(slots, steps)[head as int].generation == (slots[head as int].generation + completions(
            steps,
            head,
        )) % 0x1_0000_0000,
    decreases steps.len(),
{
    if steps.len() > 0 {
        lemma_generation(slots, steps.drop_last(), head);
    }
}

/// Once its head completed, a token stays dead through any number of calls,
/// however often its head is issued again, short of 2^32 completions: it names
/// no live request, and cancels nothing.
pub proof fn law_tokens_stay_dead(slots: Seq<Slot>, steps: Seq<Step>, token: Token)
    requires
        token.head < slots.len(),
        token.generation == slots[token.head as int].generation,
        1 <= completions(steps, token.head) < 0x1_0000_0000,
    ensures
        !ran(slots, steps)[token.head as int].live(token),
        ran(slots, steps.push(Step::Cancel(token))) == ran(slots, steps),
{
    lemma_generation(slots, steps, token.head);
    let more = steps.push(Step::Cancel(token));
    assert(more.drop_last() =~= steps);
    assert(ran(slots, more) =~= ran(slots, steps));
}

/// Whether a call made after `steps` takes back what its head was issued for.
pub open spec fn takes_back(slots: Seq<Slot>, steps: Seq<Step>, step: Step) -> bool {
    match step {
        Step::Issue(_) => false,
        Step::Cancel(token) => ran(slots, steps)[token.head as int].live(token),
        Step::Complete(_) => true,
    }
}

/// Whether a head was issued at `i`, and neither completed nor cancelled since.
pub open spec fn outstanding(slots: Seq<Slot>, steps: Seq<Step>, head: u16, i: int) -> bool {
    &&& 0 <= i < steps.len()
    &&& steps[i] == Step::Issue(head)
    &&& forall|j: int|
        i < j < steps.len() && (#[trigger] steps[j]).head() == head ==> !takes_back(
            slots,
            steps.take(j),
            steps[j],
        )
}

/// From a table nothing was issued from, and after any calls, a completion is
/// delivered exactly when its head was issued, and neither completed nor was
/// cancelled since.
pub proof fn law_delivered_when_outstanding(slots: Seq<Slot>, steps: Seq<Step>, head: u16)
    requires
        head < slots.len(),
        slots[head as int].state is Free,
    ensures
        ran(slots, steps)[head as int].outcome() == Completion::Delivered <==> exists|i: int|
            outstanding(slots, steps, head, i),
    decreases steps.len(),
{
    lemma_generation(slots, steps, head);
    if steps.len() > 0 {
        let before = steps.drop_last();
        let n = steps.len() - 1;
        law_delivered_when_outstanding(slots, before, head);
        lemma_generation(slots, before, head);
        assert(steps.take(n) =~= before);
        assert forall|j: int| 0 <= j < n implies #[trigger] steps.take(j) == before.take(j) by {
            assert(steps.take(j) =~= before.take(j));
        }
        let was = ran(slots, before)[head as int];
        let pending = was.outcome() == Completion::Delivered;
        let last = steps.last();
        assert(steps[n] == last);
        if last == Step::Issue(head) {
            assert(outstanding(slots, steps, head, n));
        } else if last.head() == head && takes_back(slots, before, last) {
            assert forall|i: int| !outstanding(slots, steps, head, i) by {
                if outstanding(slots, steps, head, i) {
                    assert(steps[n].head() == head);
                    assert(i < n);
                }
            }
        } else {
            assert(ran(slots, steps)[head as int] == was);
            assert forall|i: int|
                outstanding(slots, steps, head, i) == outstanding(slots, before, head, i) by {
                if outstanding(slots, before, head, i) {
                    assert forall|j: int|
                        i < j < steps.len() && (#[trigger] steps[j]).head()
                            == head implies !takes_back(slots, steps.take(j), steps[j]) by {
                        if j < n {
                            assert(before[j].head() == head);
                            assert(steps.take(j) == before.take(j));
                        }
                    }
                }
                if outstanding(slots, steps, head, i) {
                    assert forall|j: int|
                        i < j < before.len() && (#[trigger] before[j]).head()
                            == head implies !takes_back(slots, before.take(j), before[j]) by {
                        assert(steps[j].head() == head);
                        assert(steps.take(j) == before.take(j));
                    }
                }
            }
            if pending {
                let i = choose|i: int| outstanding(slots, before, head, i);
                assert(outstanding(slots, steps, head, i));
            } else {
                assert forall|i: int| !outstanding(slots, steps, head, i) by {
                    assert(!outstanding(slots, before, head, i));
                }
            }
        }
    }
}

/// Picks the calls about one head.
pub open spec fn about(head: u16) -> spec_fn(Step) -> bool {
    |step: Step| step.head() == head
}

/// What a head goes through is its own: calls about other heads might as well
/// not have been made.
pub proof fn law_heads_are_apart(slots: Seq<Slot>, steps: Seq<Step>, head: u16)
    requires
        head < slots.len(),
    ensures
        ran(slots, steps)[head as int] == ran(slots, steps.filter(about(head)))[head as int],
    decreases steps.len(),
{
    let own = about(head);
    reveal(Seq::filter);
    lemma_generation(slots, steps, head);
    if steps.len() > 0 {
        let before = steps.drop_last();
        law_heads_are_apart(slots, before, head);
        lemma_generation(slots, before, head);
        lemma_generation(slots, before.filter(own), head);
        if own(steps.last()) {
            assert(steps.filter(own) =~= before.filter(own).push(steps.last()));
            assert(steps.filter(own).drop_last() =~= before.filter(own));
        }
    }
}

} // verus!
