//! An address space that is being built, and one that is live.
use vstd::prelude::*;

use crate::arch::{Contents, MappedRange, MappingError};

verus! {

/// One page: where it is, what it maps, how large it is, and its flags.
#[derive(Clone, Copy, Debug, PartialEq, Eq, Structural)]
pub struct Page {
    pub va: u64,
    pub pa: u64,
    pub size: u64,
    pub flags: u64,
}

impl Page {
    /// Whether an address lies in the page.
    pub open spec fn covers(self, va: u64) -> bool {
        self.va <= va < self.va + self.size
    }

    /// A page that starts on a multiple of its size and ends in memory.
    pub open spec fn wf(self) -> bool {
        &&& 0 < self.size
        &&& self.size as int % 4096 == 0
        &&& self.va as int % self.size as int == 0
        &&& self.va + self.size <= u64::MAX + 1
        &&& self.pa + self.size <= u64::MAX
    }
}

/// Tables addresses are translated through.
///
/// As for a [`Window`](crate::window::Window), a model left out is any at all.
pub trait Live: Sized {
    /// The page an address is translated through.
    closed spec fn at(&self, va: u64) -> Option<Page> {
        arbitrary()
    }

    fn translate(&self, va: u64) -> (page: Option<Page>)
        ensures
            page == self.at(va),
            page matches Some(page) ==> page.wf() && page.covers(va) && forall|other: u64|
                page.covers(other) ==> #[trigger] self.at(other) == Some(page),
    ;
}

/// Tables that pages can be put into.
pub trait Space: Live {
    /// Every page that was put in, in order.
    closed spec fn mapped(&self) -> Seq<Page> {
        arbitrary()
    }

    /// Every page that was refused, in order.
    closed spec fn refused(&self) -> Seq<Page> {
        arbitrary()
    }

    /// Puts a page in, unless one is in its way or no frame is left for a
    /// table.
    fn map(&mut self, page: Page) -> (done: Result<(), MappingError>)
        requires
            page.wf(),
        ensures
            match done {
                Ok(()) => {
                    &&& final(self).mapped() == old(self).mapped().push(page)
                    &&& final(self).refused() == old(self).refused()
                    &&& forall|va: u64| #[trigger]
                        final(self).at(va) == if page.covers(va) {
                            Some(page)
                        } else {
                            old(self).at(va)
                        }
                },
                Err(error) => {
                    &&& error == MappingError::Backend
                    &&& final(self).mapped() == old(self).mapped()
                    &&& final(self).refused() == old(self).refused().push(page)
                    &&& forall|va: u64| #[trigger] final(self).at(va) == old(self).at(va)
                },
            },
    ;

    /// Takes the page that was put in last out again.
    fn unmap(&mut self)
        requires
            old(self).mapped().len() > 0,
        ensures
            final(self).mapped() == old(self).mapped().drop_last(),
            final(self).refused() == old(self).refused(),
            forall|va: u64| #[trigger]
                final(self).at(va) == if old(self).mapped().last().covers(va) {
                    None
                } else {
                    old(self).at(va)
                },
    ;
}

/// Whether `pages` were put in up to one that was refused, and no further.
pub open spec fn halted<S: Space>(before: S, pages: Seq<Page>, after: S) -> bool {
    exists|n: int|
        {
            &&& 0 <= n < pages.len()
            &&& after.mapped() == before.mapped() + #[trigger] pages.take(n)
            &&& after.refused() == before.refused().push(pages[n])
        }
}

/// Whether the first of `pages` were put in, and nothing else.
pub open spec fn begun<S: Space>(before: S, pages: Seq<Page>, after: S) -> bool {
    exists|n: int|
        {
            &&& 0 <= n <= pages.len()
            &&& after.mapped() == before.mapped() + #[trigger] pages.take(n)
        }
}

/// Whether two pages share no address.
pub open spec fn apart(a: Page, b: Page) -> bool {
    a.va + a.size <= b.va || b.va + b.size <= a.va
}

/// Whether pages are whole and share no address.
pub open spec fn tiled(pages: Seq<Page>) -> bool {
    &&& forall|i: int| 0 <= i < pages.len() ==> (#[trigger] pages[i]).wf()
    &&& forall|i: int, j: int|
        #![trigger pages[i], pages[j]]
        0 <= i < j < pages.len() ==> apart(pages[i], pages[j])
}

/// The page of a list that an address lies in, the last one first.
pub open spec fn found(pages: Seq<Page>, va: u64) -> Option<Page>
    decreases pages.len(),
{
    if pages.len() == 0 {
        None
    } else if pages.last().covers(va) {
        Some(pages.last())
    } else {
        found(pages.drop_last(), va)
    }
}

/// An address of a page is found in that page.
pub proof fn lemma_found(pages: Seq<Page>, i: int, va: u64)
    requires
        tiled(pages),
        0 <= i < pages.len(),
        pages[i].covers(va),
    ensures
        found(pages, va) == Some(pages[i]),
    decreases pages.len(),
{
    if i < pages.len() - 1 {
        assert(apart(pages[i], pages[pages.len() - 1]));
        lemma_found(pages.drop_last(), i, va);
    }
}

/// An address of no page is not found.
pub proof fn lemma_absent(pages: Seq<Page>, va: u64)
    requires
        forall|k: int| 0 <= k < pages.len() ==> !(#[trigger] pages[k]).covers(va),
    ensures
        found(pages, va) is None,
    decreases pages.len(),
{
    if pages.len() > 0 {
        assert(!pages[pages.len() - 1].covers(va));
        assert forall|k: int| 0 <= k < pages.drop_last().len() implies !(
        #[trigger] pages.drop_last()[k]).covers(va) by {
            assert(pages.drop_last()[k] == pages[k]);
        }
        lemma_absent(pages.drop_last(), va);
    }
}

/// Finding an address in a list is finding it in its last part, or else in its
/// first.
proof fn lemma_found_in_parts(first: Seq<Page>, second: Seq<Page>, va: u64)
    ensures
        found(first + second, va) == match found(second, va) {
            Some(page) => Some(page),
            None => found(first, va),
        },
    decreases second.len(),
{
    if second.len() == 0 {
        assert(first + second =~= first);
    } else {
        lemma_found_in_parts(first, second.drop_last(), va);
        assert((first + second).drop_last() =~= first + second.drop_last());
        assert((first + second).last() == second.last());
    }
}

/// Whether an address space translates as it did, but for the pages that were
/// put in since.
pub open spec fn overlaid<S: Space>(before: S, after: S) -> bool {
    &&& before.mapped().is_prefix_of(after.mapped())
    &&& forall|va: u64| #[trigger]
        after.at(va) == match found(after.mapped().skip(before.mapped().len() as int), va) {
            Some(page) => Some(page),
            None => before.at(va),
        }
}

/// One page put in, or refused.
pub open spec fn tried<S: Space>(held: S, page: Page, after: S) -> bool {
    ||| {
        &&& after.mapped() == held.mapped().push(page)
        &&& forall|va: u64| #[trigger]
            after.at(va) == if page.covers(va) {
                Some(page)
            } else {
                held.at(va)
            }
    }
    ||| {
        &&& after.mapped() == held.mapped()
        &&& forall|va: u64| #[trigger] after.at(va) == held.at(va)
    }
}

/// An address space nothing was put into.
pub proof fn lemma_as_it_was<S: Space>(space: S)
    ensures
        overlaid(space, space),
{
    assert(space.mapped().skip(space.mapped().len() as int) =~= Seq::<Page>::empty());
}

/// One more page was put in, or refused.
pub proof fn lemma_overlaid_on<S: Space>(before: S, held: S, page: Page, after: S)
    requires
        overlaid(before, held),
        tried(held, page, after),
    ensures
        overlaid(before, after),
{
    let n = before.mapped().len() as int;
    assert forall|va: u64| #[trigger] after.at(va) == match found(after.mapped().skip(n), va) {
        Some(page) => Some(page),
        None => before.at(va),
    } by {
        assert(held.at(va) == held.at(va));
        if after.mapped() == held.mapped().push(page) {
            assert(after.mapped().skip(n) =~= held.mapped().skip(n).push(page));
            assert(after.mapped().skip(n).drop_last() =~= held.mapped().skip(n));
        }
    }
}

/// Pages put in after pages put in.
pub proof fn lemma_overlaid<S: Space>(before: S, held: S, after: S)
    requires
        overlaid(before, held),
        overlaid(held, after),
    ensures
        overlaid(before, after),
{
    let (n, m) = (before.mapped().len() as int, held.mapped().len() as int);
    let (first, second) = (held.mapped().skip(n), after.mapped().skip(m));
    assert(after.mapped().skip(n) =~= first + second);
    assert forall|va: u64| #[trigger] after.at(va) == match found(after.mapped().skip(n), va) {
        Some(page) => Some(page),
        None => before.at(va),
    } by {
        assert(held.at(va) == held.at(va));
        lemma_found_in_parts(first, second, va);
    }
}

/// An address space kept as the list of its pages.
pub struct Sheet {
    pages: Vec<Page>,
    refused: Ghost<Seq<Page>>,
}

impl Sheet {
    #[verifier::type_invariant]
    spec fn sound(self) -> bool {
        tiled(self.pages@)
    }

    /// The pages, in the order they were put in.
    pub closed spec fn view(&self) -> Seq<Page> {
        self.pages@
    }

    /// The pages that found another one in their way.
    pub closed spec fn turned_away(&self) -> Seq<Page> {
        self.refused@
    }

    pub fn new() -> (sheet: Self)
        ensures
            sheet@ == Seq::<Page>::empty(),
            sheet.turned_away() == Seq::<Page>::empty(),
    {
        Sheet { pages: Vec::new(), refused: Ghost(Seq::empty()) }
    }

    /// The pages, in the order they were put in.
    pub fn pages(&self) -> (pages: &[Page])
        ensures
            pages@ == self@,
    {
        self.pages.as_slice()
    }
}

impl Live for Sheet {
    open spec fn at(&self, va: u64) -> Option<Page> {
        found(self@, va)
    }

    fn translate(&self, va: u64) -> (page: Option<Page>) {
        proof {
            use_type_invariant(self);
        }
        let mut i: usize = 0;
        while i < self.pages.len()
            invariant
                i <= self.pages@.len(),
                tiled(self.pages@),
                forall|k: int| 0 <= k < i ==> !(#[trigger] self.pages@[k]).covers(va),
            decreases self.pages.len() - i,
        {
            let page: Page = self.pages[i];
            assert(self.pages@[i as int].wf());
            if page.va <= va && va - page.va < page.size {
                proof {
                    lemma_found(self.pages@, i as int, va);
                    assert forall|other: u64| page.covers(other) implies #[trigger] self.at(other)
                        == Some(page) by {
                        lemma_found(self.pages@, i as int, other);
                    }
                }
                return Some(page);
            }
            i = i + 1;
        }
        proof {
            lemma_absent(self.pages@, va);
        }
        None
    }
}

impl Space for Sheet {
    open spec fn mapped(&self) -> Seq<Page> {
        self@
    }

    open spec fn refused(&self) -> Seq<Page> {
        self.turned_away()
    }

    fn map(&mut self, page: Page) -> (done: Result<(), MappingError>)
        ensures
            done is Ok <==> forall|i: int|
                0 <= i < old(self)@.len() ==> apart(#[trigger] old(self)@[i], page),
    {
        proof {
            use_type_invariant(&*self);
        }
        let mut i: usize = 0;
        while i < self.pages.len()
            invariant
                i <= self.pages@.len(),
                *self == *old(self),
                tiled(self.pages@),
                page.wf(),
                forall|k: int| 0 <= k < i ==> apart(#[trigger] self.pages@[k], page),
            decreases self.pages.len() - i,
        {
            let held: Page = self.pages[i];
            assert(self.pages@[i as int].wf());
            let before = held.va <= page.va && page.va - held.va >= held.size;
            let after = page.va <= held.va && held.va - page.va >= page.size;
            if !before && !after {
                assert(!apart(old(self)@[i as int], page));
                self.refused = Ghost(self.refused@.push(page));
                return Err(MappingError::Backend);
            }
            i = i + 1;
        }
        let ghost before = self.pages@;
        let mut pages: Vec<Page> = Vec::new();
        std::mem::swap(&mut pages, &mut self.pages);
        pages.push(page);
        assert(pages@.drop_last() =~= before);
        self.pages = pages;
        Ok(())
    }

    fn unmap(&mut self) {
        proof {
            use_type_invariant(&*self);
        }
        let ghost before = self.pages@;
        let mut pages: Vec<Page> = Vec::new();
        std::mem::swap(&mut pages, &mut self.pages);
        let _ = pages.pop();
        self.pages = pages;
        proof {
            assert(self.pages@ =~= before.drop_last());
            assert forall|va: u64| #[trigger] self.at(va) == if before.last().covers(va) {
                None
            } else {
                old(self).at(va)
            } by {
                if before.last().covers(va) {
                    assert forall|k: int| 0 <= k < self.pages@.len() implies !(
                    #[trigger] self.pages@[k]).covers(va) by {
                        assert(apart(before[k], before[before.len() - 1]));
                    }
                    lemma_absent(self.pages@, va);
                }
            }
        }
    }
}

/// How many ranges an address space declares: the image, two boot windows, the
/// APIC, and one entry per usable RAM region — firmware maps are chatty, so
/// this is generous.
pub const DECLARED: usize = 64;

/// Every mapped range an address space declares.
pub struct Log {
    ranges: Vec<MappedRange>,
}

/// Whether a range goes on where the last one declared ended, and holds the
/// same.
pub open spec fn goes_on(ranges: Seq<MappedRange>, range: MappedRange) -> bool {
    ranges.len() > 0 && ranges.last().end == range.start && ranges.last().contents
        == range.contents
}

/// What is declared once `range` is too: a range that goes on where the last
/// one ended is part of it.
pub open spec fn noted(ranges: Seq<MappedRange>, range: MappedRange) -> Seq<MappedRange> {
    if goes_on(ranges, range) {
        ranges.update(
            ranges.len() - 1,
            MappedRange { start: ranges.last().start, ..range },
        )
    } else {
        ranges.push(range)
    }
}

/// What is declared once all of `added` is, in order.
pub open spec fn all_noted(ranges: Seq<MappedRange>, added: Seq<MappedRange>) -> Seq<MappedRange>
    decreases added.len(),
{
    if added.len() == 0 {
        ranges
    } else {
        noted(all_noted(ranges, added.drop_last()), added.last())
    }
}

/// Declaring in two parts is declaring the whole.
pub proof fn lemma_noted_in_parts(
    ranges: Seq<MappedRange>,
    first: Seq<MappedRange>,
    second: Seq<MappedRange>,
)
    ensures
        all_noted(all_noted(ranges, first), second) == all_noted(ranges, first + second),
    decreases second.len(),
{
    if second.len() == 0 {
        assert(first + second =~= first);
    } else {
        lemma_noted_in_parts(ranges, first, second.drop_last());
        assert((first + second).drop_last() =~= first + second.drop_last());
        assert((first + second).last() == second.last());
    }
}

/// Whether an address is declared to hold `contents`.
pub open spec fn declared_at(ranges: Seq<MappedRange>, contents: Contents, at: u64) -> bool {
    exists|i: int|
        {
            &&& 0 <= i < ranges.len()
            &&& (#[trigger] ranges[i]).contents == contents
            &&& ranges[i].start <= at < ranges[i].end
        }
}

/// Joining ranges declares no address more and none less: one is declared when
/// it was before, or when it is in the range that was added.
pub proof fn law_joined_ranges_declare_the_same(
    ranges: Seq<MappedRange>,
    range: MappedRange,
    contents: Contents,
    at: u64,
)
    requires
        range.start <= range.end,
        forall|i: int| 0 <= i < ranges.len() ==> (#[trigger] ranges[i]).start <= ranges[i].end,
    ensures
        declared_at(noted(ranges, range), contents, at) <==> declared_at(ranges, contents, at) || (
        range.contents == contents && range.start <= at < range.end),
{
    let after = noted(ranges, range);
    let last = after.len() - 1;
    if declared_at(ranges, contents, at) {
        let i = choose|i: int|
            {
                &&& 0 <= i < ranges.len()
                &&& (#[trigger] ranges[i]).contents == contents
                &&& ranges[i].start <= at < ranges[i].end
            };
        assert(after[i].contents == contents && after[i].start <= at < after[i].end);
    }
    if range.contents == contents && range.start <= at < range.end {
        if goes_on(ranges, range) {
            assert(ranges[ranges.len() - 1].start <= range.start);
        }
        assert(after[last].contents == contents && after[last].start <= at < after[last].end);
    }
    if declared_at(after, contents, at) {
        let i = choose|i: int|
            {
                &&& 0 <= i < after.len()
                &&& (#[trigger] after[i]).contents == contents
                &&& after[i].start <= at < after[i].end
            };
        if i < ranges.len() {
            assert(ranges[i].contents == contents);
        }
    }
}

/// Something that is put into an address space and declared as one range.
pub struct Piece {
    pub pages: Seq<Page>,
    pub range: MappedRange,
}

/// The pages of some pieces, in order.
pub open spec fn flat(pieces: Seq<Piece>) -> Seq<Page>
    decreases pieces.len(),
{
    if pieces.len() == 0 {
        seq![]
    } else {
        flat(pieces.drop_last()) + pieces.last().pages
    }
}

/// What is declared of some pieces, in order.
pub open spec fn ranges_of(pieces: Seq<Piece>) -> Seq<MappedRange> {
    pieces.map_values(|piece: Piece| piece.range)
}

/// Whether pieces were put in and declared, and nothing else.
pub open spec fn entered<S: Space>(
    before: S,
    log: Seq<MappedRange>,
    pieces: Seq<Piece>,
    after: S,
    log_after: Seq<MappedRange>,
) -> bool {
    &&& after.mapped() == before.mapped() + flat(pieces)
    &&& after.refused() == before.refused()
    &&& log_after == all_noted(log, ranges_of(pieces))
}

/// Whether pieces were put in and declared before the `k`th, and of that one
/// the first `n` pages were put in.
pub open spec fn reached<S: Space>(
    before: S,
    log: Seq<MappedRange>,
    pieces: Seq<Piece>,
    k: int,
    n: int,
    after: S,
    log_after: Seq<MappedRange>,
) -> bool {
    &&& 0 <= k < pieces.len()
    &&& 0 <= n <= pieces[k].pages.len()
    &&& after.mapped() == before.mapped() + (flat(pieces.take(k)) + pieces[k].pages.take(n))
    &&& log_after == all_noted(log, ranges_of(pieces.take(k)))
}

/// Whether pieces were put in and declared up to a page that was refused, and
/// no further.
pub open spec fn stopped<S: Space>(
    before: S,
    log: Seq<MappedRange>,
    pieces: Seq<Piece>,
    after: S,
    log_after: Seq<MappedRange>,
) -> bool {
    exists|k: int, n: int|
        {
            &&& #[trigger] reached(before, log, pieces, k, n, after, log_after)
            &&& n < pieces[k].pages.len()
            &&& after.refused() == before.refused().push(pieces[k].pages[n])
        }
}

/// Whether pieces were put in up to one that there was no room to declare.
pub open spec fn overfull<S: Space>(
    before: S,
    log: Seq<MappedRange>,
    pieces: Seq<Piece>,
    after: S,
    log_after: Seq<MappedRange>,
) -> bool {
    &&& after.refused() == before.refused()
    &&& log_after.len() >= DECLARED
    &&& exists|k: int, n: int|
        {
            &&& #[trigger] reached(before, log, pieces, k, n, after, log_after)
            &&& n == pieces[k].pages.len()
            &&& !goes_on(log_after, pieces[k].range)
        }
}

/// Whether some of the pieces were put in and declared, in order, and nothing
/// else was.
pub open spec fn partly<S: Space>(
    before: S,
    log: Seq<MappedRange>,
    pieces: Seq<Piece>,
    after: S,
    log_after: Seq<MappedRange>,
) -> bool {
    &&& after.refused() == before.refused()
    &&& entered(before, log, pieces, after, log_after) || exists|k: int, n: int| #[trigger]
        reached(before, log, pieces, k, n, after, log_after)
}

pub proof fn lemma_flat(a: Seq<Piece>, b: Seq<Piece>)
    ensures
        flat(a + b) == flat(a) + flat(b),
        ranges_of(a + b) == ranges_of(a) + ranges_of(b),
    decreases b.len(),
{
    assert(ranges_of(a + b) =~= ranges_of(a) + ranges_of(b));
    if b.len() == 0 {
        assert(a + b =~= a);
        assert(flat(a) + flat(b) =~= flat(a));
    } else {
        lemma_flat(a, b.drop_last());
        assert((a + b).drop_last() =~= a + b.drop_last());
        assert((a + b).last() == b.last());
        assert(flat(a) + flat(b.drop_last()) + b.last().pages =~= flat(a) + (flat(b.drop_last())
            + b.last().pages));
    }
}

/// One piece is its pages and its range.
pub proof fn lemma_one_piece(piece: Piece)
    ensures
        flat(seq![piece]) == piece.pages,
        ranges_of(seq![piece]) == seq![piece.range],
        flat(seq![piece].take(0)) == Seq::<Page>::empty(),
        ranges_of(seq![piece].take(0)) == Seq::<MappedRange>::empty(),
{
    let none = seq![piece].take(0);
    assert(none =~= Seq::<Piece>::empty());
    assert(seq![piece].drop_last() =~= none);
    assert(flat(none) + piece.pages =~= piece.pages);
    assert(ranges_of(seq![piece]) =~= seq![piece.range]);
    assert(ranges_of(none) =~= Seq::<MappedRange>::empty());
}

/// Pieces entered after pieces entered.
pub proof fn lemma_entered<S: Space>(
    base: S,
    log: Seq<MappedRange>,
    head: Seq<Piece>,
    held: S,
    held_log: Seq<MappedRange>,
    middle: Seq<Piece>,
    after: S,
    log_after: Seq<MappedRange>,
)
    requires
        entered(base, log, head, held, held_log),
        entered(held, held_log, middle, after, log_after),
    ensures
        entered(base, log, head + middle, after, log_after),
{
    lemma_flat(head, middle);
    lemma_noted_in_parts(log, ranges_of(head), ranges_of(middle));
    assert(base.mapped() + flat(head) + flat(middle) =~= base.mapped() + (flat(head) + flat(
        middle,
    )));
}

/// How far the middle of some pieces was reached is how far the whole was.
proof fn lemma_reached<S: Space>(
    base: S,
    log: Seq<MappedRange>,
    head: Seq<Piece>,
    held: S,
    held_log: Seq<MappedRange>,
    middle: Seq<Piece>,
    tail: Seq<Piece>,
    k: int,
    n: int,
    after: S,
    log_after: Seq<MappedRange>,
)
    requires
        entered(base, log, head, held, held_log),
        reached(held, held_log, middle, k, n, after, log_after),
    ensures
        reached(base, log, head + middle + tail, head.len() + k, n, after, log_after),
        (head + middle + tail)[head.len() + k] == middle[k],
{
    let all = head + middle + tail;
    let m = head.len() + k;
    assert(all.take(m) =~= head + middle.take(k));
    lemma_flat(head, middle.take(k));
    lemma_noted_in_parts(log, ranges_of(head), ranges_of(middle.take(k)));
    let part = middle[k].pages.take(n);
    assert(base.mapped() + flat(head) + (flat(middle.take(k)) + part) =~= base.mapped() + (flat(
        head,
    ) + flat(middle.take(k)) + part));
}

/// Stopping in the middle of some pieces is stopping in the whole.
pub proof fn lemma_stopped<S: Space>(
    base: S,
    log: Seq<MappedRange>,
    head: Seq<Piece>,
    held: S,
    held_log: Seq<MappedRange>,
    middle: Seq<Piece>,
    tail: Seq<Piece>,
    after: S,
    log_after: Seq<MappedRange>,
)
    requires
        entered(base, log, head, held, held_log),
        stopped(held, held_log, middle, after, log_after),
    ensures
        stopped(base, log, head + middle + tail, after, log_after),
{
    let (k, n) = choose|k: int, n: int|
        {
            &&& #[trigger] reached(held, held_log, middle, k, n, after, log_after)
            &&& n < middle[k].pages.len()
            &&& after.refused() == held.refused().push(middle[k].pages[n])
        };
    lemma_reached(base, log, head, held, held_log, middle, tail, k, n, after, log_after);
}

/// Running out of room in the middle of some pieces is running out in the whole.
pub proof fn lemma_overfull<S: Space>(
    base: S,
    log: Seq<MappedRange>,
    head: Seq<Piece>,
    held: S,
    held_log: Seq<MappedRange>,
    middle: Seq<Piece>,
    tail: Seq<Piece>,
    after: S,
    log_after: Seq<MappedRange>,
)
    requires
        entered(base, log, head, held, held_log),
        overfull(held, held_log, middle, after, log_after),
    ensures
        overfull(base, log, head + middle + tail, after, log_after),
{
    let (k, n) = choose|k: int, n: int|
        {
            &&& #[trigger] reached(held, held_log, middle, k, n, after, log_after)
            &&& n == middle[k].pages.len()
            &&& !goes_on(log_after, middle[k].range)
        };
    lemma_reached(base, log, head, held, held_log, middle, tail, k, n, after, log_after);
}

/// Part of the middle of some pieces is part of the whole.
pub proof fn lemma_partly<S: Space>(
    base: S,
    log: Seq<MappedRange>,
    head: Seq<Piece>,
    held: S,
    held_log: Seq<MappedRange>,
    middle: Seq<Piece>,
    tail: Seq<Piece>,
    after: S,
    log_after: Seq<MappedRange>,
)
    requires
        entered(base, log, head, held, held_log),
        partly(held, held_log, middle, after, log_after),
    ensures
        partly(base, log, head + middle + tail, after, log_after),
{
    let all = head + middle + tail;
    if entered(held, held_log, middle, after, log_after) {
        lemma_entered(base, log, head, held, held_log, middle, after, log_after);
        if tail.len() == 0 {
            assert(all =~= head + middle);
        } else {
            let k = (head + middle).len() as int;
            assert(all.take(k) =~= head + middle);
            assert(flat(head + middle) + all[k].pages.take(0) =~= flat(head + middle));
            assert(reached(base, log, all, k, 0, after, log_after));
        }
    } else {
        let (k, n) = choose|k: int, n: int| #[trigger]
            reached(held, held_log, middle, k, n, after, log_after);
        lemma_reached(base, log, head, held, held_log, middle, tail, k, n, after, log_after);
    }
}

impl Log {
    #[verifier::type_invariant]
    spec fn within(self) -> bool {
        self.ranges@.len() <= DECLARED
    }

    /// The declared ranges, oldest first.
    pub closed spec fn view(&self) -> Seq<MappedRange> {
        self.ranges@
    }

    pub fn new() -> (log: Self)
        ensures
            log@ == Seq::<MappedRange>::empty(),
    {
        Log { ranges: Vec::new() }
    }

    /// Records one declared range, or reports that the log is full.
    pub fn push(&mut self, range: MappedRange) -> (done: Result<(), MappingError>)
        ensures
            match done {
                Ok(()) => {
                    &&& goes_on(old(self)@, range) || old(self)@.len() < DECLARED
                    &&& final(self)@ == noted(old(self)@, range)
                },
                Err(error) => {
                    &&& !goes_on(old(self)@, range)
                    &&& old(self)@.len() >= DECLARED
                    &&& error == MappingError::Backend
                    &&& final(self)@ == old(self)@
                },
            },
    {
        proof {
            use_type_invariant(&*self);
        }
        let len: usize = self.ranges.len();
        if len > 0 {
            let last = self.ranges[len - 1];
            if last.end == range.start && last.contents == range.contents {
                let joined = MappedRange::new(last.start, range.end, range.contents);
                let mut ranges: Vec<MappedRange> = Vec::new();
                std::mem::swap(&mut ranges, &mut self.ranges);
                ranges.set(len - 1, joined);
                self.ranges = ranges;
                return Ok(());
            }
        }
        if len >= DECLARED {
            return Err(MappingError::Backend);
        }
        let mut ranges: Vec<MappedRange> = Vec::new();
        std::mem::swap(&mut ranges, &mut self.ranges);
        ranges.push(range);
        self.ranges = ranges;
        Ok(())
    }

    pub fn as_slice(&self) -> (ranges: &[MappedRange])
        ensures
            ranges@ == self@,
    {
        self.ranges.as_slice()
    }
}

} // verus!
