//! Physical memory, a word at a time, and the frames tables are built of.
use vstd::prelude::*;

verus! {

/// The bytes of one frame.
pub const FRAME: u64 = 4096;

/// The address of entry `index` of the table in `frame`.
pub open spec fn slot(frame: u64, index: int) -> u64 {
    (frame + 8 * index) as u64
}

/// Whether `frame` starts a frame all of whose words are there.
pub open spec fn backed(words: Map<u64, u64>, frame: u64) -> bool {
    &&& frame as int % 4096 == 0
    &&& forall|i: int| 0 <= i < 512 ==> words.contains_key(#[trigger] slot(frame, i))
}

/// Physical memory that can be read and written a word at a time.
///
/// As for a [`Window`](crate::window::Window), a model left out is any at all.
pub trait Memory: Sized {
    /// Every word there is, by its address.
    closed spec fn words(&self) -> Map<u64, u64> {
        arbitrary()
    }

    fn load(&self, at: u64) -> (value: u64)
        requires
            self.words().contains_key(at),
        ensures
            value == self.words()[at],
    ;

    fn store(&mut self, at: u64, value: u64)
        requires
            old(self).words().contains_key(at),
        ensures
            final(self).words() == old(self).words().insert(at, value),
    ;
}

/// Memory made of an array, its first word at `base`.
pub struct Ram {
    base: u64,
    words: Vec<u64>,
}

impl Ram {
    pub closed spec fn base(&self) -> u64 {
        self.base
    }

    pub closed spec fn array(&self) -> Seq<u64> {
        self.words@
    }

    /// `words` as memory from `base` on.
    pub fn new(base: u64, words: Vec<u64>) -> (ram: Self)
        ensures
            ram.base() == base,
            ram.array() == words@,
    {
        Ram { base, words }
    }
}

impl Memory for Ram {
    open spec fn words(&self) -> Map<u64, u64> {
        Map::new(
            |at: u64|
                {
                    &&& self.base() <= at
                    &&& (at - self.base()) % 8 == 0
                    &&& (at - self.base()) / 8 < self.array().len()
                },
            |at: u64| self.array()[(at - self.base()) / 8],
        )
    }

    fn load(&self, at: u64) -> (value: u64) {
        assert(self.words.len() == self.words@.len());
        self.words[((at - self.base) / 8) as usize]
    }

    fn store(&mut self, at: u64, value: u64) {
        let ghost before = *self;
        assert(self.words.len() == self.words@.len());
        let index: usize = ((at - self.base) / 8) as usize;
        self.words[index] = value;
        assert forall|other: u64| #[trigger] self.words().contains_key(other) && other != at implies
            self.words()[other] == before.words()[other] by {
            assert((other - self.base) / 8 != (at - self.base) / 8);
        }
        assert(self.words() =~= before.words().insert(at, value));
    }
}

/// Frames nobody uses, for tables yet to be built.
pub struct FramePool {
    pub frames: Vec<u64>,
}

impl FramePool {
    pub open spec fn view(&self) -> Seq<u64> {
        self.frames@
    }

    pub fn empty() -> (pool: Self)
        ensures
            pool@ == Seq::<u64>::empty(),
    {
        FramePool { frames: Vec::new() }
    }

    /// Adds a frame to the pool.
    pub fn give(&mut self, frame: u64)
        ensures
            final(self)@ == old(self)@.push(frame),
    {
        self.frames.push(frame);
    }

    /// Takes a frame out of the pool.
    pub fn take(&mut self) -> (frame: Option<u64>)
        ensures
            match frame {
                Some(frame) => old(self)@.len() > 0 && frame == old(self)@.last() && final(self)@
                    == old(self)@.drop_last(),
                None => old(self)@.len() == 0 && *final(self) == *old(self),
            },
    {
        if self.frames.len() == 0 {
            return None;
        }
        self.frames.pop()
    }
}

} // verus!
