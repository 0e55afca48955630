//! Deterministic, seedable hashing test doubles.  These are collaborators
//! for hash-based containers and tests, not part of the vector's core; no
//! production behaviour depends on them, so their seeds are explicit.

use vstd::prelude::*;

verus! {

/// One step of the toy hash: fold a byte into the state at the current
/// shift, then advance the shift by one byte, wrapping at the word width.
pub open spec fn lol_step(state: u64, shift: u64, byte: u8) -> (u64, u64) {
    (state ^ ((byte as u64) << shift), if shift + 8 >= 64 {
        0
    } else {
        (shift + 8) as u64
    })
}

/// Folding a whole run of bytes, first byte first.
pub open spec fn lol_feed(state: u64, shift: u64, bs: Seq<u8>) -> (u64, u64)
    decreases bs.len(),
{
    if bs.len() == 0 {
        (state, shift)
    } else {
        let s1 = lol_step(state, shift, bs[0]);
        lol_feed(s1.0, s1.1, bs.drop_first())
    }
}

/// A toy 64-bit hasher: xor-and-shift over the input bytes.
pub struct LolHasher {
    pub state: u64,
    pub shift: u64,
}

impl LolHasher {
    /// The hasher invariant: the shift stays inside the word.
    pub open spec fn wf(self) -> bool {
        self.shift < 64
    }

    /// Fold one byte into the state.
    pub fn feed_me(&mut self, byte: u8)
        requires
            old(self).wf(),
        ensures
            final(self).wf(),
            (final(self).state, final(self).shift) == lol_step(
                old(self).state,
                old(self).shift,
                byte,
            ),
    {
        self.state = self.state ^ ((byte as u64) << self.shift);
        self.shift = self.shift + 8;
        if self.shift >= 64 {
            self.shift = 0;
        }
    }

    /// Fold a run of bytes into the state, first byte first.
    pub fn write(&mut self, bytes: &Vec<u8>)
        requires
            old(self).wf(),
        ensures
            final(self).wf(),
            (final(self).state, final(self).shift) == lol_feed(
                old(self).state,
                old(self).shift,
                bytes@,
            ),
    {
        let ghost target = lol_feed(old(self).state, old(self).shift, bytes@);
        let mut i: usize = 0;
        proof {
            assert(bytes@.skip(0) =~= bytes@);
        }
        while i < bytes.len()
            invariant
                i <= bytes@.len(),
                self.wf(),
                target == lol_feed(self.state, self.shift, bytes@.skip(i as int)),
            decreases bytes@.len() - i,
        {
            proof {
                assert(bytes@.skip(i as int).drop_first() =~= bytes@.skip(i + 1));
                assert(bytes@.skip(i as int)[0] == bytes@[i as int]);
            }
            self.feed_me(bytes[i]);
            i += 1;
        }
        proof {
            assert(bytes@.skip(bytes@.len() as int) =~= Seq::<u8>::empty());
        }
    }

    /// The finished hash value.
    pub fn finish(&self) -> (r: u64)
        ensures
            r == self.state,
    {
        self.state
    }
}

impl Default for LolHasher {
    /// A hasher seeded with zero.
    fn default() -> (r: LolHasher)
        ensures
            r.state == 0 && r.shift == 0,
    {
        LolBuildHasher::new().build_hasher()
    }
}

/// A builder of [`LolHasher`] values that all start from one seed.
pub struct LolBuildHasher {
    pub seed: u64,
}

impl LolBuildHasher {
    /// A builder whose hashers start from zero.
    pub fn new() -> (r: LolBuildHasher)
        ensures
            r.seed == 0,
    {
        LolBuildHasher { seed: 0 }
    }

    /// A builder whose hashers start from the given seed.
    pub fn with_seed(seed: u64) -> (r: LolBuildHasher)
        ensures
            r.seed == seed,
    {
        LolBuildHasher { seed }
    }

    /// The seed this builder was made with.
    pub fn seed(&self) -> (r: u64)
        ensures
            r == self.seed,
    {
        self.seed
    }

    /// A fresh hasher starting from the seed.
    pub fn build_hasher(&self) -> (r: LolHasher)
        ensures
            r.state == self.seed && r.shift == 0,
    {
        LolHasher { state: self.seed, shift: 0 }
    }
}

/// A keyed-hasher seed holder: two words that a keyed hasher is started
/// with.
pub struct SeededSipHasher {
    pub seed: (u64, u64),
}

impl SeededSipHasher {
    /// A holder for the given key pair.
    pub fn with_seed(seed: (u64, u64)) -> (r: SeededSipHasher)
        ensures
            r.seed == seed,
    {
        SeededSipHasher { seed }
    }

    /// The key pair.
    pub fn seed(&self) -> (r: (u64, u64))
        ensures
            r == self.seed,
    {
        self.seed
    }
}

} // verus!
