//! The MT19937 pseudo-random generator: 624 words of state, refreshed in
//! batches, each word tempered before it is handed out.

use vstd::prelude::*;

verus! {

/// Number of 32-bit words in the generator's state.
pub const N: usize = 624;

/// Distance, in words, to the partner word of the recurrence.
pub const M: usize = 397;

pub const MATRIX_A: u32 = 0x9908b0df;

pub const UPPER_MASK: u32 = 0x80000000;

pub const LOWER_MASK: u32 = 0x7fffffff;

/// The word that follows `prev` at position `i` while the state is seeded:
/// `1812433253 * (prev ^ (prev >> 30)) + i`, reduced to 32 bits.
pub open spec fn next_seed_word(prev: u32, i: nat) -> u32 {
    ((1812433253 * (prev ^ (prev >> 30)) + i) % 0x1_0000_0000) as u32
}

/// Word `i` of the state that `seed` expands to.
pub open spec fn seed_word(seed: u32, i: nat) -> u32
    decreases i,
{
    if i == 0 {
        seed
    } else {
        next_seed_word(seed_word(seed, (i - 1) as nat), i)
    }
}

/// The whole state that `seed` expands to.
pub open spec fn seed_words(seed: u32) -> Seq<u32> {
    Seq::new(N as nat, |i: int| seed_word(seed, i as nat))
}

/// The contribution of two neighbouring words to a refreshed word: the top
/// bit of `cur` joined with the low 31 bits of `next`, shifted right once,
/// and combined with `MATRIX_A` when the joined word is odd.
pub open spec fn mix(cur: u32, next: u32) -> u32 {
    let x = (cur & UPPER_MASK) | (next & LOWER_MASK);
    if x % 2 != 0 {
        (x >> 1) ^ MATRIX_A
    } else {
        x >> 1
    }
}

/// Word `i` of the batch that follows the batch `words`.
///
/// The recurrence reaches `M` words ahead and one word ahead; where that
/// runs past the end of `words` it lands on a word of the new batch.
#[verifier::opaque]
pub open spec fn twisted_word(words: Seq<u32>, i: nat) -> u32
    decreases i,
{
    if i >= N {
        0
    } else {
        let far = if i + M < N {
            words[i + M as int]
        } else {
            twisted_word(words, (i + M - N) as nat)
        };
        let next = if i + 1 < N {
            words[(i + 1) as int]
        } else {
            twisted_word(words, 0)
        };
        far ^ mix(words[i as int], next)
    }
}

/// The batch that follows the batch `words`.
pub open spec fn twisted(words: Seq<u32>) -> Seq<u32> {
    Seq::new(N as nat, |i: int| twisted_word(words, i as nat))
}

/// The output scrambling applied to a state word.
pub open spec fn temper(y: u32) -> u32 {
    let y1 = y ^ (y >> 11);
    let y2 = y1 ^ ((y1 << 7) & 0x9d2c5680);
    let y3 = y2 ^ ((y2 << 15) & 0xefc60000);
    y3 ^ (y3 >> 18)
}

/// Batch `b` of the stream of `seed`; batch 0 is the seeded state itself,
/// which is never handed out.
pub open spec fn batch(seed: u32, b: nat) -> Seq<u32>
    decreases b,
{
    if b == 0 {
        seed_words(seed)
    } else {
        twisted(batch(seed, (b - 1) as nat))
    }
}

/// The `k`-th value, counted from 0, of the stream of `seed`.
pub open spec fn draw(seed: u32, k: nat) -> u32 {
    temper(batch(seed, k / (N as nat) + 1)[(k % (N as nat)) as int])
}

/// What a generator holds: a batch of words and how many of them are used.
pub struct MtState {
    pub words: Seq<u32>,
    pub index: nat,
}

impl MtState {
    /// The state with a fresh batch, if the current one is used up.
    pub open spec fn refreshed(self) -> MtState {
        if self.index >= N {
            MtState { words: twisted(self.words), index: 0 }
        } else {
            self
        }
    }

    /// The value that the next draw returns.
    pub open spec fn output(self) -> u32 {
        temper(self.refreshed().words[self.refreshed().index as int])
    }

    /// The state after the next draw.
    pub open spec fn advanced(self) -> MtState {
        MtState { words: self.refreshed().words, index: self.refreshed().index + 1 }
    }
}

/// The state of a generator seeded with `seed` after `k` draws.
pub open spec fn state_after(seed: u32, k: nat) -> MtState {
    if k == 0 {
        MtState { words: seed_words(seed), index: N as nat }
    } else {
        MtState {
            words: batch(seed, ((k - 1) as nat) / (N as nat) + 1),
            index: ((k - 1) as nat) % (N as nat) + 1,
        }
    }
}

/// A generator that has made `k` draws since it was seeded returns
/// `draw(seed, k)` next and is then where `k + 1` draws lead: the stream is a
/// function of the seed alone.
pub proof fn lemma_stream(seed: u32, k: nat)
    ensures
        state_after(seed, k).output() == draw(seed, k),
        state_after(seed, k).advanced() == state_after(seed, k + 1),
{
    if k > 0 {
        let j = (k - 1) as nat;
        if j % (N as nat) + 1 >= N {
            assert(k % (N as nat) == 0);
            assert(k / (N as nat) == j / (N as nat) + 1);
            assert(batch(seed, k / (N as nat) + 1) == twisted(batch(seed, j / (N as nat) + 1)));
        } else {
            assert(k % (N as nat) == j % (N as nat) + 1);
            assert(k / (N as nat) == j / (N as nat));
        }
    } else {
        assert(batch(seed, 1) == twisted(batch(seed, 0)));
    }
}

pub struct MT {
    mt: [u32; N],
    index: usize,
}

impl View for MT {
    type V = MtState;

    closed spec fn view(&self) -> MtState {
        MtState { words: self.mt@, index: self.index as nat }
    }
}

impl MT {
    /// A generator seeded with `seed`; nothing is drawn yet.
    pub fn new(seed: u32) -> (r: MT)
        ensures
            r@ == state_after(seed, 0),
    {
        let mut mt = [0u32; N];
        mt[0] = seed;
        let mut i: usize = 1;
        while i < N
            invariant
                1 <= i <= N,
                forall|k: int| 0 <= k < i ==> mt@[k] == seed_word(seed, k as nat),
            decreases N - i,
        {
            let prev = mt[i - 1];
            mt[i] = 1812433253u32.wrapping_mul(prev ^ (prev >> 30)).wrapping_add(i as u32);
            i += 1;
        }
        assert(mt@ =~= seed_words(seed));
        MT { mt, index: N }
    }

    /// Replaces the batch of words by the next one.
    pub fn twist(&mut self)
        ensures
            final(self)@ == (MtState { words: twisted(old(self)@.words), index: 0 }),
    {
        let ghost before = self.mt@;
        let mut i: usize = 0;
        while i < N
            invariant
                i <= N,
                forall|k: int| 0 <= k < i ==> self.mt@[k] == twisted_word(before, k as nat),
                forall|k: int| i <= k < N ==> self.mt@[k] == before[k],
            decreases N - i,
        {
            let far_at = if i + M < N { i + M } else { i + M - N };
            let next_at = if i + 1 < N { i + 1 } else { 0 };
            let far = self.mt[far_at];
            let cur = self.mt[i];
            let next = self.mt[next_at];
            let x = (cur & UPPER_MASK) | (next & LOWER_MASK);
            let mut x_a = x >> 1;
            if x % 2 != 0 {
                x_a ^= MATRIX_A;
            }
            assert(x_a == mix(cur, next));
            assert(far ^ x_a == twisted_word(before, i as nat)) by {
                reveal(twisted_word);
            }
            self.mt[i] = far ^ x_a;
            i += 1;
        }
        self.index = 0;
        assert(self.mt@ =~= twisted(before));
    }

    /// The next value of the stream.
    pub fn gen_u32(&mut self) -> (r: u32)
        ensures
            r == old(self)@.output(),
            final(self)@ == old(self)@.advanced(),
    {
        if self.index >= N {
            self.twist();
        }
        let mut y = self.mt[self.index];
        self.index += 1;
        y ^= y >> 11;
        y ^= (y << 7) & 0x9d2c5680;
        y ^= (y << 15) & 0xefc60000;
        y ^= y >> 18;
        y
    }
}

} // verus!
