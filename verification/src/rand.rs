//! Random generators: what every generator offers, and the Mersenne
//! Twister MT19937.

use core::ops::Range;
use vstd::prelude::*;
use vstd::wrapping::u32_specs::{wrapping_add, wrapping_mul};

verus! {

/// Number of words of the state.
pub const N: usize = 624;

/// Distance to the word that a word is twisted with.
pub const M: usize = 397;

/// The highest bit of a word.
pub const UMASK: u32 = 0x8000_0000;

/// All bits of a word but the highest.
pub const LMASK: u32 = 0x7fff_ffff;

/// The twist matrix.
pub const A: u32 = 0x9908_b0df;

/// The first shift of the tempering.
pub const U: u32 = 11;

/// The second shift of the tempering.
pub const S: u32 = 7;

/// The third shift of the tempering.
pub const T: u32 = 15;

/// The last shift of the tempering.
pub const L: u32 = 18;

/// The mask of the second shift of the tempering.
pub const B: u32 = 0x9d2c_5680;

/// The mask of the third shift of the tempering.
pub const C: u32 = 0xefc6_0000;

/// The multiplier of the seeding recurrence.
pub const F: u32 = 1812433253;

/// Byte `b` of `word`, counted from the most significant one.
pub open spec fn be_byte(word: u32, b: int) -> u8 {
    if b == 0 {
        (word >> 24) as u8
    } else if b == 1 {
        ((word >> 16) & 0xff) as u8
    } else if b == 2 {
        ((word >> 8) & 0xff) as u8
    } else {
        (word & 0xff) as u8
    }
}

/// A generator of 32-bit words. What it will hand out is a function of
/// its state alone: `output(i)` is the word of the `i`-th call from now.
pub trait RandomGenerator: Sized {
    /// The word that the `i`-th call from now hands out.
    open spec fn output(&self, i: nat) -> u32 {
        arbitrary()
    }

    /// The word that the `i`-th call hands out after seeding with `seed`.
    open spec fn seeded_output(seed: u32, i: nat) -> u32 {
        arbitrary()
    }

    /// Starts the generator anew from `seed`.
    fn seed(&mut self, seed: u32)
        ensures
            forall|i: nat| #[trigger] final(self).output(i) == Self::seeded_output(seed, i),
    ;

    /// Hands out the next word.
    fn random_uint32(&mut self) -> (r: u32)
        ensures
            r == old(self).output(0),
            forall|i: nat| #[trigger] final(self).output(i) == old(self).output(i + 1),
    ;

    /// Hands out a number of the range: its start plus the next word's
    /// remainder by its length.
    fn range_uint32(&mut self, range: Range<u32>) -> (r: u32)
        requires
            range.start < range.end,
        ensures
            r == range.start + old(self).output(0) % ((range.end - range.start) as u32),
            range.start <= r < range.end,
            forall|i: nat| #[trigger] final(self).output(i) == old(self).output(i + 1),
    {
        let rand = self.random_uint32();
        let range_delta = range.end - range.start;
        range.start + rand % range_delta
    }

    /// Fills `buf` with the bytes of the next words, each word with its most
    /// significant byte first; of the last word as many bytes as are left.
    fn gen_bytes(&mut self, buf: &mut [u8])
        ensures
            final(buf)@.len() == old(buf)@.len(),
            forall|p: int|
                0 <= p < old(buf)@.len() ==> #[trigger] final(buf)@[p] == be_byte(
                    old(self).output((p / 4) as nat),
                    p % 4,
                ),
            forall|i: nat| #[trigger]
                final(self).output(i) == old(self).output(i + ((old(buf)@.len() + 3) / 4) as nat),
    {
        let mut ptr: usize = 0;
        let buf_size = buf.len();
        while ptr < buf_size
            invariant
                buf@.len() == buf_size,
                buf_size == old(buf)@.len(),
                ptr % 4 == 0 || ptr == buf_size,
                ptr <= buf_size,
                forall|p: int|
                    0 <= p < ptr ==> #[trigger] buf@[p] == be_byte(
                        old(self).output((p / 4) as nat),
                        p % 4,
                    ),
                forall|i: nat| #[trigger]
                    self.output(i) == old(self).output(i + ((ptr + 3) / 4) as nat),
            decreases buf_size - ptr,
        {
            let ghost before = *self;
            let word = self.random_uint32();
            assert(word == old(self).output((ptr / 4) as nat)) by {
                assert(before.output(0) == old(self).output(0 + ((ptr + 3) / 4) as nat));
            }
            let end = if buf_size - ptr > 4 {
                ptr + 4
            } else {
                buf_size
            };
            assert forall|i: nat| #[trigger] self.output(i) == old(self).output(
                i + ((end + 3) / 4) as nat,
            ) by {
                assert(self.output(i) == before.output(i + 1));
                assert(before.output(i + 1) == old(self).output(i + 1 + ((ptr + 3) / 4) as nat));
            }
            let ghost start = buf@;
            let mut b: usize = 0;
            while b < end - ptr
                invariant
                    b <= end - ptr <= 4,
                    ptr < end <= buf_size,
                    buf@.len() == buf_size,
                    forall|p: int| 0 <= p < ptr ==> buf@[p] == start[p],
                    forall|p: int| ptr <= p < ptr + b ==> #[trigger] buf@[p] == be_byte(word, p - ptr),
                decreases end - ptr - b,
            {
                let byte: u8 = if b == 0 {
                    (word >> 24) as u8
                } else if b == 1 {
                    ((word >> 16) & 0xff) as u8
                } else if b == 2 {
                    ((word >> 8) & 0xff) as u8
                } else {
                    (word & 0xff) as u8
                };
                buf[ptr + b] = byte;
                b += 1;
            }
            proof {
                assert forall|p: int| 0 <= p < end implies #[trigger] buf@[p] == be_byte(
                    old(self).output((p / 4) as nat),
                    p % 4,
                ) by {
                    if p >= ptr {
                        assert(p / 4 == ptr / 4);
                        assert(p % 4 == p - ptr);
                    } else {
                        assert(buf@[p] == start[p]);
                    }
                }
            }
            ptr = end;
        }
    }
}

/// Word `i` of the state that seeding with `seed` makes: the seed itself,
/// then each word from the one before it by `F * (w ^ (w >> 30)) + i`
/// modulo `2^32`.
pub open spec fn seed_word(seed: u32, i: nat) -> u32
    decreases i,
{
    if i == 0 {
        seed
    } else {
        next_seed_word(seed_word(seed, (i - 1) as nat), i as u32)
    }
}

/// The state word that follows the word `w` at place `i` in seeding.
pub open spec fn next_seed_word(w: u32, i: u32) -> u32 {
    wrapping_add(wrapping_mul(F, w ^ (w >> 30)), i)
}

/// The state that seeding with `seed` makes.
pub open spec fn seeded(seed: u32) -> MtState {
    MtState { words: Seq::new(N as nat, |i: int| seed_word(seed, i as nat)), index: 0 }
}

/// The state of the generator: its 624 words, and the index of the word that is twisted next.
pub struct MtState {
    pub words: Seq<u32>,
    pub index: int,
}

/// The tempering of a state word into an output word.
pub open spec fn temper(y: u32) -> u32 {
    let y1 = y ^ (y >> 11);
    let y2 = y1 ^ ((y1 << 7) & B);
    let y3 = y2 ^ ((y2 << 15) & C);
    y3 ^ (y3 >> 18)
}

impl MtState {
    /// The new value of the word at the index: the word `M` places on,
    /// twisted with the highest bit of the word at the index and the
    /// other bits of the word behind it.
    pub open spec fn twisted(self) -> u32 {
        let k = self.index;
        let y = (self.words[k] & UMASK) | (self.words[(k + 1) % (N as int)] & LMASK);
        let a = if y & 1 == 1 {
            (y >> 1) ^ A
        } else {
            y >> 1
        };
        self.words[(k + M) % (N as int)] ^ a
    }

    /// The state after a word was handed out.
    pub open spec fn step(self) -> MtState {
        MtState {
            words: self.words.update(self.index, self.twisted()),
            index: (self.index + 1) % (N as int),
        }
    }

    /// The word that the `i`-th call from this state on hands out.
    pub open spec fn nth_output(self, i: nat) -> u32
        decreases i,
    {
        if i == 0 {
            temper(self.twisted())
        } else {
            self.step().nth_output((i - 1) as nat)
        }
    }
}

/// An MT19937 random generator.
pub struct MT19937 {
    /// The state vector.
    state_array: [u32; N],
    /// Index into the state vector, always below `N`.
    state_index: usize,
}

impl View for MT19937 {
    type V = MtState;

    closed spec fn view(&self) -> MtState {
        MtState { words: self.state_array@, index: self.state_index as int }
    }
}

impl MT19937 {
    /// The generator's invariant: the index is below `N`.
    #[verifier::type_invariant]
    spec fn wf(&self) -> bool {
        self.state_index < N
    }

    /// A generator seeded with `seed`.
    pub fn new(seed: u32) -> (g: Self)
        ensures
            g@ == seeded(seed),
            forall|i: nat| #[trigger] g.output(i) == seeded(seed).nth_output(i),
    {
        let mut state = Self { state_array: [0;N], state_index: 0 };
        state.seed(seed);
        state
    }

    /// Seeding with the same seed gives the same words.
    pub proof fn lemma_deterministic(a: MT19937, b: MT19937, i: nat)
        requires
            a@ == b@,
        ensures
            a.output(i) == b.output(i),
    {
    }
}

impl RandomGenerator for MT19937 {
    open spec fn output(&self, i: nat) -> u32 {
        self@.nth_output(i)
    }

    open spec fn seeded_output(seed: u32, i: nat) -> u32 {
        seeded(seed).nth_output(i)
    }

    fn seed(&mut self, seed: u32)
        ensures
            final(self)@ == seeded(seed),
    {
        proof {
            use_type_invariant(&*self);
        }
        let mut word = seed;
        self.state_array[0] = word;
        let mut i: usize = 1;
        while i < N
            invariant
                1 <= i <= N,
                self.state_index < N,
                word == seed_word(seed, (i - 1) as nat),
                forall|j: int| 0 <= j < i ==> self.state_array@[j] == seed_word(seed, j as nat),
            decreases N - i,
        {
            let ghost before = self.state_array@;
            let next = F.wrapping_mul(word ^ (word >> 30)).wrapping_add(i as u32);
            assert(next == next_seed_word(word, i as u32));
            assert(next == seed_word(seed, i as nat));
            word = next;
            self.state_array[i] = word;
            assert(self.state_array@ == before.update(i as int, word));
            i += 1;
        }
        self.state_index = 0;
        proof {
            assert(self@.words =~= seeded(seed).words);
        }
    }

    fn random_uint32(&mut self) -> (r: u32)
        ensures
            final(self)@ == old(self)@.step(),
    {
        proof {
            use_type_invariant(&*self);
        }
        let mut k = self.state_index;
        let y = (self.state_array[k] & UMASK) | (self.state_array[(k + 1) % N] & LMASK);
        let a = if y & 1 == 1 {
            (y >> 1) ^ A
        } else {
            y >> 1
        };
        let y = self.state_array[(k + M) % N] ^ a;
        self.state_array[k] = y;
        k += 1;
        self.state_index = k % N;
        let mut y = y ^ (y >> U);
        y = y ^ ((y << S) & B);
        y = y ^ ((y << T) & C);
        proof {
            assert(self@.words =~= old(self)@.step().words);
        }
        y ^ (y >> L)
    }
}

} // verus!
