//! An incremental, invertible hash accumulator. A fixed ring of 32
//! sixty-four-bit words absorbs input one bit at a time, and the most
//! recently absorbed bit can be removed exactly, restoring the ring
//! bit-for-bit to its previous content.

pub mod model;

use vstd::prelude::*;

use crate::model::{
    absorb_bits, add_step_ring, byte_bits, bytes_bits, default_ring, diffuse,
    lemma_absorb_append, lemma_absorb_push, lemma_byte_bits_masks, lemma_bytes_bits_len,
    lemma_u64_bit_order, u64_bits, u64_le_bytes,
};

verus! {

/// The accumulator: a 32-word state ring plus a position counter. All
/// state lives here; `add_bit` and `del_bit` mutate it in place.
#[derive(Debug, PartialEq)]
pub struct Glowworm {
    /// The state ring; the slot addressed at any moment is `s[n % 32]`.
    pub s: [u64; 32],
    /// Position: counts absorbed bits; only `n % 32` selects a slot.
    pub n: usize,
    /// Scratch register holding the most recently computed diffusion value.
    pub t: u64,
    /// Cached output returned by `finish`; established at construction and
    /// deliberately not updated by absorption.
    pub h: u64,
}

impl Default for Glowworm {
    /// The fixed seed state: 32 precomputed ring words, position 0, and the
    /// cached output equal to the first ring word.
    fn default() -> (r: Glowworm)
        ensures
            r.s@ == default_ring(),
            r.n == 0,
            r.t == 5699370651900549022,
            r.h == default_ring()[0],
    {
        let r = Glowworm {
            s: [
                14745948531085624800,
                16120642418826990911,
                9275000239821960485,
                4476743750426018428,
                741912412851399944,
                17767459926458528083,
                2469478127305654386,
                6225995753166195692,
                4750461123551357503,
                10555348896626929070,
                14572814704552083992,
                2824678681307928227,
                8198425675642015085,
                3315257422098907176,
                13762405054855287671,
                15186990245784674763,
                5015234624788364844,
                8462123041350221017,
                9974233762935842858,
                11502466225357323772,
                17531649588530077495,
                8670185664686319238,
                4707560773883213848,
                10843017560065197706,
                17676146699030180721,
                17194224147714809490,
                4745306135015590921,
                11298931964348737593,
                14067901419238702746,
                15452291037738416485,
                591116246257296967,
                15728077675183395515,
            ],
            n: 0,
            t: 5699370651900549022,
            h: 14745948531085624800,
        };
        proof {
            assert(r.s@ =~= default_ring());
        }
        r
    }
}

impl Glowworm {
    /// Absorb one bit (any nonzero `bit` counts as true) and return the
    /// new current word. Exactly one ring entry changes, and the position
    /// advances by exactly one.
    pub fn add_bit(&mut self, bit: u64) -> (r: u64)
        requires
            old(self).n < usize::MAX,
        ensures
            final(self).n == old(self).n + 1,
            final(self).s@ == add_step_ring(old(self).s@, old(self).n as int, bit != 0),
            forall|i: int|
                0 <= i < 32 && i != (old(self).n + 1) % 32 ==> final(self).s@[i] == old(
                    self,
                ).s@[i],
            final(self).s@[(old(self).n + 1) % 32] == old(self).s@[(old(self).n + 1) % 32]
                ^ diffuse(old(self).s@[old(self).n as int % 32], bit != 0),
            final(self).t == diffuse(old(self).s@[old(self).n as int % 32], bit != 0),
            final(self).h == old(self).h,
            r == final(self).s@[final(self).n as int % 32],
    {
        let xor: u64 = if bit == 0 {
            0
        } else {
            0xffffffff
        };
        self.t = self.s[self.n % 32] ^ xor;
        self.t = (self.t | (self.t >> 1)) ^ (self.t << 1);
        self.t = self.t ^ (self.t >> 4) ^ (self.t >> 8) ^ (self.t >> 16) ^ (self.t >> 32);
        self.n = self.n + 1;
        let i = self.n % 32;
        self.s[i] = self.s[i] ^ self.t;
        self.s[i]
    }

    /// Remove the most recently absorbed bit; `bit` must equal the bit
    /// passed to the matching `add_bit`, and at least one bit must have
    /// been absorbed. Re-runs the forward transform at the undone
    /// position — xor cancels the earlier update exactly (see
    /// `model::lemma_add_del_inverse`) — then steps the position back.
    /// Returns the current word at the restored position.
    pub fn del_bit(&mut self, bit: u64) -> (r: u64)
        requires
            1 <= old(self).n,
        ensures
            final(self).n == old(self).n - 1,
            final(self).s@ == add_step_ring(old(self).s@, old(self).n - 1, bit != 0),
            forall|i: int|
                0 <= i < 32 && i != old(self).n as int % 32 ==> final(self).s@[i] == old(
                    self,
                ).s@[i],
            final(self).t == diffuse(old(self).s@[(old(self).n - 1) % 32], bit != 0),
            final(self).h == old(self).h,
            r == final(self).s@[final(self).n as int % 32],
    {
        self.n = self.n - 1;
        self.add_bit(bit);
        self.n = self.n - 1;
        self.s[self.n % 32]
    }

    /// Absorb the eight bits of one byte, least significant bit first.
    pub fn write_u8(&mut self, byte: u8)
        requires
            old(self).n + 8 <= usize::MAX,
        ensures
            final(self).n == old(self).n + 8,
            final(self).s@ == absorb_bits(old(self).s@, old(self).n as int, byte_bits(byte)),
            final(self).h == old(self).h,
    {
        let ghost s0 = self.s@;
        let ghost n0 = self.n as int;
        let ghost bb = byte_bits(byte);
        proof {
            lemma_byte_bits_masks(byte);
            assert(bb.take(0) =~= Seq::<bool>::empty());
        }
        let b = byte as u64;
        self.add_bit(b & 1);
        proof {
            lemma_absorb_push(s0, n0, bb.take(0), bb[0]);
            assert(bb.take(0).push(bb[0]) =~= bb.take(1));
        }
        self.add_bit(b & 2);
        proof {
            lemma_absorb_push(s0, n0, bb.take(1), bb[1]);
            assert(bb.take(1).push(bb[1]) =~= bb.take(2));
        }
        self.add_bit(b & 4);
        proof {
            lemma_absorb_push(s0, n0, bb.take(2), bb[2]);
            assert(bb.take(2).push(bb[2]) =~= bb.take(3));
        }
        self.add_bit(b & 8);
        proof {
            lemma_absorb_push(s0, n0, bb.take(3), bb[3]);
            assert(bb.take(3).push(bb[3]) =~= bb.take(4));
        }
        self.add_bit(b & 16);
        proof {
            lemma_absorb_push(s0, n0, bb.take(4), bb[4]);
            assert(bb.take(4).push(bb[4]) =~= bb.take(5));
        }
        self.add_bit(b & 32);
        proof {
            lemma_absorb_push(s0, n0, bb.take(5), bb[5]);
            assert(bb.take(5).push(bb[5]) =~= bb.take(6));
        }
        self.add_bit(b & 64);
        proof {
            lemma_absorb_push(s0, n0, bb.take(6), bb[6]);
            assert(bb.take(6).push(bb[6]) =~= bb.take(7));
        }
        self.add_bit(b & 128);
        proof {
            lemma_absorb_push(s0, n0, bb.take(7), bb[7]);
            assert(bb.take(7).push(bb[7]) =~= bb.take(8));
            assert(bb.take(8) =~= bb);
        }
    }

    /// Absorb every bit of `bytes`: within each byte the least significant
    /// bit first, bytes in order. Only the final ring state is retained;
    /// the cached output is untouched.
    pub fn write(&mut self, bytes: &[u8])
        requires
            old(self).n + 8 * bytes@.len() <= usize::MAX,
        ensures
            final(self).n == old(self).n + 8 * bytes@.len(),
            final(self).s@ == absorb_bits(old(self).s@, old(self).n as int, bytes_bits(bytes@)),
            final(self).h == old(self).h,
    {
        let ghost s0 = self.s@;
        let ghost n0 = self.n as int;
        proof {
            assert(bytes@.take(0) =~= Seq::<u8>::empty());
        }
        let mut k: usize = 0;
        while k < bytes.len()
            invariant
                k <= bytes@.len(),
                n0 + 8 * bytes@.len() <= usize::MAX,
                self.n == n0 + 8 * k,
                self.s@ == absorb_bits(s0, n0, bytes_bits(bytes@.take(k as int))),
                self.h == old(self).h,
            decreases bytes@.len() - k,
        {
            let byte = bytes[k];
            let ghost done = bytes_bits(bytes@.take(k as int));
            proof {
                lemma_bytes_bits_len(bytes@.take(k as int));
            }
            self.write_u8(byte);
            proof {
                lemma_absorb_append(s0, n0, done, byte_bits(byte));
                assert(bytes@.take(k as int + 1).drop_last() =~= bytes@.take(k as int));
                assert(bytes_bits(bytes@.take(k as int + 1)) == done + byte_bits(byte));
            }
            k = k + 1;
        }
        proof {
            assert(bytes@.take(bytes@.len() as int) =~= bytes@);
        }
    }

    /// Absorb the 64 bits of a word, least significant bit first: the word
    /// streams through the byte adapter as its eight bytes, least
    /// significant byte first, which by the bit-order law
    /// (`model::lemma_u64_bit_order`) absorbs exactly the word's bits in
    /// order from bit 0 to bit 63.
    pub fn write_u64(&mut self, value: u64)
        requires
            old(self).n + 64 <= usize::MAX,
        ensures
            final(self).n == old(self).n + 64,
            final(self).s@ == absorb_bits(old(self).s@, old(self).n as int, u64_bits(value)),
            final(self).h == old(self).h,
    {
        let ghost s0 = self.s@;
        let ghost n0 = self.n as int;
        let ghost lb = u64_le_bytes(value);
        proof {
            assert(lb.take(0) =~= Seq::<u8>::empty());
            assert(value >> ((8 * 0) as u64) == value) by (bit_vector);
        }
        self.write_u8((value & 0xff) as u8);
        proof {
            lemma_bytes_bits_len(lb.take(0));
            lemma_absorb_append(s0, n0, bytes_bits(lb.take(0)), byte_bits(lb[0]));
            assert(lb.take(1).drop_last() =~= lb.take(0));
        }
        self.write_u8(((value >> 8u64) & 0xff) as u8);
        proof {
            lemma_bytes_bits_len(lb.take(1));
            lemma_absorb_append(s0, n0, bytes_bits(lb.take(1)), byte_bits(lb[1]));
            assert(lb.take(2).drop_last() =~= lb.take(1));
        }
        self.write_u8(((value >> 16u64) & 0xff) as u8);
        proof {
            lemma_bytes_bits_len(lb.take(2));
            lemma_absorb_append(s0, n0, bytes_bits(lb.take(2)), byte_bits(lb[2]));
            assert(lb.take(3).drop_last() =~= lb.take(2));
        }
        self.write_u8(((value >> 24u64) & 0xff) as u8);
        proof {
            lemma_bytes_bits_len(lb.take(3));
            lemma_absorb_append(s0, n0, bytes_bits(lb.take(3)), byte_bits(lb[3]));
            assert(lb.take(4).drop_last() =~= lb.take(3));
        }
        self.write_u8(((value >> 32u64) & 0xff) as u8);
        proof {
            lemma_bytes_bits_len(lb.take(4));
            lemma_absorb_append(s0, n0, bytes_bits(lb.take(4)), byte_bits(lb[4]));
            assert(lb.take(5).drop_last() =~= lb.take(4));
        }
        self.write_u8(((value >> 40u64) & 0xff) as u8);
        proof {
            lemma_bytes_bits_len(lb.take(5));
            lemma_absorb_append(s0, n0, bytes_bits(lb.take(5)), byte_bits(lb[5]));
            assert(lb.take(6).drop_last() =~= lb.take(5));
        }
        self.write_u8(((value >> 48u64) & 0xff) as u8);
        proof {
            lemma_bytes_bits_len(lb.take(6));
            lemma_absorb_append(s0, n0, bytes_bits(lb.take(6)), byte_bits(lb[6]));
            assert(lb.take(7).drop_last() =~= lb.take(6));
        }
        self.write_u8(((value >> 56u64) & 0xff) as u8);
        proof {
            lemma_bytes_bits_len(lb.take(7));
            lemma_absorb_append(s0, n0, bytes_bits(lb.take(7)), byte_bits(lb[7]));
            assert(lb.take(8).drop_last() =~= lb.take(7));
            assert(lb.take(8) =~= lb);
            lemma_u64_bit_order(value);
        }
    }

    /// The cached output: established at construction and deliberately not
    /// updated by absorption.
    pub fn finish(&self) -> (r: u64)
        ensures
            r == self.h,
    {
        self.h
    }

    /// The live current word: the ring entry at the current position. This
    /// is the value the most recent `add_bit` or `del_bit` returned.
    pub fn current(&self) -> (r: u64)
        ensures
            r == self.s@[self.n as int % 32],
    {
        self.s[self.n % 32]
    }
}

} // verus!
