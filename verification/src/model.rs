//! Mathematical model of the accumulator: the diffusion step, the ring
//! transform performed per absorbed bit, and the bit decomposition of
//! bytes and words, together with the laws the operations obey.

use vstd::prelude::*;
use vstd::arithmetic::div_mod::{
    lemma_div_pos_is_pos, lemma_fundamental_div_mod, lemma_fundamental_div_mod_converse,
    lemma_mod_division_less_than_divisor, lemma_mod_multiples_vanish, lemma_mod_self_0,
    lemma_multiply_divide_lt, lemma_small_mod,
};

verus! {

/// The diffusion step: spreads the influence of one input bit across a
/// 64-bit word. A true bit flips the lower 32 bits of the word read from
/// the ring; either way one shift-or/shift-xor round runs, followed by a
/// multi-distance xor fold.
pub open spec fn diffuse(word: u64, bit: bool) -> u64 {
    let mask: u64 = if bit {
        0xffffffff
    } else {
        0
    };
    let x = word ^ mask;
    let y = (x | (x >> 1)) ^ (x << 1);
    y ^ (y >> 4) ^ (y >> 8) ^ (y >> 16) ^ (y >> 32)
}

/// One forward transform on a 32-word ring at position `pos`: diffuse the
/// word at `pos mod 32` and xor the result into the word at `(pos + 1) mod 32`.
pub open spec fn add_step_ring(ring: Seq<u64>, pos: int, bit: bool) -> Seq<u64>
    recommends
        ring.len() == 32,
        0 <= pos,
{
    ring.update((pos + 1) % 32, ring[(pos + 1) % 32] ^ diffuse(ring[pos % 32], bit))
}

/// The ring after absorbing a sequence of bits one at a time, the first
/// bit at position `pos`, each later bit one position further on.
pub open spec fn absorb_bits(ring: Seq<u64>, pos: int, bits: Seq<bool>) -> Seq<u64>
    decreases bits.len(),
{
    if bits.len() == 0 {
        ring
    } else {
        add_step_ring(
            absorb_bits(ring, pos, bits.drop_last()),
            pos + bits.len() - 1,
            bits.last(),
        )
    }
}

/// The eight bits of a byte, least significant first.
pub open spec fn byte_bits(byte: u8) -> Seq<bool> {
    Seq::new(8, |i: int| (byte >> (i as u8)) & 1 == 1)
}

/// The bits of a byte stream: each byte contributes its eight bits,
/// least significant first, bytes in order.
pub open spec fn bytes_bits(bytes: Seq<u8>) -> Seq<bool>
    decreases bytes.len(),
{
    if bytes.len() == 0 {
        Seq::<bool>::empty()
    } else {
        bytes_bits(bytes.drop_last()) + byte_bits(bytes.last())
    }
}

/// The 64 bits of a word, least significant first.
pub open spec fn u64_bits(v: u64) -> Seq<bool> {
    Seq::new(64, |i: int| (v >> (i as u64)) & 1 == 1)
}

/// The eight bytes of a word, least significant first.
pub open spec fn u64_le_bytes(v: u64) -> Seq<u8> {
    Seq::new(8, |i: int| ((v >> ((8 * i) as u64)) & 0xff) as u8)
}

/// The 32 ring words of the fixed seed state. They are the words reached
/// from an all-zero ring by absorbing 4096 bits, each chosen as the low
/// bit of the running hash; the first word doubles as the seed state's
/// cached output.
pub open spec fn default_ring() -> Seq<u64> {
    seq![
        14745948531085624800u64,
        16120642418826990911u64,
        9275000239821960485u64,
        4476743750426018428u64,
        741912412851399944u64,
        17767459926458528083u64,
        2469478127305654386u64,
        6225995753166195692u64,
        4750461123551357503u64,
        10555348896626929070u64,
        14572814704552083992u64,
        2824678681307928227u64,
        8198425675642015085u64,
        3315257422098907176u64,
        13762405054855287671u64,
        15186990245784674763u64,
        5015234624788364844u64,
        8462123041350221017u64,
        9974233762935842858u64,
        11502466225357323772u64,
        17531649588530077495u64,
        8670185664686319238u64,
        4707560773883213848u64,
        10843017560065197706u64,
        17676146699030180721u64,
        17194224147714809490u64,
        4745306135015590921u64,
        11298931964348737593u64,
        14067901419238702746u64,
        15452291037738416485u64,
        591116246257296967u64,
        15728077675183395515u64,
    ]
}

/// Consecutive positions always select distinct ring slots, and both
/// indices are in range.
pub proof fn lemma_ring_indices(pos: int)
    requires
        0 <= pos,
    ensures
        0 <= pos % 32 < 32,
        0 <= (pos + 1) % 32 < 32,
        (pos + 1) % 32 != pos % 32,
{
    lemma_mod_division_less_than_divisor(pos, 32);
    lemma_mod_division_less_than_divisor(pos + 1, 32);
    lemma_fundamental_div_mod(pos, 32);
    let q = pos / 32;
    let k = pos % 32;
    lemma_mod_multiples_vanish(q, k + 1, 32);
    assert(pos + 1 == 32 * q + (k + 1));
    if k < 31 {
        lemma_small_mod((k + 1) as nat, 32);
    } else {
        lemma_mod_self_0(32);
    }
}

/// Absorbing one more bit is one more forward transform, at the position
/// just past the bits already absorbed.
pub proof fn lemma_absorb_push(ring: Seq<u64>, pos: int, bits: Seq<bool>, bit: bool)
    ensures
        absorb_bits(ring, pos, bits.push(bit)) == add_step_ring(
            absorb_bits(ring, pos, bits),
            pos + bits.len(),
            bit,
        ),
{
    assert(bits.push(bit).drop_last() =~= bits);
}

/// Absorbing a concatenation equals absorbing the first part and then the
/// second, the second starting where the first left off.
pub proof fn lemma_absorb_append(ring: Seq<u64>, pos: int, a: Seq<bool>, b: Seq<bool>)
    ensures
        absorb_bits(ring, pos, a + b) == absorb_bits(
            absorb_bits(ring, pos, a),
            pos + a.len(),
            b,
        ),
    decreases b.len(),
{
    if b.len() == 0 {
        assert(a + b =~= a);
    } else {
        lemma_absorb_append(ring, pos, a, b.drop_last());
        assert((a + b).drop_last() =~= a + b.drop_last());
        assert((a + b).last() == b.last());
    }
}

/// A byte stream of `n` bytes carries exactly `8 * n` bits.
pub proof fn lemma_bytes_bits_len(bytes: Seq<u8>)
    ensures
        bytes_bits(bytes).len() == 8 * bytes.len(),
    decreases bytes.len(),
{
    if bytes.len() != 0 {
        lemma_bytes_bits_len(bytes.drop_last());
    }
}

/// The bit masks the stream adapter tests, related to the bit sequence of
/// a byte: masking with the power of two for bit `i` is nonzero exactly
/// when bit `i` of the byte is set.
pub proof fn lemma_byte_bits_masks(byte: u8)
    ensures
        byte_bits(byte).len() == 8,
        byte_bits(byte)[0] == ((byte as u64) & 1 != 0),
        byte_bits(byte)[1] == ((byte as u64) & 2 != 0),
        byte_bits(byte)[2] == ((byte as u64) & 4 != 0),
        byte_bits(byte)[3] == ((byte as u64) & 8 != 0),
        byte_bits(byte)[4] == ((byte as u64) & 16 != 0),
        byte_bits(byte)[5] == ((byte as u64) & 32 != 0),
        byte_bits(byte)[6] == ((byte as u64) & 64 != 0),
        byte_bits(byte)[7] == ((byte as u64) & 128 != 0),
{
    assert(((byte >> 0) & 1 == 1) == ((byte as u64) & 1 != 0) && ((byte >> 1) & 1 == 1) == ((
    byte as u64) & 2 != 0) && ((byte >> 2) & 1 == 1) == ((byte as u64) & 4 != 0) && ((byte >> 3) & 1
        == 1) == ((byte as u64) & 8 != 0) && ((byte >> 4) & 1 == 1) == ((byte as u64) & 16 != 0)
        && ((byte >> 5) & 1 == 1) == ((byte as u64) & 32 != 0) && ((byte >> 6) & 1 == 1) == ((
    byte as u64) & 64 != 0) && ((byte >> 7) & 1 == 1) == ((byte as u64) & 128 != 0))
        by (bit_vector);
}

/// Absorption never changes the size of the ring.
pub proof fn lemma_absorb_len(ring: Seq<u64>, pos: int, bits: Seq<bool>)
    requires
        ring.len() == 32,
        0 <= pos,
    ensures
        absorb_bits(ring, pos, bits).len() == 32,
    decreases bits.len(),
{
    if bits.len() != 0 {
        lemma_absorb_len(ring, pos, bits.drop_last());
        lemma_ring_indices(pos + bits.len() - 1);
    }
}

/// Bit `i` of a byte stream is bit `i mod 8` of byte `i div 8`.
pub proof fn lemma_bytes_bits_index(bytes: Seq<u8>, i: int)
    requires
        0 <= i < 8 * bytes.len(),
    ensures
        bytes_bits(bytes)[i] == byte_bits(bytes[i / 8])[i % 8],
    decreases bytes.len(),
{
    let last = bytes.len() - 1;
    lemma_bytes_bits_len(bytes.drop_last());
    lemma_div_pos_is_pos(i, 8);
    lemma_mod_division_less_than_divisor(i, 8);
    lemma_fundamental_div_mod(i, 8);
    if i < 8 * last {
        lemma_bytes_bits_index(bytes.drop_last(), i);
        lemma_multiply_divide_lt(i, 8, last);
    } else {
        lemma_fundamental_div_mod_converse(i, 8, last, i - 8 * last);
    }
}

/// One byte of the little-endian decomposition of a word, read bit by
/// bit, agrees with the word's own bits: bit `k` of byte `j` is bit
/// `8 * j + k` of the word.
proof fn lemma_le_byte_bit(v: u64, j: u64, k: u64)
    requires
        j < 8,
        k < 8,
    ensures
        ((((v >> ((8 * j) as u64)) & 0xff) as u8) >> (k as u8)) & 1 == 1 <==> (v >> ((8 * j
            + k) as u64)) & 1 == 1,
{
    assert(((((v >> ((8 * j) as u64)) & 0xff) as u8) >> (k as u8)) & 1 == 1 <==> (v >> ((8 * j
        + k) as u64)) & 1 == 1) by (bit_vector)
        requires
            j < 8 && k < 8,
    ;
}

/// Bit-order law: decomposing a word into its eight bytes, least
/// significant byte first, and each byte into its bits, least significant
/// first, yields exactly the word's 64 bits, least significant first.
/// Streaming a word through the byte adapter therefore absorbs its bits
/// from bit 0 up to bit 63.
pub proof fn lemma_u64_bit_order(v: u64)
    ensures
        bytes_bits(u64_le_bytes(v)) == u64_bits(v),
{
    let bs = u64_le_bytes(v);
    lemma_bytes_bits_len(bs);
    assert forall|i: int| 0 <= i < 64 implies bytes_bits(bs)[i] == u64_bits(v)[i] by {
        lemma_bytes_bits_index(bs, i);
        lemma_div_pos_is_pos(i, 8);
        lemma_mod_division_less_than_divisor(i, 8);
        lemma_fundamental_div_mod(i, 8);
        lemma_multiply_divide_lt(i, 8, 8);
        let j = (i / 8) as u64;
        let k = (i % 8) as u64;
        lemma_le_byte_bit(v, j, k);
        assert(i == 8 * (j as int) + (k as int));
    }
    assert(bytes_bits(bs) =~= u64_bits(v));
}

/// Add/delete inverse law: running the forward transform twice at the
/// same position restores the ring exactly. The second run reads the same
/// source word as the first (consecutive positions select distinct slots),
/// recomputes the identical diffusion value, and xor cancels the update.
/// This is why one `del_bit` undoes the most recent `add_bit`.
pub proof fn lemma_add_del_inverse(ring: Seq<u64>, pos: int, bit: bool)
    requires
        ring.len() == 32,
        0 <= pos,
    ensures
        add_step_ring(add_step_ring(ring, pos, bit), pos, bit) == ring,
{
    lemma_ring_indices(pos);
    let i0 = pos % 32;
    let i1 = (pos + 1) % 32;
    let r1 = add_step_ring(ring, pos, bit);
    assert(r1[i0] == ring[i0]);
    let t = diffuse(ring[i0], bit);
    let w = ring[i1];
    assert((w ^ t) ^ t == w) by (bit_vector);
    assert(add_step_ring(r1, pos, bit) =~= ring);
}

/// Add/delete inverse law over a sequence: after absorbing bits
/// `b1 .. bn` starting at `pos`, one deletion with `bn` — the forward
/// transform re-run at the last used position — yields exactly the ring
/// after `b1 .. b(n-1)`.
pub proof fn lemma_del_last_bit(ring: Seq<u64>, pos: int, bits: Seq<bool>)
    requires
        ring.len() == 32,
        0 <= pos,
        bits.len() > 0,
    ensures
        add_step_ring(
            absorb_bits(ring, pos, bits),
            pos + bits.len() - 1,
            bits.last(),
        ) == absorb_bits(ring, pos, bits.drop_last()),
{
    lemma_absorb_len(ring, pos, bits.drop_last());
    lemma_add_del_inverse(
        absorb_bits(ring, pos, bits.drop_last()),
        pos + bits.len() - 1,
        bits.last(),
    );
}

/// The ring after undoing a sequence of bits, last bit first: each step
/// re-runs the forward transform one position back.
pub open spec fn undo_bits(ring: Seq<u64>, pos: int, bits: Seq<bool>) -> Seq<u64>
    decreases bits.len(),
{
    if bits.len() == 0 {
        ring
    } else {
        undo_bits(add_step_ring(ring, pos - 1, bits.last()), pos - 1, bits.drop_last())
    }
}

/// Full round-trip law: absorbing any sequence of bits and then undoing
/// them all, last bit first, restores the ring exactly.
pub proof fn lemma_absorb_undo(ring: Seq<u64>, pos: int, bits: Seq<bool>)
    requires
        ring.len() == 32,
        0 <= pos,
    ensures
        undo_bits(absorb_bits(ring, pos, bits), pos + bits.len(), bits) == ring,
    decreases bits.len(),
{
    if bits.len() != 0 {
        lemma_del_last_bit(ring, pos, bits);
        lemma_absorb_undo(ring, pos, bits.drop_last());
    }
}

} // verus!
