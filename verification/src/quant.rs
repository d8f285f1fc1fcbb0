//! Packed integer codes: bit streams over 32-bit words, nibble and byte
//! packing.
use vstd::prelude::*;

verus! {

/// Two consecutive words as one 64-bit window.
pub open spec fn window(lo: u32, hi: u32) -> u64 {
    (lo as u64) | ((hi as u64) << 32u64)
}

/// `bits` one bits.
pub open spec fn low_mask(bits: u32) -> u64 {
    ((1u64 << (bits as u64)) - 1) as u64
}

/// Code `k` of a stream of `bits`-wide codes that starts at word `base`, least
/// significant bits first; a code may straddle two words.
pub open spec fn code_at(bits: u32, words: Seq<u32>, base: int, k: int) -> u32 {
    let off = k * bits;
    let j = base + off / 32;
    let sh = (off % 32) as u64;
    let hi = if sh + bits > 32 {
        words[j + 1]
    } else {
        0u32
    };
    ((window(words[j], hi) >> sh) & low_mask(bits)) as u32
}

/// Nibble `i` of a word.
pub open spec fn nibble(word: u32, i: u32) -> u32 {
    (word >> ((4 * i) as u32)) & 15
}

/// Byte `i` of a word.
pub open spec fn byte(word: u32, i: u32) -> u32 {
    (word >> ((8 * i) as u32)) & 255
}

/// Words that a row of `k_in` codes takes.
pub open spec fn words_per_row(k_in: int, bits: int) -> int {
    k_in * bits / 32
}

/// A code is below two to its width.
pub proof fn law_code_range(bits: u32, words: Seq<u32>, base: int, k: int)
    requires
        0 < bits <= 8,
    ensures
        code_at(bits, words, base, k) < (1u32 << bits),
{
    let off = k * bits;
    let sh = (off % 32) as u64;
    let hi = if sh + bits > 32 {
        words[base + off / 32 + 1]
    } else {
        0u32
    };
    let v = window(words[base + off / 32], hi) >> sh;
    assert(((v & (((1u64 << (bits as u64)) - 1) as u64)) as u32) < (1u32 << bits)) by (bit_vector)
        requires
            0 < bits <= 8,
    ;
}

/// Reads code `k` of the stream that starts at word `base`.
pub fn extract(bits: u32, words: &[u32], base: usize, k: u32) -> (q: u32)
    requires
        0 < bits <= 8,
        base + (k * bits) / 32 < words@.len(),
        (k * bits) % 32 + bits > 32 ==> base + (k * bits) / 32 + 1 < words@.len(),
    ensures
        q == code_at(bits, words@, base as int, k as int),
        q < 256,
{
    let len: usize = words.len();
    assert(0 <= k * bits <= 0xffff_ffff * 8) by (nonlinear_arith)
        requires
            0 < bits <= 8,
            k <= 0xffff_ffff,
    ;
    let bit_off: u64 = k as u64 * bits as u64;
    let word_idx: usize = (bit_off / 32) as usize;
    let bit_in_w: u32 = (bit_off % 32) as u32;
    let bits_in_w0: u32 = 32 - bit_in_w;
    let lo_bits: u32 = if bits_in_w0 >= bits {
        bits
    } else {
        bits_in_w0
    };
    let spill: u32 = bits - lo_bits;
    let w0: u32 = words[base + word_idx];
    let w1: u32 = if spill > 0 {
        words[base + word_idx + 1]
    } else {
        w0
    };
    assert(1u32 << lo_bits >= 1 && 1u32 << spill >= 1) by (bit_vector)
        requires
            lo_bits <= 8,
            spill <= 8,
    ;
    let lo: u32 = (w0 >> bit_in_w) & ((1u32 << lo_bits) - 1);
    let hi: u32 = (w1 & ((1u32 << spill) - 1)) << lo_bits;
    let q: u32 = lo | hi;
    proof {
        let h: u32 = if spill > 0 {
            w1
        } else {
            0
        };
        let sh = bit_in_w as u64;
        if spill > 0 {
            assert((((w0 >> bit_in_w) & (((1u32 << lo_bits) - 1) as u32)) | ((w1 & (((1u32
                << spill) - 1) as u32)) << lo_bits)) == ((((w0 as u64) | ((w1 as u64) << 32u64))
                >> sh) & (((1u64 << (bits as u64)) - 1) as u64)) as u32) by (bit_vector)
                requires
                    0 < bits <= 8,
                    bit_in_w < 32,
                    sh == bit_in_w as u64,
                    lo_bits == 32 - bit_in_w,
                    lo_bits < bits,
                    spill == bits - lo_bits,
            ;
        } else {
            assert((((w0 >> bit_in_w) & (((1u32 << lo_bits) - 1) as u32)) | ((w1 & (((1u32
                << spill) - 1) as u32)) << lo_bits)) == ((((w0 as u64) | ((0u32 as u64) << 32u64))
                >> sh) & (((1u64 << (bits as u64)) - 1) as u64)) as u32) by (bit_vector)
                requires
                    0 < bits <= 8,
                    bit_in_w < 32,
                    sh == bit_in_w as u64,
                    lo_bits == bits,
                    bits <= 32 - bit_in_w,
                    spill == 0,
            ;
        }
        law_code_range(bits, words@, base as int, k as int);
        assert(1u32 << bits <= 256) by (bit_vector)
            requires
                bits <= 8,
        ;
    }
    q
}

/// A nibble-packed row is a stream of four-bit codes.
pub proof fn law_nibble_stream(words: Seq<u32>, base: int, k: int)
    requires
        0 <= k,
    ensures
        code_at(4, words, base, k) == nibble(words[base + k / 8], (k % 8) as u32),
{
    let i = (k % 8) as u32;
    let w = words[base + k / 8];
    let sh = (4 * i) as u64;
    assert(k * 4 == 32 * (k / 8) + 4 * (k % 8));
    assert(((((w as u64) | ((0u32 as u64) << 32u64)) >> sh) & (((1u64 << (4u32 as u64)) - 1) as u64)) as u32 == (w
        >> ((4 * i) as u32)) & 15) by (bit_vector)
        requires
            i < 8,
            sh == (4 * i) as u64,
    ;
}

/// A byte-packed row is a stream of eight-bit codes.
pub proof fn law_byte_stream(words: Seq<u32>, base: int, k: int)
    requires
        0 <= k,
    ensures
        code_at(8, words, base, k) == byte(words[base + k / 4], (k % 4) as u32),
{
    let i = (k % 4) as u32;
    let w = words[base + k / 4];
    let sh = (8 * i) as u64;
    assert(k * 8 == 32 * (k / 4) + 8 * (k % 4));
    assert(((((w as u64) | ((0u32 as u64) << 32u64)) >> sh) & (((1u64 << (8u32 as u64)) - 1) as u64)) as u32 == (w
        >> ((8 * i) as u32)) & 255) by (bit_vector)
        requires
            i < 4,
            sh == (8 * i) as u64,
    ;
}

/// Packs codes eight to a word, the first in the lowest nibble. Bits of a code
/// above the nibble, and codes past the last full word, are dropped.
pub fn pack_int4_row(weights: &[u32]) -> (packed: Vec<u32>)
    ensures
        packed@.len() == weights@.len() / 8,
        forall|j: int, i: int|
            0 <= j < packed@.len() && 0 <= i < 8 ==> #[trigger] nibble(packed@[j], i as u32)
                == #[trigger] weights@[8 * j + i] & 15,
{
    let len: usize = weights.len();
    let mut out: Vec<u32> = Vec::new();
    let mut j: usize = 0;
    while j < len / 8
        invariant
            len == weights@.len(),
            j <= len / 8,
            out@.len() == j,
            forall|c: int, i: int|
                0 <= c < j && 0 <= i < 8 ==> #[trigger] nibble(out@[c], i as u32)
                    == #[trigger] weights@[8 * c + i] & 15,
        decreases len / 8 - j,
    {
        let mut packed: u32 = 0;
        let mut i: u32 = 0;
        assert(packed >> 0u32 == 0) by (bit_vector)
            requires
                packed == 0,
        ;
        while i < 8
            invariant
                len == weights@.len(),
                j < len / 8,
                i <= 8,
                i < 8 ==> packed >> ((4 * i) as u32) == 0,
                forall|m: int|
                    0 <= m < i ==> #[trigger] nibble(packed, m as u32) == weights@[8 * j + m] & 15,
            decreases 8 - i,
        {
            let q: u32 = weights[8 * j + i as usize] & 15;
            let next: u32 = packed | (q << (4 * i));
            proof {
                let raw = weights@[8 * j + i];
                assert forall|m: int| 0 <= m < i + 1 implies #[trigger] nibble(next, m as u32)
                    == weights@[8 * j + m] & 15 by {
                    let mm = m as u32;
                    if m < i {
                        assert(nibble(packed, mm) == weights@[8 * j + m] & 15);
                        assert(q < 16) by (bit_vector)
                            requires
                                q == raw & 15,
                        ;
                        assert(((packed | (q << ((4 * i) as u32))) >> ((4 * mm) as u32)) & 15 == (
                        packed >> ((4 * mm) as u32)) & 15) by (bit_vector)
                            requires
                                mm < i < 8,
                                q < 16,
                        ;
                    } else {
                        assert(((packed | (q << ((4 * i) as u32))) >> ((4 * i) as u32)) & 15
                            == raw & 15) by (bit_vector)
                            requires
                                i < 8,
                                q == raw & 15,
                                packed >> ((4 * i) as u32) == 0,
                        ;
                    }
                }
                if i < 7 {
                    assert((packed | (q << ((4 * i) as u32))) >> ((4 * (i + 1)) as u32) == 0)
                        by (bit_vector)
                        requires
                            i < 7,
                            q == raw & 15,
                            packed >> ((4 * i) as u32) == 0,
                    ;
                }
            }
            packed = next;
            i += 1;
        }
        out.push(packed);
        j += 1;
    }
    out
}

/// Packs codes four to a word, the first in the lowest byte. Bits of a code
/// above the byte, and codes past the last full word, are dropped.
pub fn pack_int8_row(weights: &[u32]) -> (packed: Vec<u32>)
    ensures
        packed@.len() == weights@.len() / 4,
        forall|j: int, i: int|
            0 <= j < packed@.len() && 0 <= i < 4 ==> #[trigger] byte(packed@[j], i as u32)
                == #[trigger] weights@[4 * j + i] & 255,
{
    let len: usize = weights.len();
    let mut out: Vec<u32> = Vec::new();
    let mut j: usize = 0;
    while j < len / 4
        invariant
            len == weights@.len(),
            j <= len / 4,
            out@.len() == j,
            forall|c: int, i: int|
                0 <= c < j && 0 <= i < 4 ==> #[trigger] byte(out@[c], i as u32)
                    == #[trigger] weights@[4 * c + i] & 255,
        decreases len / 4 - j,
    {
        let a: u32 = weights[4 * j];
        let b: u32 = weights[4 * j + 1];
        let c: u32 = weights[4 * j + 2];
        let d: u32 = weights[4 * j + 3];
        let packed: u32 = (a & 255) | ((b & 255) << 8u32) | ((c & 255) << 16u32) | ((d & 255)
            << 24u32);
        proof {
            assert((packed >> 0u32) & 255 == a & 255 && (packed >> 8u32) & 255 == b & 255 && (
            packed >> 16u32) & 255 == c & 255 && (packed >> 24u32) & 255 == d & 255) by (bit_vector)
                requires
                    packed == (a & 255) | ((b & 255) << 8u32) | ((c & 255) << 16u32) | ((d & 255)
                        << 24u32),
            ;
            assert forall|i: int| 0 <= i < 4 implies #[trigger] byte(packed, i as u32)
                == weights@[4 * j + i] & 255 by {
                assert(i == 0 || i == 1 || i == 2 || i == 3);
            }
        }
        out.push(packed);
        j += 1;
    }
    out
}

/// Little-endian bytes of a word vector.
pub fn u32_bytes(words: &[u32]) -> (bytes: Vec<u8>)
    requires
        4 * words@.len() <= usize::MAX,
    ensures
        bytes@.len() == 4 * words@.len(),
        forall|i: int, j: int|
            0 <= i < words@.len() && 0 <= j < 4 ==> #[trigger] bytes@[4 * i + j] as u32 == byte(
                words@[i],
                j as u32,
            ),
{
    let mut out: Vec<u8> = Vec::new();
    let mut i: usize = 0;
    while i < words.len()
        invariant
            i <= words@.len(),
            4 * words@.len() <= usize::MAX,
            out@.len() == 4 * i,
            forall|a: int, j: int|
                0 <= a < i && 0 <= j < 4 ==> #[trigger] out@[4 * a + j] as u32 == byte(
                    words@[a],
                    j as u32,
                ),
        decreases words@.len() - i,
    {
        let w: u32 = words[i];
        let mut j: u32 = 0;
        while j < 4
            invariant
                i < words@.len(),
                w == words@[i as int],
                j <= 4,
                out@.len() == 4 * i + j,
                forall|a: int, b: int|
                    0 <= a < i && 0 <= b < 4 ==> #[trigger] out@[4 * a + b] as u32 == byte(
                        words@[a],
                        b as u32,
                    ),
                forall|b: int|
                    0 <= b < j ==> #[trigger] out@[4 * i + b] as u32 == byte(w, b as u32),
            decreases 4 - j,
        {
            let v: u32 = (w >> (8 * j)) & 255;
            assert(v < 256) by (bit_vector)
                requires
                    v == (w >> ((8 * j) as u32)) & 255,
            ;
            out.push(v as u8);
            j += 1;
        }
        i += 1;
    }
    out
}

/// A packed row gives its codes back.
pub proof fn law_pack_round_trip(weights: Seq<u32>, packed: Seq<u32>, k: int)
    requires
        packed.len() == weights.len() / 8,
        forall|j: int, i: int|
            0 <= j < packed.len() && 0 <= i < 8 ==> #[trigger] nibble(packed[j], i as u32)
                == #[trigger] weights[8 * j + i] & 15,
        0 <= k < 8 * packed.len(),
    ensures
        code_at(4, packed, 0, k) == weights[k] & 15,
{
    law_nibble_stream(packed, 0, k);
    assert(8 * (k / 8) + k % 8 == k);
    assert(nibble(packed[k / 8], (k % 8) as u32) == weights[8 * (k / 8) + k % 8] & 15);
}

/// A byte-packed row gives its codes back.
pub proof fn law_pack_int8_round_trip(weights: Seq<u32>, packed: Seq<u32>, k: int)
    requires
        packed.len() == weights.len() / 4,
        forall|j: int, i: int|
            0 <= j < packed.len() && 0 <= i < 4 ==> #[trigger] byte(packed[j], i as u32)
                == #[trigger] weights[4 * j + i] & 255,
        0 <= k < 4 * packed.len(),
    ensures
        code_at(8, packed, 0, k) == weights[k] & 255,
{
    law_byte_stream(packed, 0, k);
    assert(4 * (k / 4) + k % 4 == k);
    assert(byte(packed[k / 4], (k % 4) as u32) == weights[4 * (k / 4) + k % 4] & 255);
}

/// The next state of a 64-bit xorshift generator.
pub open spec fn xorshift(s: u64) -> u64 {
    let a = s ^ (s << 13u64);
    let b = a ^ (a >> 7u64);
    b ^ (b << 17u64)
}

/// The state after `n` steps from `seed`.
pub open spec fn xorshift_state(seed: u64, n: nat) -> u64
    decreases n,
{
    if n == 0 {
        seed
    } else {
        xorshift(xorshift_state(seed, (n - 1) as nat))
    }
}

/// A generator that does not start at zero never reaches it.
pub proof fn law_xorshift_stays_nonzero(seed: u64, n: nat)
    requires
        seed != 0,
    ensures
        xorshift_state(seed, n) != 0,
    decreases n,
{
    if n > 0 {
        law_xorshift_stays_nonzero(seed, (n - 1) as nat);
        let s = xorshift_state(seed, (n - 1) as nat);
        let a = s ^ (s << 13u64);
        let b = a ^ (a >> 7u64);
        assert(a != 0) by (bit_vector)
            requires
                s != 0,
                a == s ^ (s << 13u64),
        ;
        assert(b != 0) by (bit_vector)
            requires
                a != 0,
                b == a ^ (a >> 7u64),
        ;
        assert(b ^ (b << 17u64) != 0) by (bit_vector)
            requires
                b != 0,
        ;
    }
}

/// `n` draws below 20000 from a xorshift generator.
pub fn xorshift_draws(n: usize, seed: u64) -> (r: Vec<u32>)
    ensures
        r@ == Seq::new(n as nat, |i: int| (xorshift_state(seed, (i + 1) as nat) % 20_000) as u32),
{
    let ghost full = Seq::new(
        n as nat,
        |i: int| (xorshift_state(seed, (i + 1) as nat) % 20_000) as u32,
    );
    let mut out: Vec<u32> = Vec::new();
    let mut s: u64 = seed;
    let mut i: usize = 0;
    while i < n
        invariant
            i <= n,
            s == xorshift_state(seed, i as nat),
            full == Seq::new(
                n as nat,
                |i: int| (xorshift_state(seed, (i + 1) as nat) % 20_000) as u32,
            ),
            out@ == full.take(i as int),
        decreases n - i,
    {
        s = s ^ (s << 13u64);
        s = s ^ (s >> 7u64);
        s = s ^ (s << 17u64);
        out.push((s % 20_000) as u32);
        assert(out@ =~= full.take(i + 1));
        i += 1;
    }
    assert(out@ =~= full);
    out
}

/// Codes whose width divides a word never straddle two words.
pub proof fn law_aligned_codes_never_straddle(bits: int, k: int)
    requires
        bits == 1 || bits == 2 || bits == 4 || bits == 8,
        0 <= k,
    ensures
        (k * bits) % 32 + bits <= 32,
{
}

/// Bit `b` of code `k` is bit `k * bits + b` of the stream, counted from the
/// lowest bit of the first word, whether or not the code straddles two words.
pub proof fn law_code_is_run_of_bits(bits: u32, words: Seq<u32>, base: int, k: int, b: u32)
    requires
        0 < bits <= 8,
        0 <= k,
        b < bits,
    ensures
        (code_at(bits, words, base, k) >> b) & 1 == (words[base + (k * bits + b) / 32] >> (((k * bits
            + b) % 32) as u32)) & 1,
{
    let off = k * bits;
    assert(0 <= off) by (nonlinear_arith)
        requires
            0 <= k,
            0 < bits,
            off == k * bits,
    ;
    let sh = (off % 32) as u64;
    let lo = words[base + off / 32];
    let hi = if sh + bits > 32 {
        words[base + off / 32 + 1]
    } else {
        0u32
    };
    let n = (sh + b) as u32;
    if n < 32 {
        assert((off + b) / 32 == off / 32 && (off + b) % 32 == n);
        assert((((((((lo as u64) | ((hi as u64) << 32u64)) >> sh) & (((1u64 << (bits as u64)) - 1) as u64)) as u32)
            >> b) & 1) == (lo >> n) & 1) by (bit_vector)
            requires
                0 < bits <= 8,
                b < bits,
                sh < 32,
                n == (sh + b) as u32,
                n < 32,
        ;
    } else {
        let up = (n - 32) as u32;
        assert((off + b) / 32 == off / 32 + 1 && (off + b) % 32 == up);
        assert((((((((lo as u64) | ((hi as u64) << 32u64)) >> sh) & (((1u64 << (bits as u64)) - 1) as u64)) as u32)
            >> b) & 1) == (hi >> up) & 1) by (bit_vector)
            requires
                0 < bits <= 8,
                b < bits,
                sh < 32,
                up == (sh + b - 32) as u32,
                32 <= sh + b,
        ;
    }
}

} // verus!
