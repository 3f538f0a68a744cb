//! Storage of byte strings in JavaScript strings. Each block of 120 bytes (fifteen
//! little-endian 64-bit words) becomes 64 code units of fifteen bits each, so that
//! every unit is a valid UTF-16 code unit; a header unit tells whether the last
//! block is partial, in which case it starts with the number of bytes it carries.
use vstd::prelude::*;

verus! {

/// Size in bytes of one input block: fifteen 64-bit words.
pub const INPUT_BLOCK_SIZE: usize = 120;

/// Number of 15-bit code units one input block encodes to.
pub const OUTPUT_BLOCK_SIZE: usize = 64;

/// Mask of the fifteen payload bits of a code unit.
pub const LOW_FIFTEEN_BITS: u64 = 0x7FFF;

/// Mask of the low nibble of a word, which travels in the block's trailer.
pub const LOW_FOUR_BITS: u64 = 0xF;

/// The little-endian 64-bit word made of eight bytes.
pub open spec fn le_word(b0: u8, b1: u8, b2: u8, b3: u8, b4: u8, b5: u8, b6: u8, b7: u8) -> u64 {
    (b0 as u64) | ((b1 as u64) << 8u64) | ((b2 as u64) << 16u64) | ((b3 as u64) << 24u64) | ((
    b4 as u64) << 32u64) | ((b5 as u64) << 40u64) | ((b6 as u64) << 48u64) | ((b7 as u64)
        << 56u64)
}

/// Byte `k` (little-endian) of a word.
pub open spec fn word_byte(w: u64, k: int) -> u8 {
    ((w >> (8 * k) as u64) & 0xFFu64) as u8
}

proof fn lemma_le_word_bytes(b0: u8, b1: u8, b2: u8, b3: u8, b4: u8, b5: u8, b6: u8, b7: u8)
    ensures
        word_byte(le_word(b0, b1, b2, b3, b4, b5, b6, b7), 0) == b0,
        word_byte(le_word(b0, b1, b2, b3, b4, b5, b6, b7), 1) == b1,
        word_byte(le_word(b0, b1, b2, b3, b4, b5, b6, b7), 2) == b2,
        word_byte(le_word(b0, b1, b2, b3, b4, b5, b6, b7), 3) == b3,
        word_byte(le_word(b0, b1, b2, b3, b4, b5, b6, b7), 4) == b4,
        word_byte(le_word(b0, b1, b2, b3, b4, b5, b6, b7), 5) == b5,
        word_byte(le_word(b0, b1, b2, b3, b4, b5, b6, b7), 6) == b6,
        word_byte(le_word(b0, b1, b2, b3, b4, b5, b6, b7), 7) == b7,
{
    let w = le_word(b0, b1, b2, b3, b4, b5, b6, b7);
    assert(((w >> 0u64) & 0xFFu64) == b0 as u64 && ((w >> 8u64) & 0xFFu64) == b1 as u64 && ((w
        >> 16u64) & 0xFFu64) == b2 as u64 && ((w >> 24u64) & 0xFFu64) == b3 as u64 && ((w
        >> 32u64) & 0xFFu64) == b4 as u64 && ((w >> 40u64) & 0xFFu64) == b5 as u64 && ((w
        >> 48u64) & 0xFFu64) == b6 as u64 && ((w >> 56u64) & 0xFFu64) == b7 as u64)
        by (bit_vector)
        requires
            w == (b0 as u64) | ((b1 as u64) << 8u64) | ((b2 as u64) << 16u64) | ((b3 as u64)
                << 24u64) | ((b4 as u64) << 32u64) | ((b5 as u64) << 40u64) | ((b6 as u64)
                << 48u64) | ((b7 as u64) << 56u64),
    ;
}

/// A word is its low nibble together with four fifteen-bit fields.
proof fn lemma_word_split(w: u64)
    ensures
        w == (w & 0xFu64) | (((w >> 4u64) & 0x7FFFu64) << 4u64) | (((w >> 19u64) & 0x7FFFu64)
            << 19u64) | (((w >> 34u64) & 0x7FFFu64) << 34u64) | (((w >> 49u64) & 0x7FFFu64)
            << 49u64),
{
    assert(w == (w & 0xFu64) | (((w >> 4u64) & 0x7FFFu64) << 4u64) | (((w >> 19u64) & 0x7FFFu64)
        << 19u64) | (((w >> 34u64) & 0x7FFFu64) << 34u64) | (((w >> 49u64) & 0x7FFFu64)
        << 49u64)) by (bit_vector);
}

/// A sixty-bit value is its four fifteen-bit fields.
proof fn lemma_trailer_split(e: u64)
    requires
        e < 0x1000_0000_0000_0000u64,
    ensures
        e == (e & 0x7FFFu64) | (((e >> 15u64) & 0x7FFFu64) << 15u64) | (((e >> 30u64)
            & 0x7FFFu64) << 30u64) | (((e >> 45u64) & 0x7FFFu64) << 45u64),
{
    assert(e == (e & 0x7FFFu64) | (((e >> 15u64) & 0x7FFFu64) << 15u64) | (((e >> 30u64)
        & 0x7FFFu64) << 30u64) | (((e >> 45u64) & 0x7FFFu64) << 45u64)) by (bit_vector)
        requires
            e < 0x1000_0000_0000_0000u64,
    ;
}


proof fn lemma_shifted_trailer_fields(x: u64)
    requires
        x < 0x1000_0000_0000_0000u64,
    ensures
        (x << 4u64) >> 4u64 == x,
        ((x << 4u64) >> 4u64) & 0x7FFFu64 == x & 0x7FFFu64,
        ((x << 4u64) >> 19u64) & 0x7FFFu64 == (x >> 15u64) & 0x7FFFu64,
        ((x << 4u64) >> 34u64) & 0x7FFFu64 == (x >> 30u64) & 0x7FFFu64,
        ((x << 4u64) >> 49u64) & 0x7FFFu64 == (x >> 45u64) & 0x7FFFu64,
{
    assert((x << 4u64) >> 4u64 == x && ((x << 4u64) >> 19u64) & 0x7FFFu64 == (x >> 15u64)
        & 0x7FFFu64 && ((x << 4u64) >> 34u64) & 0x7FFFu64 == (x >> 30u64) & 0x7FFFu64 && ((x
        << 4u64) >> 49u64) & 0x7FFFu64 == (x >> 45u64) & 0x7FFFu64) by (bit_vector)
        requires
            x < 0x1000_0000_0000_0000u64,
    ;
}

// ------------------------------------------------------------------
// The format of one block
// ------------------------------------------------------------------

/// Word `w` (0..15) of a 120-byte block `c`, read little-endian.
pub open spec fn block_word(c: Seq<u8>, w: int) -> u64 {
    le_word(
        c[8 * w],
        c[8 * w + 1],
        c[8 * w + 2],
        c[8 * w + 3],
        c[8 * w + 4],
        c[8 * w + 5],
        c[8 * w + 6],
        c[8 * w + 7],
    )
}

/// The low nibbles of the first `n` words of block `c`, packed with the first
/// word's nibble most significant.
pub open spec fn block_trailer(c: Seq<u8>, n: nat) -> u64
    decreases n,
{
    if n == 0 {
        0
    } else {
        (block_trailer(c, (n - 1) as nat) << 4u64) | (block_word(c, n - 1) & 0xFu64)
    }
}

/// Code unit `j` (0..64) of the encoding of block `c`: units `4w..4w+4` carry
/// bits 4..64 of word `w` in fifteen-bit fields, units 60..64 carry the packed
/// nibbles of all fifteen words.
pub open spec fn block_unit(c: Seq<u8>, j: int) -> u16 {
    if j < 60 {
        ((block_word(c, j / 4) >> (4 + 15 * (j % 4)) as u64) & 0x7FFFu64) as u16
    } else {
        ((block_trailer(c, 15) >> (15 * (j - 60)) as u64) & 0x7FFFu64) as u16
    }
}

proof fn lemma_trailer_step_bound(x: u64, y: u64, s: u64)
    requires
        x < (1u64 << s),
        y < 16,
        s <= 56,
    ensures
        ((x << 4u64) | y) < (1u64 << (s + 4u64)),
{
    assert(((x << 4u64) | y) < (1u64 << (s + 4u64))) by (bit_vector)
        requires
            x < (1u64 << s),
            y < 16,
            s <= 56,
    ;
}

proof fn lemma_trailer_bound(c: Seq<u8>, n: nat)
    requires
        n <= 15,
    ensures
        block_trailer(c, n) < (1u64 << (4 * n) as u64),
    decreases n,
{
    if n == 0 {
        assert(0u64 < (1u64 << 0u64)) by (bit_vector);
    } else {
        lemma_trailer_bound(c, (n - 1) as nat);
        let w = block_word(c, n - 1);
        assert((w & 0xFu64) < 16) by (bit_vector);
        lemma_trailer_step_bound(block_trailer(c, (n - 1) as nat), w & 0xFu64, (4 * (n - 1)) as u64);
    }
}

proof fn lemma_trailer_step_nibble(x: u64, y: u64, s: u64)
    requires
        y < 16,
        s <= 52,
    ensures
        (((x << 4u64) | y) >> (s + 4u64)) & 0xFu64 == (x >> s) & 0xFu64,
        (((x << 4u64) | y) >> 0u64) & 0xFu64 == y,
{
    assert((((x << 4u64) | y) >> (s + 4u64)) & 0xFu64 == (x >> s) & 0xFu64 && (((x << 4u64) | y)
        >> 0u64) & 0xFu64 == y) by (bit_vector)
        requires
            y < 16,
            s <= 52,
    ;
}

/// The nibble of word `w` sits at bit `4 * (n - 1 - w)` of the packed trailer.
proof fn lemma_trailer_nibble(c: Seq<u8>, n: nat, w: int)
    requires
        n <= 15,
        0 <= w < n,
    ensures
        (block_trailer(c, n) >> (4 * (n - 1 - w)) as u64) & 0xFu64 == block_word(c, w) & 0xFu64,
    decreases n,
{
    let x = block_trailer(c, (n - 1) as nat);
    let bw = block_word(c, n - 1);
    let y = bw & 0xFu64;
    assert((bw & 0xFu64) < 16) by (bit_vector);
    if w == n - 1 {
        lemma_trailer_step_nibble(x, y, 0);
    } else {
        lemma_trailer_nibble(c, (n - 1) as nat, w);
        lemma_trailer_step_nibble(x, y, (4 * (n - 2 - w)) as u64);
        assert((4 * (n - 2 - w)) as u64 + 4u64 == (4 * (n - 1 - w)) as u64);
    }
}


// ------------------------------------------------------------------
// One word
// ------------------------------------------------------------------

/// Fifteen-bit field `k` (0..4) of word `w`: bits `4 + 15k` to `18 + 15k`.
pub open spec fn word_unit(w: u64, k: int) -> u16 {
    ((w >> (4 + 15 * k) as u64) & 0x7FFFu64) as u16
}

/// The word made of a low nibble and four fifteen-bit fields.
pub open spec fn reassembled_word(nibble: u64, u0: u16, u1: u16, u2: u16, u3: u16) -> u64 {
    nibble | ((u0 as u64) << 4u64) | ((u1 as u64) << 19u64) | ((u2 as u64) << 34u64) | ((u3
        as u64) << 49u64)
}

/// One word survives the round trip: the four fields that `write_byte_chunk` writes
/// for the word of eight bytes, together with that word's low nibble, make
/// `decode_block` write the same eight bytes back.
pub proof fn lemma_word_roundtrip(b0: u8, b1: u8, b2: u8, b3: u8, b4: u8, b5: u8, b6: u8, b7: u8)
    ensures
        ({
            let w = le_word(b0, b1, b2, b3, b4, b5, b6, b7);
            let r = reassembled_word(
                w & 0xFu64,
                word_unit(w, 0),
                word_unit(w, 1),
                word_unit(w, 2),
                word_unit(w, 3),
            );
            &&& r == w
            &&& forall|k: int|
                0 <= k < 8 ==> #[trigger] word_byte(r, k) == seq![b0, b1, b2, b3, b4, b5, b6, b7][k]
        }),
{
    let w = le_word(b0, b1, b2, b3, b4, b5, b6, b7);
    lemma_word_split(w);
    lemma_field_cast(w >> 4u64);
    lemma_field_cast(w >> 19u64);
    lemma_field_cast(w >> 34u64);
    lemma_field_cast(w >> 49u64);
    lemma_le_word_bytes(b0, b1, b2, b3, b4, b5, b6, b7);
    let bs = seq![b0, b1, b2, b3, b4, b5, b6, b7];
    assert forall|k: int| 0 <= k < 8 implies #[trigger] word_byte(w, k) == bs[k] by {
        if k == 0 {
        } else if k == 1 {
        } else if k == 2 {
        } else if k == 3 {
        } else if k == 4 {
        } else if k == 5 {
        } else if k == 6 {
        } else {
        }
    }
}

// ------------------------------------------------------------------
// Encoding
// ------------------------------------------------------------------

/// Reads the little-endian word `bytes[idx..idx + 8]`.
fn to_u64(bytes: &[u8], idx: usize) -> (r: u64)
    requires
        idx + 8 <= bytes@.len(),
    ensures
        r == le_word(
            bytes@[idx as int],
            bytes@[idx + 1],
            bytes@[idx + 2],
            bytes@[idx + 3],
            bytes@[idx + 4],
            bytes@[idx + 5],
            bytes@[idx + 6],
            bytes@[idx + 7],
        ),
{
    (bytes[idx] as u64) | ((bytes[idx + 1] as u64) << 8u64) | ((bytes[idx + 2] as u64) << 16u64)
        | ((bytes[idx + 3] as u64) << 24u64) | ((bytes[idx + 4] as u64) << 32u64) | ((bytes[idx
        + 5] as u64) << 40u64) | ((bytes[idx + 6] as u64) << 48u64) | ((bytes[idx + 7] as u64)
        << 56u64)
}

/// Encodes the word at `bytes[idx..idx + 8]` into `output[out_idx..out_idx + 4]`
/// and shifts its low nibble into `extras`.
fn write_byte_chunk(
    bytes: &[u8],
    idx: usize,
    extras: &mut u64,
    output: &mut Vec<u16>,
    out_idx: usize,
)
    requires
        idx + 8 <= bytes@.len(),
        out_idx + 4 <= old(output).len(),
    ensures
        ({
            let w = le_word(
                bytes@[idx as int],
                bytes@[idx + 1],
                bytes@[idx + 2],
                bytes@[idx + 3],
                bytes@[idx + 4],
                bytes@[idx + 5],
                bytes@[idx + 6],
                bytes@[idx + 7],
            );
            &&& *final(extras) == (*old(extras) | (w & 0xFu64)) << 4u64
            &&& final(output)@.len() == old(output)@.len()
            &&& forall|i: int|
                0 <= i < old(output)@.len() && !(out_idx <= i < out_idx + 4) ==> #[trigger] final(output)@[i] == old(output)@[i]
            &&& forall|k: int|
                0 <= k < 4 ==> #[trigger] final(output)@[out_idx + k] == word_unit(w, k)
        }),
{
    let byte_u64 = to_u64(bytes, idx);
    *extras = (*extras | (byte_u64 & LOW_FOUR_BITS)) << 4u64;
    output.set(out_idx, ((byte_u64 >> 4u64) & LOW_FIFTEEN_BITS) as u16);
    output.set(out_idx + 1, ((byte_u64 >> 19u64) & LOW_FIFTEEN_BITS) as u16);
    output.set(out_idx + 2, ((byte_u64 >> 34u64) & LOW_FIFTEEN_BITS) as u16);
    output.set(out_idx + 3, ((byte_u64 >> 49u64) & LOW_FIFTEEN_BITS) as u16);
    proof {
        assert forall|k: int| 0 <= k < 4 implies #[trigger] output@[out_idx + k] == ((byte_u64 >> (4
            + 15 * k) as u64) & 0x7FFFu64) as u16 by {
            if k == 0 {
            } else if k == 1 {
            } else if k == 2 {
            } else {
            }
        }
    }
}

/// Encodes the 120-byte block `bytes[start..start + 120]` into
/// `output[out_start..out_start + 64]`.
fn encode_block(bytes: &[u8], start: usize, output: &mut Vec<u16>, out_start: usize)
    requires
        start + 120 <= bytes@.len(),
        out_start + 64 <= old(output).len(),
    ensures
        final(output)@.len() == old(output)@.len(),
        forall|i: int|
            0 <= i < old(output)@.len() && !(out_start <= i < out_start + 64) ==> #[trigger] final(output)@[i] == old(output)@[i],
        forall|j: int|
            0 <= j < 64 ==> #[trigger] final(output)@[out_start + j] == block_unit(
                bytes@.subrange(start as int, start + 120),
                j,
            ),
{
    let ghost c = bytes@.subrange(start as int, start + 120);
    let mut extras: u64 = 0;
    let mut w: usize = 0;
    assert(0u64 << 4u64 == 0u64) by (bit_vector);
    while w < 15
        invariant
            w <= 15,
            start + 120 <= bytes.len(),
            out_start + 64 <= output.len(),
            output@.len() == old(output)@.len(),
            c == bytes@.subrange(start as int, start + 120),
            extras == block_trailer(c, w as nat) << 4u64,
            forall|i: int|
                0 <= i < old(output)@.len() && !(out_start <= i < out_start + 64) ==> #[trigger] output@[i]
                    == old(output)@[i],
            forall|j: int| 0 <= j < 4 * w ==> #[trigger] output@[out_start + j] == block_unit(c, j),
        decreases 15 - w,
    {
        let ghost prev = output@;
        write_byte_chunk(bytes, start + 8 * w, &mut extras, output, out_start + 4 * w);
        proof {
            assert(block_word(c, w as int) == le_word(
                bytes@[start + 8 * w],
                bytes@[start + 8 * w + 1],
                bytes@[start + 8 * w + 2],
                bytes@[start + 8 * w + 3],
                bytes@[start + 8 * w + 4],
                bytes@[start + 8 * w + 5],
                bytes@[start + 8 * w + 6],
                bytes@[start + 8 * w + 7],
            ));
            assert forall|j: int| 0 <= j < 4 * (w + 1) implies #[trigger] output@[out_start + j]
                == block_unit(c, j) by {
                if j >= 4 * w {
                    assert(output@[out_start + 4 * w + (j - 4 * w)] == ((block_word(c, w as int) >> (4
                        + 15 * (j - 4 * w)) as u64) & 0x7FFFu64) as u16);
                    assert(j / 4 == w);
                    assert(j % 4 == j - 4 * w);
                } else {
                    assert(prev[out_start + j] == block_unit(c, j));
                }
            }
        }
        w = w + 1;
    }
    proof {
        lemma_trailer_bound(c, 15);
        assert((1u64 << 60u64) == 0x1000_0000_0000_0000u64) by (bit_vector);
        lemma_shifted_trailer_fields(block_trailer(c, 15));
    }
    let ghost t = block_trailer(c, 15);
    let ghost before = output@;
    assert((t >> 0u64) == t) by (bit_vector);
    output.set(out_start + 60, ((extras >> 4u64) & LOW_FIFTEEN_BITS) as u16);
    output.set(out_start + 61, ((extras >> 19u64) & LOW_FIFTEEN_BITS) as u16);
    output.set(out_start + 62, ((extras >> 34u64) & LOW_FIFTEEN_BITS) as u16);
    output.set(out_start + 63, ((extras >> 49u64) & LOW_FIFTEEN_BITS) as u16);
    proof {
        assert forall|j: int| 0 <= j < 64 implies #[trigger] output@[out_start + j] == block_unit(
            c,
            j,
        ) by {
            if j >= 60 {
                if j == 60 {
                    assert(block_unit(c, j) == ((t >> 0u64) & 0x7FFFu64) as u16);
                } else if j == 61 {
                    assert(block_unit(c, j) == ((t >> 15u64) & 0x7FFFu64) as u16);
                } else if j == 62 {
                    assert(block_unit(c, j) == ((t >> 30u64) & 0x7FFFu64) as u16);
                } else {
                    assert(block_unit(c, j) == ((t >> 45u64) & 0x7FFFu64) as u16);
                }
            } else {
                assert(before[out_start + j] == block_unit(c, j));
            }
        }
    }
}


// ------------------------------------------------------------------
// The format of a whole byte string
// ------------------------------------------------------------------

/// Number of 64-unit blocks that a byte string of length `len` occupies.
pub open spec fn num_blocks(len: nat) -> nat {
    len / 120 + if len % 120 != 0 {
        1nat
    } else {
        0nat
    }
}

/// Byte `q` (0..120) of input block `blk`. Full blocks are taken from `b` as they
/// are; the last, partial block starts with the number of bytes it carries,
/// followed by those bytes and zero padding.
pub open spec fn padded_byte(b: Seq<u8>, blk: int, q: int) -> u8 {
    if blk < b.len() / 120 {
        b[120 * blk + q]
    } else if q == 0 {
        (b.len() % 120) as u8
    } else if 120 * blk + q - 1 < b.len() {
        b[120 * blk + q - 1]
    } else {
        0
    }
}

/// The 120 bytes of input block `blk` of `b`.
pub open spec fn input_block(b: Seq<u8>, blk: int) -> Seq<u8> {
    Seq::new(120, |q: int| padded_byte(b, blk, q))
}

/// The code units that `bytestring_to_utf15` produces for `b`: nothing for an empty
/// input; otherwise a header unit (0x31 when the last block is partial, 0x30 when
/// it is not) followed by 64 units for each block.
pub open spec fn utf15_encoding(b: Seq<u8>) -> Seq<u16> {
    if b.len() == 0 {
        Seq::empty()
    } else {
        Seq::new(
            64 * num_blocks(b.len()) + 1,
            |i: int|
                if i == 0 {
                    if b.len() % 120 != 0 {
                        0x31u16
                    } else {
                        0x30u16
                    }
                } else {
                    block_unit(input_block(b, (i - 1) / 64), (i - 1) % 64)
                },
        )
    }
}

/// Encodes a byte string as 15-bit code units, so that it survives storage as a
/// string of UTF-16 code units.
pub fn bytestring_to_utf15(bytes: &[u8]) -> (output: Vec<u16>)
    ensures
        output@ == utf15_encoding(bytes@),
{
    if bytes.len() == 0 {
        return Vec::new();
    }
    let len = bytes.len();
    let remainder = len % INPUT_BLOCK_SIZE;
    let num_blocks = len / INPUT_BLOCK_SIZE + (if remainder != 0 {
        1
    } else {
        0
    });
    assert(64 * (len / 120 + 1) + 1 <= usize::MAX) by (nonlinear_arith)
        requires
            len <= usize::MAX,
    ;
    let encoded_len = OUTPUT_BLOCK_SIZE * num_blocks + 1;
    let has_remainder = remainder != 0;
    let mut output: Vec<u16> = vec![0; encoded_len];
    if has_remainder {
        output.set(0, 0x0031);
    } else {
        output.set(0, 0x0030);
    }
    let ghost spec_out = utf15_encoding(bytes@);
    let mut output_index: usize = 1;
    let mut input_index: usize = 0;
    let last_fast_index = len.saturating_sub(120);
    if len >= INPUT_BLOCK_SIZE {
        while input_index <= last_fast_index
            invariant
                len == bytes@.len(),
                len >= 120,
                last_fast_index == len - 120,
                encoded_len == 64 * num_blocks + 1,
                num_blocks == crate::strlib::num_blocks(len as nat),
                has_remainder == (len % 120 != 0),
                spec_out == utf15_encoding(bytes@),
                output@.len() == encoded_len,
                input_index % 120 == 0,
                input_index <= len,
                output_index == 64 * (input_index / 120) + 1,
                output@[0] == spec_out[0],
                forall|i: int| 1 <= i < output_index ==> #[trigger] output@[i] == spec_out[i],
                forall|i: int| output_index <= i < encoded_len ==> #[trigger] output@[i] == 0u16,
            decreases len - input_index,
        {
            let ghost blk: int = (input_index / 120) as int;
            let ghost prev = output@;
            assert(64 * blk + 64 < encoded_len) by (nonlinear_arith)
                requires
                    input_index == 120 * blk,
                    input_index + 120 <= len,
                    encoded_len == 64 * num_blocks + 1,
                    num_blocks >= len / 120,
            ;
            encode_block(bytes, input_index, &mut output, output_index);
            proof {
                assert(bytes@.subrange(input_index as int, input_index + 120) =~= input_block(
                    bytes@,
                    blk,
                ));
                assert forall|i: int| 1 <= i < output_index + 64 implies #[trigger] output@[i]
                    == spec_out[i] by {
                    if i >= output_index {
                        let j = i - output_index;
                        assert(output@[output_index + j] == block_unit(
                            bytes@.subrange(input_index as int, input_index + 120),
                            j,
                        ));
                        assert((i - 1) / 64 == blk);
                        assert((i - 1) % 64 == j);
                    } else {
                        assert(prev[i] == spec_out[i]);
                    }
                }
            }
            input_index += INPUT_BLOCK_SIZE;
            output_index += OUTPUT_BLOCK_SIZE;
        }
    }
    let ghost fb: int = (len / 120) as int;
    assert(input_index == 120 * fb && output_index == 64 * fb + 1) by {
        if len >= 120 {
            assert(input_index / 120 == len / 120);
        }
    }
    assert(forall|i: int| 1 <= i < output_index ==> #[trigger] output@[i] == spec_out[i]);
    assert(forall|i: int| output_index <= i < encoded_len ==> #[trigger] output@[i] == 0u16);
    if has_remainder {
        let mut bytes_chunk: Vec<u8> = vec![0; INPUT_BLOCK_SIZE];
        bytes_chunk.set(0, (len - input_index) as u8);
        let mut k: usize = 0;
        while k < len - input_index
            invariant
                bytes_chunk@.len() == 120,
                input_index <= len,
                len - input_index < 120,
                len == bytes@.len(),
                k <= len - input_index,
                bytes_chunk@[0] == (len - input_index) as u8,
                forall|q: int| 1 <= q <= k ==> #[trigger] bytes_chunk@[q] == bytes@[input_index + q - 1],
                forall|q: int| k < q < 120 ==> #[trigger] bytes_chunk@[q] == 0u8,
            decreases len - input_index - k,
        {
            bytes_chunk.set(1 + k, bytes[input_index + k]);
            k += 1;
        }
        let ghost prev = output@;
        encode_block(bytes_chunk.as_slice(), 0, &mut output, output_index);
        proof {
            let blk = len / 120;
            assert(fb == blk);
            assert(bytes_chunk@.subrange(0, 120) =~= input_block(bytes@, blk as int));
            assert forall|i: int| 1 <= i < encoded_len implies #[trigger] output@[i]
                == spec_out[i] by {
                if i >= output_index {
                    let j = i - output_index;
                    assert(output@[output_index + j] == block_unit(bytes_chunk@.subrange(0, 120), j));
                    assert((i - 1) / 64 == blk);
                    assert((i - 1) % 64 == j);
                } else {
                    assert(prev[i] == spec_out[i]);
                }
            }
        }
    } else {
        proof {
            assert forall|i: int| 1 <= i < encoded_len implies #[trigger] output@[i]
                == spec_out[i] by {
                assert(output_index == encoded_len);
            }
        }
    }
    assert(output@ =~= spec_out);
    output
}


// ------------------------------------------------------------------
// Decoding
// ------------------------------------------------------------------

/// Code unit `j` (0..64) of block `blk` of an encoded string `s`.
pub open spec fn unit_of(s: Seq<u16>, blk: int, j: int) -> u16 {
    s[1 + 64 * blk + j]
}

/// The packed nibbles that block `blk` of `s` carries in its last four units.
pub open spec fn decoded_trailer(s: Seq<u16>, blk: int) -> u64 {
    (unit_of(s, blk, 60) as u64) | ((unit_of(s, blk, 61) as u64) << 15u64) | ((unit_of(
        s,
        blk,
        62,
    ) as u64) << 30u64) | ((unit_of(s, blk, 63) as u64) << 45u64)
}

/// Word `w` (0..15) of block `blk` of `s`, reassembled from its nibble in the
/// trailer and its four fifteen-bit fields.
pub open spec fn decoded_word(s: Seq<u16>, blk: int, w: int) -> u64 {
    ((decoded_trailer(s, blk) >> (56 - 4 * w) as u64) & 0xFu64) | ((unit_of(s, blk, 4 * w) as u64)
        << 4u64) | ((unit_of(s, blk, 4 * w + 1) as u64) << 19u64) | ((unit_of(s, blk, 4 * w + 2)
        as u64) << 34u64) | ((unit_of(s, blk, 4 * w + 3) as u64) << 49u64)
}

/// Byte `q` (0..120) of block `blk` of `s`.
pub open spec fn decoded_byte(s: Seq<u16>, blk: int, q: int) -> u8 {
    word_byte(decoded_word(s, blk, q / 8), q % 8)
}

/// Whether the header of `s` announces a partial last block.
pub open spec fn has_partial_block(s: Seq<u16>) -> bool {
    s[0] == 0x31u16
}

/// Number of 64-unit blocks after the header of `s`.
pub open spec fn unit_blocks(s: Seq<u16>) -> nat {
    ((s.len() - 1) / 64) as nat
}

/// Number of blocks of `s` that decode to a full 120 bytes.
pub open spec fn full_block_count(s: Seq<u16>) -> nat {
    if has_partial_block(s) {
        (unit_blocks(s) - 1) as nat
    } else {
        unit_blocks(s)
    }
}

/// Number of bytes that the partial last block of `s` carries (its first byte).
pub open spec fn partial_len(s: Seq<u16>) -> nat {
    if has_partial_block(s) {
        decoded_byte(s, unit_blocks(s) - 1, 0) as nat
    } else {
        0
    }
}

/// The strings that `utf15_to_bytestring` accepts: empty, or a header unit 0x30 or
/// 0x31 followed by at least one block of 64 fifteen-bit units, whose partial
/// last block, if announced, claims at most 119 bytes.
pub open spec fn utf15_well_formed(s: Seq<u16>) -> bool {
    s.len() == 0 || {
        &&& s.len() % 64 == 1
        &&& s.len() > 1
        &&& (s[0] == 0x30u16 || s[0] == 0x31u16)
        &&& forall|i: int| 1 <= i < s.len() ==> #[trigger] s[i] < 0x8000u16
        &&& partial_len(s) <= 119
    }
}

/// The bytes that `utf15_to_bytestring` recovers from a well-formed `s`: all bytes
/// of the full blocks, then the bytes that the partial block carries after its
/// length byte.
pub open spec fn utf15_decoding(s: Seq<u16>) -> Seq<u8> {
    if s.len() == 0 {
        Seq::empty()
    } else {
        let fb = full_block_count(s);
        Seq::new(
            120 * fb + partial_len(s),
            |p: int|
                if p < 120 * fb {
                    decoded_byte(s, p / 120, p % 120)
                } else {
                    decoded_byte(s, fb as int, p - 120 * fb + 1)
                },
        )
    }
}

/// Writes the little-endian bytes of `num` to `buf[idx..idx + 8]`.
fn write_u64(num: u64, buf: &mut Vec<u8>, idx: usize)
    requires
        idx + 8 <= old(buf).len(),
    ensures
        final(buf)@.len() == old(buf)@.len(),
        forall|i: int|
            0 <= i < old(buf)@.len() && !(idx <= i < idx + 8) ==> #[trigger] final(buf)@[i] == old(buf)@[i],
        forall|k: int| 0 <= k < 8 ==> #[trigger] final(buf)@[idx + k] == word_byte(num, k),
{
    buf.set(idx, (num & 0xFFu64) as u8);
    buf.set(idx + 1, ((num >> 8u64) & 0xFFu64) as u8);
    buf.set(idx + 2, ((num >> 16u64) & 0xFFu64) as u8);
    buf.set(idx + 3, ((num >> 24u64) & 0xFFu64) as u8);
    buf.set(idx + 4, ((num >> 32u64) & 0xFFu64) as u8);
    buf.set(idx + 5, ((num >> 40u64) & 0xFFu64) as u8);
    buf.set(idx + 6, ((num >> 48u64) & 0xFFu64) as u8);
    buf.set(idx + 7, ((num >> 56u64) & 0xFFu64) as u8);
    proof {
        assert((num >> 0u64) == num) by (bit_vector);
        assert forall|k: int| 0 <= k < 8 implies #[trigger] buf@[idx + k] == word_byte(num, k) by {
            if k == 0 {
            } else if k == 1 {
            } else if k == 2 {
            } else if k == 3 {
            } else if k == 4 {
            } else if k == 5 {
            } else if k == 6 {
            } else {
            }
        }
    }
}

/// Reassembles a word from `remainder` (its low nibble) and the four units at
/// `input[idx..idx + 4]`, and writes its bytes to `output[out_idx..out_idx + 8]`.
fn decode_block(input: &[u16], idx: usize, remainder: u64, output: &mut Vec<u8>, out_idx: usize)
    requires
        idx + 4 <= input@.len(),
        out_idx + 8 <= old(output).len(),
    ensures
        final(output)@.len() == old(output)@.len(),
        forall|i: int|
            0 <= i < old(output)@.len() && !(out_idx <= i < out_idx + 8) ==> #[trigger] final(output)@[i] == old(output)@[i],
        forall|k: int|
            0 <= k < 8 ==> #[trigger] final(output)@[out_idx + k] == word_byte(
                reassembled_word(
                    remainder,
                    input@[idx as int],
                    input@[idx + 1],
                    input@[idx + 2],
                    input@[idx + 3],
                ),
                k,
            ),
{
    let mut accum = remainder;
    accum |= (input[idx] as u64) << 4u64;
    accum |= (input[idx + 1] as u64) << 19u64;
    accum |= (input[idx + 2] as u64) << 34u64;
    accum |= (input[idx + 3] as u64) << 49u64;
    write_u64(accum, output, out_idx);
}

/// Reassembles the packed nibbles from the four units at `input[idx..idx + 4]`.
fn decode_extra(input: &[u16], idx: usize) -> (accum: u64)
    requires
        idx + 4 <= input@.len(),
    ensures
        accum == (input@[idx as int] as u64) | ((input@[idx + 1] as u64) << 15u64) | ((input@[idx
            + 2] as u64) << 30u64) | ((input@[idx + 3] as u64) << 45u64),
{
    let mut accum: u64 = input[idx] as u64;
    accum |= (input[idx + 1] as u64) << 15u64;
    accum |= (input[idx + 2] as u64) << 30u64;
    accum |= (input[idx + 3] as u64) << 45u64;
    accum
}


proof fn lemma_top_nibble(u0: u16, u1: u16, u2: u16, u3: u16)
    ensures
        ((((u0 as u64) | ((u1 as u64) << 15u64) | ((u2 as u64) << 30u64) | ((u3 as u64) << 45u64))
            >> 56u64) & 0xFu64) == ((u3 >> 11u16) as u64) & 0xFu64,
{
    assert(((((u0 as u64) | ((u1 as u64) << 15u64) | ((u2 as u64) << 30u64) | ((u3 as u64)
        << 45u64)) >> 56u64) & 0xFu64) == ((u3 >> 11u16) as u64) & 0xFu64) by (bit_vector);
}

/// Decodes 15-bit code units produced by `bytestring_to_utf15` back into bytes.
pub fn utf15_to_bytestring(utf15: &[u16]) -> (output: Vec<u8>)
    requires
        utf15_well_formed(utf15@),
        utf15@.len() <= usize::MAX / 2,
    ensures
        output@ == utf15_decoding(utf15@),
{
    if utf15.len() == 0 {
        return Vec::new();
    }
    let ghost s = utf15@;
    let first = utf15[0];
    let has_remainder = first == 0x0031;
    let n = utf15.len() - 1;
    let fast_blocks: usize;
    let remainder_size: usize;
    if has_remainder {
        let mut buf: Vec<u8> = vec![0; 8];
        let remainder_start = 1 + n - OUTPUT_BLOCK_SIZE;
        let extra = ((utf15[remainder_start + 63] >> 11u16) as u64) & LOW_FOUR_BITS;
        proof {
            let blk = unit_blocks(s) - 1;
            assert(remainder_start == 1 + 64 * blk);
            lemma_top_nibble(
                unit_of(s, blk, 60),
                unit_of(s, blk, 61),
                unit_of(s, blk, 62),
                unit_of(s, blk, 63),
            );
        }
        decode_block(utf15, remainder_start, extra, &mut buf, 0);
        fast_blocks = n / OUTPUT_BLOCK_SIZE - 1;
        remainder_size = buf[0] as usize;
        assert(remainder_size == partial_len(s)) by {
            assert(buf@[0int + 0int] == word_byte(decoded_word(s, unit_blocks(s) - 1, 0), 0));
        }
    } else {
        fast_blocks = n / OUTPUT_BLOCK_SIZE;
        remainder_size = 0;
    }
    assert(fast_blocks == full_block_count(s));
    assert(120 * fast_blocks + remainder_size <= usize::MAX) by (nonlinear_arith)
        requires
            fast_blocks <= n / 64,
            n < usize::MAX / 2,
            remainder_size <= 119,
    ;
    let ghost spec_out = utf15_decoding(s);
    let mut output: Vec<u8> = vec![0; INPUT_BLOCK_SIZE * fast_blocks + remainder_size];
    let mut utf15_index: usize = 1;
    let mut output_index: usize = 0;
    let mut b: usize = 0;
    while b < fast_blocks
        invariant
            s == utf15@,
            utf15_well_formed(s),
            s.len() == n + 1,
            n % 64 == 0,
            fast_blocks <= n / 64,
            fast_blocks == full_block_count(s),
            remainder_size == partial_len(s),
            spec_out == utf15_decoding(s),
            output.len() == 120 * fast_blocks + remainder_size,
            b <= fast_blocks,
            utf15_index == 64 * b + 1,
            output_index == 120 * b,
            forall|p: int| 0 <= p < output_index ==> #[trigger] output@[p] == spec_out[p],
        decreases fast_blocks - b,
    {
        assert(utf15_index + 64 <= s.len()) by (nonlinear_arith)
            requires
                utf15_index == 64 * b + 1,
                b < fast_blocks,
                fast_blocks <= n / 64,
                s.len() == n + 1,
        ;
        assert(output_index + 120 <= output@.len()) by (nonlinear_arith)
            requires
                output_index == 120 * b,
                b < fast_blocks,
                output@.len() == 120 * fast_blocks + remainder_size,
        ;
        let extra = decode_extra(utf15, utf15_index + 60);
        assert(extra == decoded_trailer(s, b as int));
        let mut w: usize = 0;
        while w < 15
            invariant
                s == utf15@,
                w <= 15,
                utf15_index + 64 <= s.len(),
                output_index + 120 <= output.len(),
                output@.len() == 120 * fast_blocks + remainder_size,
                utf15_index == 64 * b + 1,
                extra == decoded_trailer(s, b as int),
                forall|p: int| 0 <= p < output_index ==> #[trigger] output@[p] == spec_out[p],
                forall|q: int|
                    0 <= q < 8 * w ==> #[trigger] output@[output_index + q] == decoded_byte(
                        s,
                        b as int,
                        q,
                    ),
            decreases 15 - w,
        {
            let ghost prev = output@;
            let shift = (56 - 4 * w) as u64;
            decode_block(
                utf15,
                utf15_index + 4 * w,
                (extra >> shift) & LOW_FOUR_BITS,
                &mut output,
                output_index + 8 * w,
            );
            proof {
                assert forall|q: int| 0 <= q < 8 * (w + 1) implies #[trigger] output@[output_index + q]
                    == decoded_byte(s, b as int, q) by {
                    if q >= 8 * w {
                        let k = q - 8 * w;
                        assert(output@[output_index + 8 * w + k] == word_byte(
                            decoded_word(s, b as int, w as int),
                            k,
                        ));
                        assert(q / 8 == w);
                        assert(q % 8 == k);
                    } else {
                        assert(prev[output_index + q] == decoded_byte(s, b as int, q));
                    }
                }
                assert forall|p: int| 0 <= p < output_index implies #[trigger] output@[p]
                    == spec_out[p] by {
                    assert(prev[p] == spec_out[p]);
                }
            }
            w += 1;
        }
        proof {
            assert forall|p: int| 0 <= p < output_index + 120 implies #[trigger] output@[p]
                == spec_out[p] by {
                if p >= output_index {
                    let q = p - output_index;
                    assert(output@[output_index + q] == decoded_byte(s, b as int, q));
                    assert(p / 120 == b);
                    assert(p % 120 == q);
                }
            }
        }
        output_index += INPUT_BLOCK_SIZE;
        utf15_index += OUTPUT_BLOCK_SIZE;
        b += 1;
    }
    assert(b == fast_blocks);
    if has_remainder {
        let ghost fb: int = fast_blocks as int;
        let ghost rs: int = remainder_size as int;
        assert(utf15_index + 64 <= s.len()) by (nonlinear_arith)
            requires
                utf15_index == 64 * b + 1,
                b == fast_blocks,
                fast_blocks == n / 64 - 1,
                n % 64 == 0,
                s.len() == n + 1,
        ;
        assert(fb == unit_blocks(s) - 1);
        let extra = decode_extra(utf15, utf15_index + 60);
        assert(extra == decoded_trailer(s, fb));
        assert(spec_out.len() == 120 * fb + rs);
        let mut tmp: Vec<u8> = vec![0; 8];
        decode_block(utf15, utf15_index, (extra >> 56u64) & LOW_FOUR_BITS, &mut tmp, 0);
        assert(forall|k: int| 0 <= k < 8 ==> #[trigger] tmp@[0 + k] == word_byte(decoded_word(s, fb, 0), k));
        let head = if remainder_size < 7 {
            remainder_size
        } else {
            7
        };
        let mut t: usize = 0;
        while t < head
            invariant
                s == utf15@,
                spec_out == utf15_decoding(s),
                head <= 7,
                head <= remainder_size,
                remainder_size == rs,
                output.len() == 120 * fast_blocks + remainder_size,
                output_index == 120 * fb,
                fb == fast_blocks,
                fb == full_block_count(s),
                rs == partial_len(s),
                spec_out.len() == 120 * fb + rs,
                t <= head,
                tmp@.len() == 8,
                forall|k: int| 0 <= k < 8 ==> #[trigger] tmp@[0 + k] == word_byte(decoded_word(s, fb, 0), k),
                forall|p: int| 0 <= p < output_index + t ==> #[trigger] output@[p] == spec_out[p],
            decreases head - t,
        {
            let ghost prev = output@;
            output.set(output_index + t, tmp[1 + t]);
            proof {
                let p = output_index + t;
                assert forall|p2: int| 0 <= p2 < output_index + t implies #[trigger] output@[p2]
                    == spec_out[p2] by {
                    assert(prev[p2] == spec_out[p2]);
                }
                assert(tmp@[0 + (1 + t)] == word_byte(decoded_word(s, fb, 0), 1 + t));
                assert(p - 120 * fb + 1 == 1 + t);
                assert((1 + t) / 8 == 0int);
                assert((1 + t) % 8 == 1 + t);
                assert(spec_out[p] == decoded_byte(s, fb, p - 120 * fb + 1));
            }
            t += 1;
        }
        if remainder_size <= 7 {
            assert(output@ =~= spec_out);
            return output;
        }
        let out_base = output_index + 7;
        let utf_base = utf15_index + 4;
        let semi_fast_blocks = (remainder_size - 7) / 8;
        let annoying_bytes = (remainder_size - 7) % 8;
        let mut i: usize = 0;
        while i < semi_fast_blocks
            invariant
                s == utf15@,
                spec_out == utf15_decoding(s),
                utf15_well_formed(s),
                remainder_size == rs,
                7 < rs <= 119,
                output.len() == 120 * fast_blocks + remainder_size,
                output_index == 120 * fb,
                out_base == output_index + 7,
                utf_base == utf15_index + 4,
                utf15_index == 64 * fb + 1,
                utf15_index + 64 <= s.len(),
                semi_fast_blocks == (rs - 7) / 8,
                fb == full_block_count(s),
                rs == partial_len(s),
                fb == fast_blocks,
                spec_out.len() == 120 * fb + rs,
                extra == decoded_trailer(s, fb),
                i <= semi_fast_blocks,
                forall|p: int| 0 <= p < out_base + 8 * i ==> #[trigger] output@[p] == spec_out[p],
            decreases semi_fast_blocks - i,
        {
            let ghost prev = output@;
            assert(out_base + 8 * i + 8 <= output.len()) by (nonlinear_arith)
                requires
                    out_base == 120 * fb + 7,
                    i < semi_fast_blocks,
                    semi_fast_blocks == (rs - 7) / 8,
                    7 < rs,
                    output.len() == 120 * fb + rs,
            ;
            let shift = (52 - 4 * i) as u64;
            decode_block(
                utf15,
                utf_base + 4 * i,
                (extra >> shift) & LOW_FOUR_BITS,
                &mut output,
                out_base + 8 * i,
            );
            proof {
                assert forall|p: int| 0 <= p < out_base + 8 * (i + 1) implies #[trigger] output@[p]
                    == spec_out[p] by {
                    if p >= out_base + 8 * i {
                        let k = p - out_base - 8 * i;
                        assert(output@[out_base + 8 * i + k] == word_byte(
                            decoded_word(s, fb, i + 1),
                            k,
                        ));
                        assert(p - 120 * fb + 1 == 8 * (i + 1) + k);
                        assert((8 * (i + 1) + k) / 8 == i + 1);
                        assert((8 * (i + 1) + k) % 8 == k);
                    } else {
                        assert(prev[p] == spec_out[p]);
                    }
                }
            }
            i += 1;
        }
        if annoying_bytes > 0 {
            let shift = (52 - 4 * semi_fast_blocks) as u64;
            decode_block(
                utf15,
                utf_base + 4 * semi_fast_blocks,
                (extra >> shift) & LOW_FOUR_BITS,
                &mut tmp,
                0,
            );
            let tail_base = out_base + 8 * semi_fast_blocks;
            let mut k: usize = 0;
            while k < annoying_bytes
                invariant
                    s == utf15@,
                    spec_out == utf15_decoding(s),
                    remainder_size == rs,
                    output.len() == 120 * fast_blocks + remainder_size,
                    output_index == 120 * fb,
                    fb == fast_blocks,
                    tail_base == output_index + 7 + 8 * semi_fast_blocks,
                    semi_fast_blocks == (rs - 7) / 8,
                    annoying_bytes == (rs - 7) % 8,
                    7 < rs <= 119,
                    fb == full_block_count(s),
                    rs == partial_len(s),
                    spec_out.len() == 120 * fb + rs,
                    k <= annoying_bytes,
                    tmp@.len() == 8,
                    forall|j: int|
                        0 <= j < 8 ==> #[trigger] tmp@[0 + j] == word_byte(
                            decoded_word(s, fb, semi_fast_blocks + 1),
                            j,
                        ),
                    forall|p: int| 0 <= p < tail_base + k ==> #[trigger] output@[p] == spec_out[p],
                decreases annoying_bytes - k,
            {
                let ghost prev = output@;
                assert(tail_base + k < output.len()) by (nonlinear_arith)
                    requires
                        tail_base == 120 * fb + 7 + 8 * semi_fast_blocks,
                        k < annoying_bytes,
                        semi_fast_blocks == (rs - 7) / 8,
                        annoying_bytes == (rs - 7) % 8,
                        7 < rs,
                        output.len() == 120 * fb + rs,
                ;
                output.set(tail_base + k, tmp[k]);
                proof {
                    let p = tail_base + k;
                    assert forall|p2: int| 0 <= p2 < tail_base + k implies #[trigger] output@[p2]
                        == spec_out[p2] by {
                        assert(prev[p2] == spec_out[p2]);
                    }
                    assert(spec_out[p] == decoded_byte(s, fb, p - 120 * fb + 1));
                    assert(tmp@[0 + k] == word_byte(decoded_word(s, fb, semi_fast_blocks + 1), k as int));
                    assert(p - 120 * fb + 1 == 8 * (semi_fast_blocks + 1) + k);
                    assert((8 * (semi_fast_blocks + 1) + k) / 8 == semi_fast_blocks + 1);
                    assert((8 * (semi_fast_blocks + 1) + k) % 8 == k);
                }
                k += 1;
            }
        }
    }
    assert(output@ =~= spec_out);
    output
}


/// Checks whether `utf15` is a string that `utf15_to_bytestring` accepts.
pub fn is_utf15_well_formed(utf15: &[u16]) -> (r: bool)
    ensures
        r == utf15_well_formed(utf15@),
{
    let len = utf15.len();
    if len == 0 {
        return true;
    }
    if len % OUTPUT_BLOCK_SIZE != 1 || len == 1 {
        return false;
    }
    let first = utf15[0];
    if first != 0x0030 && first != 0x0031 {
        return false;
    }
    let mut i: usize = 1;
    while i < len
        invariant
            len == utf15@.len(),
            1 <= i <= len,
            forall|j: int| 1 <= j < i ==> #[trigger] utf15@[j] < 0x8000u16,
        decreases len - i,
    {
        let unit = utf15[i];
        if unit & 0x8000u16 != 0 {
            assert(unit >= 0x8000u16) by (bit_vector)
                requires
                    unit & 0x8000u16 != 0,
            ;
            return false;
        }
        assert(unit < 0x8000u16) by (bit_vector)
            requires
                unit & 0x8000u16 == 0,
        ;
        i += 1;
    }
    if first == 0x0031 {
        let ghost s = utf15@;
        let remainder_start = len - OUTPUT_BLOCK_SIZE;
        let extra = ((utf15[remainder_start + 63] >> 11u16) as u64) & LOW_FOUR_BITS;
        proof {
            let blk = unit_blocks(s) - 1;
            assert(remainder_start == 1 + 64 * blk);
            lemma_top_nibble(
                unit_of(s, blk, 60),
                unit_of(s, blk, 61),
                unit_of(s, blk, 62),
                unit_of(s, blk, 63),
            );
        }
        let mut buf: Vec<u8> = vec![0; 8];
        decode_block(utf15, remainder_start, extra, &mut buf, 0);
        assert(buf@[0int + 0int] == word_byte(decoded_word(s, unit_blocks(s) - 1, 0), 0));
        return buf[0] <= 119;
    }
    true
}

// ------------------------------------------------------------------
// Decoding undoes encoding
// ------------------------------------------------------------------

proof fn lemma_field_cast(x: u64)
    ensures
        (x & 0x7FFFu64) < 0x8000u64,
        (((x & 0x7FFFu64) as u16) as u64) == x & 0x7FFFu64,
        ((x & 0x7FFFu64) as u16) < 0x8000u16,
{
    assert((x & 0x7FFFu64) < 0x8000u64) by (bit_vector);
}

/// Decoding a block whose units are the encoding of `c` gives back `c`.
proof fn lemma_block_roundtrip(c: Seq<u8>, s: Seq<u16>, blk: int)
    requires
        c.len() == 120,
        0 <= blk,
        1 + 64 * blk + 64 <= s.len(),
        forall|j: int| 0 <= j < 64 ==> #[trigger] unit_of(s, blk, j) == block_unit(c, j),
    ensures
        forall|q: int| 0 <= q < 120 ==> #[trigger] decoded_byte(s, blk, q) == c[q],
{
    let t = block_trailer(c, 15);
    lemma_trailer_bound(c, 15);
    assert((1u64 << 60u64) == 0x1000_0000_0000_0000u64) by (bit_vector);
    lemma_trailer_split(t);
    assert((t >> 0u64) == t) by (bit_vector);
    lemma_field_cast(t >> 0u64);
    lemma_field_cast(t >> 15u64);
    lemma_field_cast(t >> 30u64);
    lemma_field_cast(t >> 45u64);
    assert(unit_of(s, blk, 60) == block_unit(c, 60));
    assert(unit_of(s, blk, 61) == block_unit(c, 61));
    assert(unit_of(s, blk, 62) == block_unit(c, 62));
    assert(unit_of(s, blk, 63) == block_unit(c, 63));
    assert(decoded_trailer(s, blk) == t);
    assert forall|q: int| 0 <= q < 120 implies #[trigger] decoded_byte(s, blk, q) == c[q] by {
        let w = q / 8;
        let word = block_word(c, w);
        lemma_trailer_nibble(c, 15, w);
        assert((4 * (15 - 1 - w)) as u64 == (56 - 4 * w) as u64);
        lemma_word_split(word);
        lemma_field_cast(word >> 4u64);
        lemma_field_cast(word >> 19u64);
        lemma_field_cast(word >> 34u64);
        lemma_field_cast(word >> 49u64);
        assert(unit_of(s, blk, 4 * w) == block_unit(c, 4 * w));
        assert(unit_of(s, blk, 4 * w + 1) == block_unit(c, 4 * w + 1));
        assert(unit_of(s, blk, 4 * w + 2) == block_unit(c, 4 * w + 2));
        assert(unit_of(s, blk, 4 * w + 3) == block_unit(c, 4 * w + 3));
        assert((4 * w) / 4 == w && (4 * w) % 4 == 0);
        assert((4 * w + 1) / 4 == w && (4 * w + 1) % 4 == 1);
        assert((4 * w + 2) / 4 == w && (4 * w + 2) % 4 == 2);
        assert((4 * w + 3) / 4 == w && (4 * w + 3) % 4 == 3);
        assert(decoded_word(s, blk, w) == word);
        lemma_le_word_bytes(
            c[8 * w],
            c[8 * w + 1],
            c[8 * w + 2],
            c[8 * w + 3],
            c[8 * w + 4],
            c[8 * w + 5],
            c[8 * w + 6],
            c[8 * w + 7],
        );
        assert(q == 8 * w + q % 8);
    }
}

proof fn lemma_encoding_unit(b: Seq<u8>, blk: int, j: int)
    requires
        b.len() > 0,
        0 <= blk < num_blocks(b.len()),
        0 <= j < 64,
    ensures
        1 + 64 * blk + j < utf15_encoding(b).len(),
        unit_of(utf15_encoding(b), blk, j) == block_unit(input_block(b, blk), j),
{
    let i = 1 + 64 * blk + j;
    assert(i < 64 * num_blocks(b.len()) + 1) by (nonlinear_arith)
        requires
            i == 1 + 64 * blk + j,
            blk < num_blocks(b.len()),
            j < 64,
    ;
    assert((i - 1) / 64 == blk);
    assert((i - 1) % 64 == j);
}

proof fn lemma_encoding_units_bounded(b: Seq<u8>)
    requires
        b.len() > 0,
    ensures
        forall|i: int|
            1 <= i < utf15_encoding(b).len() ==> #[trigger] utf15_encoding(b)[i] < 0x8000u16,
{
    let s = utf15_encoding(b);
    let len = b.len();
    assert forall|i: int| 1 <= i < s.len() implies #[trigger] s[i] < 0x8000u16 by {
        let blk = (i - 1) / 64;
        let j = (i - 1) % 64;
        let c = input_block(b, blk);
        if j < 60 {
            lemma_field_cast(block_word(c, j / 4) >> (4 + 15 * (j % 4)) as u64);
        } else {
            lemma_field_cast(block_trailer(c, 15) >> (15 * (j - 60)) as u64);
        }
    }
}

proof fn lemma_written_block_decodes(b: Seq<u8>, blk: int)
    requires
        b.len() > 0,
        0 <= blk < num_blocks(b.len()),
    ensures
        forall|q: int|
            0 <= q < 120 ==> #[trigger] decoded_byte(utf15_encoding(b), blk, q) == padded_byte(
                b,
                blk,
                q,
            ),
{
    let s = utf15_encoding(b);
    let c = input_block(b, blk);
    assert forall|j: int| 0 <= j < 64 implies #[trigger] unit_of(s, blk, j) == block_unit(c, j) by {
        lemma_encoding_unit(b, blk, j);
    }
    lemma_encoding_unit(b, blk, 63);
    lemma_block_roundtrip(c, s, blk);
}

proof fn lemma_encoding_shape(b: Seq<u8>)
    requires
        b.len() > 0,
    ensures
        utf15_encoding(b).len() == 64 * num_blocks(b.len()) + 1,
        unit_blocks(utf15_encoding(b)) == num_blocks(b.len()),
        full_block_count(utf15_encoding(b)) == b.len() / 120,
        partial_len(utf15_encoding(b)) == b.len() % 120,
{
    let s = utf15_encoding(b);
    let len = b.len();
    let nb = num_blocks(len);
    let fb = len / 120;
    assert((64 * nb + 1 - 1) / 64 == nb) by (nonlinear_arith);
    if len % 120 != 0 {
        lemma_written_block_decodes(b, fb as int);
        assert(decoded_byte(s, fb as int, 0) == padded_byte(b, fb as int, 0));
    }
}

proof fn lemma_encoding_well_formed(b: Seq<u8>)
    ensures
        utf15_well_formed(utf15_encoding(b)),
{
    if b.len() > 0 {
        lemma_encoding_shape(b);
        lemma_encoding_units_bounded(b);
    }
}

#[verifier::rlimit(30)]
proof fn lemma_encoding_decodes(b: Seq<u8>)
    requires
        b.len() > 0,
    ensures
        utf15_decoding(utf15_encoding(b)) == b,
{
    let s = utf15_encoding(b);
    let len = b.len();
    let fb = len / 120;
    lemma_encoding_shape(b);
    let d = utf15_decoding(s);
    assert(d.len() == len);
    assert forall|p: int| 0 <= p < len implies #[trigger] d[p] == b[p] by {
        if p < 120 * fb {
            let blk = p / 120;
            assert(blk < fb) by (nonlinear_arith)
                requires
                    p < 120 * fb,
                    blk == p / 120,
                    0 <= p,
            ;
            lemma_written_block_decodes(b, blk);
            assert(d[p] == decoded_byte(s, blk, p % 120));
            assert(120 * blk + p % 120 == p);
        } else {
            lemma_written_block_decodes(b, fb as int);
            assert(d[p] == decoded_byte(s, fb as int, p - 120 * fb + 1));
        }
    }
    assert(d =~= b);
}

/// Decoding undoes encoding: the encoding of every byte string is accepted by the
/// decoder, which gives the string back.
pub proof fn lemma_utf15_roundtrip(b: Seq<u8>)
    ensures
        utf15_well_formed(utf15_encoding(b)),
        utf15_decoding(utf15_encoding(b)) == b,
{
    lemma_encoding_well_formed(b);
    if b.len() == 0 {
        assert(utf15_decoding(utf15_encoding(b)) =~= b);
    } else {
        lemma_encoding_decodes(b);
    }
}

} // verus!
