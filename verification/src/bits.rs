//! The bit-addressing model shared by the owning and the borrowed bit
//! containers: which bit of which byte a bit index denotes, what a padded
//! byte buffer means as a sequence of booleans, and the wire encoding that
//! prefixes the buffer with its padding count.

use vstd::prelude::*;

verus! {

/// Bit `i` of `byte`, counting from the most significant end: bit 0 is the
/// most significant bit.
pub open spec fn nth_bit(byte: u8, i: u8) -> bool
    recommends
        i < 8,
{
    (byte >> ((7 - i) as u8)) & 1 == 1
}

/// A byte buffer paired with a padding count is well formed when the padding
/// stays below one byte and an empty buffer carries no padding.
pub open spec fn padded_wf(data: Seq<u8>, padding: u8) -> bool {
    &&& padding <= 7
    &&& data.len() == 0 ==> padding == 0
}

/// The declared padding bits of the last byte are all stored as zero.
/// Freshly built sequences keep this; buffers taken in from outside need not.
pub open spec fn padding_clear(data: Seq<u8>, padding: u8) -> bool {
    data.len() > 0 ==> forall|k: u8| 8 - padding <= k < 8 ==> !nth_bit(data.last(), k)
}

/// The meaningful bits of a padded byte buffer, in order: MSB-first within
/// each byte, with the last `padding` bit positions of the last byte left out.
pub open spec fn bits_of(data: Seq<u8>, padding: u8) -> Seq<bool>
    recommends
        padded_wf(data, padding),
{
    Seq::new((data.len() * 8 - padding) as nat, |i: int| nth_bit(data[i / 8], (i % 8) as u8))
}

/// The byte that a fresh append produces: the bit at the most significant
/// position, the seven padding positions zero.
pub open spec fn fresh_byte(bit: bool) -> u8 {
    if bit {
        0x80
    } else {
        0
    }
}

/// The last byte after a bit is appended into an existing padding position:
/// the bit is OR-ed into position `8 - padding` from the most significant
/// end (position `padding - 1` from the least significant end).
pub open spec fn set_bit_byte(byte: u8, padding: u8, bit: bool) -> u8
    recommends
        1 <= padding <= 7,
{
    byte | ((if bit {
        1u8
    } else {
        0u8
    }) << ((padding - 1) as u8))
}

/// The wire form: one byte of padding count, then the raw bytes.
pub open spec fn encode(data: Seq<u8>, padding: u8) -> Seq<u8> {
    seq![padding] + data
}

/// What decoding a wire buffer yields: the padding byte is split off and
/// checked against the well-formedness bounds; an empty input has no padding
/// byte to read and is malformed.
pub open spec fn decode(input: Seq<u8>) -> Option<(Seq<u8>, u8)> {
    if input.len() == 0 {
        None
    } else {
        let padding = input[0];
        let data = input.skip(1);
        if padded_wf(data, padding) {
            Some((data, padding))
        } else {
            None
        }
    }
}

/// The least number of bytes that can hold `bit_count` bits.
pub fn least_bytes_repr_for_bits(bit_count: usize) -> (r: usize)
    ensures
        r == (bit_count + 7) / 8,
{
    proof {
        assert(bit_count / 8 + (if bit_count % 8 != 0 { 1int } else { 0 }) == (bit_count + 7) / 8)
            by (nonlinear_arith);
    }
    bit_count / 8 + if bit_count % 8 != 0 {
        1
    } else {
        0
    }
}

/// The bits of a byte pushed by a fresh append: the appended bit sits at the
/// most significant position and the seven padding positions are zero.
pub proof fn lemma_fresh_byte(bit: bool)
    ensures
        nth_bit(fresh_byte(bit), 0) == bit,
        forall|k: u8| 1 <= k < 8 ==> !nth_bit(fresh_byte(bit), k),
{
    assert((0x80u8 >> ((7 - 0) as u8)) & 1 == 1) by (bit_vector);
    assert((0u8 >> ((7 - 0) as u8)) & 1 == 0) by (bit_vector);
    assert forall|k: u8| 1 <= k < 8 implies !nth_bit(fresh_byte(bit), k) by {
        assert((0x80u8 >> ((7 - k) as u8)) & 1 != 1) by (bit_vector)
            requires
                1 <= k < 8,
        ;
        assert((0u8 >> ((7 - k) as u8)) & 1 != 1) by (bit_vector)
            requires
                1 <= k < 8,
        ;
    }
}

/// OR-ing a bit into position `8 - padding` changes no other bit position,
/// and that position becomes the OR of the bit with what was stored there.
pub proof fn lemma_set_bit(byte: u8, padding: u8, bit: bool)
    requires
        1 <= padding <= 7,
    ensures
        forall|k: u8|
            k < 8 && k != 8 - padding ==> nth_bit(set_bit_byte(byte, padding, bit), k) == nth_bit(
                byte,
                k,
            ),
        nth_bit(set_bit_byte(byte, padding, bit), (8 - padding) as u8) == (bit || nth_bit(
            byte,
            (8 - padding) as u8,
        )),
{
    let v: u8 = if bit {
        1
    } else {
        0
    };
    let s: u8 = (padding - 1) as u8;
    assert forall|k: u8| k < 8 && k != 8 - padding implies nth_bit(
        set_bit_byte(byte, padding, bit),
        k,
    ) == nth_bit(byte, k) by {
        let t: u8 = (7 - k) as u8;
        assert(((byte | (v << s)) >> t) & 1 == (byte >> t) & 1) by (bit_vector)
            requires
                v == 0 || v == 1,
                s < 8,
                t < 8,
                t != s,
        ;
    }
    let u: u8 = (8 - padding) as u8;
    assert((7 - u) as u8 == s);
    assert((((byte | (v << s)) >> s) & 1 == 1) == (v == 1 || (byte >> s) & 1 == 1)) by (bit_vector)
        requires
            v == 0 || v == 1,
            s < 8,
    ;
}

/// Appending a bit to a byte-aligned buffer pushes one fresh byte: the bit
/// sequence grows by exactly that bit, and the new padding bits are zero.
pub proof fn lemma_bits_push_fresh(data: Seq<u8>, bit: bool)
    requires
        padded_wf(data, 0),
    ensures
        padded_wf(data.push(fresh_byte(bit)), 7),
        padding_clear(data.push(fresh_byte(bit)), 7),
        bits_of(data.push(fresh_byte(bit)), 7) == bits_of(data, 0).push(bit),
{
    let d2 = data.push(fresh_byte(bit));
    let n = data.len() as int;
    lemma_fresh_byte(bit);
    assert(bits_of(d2, 7).len() == 8 * n + 1);
    assert forall|i: int| 0 <= i < 8 * n + 1 implies bits_of(d2, 7)[i] == bits_of(data, 0).push(
        bit,
    )[i] by {
        if i < 8 * n {
            assert(0 <= i / 8 < n && i % 8 < 8) by (nonlinear_arith)
                requires
                    0 <= i < 8 * n,
            ;
            assert(d2[i / 8] == data[i / 8]);
        } else {
            assert(i == 8 * n);
            assert(i / 8 == n && i % 8 == 0) by (nonlinear_arith)
                requires
                    i == 8 * n,
            ;
            assert(d2[n] == fresh_byte(bit));
        }
    }
    assert(bits_of(d2, 7) =~= bits_of(data, 0).push(bit));
}

/// Appending a bit into an existing padding position rewrites only the last
/// byte: the bit sequence grows by the OR of the bit with the padding bit
/// that was stored at the write position, and cleanliness is preserved.
pub proof fn lemma_bits_set_last(data: Seq<u8>, padding: u8, bit: bool)
    requires
        padded_wf(data, padding),
        1 <= padding,
        data.len() > 0,
    ensures
        padded_wf(data.update(data.len() - 1, set_bit_byte(data.last(), padding, bit)), (padding
            - 1) as u8),
        bits_of(data.update(data.len() - 1, set_bit_byte(data.last(), padding, bit)), (padding
            - 1) as u8) == bits_of(data, padding).push(bit || nth_bit(data.last(), (8
            - padding) as u8)),
        padding_clear(data, padding) ==> padding_clear(
            data.update(data.len() - 1, set_bit_byte(data.last(), padding, bit)),
            (padding - 1) as u8,
        ),
        padding_clear(data, padding) ==> !nth_bit(data.last(), (8 - padding) as u8),
{
    let b = data.last();
    let b2 = set_bit_byte(b, padding, bit);
    let n = data.len() as int;
    let d2 = data.update(n - 1, b2);
    let oldlen = 8 * n - padding;
    lemma_set_bit(b, padding, bit);
    assert(bits_of(d2, (padding - 1) as u8).len() == oldlen + 1);
    assert forall|i: int| 0 <= i < oldlen + 1 implies #[trigger] bits_of(
        d2,
        (padding - 1) as u8,
    )[i] == bits_of(data, padding).push(bit || nth_bit(b, (8 - padding) as u8))[i] by {
        vstd::arithmetic::div_mod::lemma_fundamental_div_mod(i, 8);
        if i < oldlen {
            assert(0 <= i / 8 < n && 0 <= i % 8 < 8) by (nonlinear_arith)
                requires
                    0 <= i < 8 * n - padding,
                    0 <= padding,
            ;
            if i / 8 == n - 1 {
                assert(i % 8 < 8 - padding);
                assert(nth_bit(b2, (i % 8) as u8) == nth_bit(b, (i % 8) as u8));
            } else {
                assert(d2[i / 8] == data[i / 8]);
            }
        } else {
            assert(i == 8 * (n - 1) + (8 - padding));
            vstd::arithmetic::div_mod::lemma_fundamental_div_mod_converse(
                i,
                8,
                n - 1,
                8 - padding,
            );
            assert(i / 8 == n - 1 && i % 8 == 8 - padding);
        }
    }
    assert(bits_of(d2, (padding - 1) as u8) =~= bits_of(data, padding).push(
        bit || nth_bit(b, (8 - padding) as u8),
    ));
    if padding_clear(data, padding) {
        assert forall|k: u8| 8 - (padding - 1) <= k < 8 implies !nth_bit(d2.last(), k) by {
            assert(nth_bit(b2, k) == nth_bit(b, k));
        }
    }
}

/// Extending a byte-aligned buffer by a second buffer concatenates the two
/// bit sequences, and the result carries the second buffer's padding.
pub proof fn lemma_bits_concat(d1: Seq<u8>, d2: Seq<u8>, p2: u8)
    requires
        padded_wf(d2, p2),
    ensures
        padded_wf(d1 + d2, p2),
        padding_clear(d2, p2) ==> padding_clear(d1 + d2, p2),
        bits_of(d1 + d2, p2) == bits_of(d1, 0) + bits_of(d2, p2),
{
    let cat = d1 + d2;
    let n1 = d1.len() as int;
    let n2 = d2.len() as int;
    if d2.len() == 0 {
        assert(cat =~= d1);
    } else {
        assert(cat.last() == d2.last());
    }
    let total = (n1 + n2) * 8 - p2;
    assert(bits_of(cat, p2).len() == total);
    assert forall|i: int| 0 <= i < total implies bits_of(cat, p2)[i] == (bits_of(d1, 0) + bits_of(
        d2,
        p2,
    ))[i] by {
        vstd::arithmetic::div_mod::lemma_fundamental_div_mod(i, 8);
        assert(0 <= i % 8 < 8 && 0 <= i / 8) by (nonlinear_arith)
            requires
                0 <= i,
        ;
        if i < 8 * n1 {
            assert(i / 8 < n1) by (nonlinear_arith)
                requires
                    0 <= i < 8 * n1,
                    i == 8 * (i / 8) + i % 8,
                    0 <= i % 8 < 8,
            ;
            assert(cat[i / 8] == d1[i / 8]);
        } else {
            let j = i - 8 * n1;
            vstd::arithmetic::div_mod::lemma_fundamental_div_mod(j, 8);
            vstd::arithmetic::div_mod::lemma_fundamental_div_mod_converse(
                i,
                8,
                n1 + j / 8,
                j % 8,
            );
            assert(i / 8 == n1 + j / 8 && i % 8 == j % 8);
            assert(cat[i / 8] == d2[j / 8]);
        }
    }
    assert(bits_of(cat, p2) =~= bits_of(d1, 0) + bits_of(d2, p2));
}

/// A well-formed buffer holds exactly as many bytes as its bit count needs:
/// the byte count is the bit count rounded up to the next multiple of eight.
pub proof fn lemma_byte_count(data: Seq<u8>, padding: u8)
    requires
        padded_wf(data, padding),
    ensures
        data.len() == (bits_of(data, padding).len() + 7) / 8,
{
    let n = data.len() as int;
    assert((8 * n - padding + 7) / 8 == n) by (nonlinear_arith)
        requires
            0 <= padding <= 7,
            n == 0 ==> padding == 0,
            0 <= n,
    ;
}

/// Decoding inverts encoding on every well-formed buffer: the round trip
/// through the wire form gives the bytes and the padding back unchanged.
pub proof fn lemma_encode_decode(data: Seq<u8>, padding: u8)
    requires
        padded_wf(data, padding),
    ensures
        decode(encode(data, padding)) == Some((data, padding)),
{
    let enc = encode(data, padding);
    assert(enc[0] == padding);
    assert(enc.skip(1) =~= data);
}

} // verus!
