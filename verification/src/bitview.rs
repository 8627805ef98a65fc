//! A borrowed, read-only view into a sequence of bits, and the iterator that
//! walks its meaningful bits one boolean at a time.

use vstd::prelude::*;

use crate::bits::bits_of;
use crate::bits::decode;
use crate::bits::encode;
use crate::bits::lemma_byte_count;
use crate::bits::nth_bit;
use crate::bits::padded_wf;
use crate::bits::padding_clear;

verus! {

broadcast use vstd::slice::axiom_slice_get_usize;

/// A view into a sequence of bits: a borrowed byte buffer together with the
/// count of meaningless trailing bits in its last byte. Copying the view
/// never copies the underlying bytes.
#[derive(Clone, Copy)]
pub struct BitView<'a> {
    raw_data: &'a [u8],
    last_byte_padding: u8,
}

impl<'a> View for BitView<'a> {
    type V = Seq<bool>;

    open spec fn view(&self) -> Seq<bool> {
        bits_of(self.spec_data(), self.spec_padding())
    }
}

impl<'a> BitView<'a> {
    /// The borrowed bytes, as the mathematical sequence they hold.
    pub closed spec fn spec_data(&self) -> Seq<u8> {
        self.raw_data@
    }

    /// The declared padding of the last byte.
    pub closed spec fn spec_padding(&self) -> u8 {
        self.last_byte_padding
    }

    /// Well-formedness: the padding stays below one byte, an empty buffer
    /// carries none, and the bit count fits the native word.
    pub open spec fn wf(&self) -> bool {
        &&& padded_wf(self.spec_data(), self.spec_padding())
        &&& 8 * self.spec_data().len() <= usize::MAX
    }

    /// The declared padding bits of the last byte are stored as zero.
    pub open spec fn clean(&self) -> bool {
        padding_clear(self.spec_data(), self.spec_padding())
    }

    /// Construct a `BitView` from bytes and a final padding value.
    pub fn from_padded_bytes(bytes: &'a [u8], last_byte_padding: u8) -> (r: BitView<'a>)
        requires
            padded_wf(bytes@, last_byte_padding),
            8 * bytes@.len() <= usize::MAX,
        ensures
            r.spec_data() == bytes@,
            r.spec_padding() == last_byte_padding,
            r.wf(),
    {
        Self { raw_data: bytes, last_byte_padding }
    }

    /// Iterate over the bits in the view, starting at the first.
    pub fn iter_bits(&self) -> (r: BitIterator<'a>)
        requires
            self.wf(),
        ensures
            r.underlying() == *self,
            r.cursor() == 0,
            r.wf(),
    {
        BitIterator { bits: *self, i: 0 }
    }

    /// The number of meaningful bits in the view.
    pub fn len_bits(&self) -> (r: usize)
        requires
            self.wf(),
        ensures
            r == self@.len(),
    {
        self.raw_data.len() * 8 - (self.last_byte_padding as usize)
    }

    /// The minimum number of bytes needed to store the view's contents.
    pub fn least_len_bytes(&self) -> (r: usize)
        requires
            self.wf(),
        ensures
            r == self.spec_data().len(),
            r == (self@.len() + 7) / 8,
    {
        proof {
            lemma_byte_count(self.spec_data(), self.spec_padding());
        }
        self.raw_data.len()
    }

    /// The view's underlying bytes and the padding of the last byte.
    pub fn as_padded_bytes(&self) -> (r: (&'a [u8], u8))
        ensures
            r.0@ == self.spec_data(),
            r.1 == self.spec_padding(),
    {
        (self.raw_data, self.last_byte_padding)
    }

    /// Collect every meaningful bit of the view, in order.
    pub fn to_bool_slice(&self) -> (r: Vec<bool>)
        requires
            self.wf(),
        ensures
            r@ == self@,
    {
        let mut it = self.iter_bits();
        let mut out: Vec<bool> = Vec::new();
        loop
            invariant
                self.wf(),
                it.wf(),
                it.underlying() == *self,
                it.cursor() == out@.len(),
                out@ == self@.take(it.cursor() as int),
            ensures
                it.cursor() == self@.len(),
                out@ == self@.take(it.cursor() as int),
            decreases self@.len() - it.cursor(),
        {
            match it.next() {
                Some(b) => {
                    out.push(b);
                    proof {
                        assert(self@.take(it.cursor() as int) =~= self@.take(
                            it.cursor() as int - 1,
                        ).push(self@[it.cursor() as int - 1]));
                    }
                },
                None => {
                    break ;
                },
            }
        }
        proof {
            assert(out@ =~= self@);
        }
        out
    }

    /// A deserializable representation of the view: the padding byte first,
    /// then the raw bytes.
    pub fn serialize(&self) -> (r: Vec<u8>)
        requires
            self.wf(),
        ensures
            r@ == encode(self.spec_data(), self.spec_padding()),
    {
        let mut buf: Vec<u8> = Vec::with_capacity(1 + self.least_len_bytes());
        buf.push(self.last_byte_padding);
        let mut j: usize = 0;
        while j < self.raw_data.len()
            invariant
                j <= self.raw_data@.len(),
                buf@ == seq![self.spec_padding()] + self.spec_data().take(j as int),
            decreases self.raw_data@.len() - j,
        {
            buf.push(self.raw_data[j]);
            j += 1;
            proof {
                assert(self.spec_data().take(j as int) =~= self.spec_data().take(j as int - 1).push(
                    self.spec_data()[j as int - 1],
                ));
            }
        }
        proof {
            assert(self.spec_data().take(self.spec_data().len() as int) =~= self.spec_data());
        }
        buf
    }

    /// Construct a `BitView` borrowing the data bytes of a serialized input.
    /// An empty input has no padding byte to read; an input whose padding
    /// byte lies outside the well-formedness bounds is rejected the same way.
    pub fn deserialize(input: &'a [u8]) -> (r: Result<BitView<'a>, ()>)
        requires
            8 * (input@.len() - 1) <= usize::MAX,
        ensures
            r is Ok <==> decode(input@) is Some,
            r is Ok ==> decode(input@) == Some((r->Ok_0.spec_data(), r->Ok_0.spec_padding())),
            r is Ok ==> r->Ok_0.wf(),
    {
        if input.len() == 0 {
            return Err(());
        }
        let last_byte_padding = *vstd::slice::slice_index_get(input, 0);
        if last_byte_padding > 7 {
            return Err(());
        }
        if input.len() == 1 && last_byte_padding != 0 {
            return Err(());
        }
        let data = vstd::slice::slice_subrange(input, 1, input.len());
        proof {
            assert(input@.skip(1) =~= data@);
        }
        Ok(Self { raw_data: data, last_byte_padding })
    }
}

/// What a view reads depends on its bytes and padding alone: two views over
/// the same buffer with the same padding hold exactly the same bit sequence.
/// A copy of a view therefore reads the same bits as the original, and stays
/// readable for as long as the borrowed buffer lives.
pub proof fn lemma_views_agree<'a, 'b>(a: BitView<'a>, b: BitView<'b>)
    requires
        a.spec_data() == b.spec_data(),
        a.spec_padding() == b.spec_padding(),
    ensures
        a@ == b@,
{
}

/// An iterator over the meaningful bits of a `BitView`. It is restartable:
/// a fresh iterator over the same view starts again at the first bit.
pub struct BitIterator<'a> {
    bits: BitView<'a>,
    i: usize,
}

impl<'a> BitIterator<'a> {
    /// The view being walked.
    pub closed spec fn underlying(&self) -> BitView<'a> {
        self.bits
    }

    /// The bit offset of the next bit to emit.
    pub closed spec fn cursor(&self) -> nat {
        self.i as nat
    }

    /// Well-formedness: the view is well formed and the cursor never passes
    /// the end of the meaningful bits.
    pub open spec fn wf(&self) -> bool {
        &&& self.underlying().wf()
        &&& self.cursor() <= self.underlying()@.len()
    }

    /// Emit the bit under the cursor and advance, or report completion once
    /// every meaningful bit has been emitted: the padding bits of the last
    /// byte are never emitted.
    pub fn next(&mut self) -> (r: Option<bool>)
        requires
            old(self).wf(),
        ensures
            final(self).wf(),
            final(self).underlying() == old(self).underlying(),
            old(self).cursor() < old(self).underlying()@.len() ==> r == Some(
                old(self).underlying()@[old(self).cursor() as int],
            ) && final(self).cursor() == old(self).cursor() + 1,
            old(self).cursor() >= old(self).underlying()@.len() ==> r is None && final(self).cursor() == old(self).cursor(),
    {
        let byte_i = self.i / 8;
        proof {
            vstd::arithmetic::div_mod::lemma_fundamental_div_mod(self.i as int, 8);
        }
        let byte: u8 = match self.bits.raw_data.get(byte_i) {
            Some(b) => *b,
            None => {
                return None;
            },
        };
        let bit_in_byte_i = (self.i % 8) as u8;
        if byte_i == self.bits.raw_data.len() - 1 && bit_in_byte_i >= 8
            - self.bits.last_byte_padding {
            return None;
        }
        self.i += 1;
        proof {
            assert(((byte & (1u8 << ((7 - bit_in_byte_i) as u8))) != 0) == (((byte >> ((7
                - bit_in_byte_i) as u8)) & 1) == 1)) by (bit_vector)
                requires
                    bit_in_byte_i < 8,
            ;
            assert(nth_bit(byte, bit_in_byte_i) == ((byte & (1u8 << ((7 - bit_in_byte_i) as u8)))
                != 0));
        }
        Some((byte & (1u8 << (7 - bit_in_byte_i))) != 0)
    }
}

} // verus!
