//! The owning bit container: a growable sequence of bits packed into a byte
//! vector, appended MSB-first, with an explicit count of meaningless trailing
//! bits in the last byte.

use vstd::prelude::*;

use crate::bits::bits_of;
use crate::bits::decode;
use crate::bits::encode;
use crate::bits::fresh_byte;
use crate::bits::least_bytes_repr_for_bits;
use crate::bits::lemma_bits_concat;
use crate::bits::lemma_bits_push_fresh;
use crate::bits::lemma_bits_set_last;
use crate::bits::lemma_byte_count;
use crate::bits::nth_bit;
use crate::bits::padded_wf;
use crate::bits::padding_clear;
use crate::bits::set_bit_byte;
use crate::bitview::BitIterator;
use crate::bitview::BitView;

verus! {

/// A vector that stores bits with a final padding: the padding counts the
/// low-order bit positions of the last byte that carry no meaning. The
/// padding is what lets the structure survive serialization into whole bytes.
#[derive(Debug)]
pub struct BitVec {
    raw_data: Vec<u8>,
    last_byte_padding: u8,
}

impl View for BitVec {
    type V = Seq<bool>;

    open spec fn view(&self) -> Seq<bool> {
        bits_of(self.spec_data(), self.spec_padding())
    }
}

impl BitVec {
    /// The owned bytes, as the mathematical sequence they hold.
    pub closed spec fn spec_data(&self) -> Seq<u8> {
        self.raw_data@
    }

    /// The padding of the last byte.
    pub closed spec fn spec_padding(&self) -> u8 {
        self.last_byte_padding
    }

    /// Well-formedness: the padding stays below one byte, an empty buffer
    /// carries none, and the bit count fits the native word.
    pub open spec fn wf(&self) -> bool {
        &&& padded_wf(self.spec_data(), self.spec_padding())
        &&& 8 * self.spec_data().len() <= usize::MAX
    }

    /// The padding bits of the last byte are stored as zero. Every
    /// constructor of this type except `deserialize` establishes this, and
    /// every mutation preserves it; a deserialized buffer may carry set
    /// padding bits, which every read operation ignores.
    pub open spec fn clean(&self) -> bool {
        padding_clear(self.spec_data(), self.spec_padding())
    }

    /// The bit stored at the position the next append writes to. Appending
    /// OR-s the new bit into the last byte, so a set padding bit at that
    /// position survives; on a clean sequence this is always false.
    pub open spec fn slack(&self) -> bool {
        self.spec_padding() > 0 && nth_bit(
            self.spec_data().last(),
            (8 - self.spec_padding()) as u8,
        )
    }

    /// Construct a new empty `BitVec`.
    pub fn new() -> (r: Self)
        ensures
            r.wf(),
            r.clean(),
            r@ == Seq::<bool>::empty(),
            r.spec_data() == Seq::<u8>::empty(),
            r.spec_padding() == 0,
    {
        let r = Self { raw_data: Vec::new(), last_byte_padding: 0 };
        proof {
            assert(r@ =~= Seq::<bool>::empty());
        }
        r
    }

    /// Construct a new empty `BitVec` whose backing storage is pre-sized to
    /// hold at least `capacity` bits.
    pub fn with_capacity(capacity: usize) -> (r: Self)
        ensures
            r.wf(),
            r.clean(),
            r@ == Seq::<bool>::empty(),
            r.spec_data() == Seq::<u8>::empty(),
            r.spec_padding() == 0,
    {
        let r = Self {
            raw_data: Vec::with_capacity(least_bytes_repr_for_bits(capacity)),
            last_byte_padding: 0,
        };
        proof {
            assert(r@ =~= Seq::<bool>::empty());
        }
        r
    }

    /// The number of meaningful bits in the `BitVec`. Due to padding, the
    /// number of stored bit positions may be higher.
    pub fn len_bits(&self) -> (r: usize)
        requires
            self.wf(),
        ensures
            r == self@.len(),
    {
        self.raw_data.len() * 8 - (self.last_byte_padding as usize)
    }

    /// The minimum number of bytes needed to store the `BitVec`'s contents.
    pub fn least_len_bytes(&self) -> (r: usize)
        requires
            self.wf(),
        ensures
            r == self.spec_data().len(),
            r == (self@.len() + 7) / 8,
    {
        proof {
            lemma_byte_count(self.spec_data(), self.spec_padding());
        }
        self.raw_data.len()
    }

    /// Append one bit at the next free position. On a clean sequence the
    /// appended bit is exactly `bit`; in general the bit is OR-ed into the
    /// last byte, so what lands is `bit` OR the padding bit stored there.
    pub fn append_bit(&mut self, bit: bool)
        requires
            old(self).wf(),
            old(self)@.len() + 8 <= usize::MAX,
        ensures
            final(self).wf(),
            final(self)@ == old(self)@.push(bit || old(self).slack()),
            old(self).clean() ==> final(self).clean() && final(self)@ == old(self)@.push(bit),
    {
        if self.last_byte_padding == 0 {
            let byte: u8 = if bit {
                0x80
            } else {
                0
            };
            proof {
                lemma_bits_push_fresh(self.spec_data(), bit);
                assert(byte == fresh_byte(bit));
            }
            self.raw_data.push(byte);
            self.last_byte_padding = 7;
        } else {
            let p = self.last_byte_padding;
            let idx = self.raw_data.len() - 1;
            let last = self.raw_data[idx];
            let v: u8 = if bit {
                1
            } else {
                0
            };
            proof {
                lemma_bits_set_last(self.spec_data(), p, bit);
            }
            self.raw_data[idx] = last | (v << (p - 1));
            self.last_byte_padding = p - 1;
            proof {
                assert(self.spec_data() == old(self).spec_data().update(
                    old(self).spec_data().len() - 1,
                    set_bit_byte(old(self).spec_data().last(), p, bit),
                ));
            }
        }
    }

    /// Append every meaningful bit of `bit_view` to `self`, in order. When
    /// `self` ends on a byte boundary the two buffers are byte-aligned and
    /// the view's bytes are copied wholesale; otherwise each bit is appended
    /// individually.
    pub fn extend_from_bits(&mut self, bit_view: &BitView)
        requires
            old(self).wf(),
            bit_view.wf(),
            old(self)@.len() + bit_view@.len() + 7 <= usize::MAX,
        ensures
            final(self).wf(),
            final(self)@.len() == old(self)@.len() + bit_view@.len(),
            final(self)@.subrange(0, old(self)@.len() as int) == old(self)@,
            old(self).clean() ==> final(self)@ == old(self)@ + bit_view@,
            old(self).clean() && bit_view.clean() ==> final(self).clean(),
    {
        if self.last_byte_padding == 0 {
            let (bytes, p) = bit_view.as_padded_bytes();
            proof {
                lemma_bits_concat(self.spec_data(), bytes@, p);
            }
            let mut j: usize = 0;
            while j < bytes.len()
                invariant
                    j <= bytes@.len(),
                    self.last_byte_padding == 0,
                    self.raw_data@ == old(self).spec_data() + bytes@.take(j as int),
                decreases bytes@.len() - j,
            {
                self.raw_data.push(*vstd::slice::slice_index_get(bytes, j));
                j += 1;
                proof {
                    assert(bytes@.take(j as int) =~= bytes@.take(j as int - 1).push(
                        bytes@[j as int - 1],
                    ));
                }
            }
            self.last_byte_padding = p;
            proof {
                assert(bytes@.take(bytes@.len() as int) =~= bytes@);
                assert(self.spec_data() == old(self).spec_data() + bit_view.spec_data());
                assert(final(self)@.subrange(0, old(self)@.len() as int) =~= old(self)@);
            }
        } else {
            let mut it = bit_view.iter_bits();
            loop
                invariant
                    bit_view.wf(),
                    it.wf(),
                    it.underlying() == *bit_view,
                    self.wf(),
                    old(self)@.len() + bit_view@.len() + 7 <= usize::MAX,
                    self@.len() == old(self)@.len() + it.cursor(),
                    self@.subrange(0, old(self)@.len() as int) == old(self)@,
                    old(self).clean() ==> self@ == old(self)@ + bit_view@.take(
                        it.cursor() as int,
                    ) && self.clean(),
                ensures
                    it.cursor() == bit_view@.len(),
                    self@.len() == old(self)@.len() + bit_view@.len(),
                    self@.subrange(0, old(self)@.len() as int) == old(self)@,
                    old(self).clean() ==> self@ == old(self)@ + bit_view@.take(
                        it.cursor() as int,
                    ) && self.clean(),
                decreases bit_view@.len() - it.cursor(),
            {
                match it.next() {
                    Some(b) => {
                        let ghost prev = *self;
                        let ghost c = (it.cursor() - 1) as int;
                        self.append_bit(b);
                        proof {
                            assert(self@.subrange(0, old(self)@.len() as int) =~= prev@.subrange(
                                0,
                                old(self)@.len() as int,
                            ));
                            if old(self).clean() {
                                assert(self@ =~= old(self)@ + bit_view@.take(c + 1));
                            }
                        }
                    },
                    None => {
                        break ;
                    },
                }
            }
            proof {
                assert(bit_view@.take(bit_view@.len() as int) =~= bit_view@);
            }
        }
    }

    /// Construct a `BitView` that borrows `self`'s storage: a zero-copy,
    /// read-only snapshot with the same bytes, padding and bits.
    pub fn as_bit_view(&self) -> (r: BitView<'_>)
        requires
            self.wf(),
        ensures
            r.spec_data() == self.spec_data(),
            r.spec_padding() == self.spec_padding(),
            r@ == self@,
            r.wf(),
    {
        BitView::from_padded_bytes(self.raw_data.as_slice(), self.last_byte_padding)
    }

    /// Iterate over the meaningful bits, starting at the first.
    pub fn iter_bits(&self) -> (r: BitIterator<'_>)
        requires
            self.wf(),
        ensures
            r.underlying()@ == self@,
            r.cursor() == 0,
            r.wf(),
    {
        let view = self.as_bit_view();
        view.iter_bits()
    }

    /// The `BitVec`'s underlying bytes and the padding of the last byte.
    pub fn as_padded_bytes(&self) -> (r: (&[u8], u8))
        ensures
            r.0@ == self.spec_data(),
            r.1 == self.spec_padding(),
    {
        (self.raw_data.as_slice(), self.last_byte_padding)
    }

    /// Construct a `BitVec` holding exactly the bits of `bools`, in order,
    /// by appending each element.
    pub fn from_bool_slice(bools: &[bool]) -> (r: Self)
        requires
            bools@.len() + 7 <= usize::MAX,
        ensures
            r.wf(),
            r.clean(),
            r@ == bools@,
    {
        let mut res = Self::with_capacity(bools.len());
        let mut j: usize = 0;
        while j < bools.len()
            invariant
                j <= bools@.len(),
                bools@.len() + 7 <= usize::MAX,
                res.wf(),
                res.clean(),
                res@ == bools@.take(j as int),
            decreases bools@.len() - j,
        {
            res.append_bit(*vstd::slice::slice_index_get(bools, j));
            j += 1;
            proof {
                assert(bools@.take(j as int) =~= bools@.take(j as int - 1).push(
                    bools@[j as int - 1],
                ));
            }
        }
        proof {
            assert(bools@.take(bools@.len() as int) =~= bools@);
        }
        res
    }

    /// Collect every meaningful bit of `self` as an ordered boolean vector,
    /// by draining a fresh iterator.
    pub fn to_bool_slice(&self) -> (r: Vec<bool>)
        requires
            self.wf(),
        ensures
            r@ == self@,
    {
        let view = self.as_bit_view();
        view.to_bool_slice()
    }

    /// Append a deserializable representation of `self` to `buf`: the
    /// padding byte first, then the raw bytes. The existing contents of
    /// `buf` stay in place.
    pub fn serialize(&self, buf: &mut Vec<u8>)
        requires
            self.wf(),
        ensures
            final(buf)@ == old(buf)@ + encode(self.spec_data(), self.spec_padding()),
    {
        buf.reserve(1 + self.least_len_bytes());
        buf.push(self.last_byte_padding);
        let mut j: usize = 0;
        while j < self.raw_data.len()
            invariant
                j <= self.raw_data@.len(),
                buf@ == old(buf)@ + seq![self.spec_padding()] + self.spec_data().take(j as int),
            decreases self.raw_data@.len() - j,
        {
            buf.push(self.raw_data[j]);
            j += 1;
            proof {
                assert(self.spec_data().take(j as int) =~= self.spec_data().take(j as int - 1).push(
                    self.spec_data()[j as int - 1],
                ));
            }
        }
        proof {
            assert(self.spec_data().take(self.spec_data().len() as int) =~= self.spec_data());
            assert(final(buf)@ =~= old(buf)@ + encode(self.spec_data(), self.spec_padding()));
        }
    }

    /// Construct a `BitVec` from a serialized input: the first byte is the
    /// padding, the remaining bytes are copied into the new buffer. An empty
    /// input has no padding byte to read; an input whose padding byte lies
    /// outside the well-formedness bounds is rejected the same way.
    pub fn deserialize(input: &[u8]) -> (r: Result<Self, ()>)
        requires
            8 * (input@.len() - 1) <= usize::MAX,
        ensures
            r is Ok <==> decode(input@) is Some,
            r is Ok ==> decode(input@) == Some((r->Ok_0.spec_data(), r->Ok_0.spec_padding())),
            r is Ok ==> r->Ok_0.wf(),
    {
        if input.len() == 0 {
            return Err(());
        }
        let last_byte_padding = *vstd::slice::slice_index_get(input, 0);
        if last_byte_padding > 7 {
            return Err(());
        }
        if input.len() == 1 && last_byte_padding != 0 {
            return Err(());
        }
        let rest = vstd::slice::slice_subrange(input, 1, input.len());
        let raw_data = vstd::slice::slice_to_vec(rest);
        proof {
            assert(input@.skip(1) =~= raw_data@);
        }
        Ok(Self { raw_data, last_byte_padding })
    }
}

impl PartialEq for BitVec {
    /// Structural equality: the same bytes and the same padding.
    fn eq(&self, other: &BitVec) -> (r: bool) {
        if self.last_byte_padding != other.last_byte_padding {
            return false;
        }
        if self.raw_data.len() != other.raw_data.len() {
            return false;
        }
        let mut j: usize = 0;
        while j < self.raw_data.len()
            invariant
                j <= self.raw_data@.len(),
                self.raw_data@.len() == other.raw_data@.len(),
                forall|i: int| 0 <= i < j ==> self.raw_data@[i] == other.raw_data@[i],
            decreases self.raw_data@.len() - j,
        {
            if self.raw_data[j] != other.raw_data[j] {
                return false;
            }
            j += 1;
        }
        proof {
            assert(self.raw_data@ =~= other.raw_data@);
        }
        true
    }
}

impl vstd::std_specs::cmp::PartialEqSpecImpl for BitVec {
    open spec fn obeys_eq_spec() -> bool {
        true
    }

    open spec fn eq_spec(&self, other: &BitVec) -> bool {
        self.spec_data() == other.spec_data() && self.spec_padding() == other.spec_padding()
    }
}

} // verus!
