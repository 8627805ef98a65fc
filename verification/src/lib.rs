//! A growable sequence of bits packed into bytes, MSB-first, together with a
//! zero-copy borrowed view, a bit iterator, and a length-prefixed binary
//! encoding that records how many trailing bits of the last byte are padding.

pub mod bits;
pub mod bitvec;
pub mod bitview;

pub use bits::least_bytes_repr_for_bits;
pub use bitvec::BitVec;
pub use bitview::BitIterator;
pub use bitview::BitView;
