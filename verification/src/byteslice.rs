//! `ByteSlice`: a borrowed view of raw serialized bytes, with the same
//! little-endian numeric reinterpretation as the owned buffer.

use vstd::prelude::*;
use vstd::bytes::{spec_u16_from_le_bytes, spec_u32_from_le_bytes, spec_u64_from_le_bytes,
    spec_u128_from_le_bytes, u16_from_le_bytes, u32_from_le_bytes, u64_from_le_bytes,
    u128_from_le_bytes};

use crate::bytevec::ByteVec;
use crate::slice;
use crate::slice::{bytes_eq, starts_with_spec, ends_with_spec, has_match};

verus! {

/// A borrowed byte buffer holding one serialized value.
pub struct ByteSlice<'a>(pub &'a [u8]);

impl<'a> View for ByteSlice<'a> {
    type V = Seq<u8>;

    open spec fn view(&self) -> Seq<u8> {
        self.0@
    }
}

impl<'a> ByteSlice<'a> {
    /// A view of the given bytes.
    pub fn new(bs: &'a [u8]) -> (r: Self)
        ensures
            r@ == bs@,
    {
        ByteSlice(bs)
    }

    /// The borrowed bytes.
    pub fn inner(&self) -> (r: &'a [u8])
        ensures
            r@ == self@,
    {
        self.0
    }

    /// The bytes as a slice.
    pub fn as_slice(&self) -> (r: &'a [u8])
        ensures
            r@ == self@,
    {
        self.0
    }

    /// A fresh owned copy of the bytes.
    pub fn to_vec(&self) -> (r: Vec<u8>)
        ensures
            r@ == self@,
    {
        vstd::slice::slice_to_vec(self.0)
    }

    /// A fresh owned buffer of the bytes.
    pub fn to_bytevec(&self) -> (r: ByteVec)
        ensures
            r@ == self@,
    {
        ByteVec::from_slice(self.0)
    }

    /// Number of bytes.
    pub fn len(&self) -> (r: usize)
        ensures
            r == self@.len(),
    {
        self.0.len()
    }

    /// True on the empty buffer.
    pub fn is_empty(&self) -> (r: bool)
        ensures
            r == (self@.len() == 0),
    {
        self.0.len() == 0
    }

    /// Byte-for-byte equality with a slice.
    pub fn eq_bytes(&self, other: &[u8]) -> (r: bool)
        ensures
            r == (self@ == other@),
    {
        bytes_eq(self.0, other)
    }

    /// Prefix test.
    pub fn starts_with(&self, other: &[u8]) -> (r: bool)
        ensures
            r == starts_with_spec(self@, other@),
    {
        slice::starts_with(self.0, other)
    }

    /// Suffix test.
    pub fn ends_with(&self, other: &[u8]) -> (r: bool)
        ensures
            r == ends_with_spec(self@, other@),
    {
        slice::ends_with(self.0, other)
    }

    /// Substring test.
    pub fn contains(&self, other: &[u8]) -> (r: bool)
        ensures
            r == has_match(self@, other@),
    {
        slice::contains_sequence(self.0, other)
    }

    /// The first byte reinterpreted as `u8`.
    pub fn as_u8(&self) -> (r: u8)
        requires
            self@.len() >= 1,
        ensures
            r == self@[0],
    {
        self.0[0]
    }

    /// The first byte reinterpreted as `i8`.
    pub fn as_i8(&self) -> (r: i8)
        requires
            self@.len() >= 1,
        ensures
            r == self@[0] as i8,
    {
        self.0[0] as i8
    }

    /// The first eight bytes reinterpreted as `usize`.
    pub fn as_usize(&self) -> (r: usize)
        requires
            self@.len() >= 8,
        ensures
            r == spec_u64_from_le_bytes(self@.subrange(0, 8)) as usize,
    {
        let w = vstd::slice::slice_subrange(self.0, 0, 8);
        u64_from_le_bytes(w) as usize
    }

    /// The first 2 bytes reinterpreted as a little-endian `u16`.
    pub fn as_u16(&self) -> (r: u16)
        requires
            self@.len() >= 2,
        ensures
            r == spec_u16_from_le_bytes(self@.subrange(0, 2)),
    {
        let w = vstd::slice::slice_subrange(self.0, 0, 2);
        u16_from_le_bytes(w)
    }

    /// The first 4 bytes reinterpreted as a little-endian `u32`.
    pub fn as_u32(&self) -> (r: u32)
        requires
            self@.len() >= 4,
        ensures
            r == spec_u32_from_le_bytes(self@.subrange(0, 4)),
    {
        let w = vstd::slice::slice_subrange(self.0, 0, 4);
        u32_from_le_bytes(w)
    }

    /// The first 8 bytes reinterpreted as a little-endian `u64`.
    pub fn as_u64(&self) -> (r: u64)
        requires
            self@.len() >= 8,
        ensures
            r == spec_u64_from_le_bytes(self@.subrange(0, 8)),
    {
        let w = vstd::slice::slice_subrange(self.0, 0, 8);
        u64_from_le_bytes(w)
    }

    /// The first 16 bytes reinterpreted as a little-endian `u128`.
    pub fn as_u128(&self) -> (r: u128)
        requires
            self@.len() >= 16,
        ensures
            r == spec_u128_from_le_bytes(self@.subrange(0, 16)),
    {
        let w = vstd::slice::slice_subrange(self.0, 0, 16);
        u128_from_le_bytes(w)
    }

    /// The first 2 bytes reinterpreted as a little-endian `i16`.
    pub fn as_i16(&self) -> (r: i16)
        requires
            self@.len() >= 2,
        ensures
            r == spec_u16_from_le_bytes(self@.subrange(0, 2)) as i16,
    {
        let w = vstd::slice::slice_subrange(self.0, 0, 2);
        #[verifier::truncate]
        let r = u16_from_le_bytes(w) as i16;
        r
    }

    /// The first 4 bytes reinterpreted as a little-endian `i32`.
    pub fn as_i32(&self) -> (r: i32)
        requires
            self@.len() >= 4,
        ensures
            r == spec_u32_from_le_bytes(self@.subrange(0, 4)) as i32,
    {
        let w = vstd::slice::slice_subrange(self.0, 0, 4);
        #[verifier::truncate]
        let r = u32_from_le_bytes(w) as i32;
        r
    }

    /// The first 8 bytes reinterpreted as a little-endian `i64`.
    pub fn as_i64(&self) -> (r: i64)
        requires
            self@.len() >= 8,
        ensures
            r == spec_u64_from_le_bytes(self@.subrange(0, 8)) as i64,
    {
        let w = vstd::slice::slice_subrange(self.0, 0, 8);
        #[verifier::truncate]
        let r = u64_from_le_bytes(w) as i64;
        r
    }

    /// The first 16 bytes reinterpreted as a little-endian `i128`.
    pub fn as_i128(&self) -> (r: i128)
        requires
            self@.len() >= 16,
        ensures
            r == spec_u128_from_le_bytes(self@.subrange(0, 16)) as i128,
    {
        let w = vstd::slice::slice_subrange(self.0, 0, 16);
        #[verifier::truncate]
        let r = u128_from_le_bytes(w) as i128;
        r
    }
}

} // verus!
