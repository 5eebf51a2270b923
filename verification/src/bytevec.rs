//! `ByteVec`: an owned buffer of raw serialized bytes, with little-endian
//! numeric reinterpretation of its leading bytes.
//!
//! Numeric accessors read the **first N bytes** for the fixed width N of the
//! requested type; the caller is expected to have classified the value's tag
//! first, so the width assumption is stated as a precondition here.

use core::cmp::Ordering;

use vstd::prelude::*;
use vstd::bytes::{spec_u16_from_le_bytes, spec_u32_from_le_bytes, spec_u64_from_le_bytes,
    spec_u128_from_le_bytes, u16_from_le_bytes, u32_from_le_bytes, u64_from_le_bytes,
    u128_from_le_bytes};
use vstd::string::StringSliceAdditionalSpecFns;

use crate::slice;
use crate::slice::{bytes_eq, starts_with_spec, ends_with_spec, has_match};

verus! {

/// An owned byte buffer holding one serialized value.
pub struct ByteVec(pub Vec<u8>);

impl View for ByteVec {
    type V = Seq<u8>;

    open spec fn view(&self) -> Seq<u8> {
        self.0@
    }
}

impl ByteVec {
    /// The empty buffer.
    pub fn new() -> (r: Self)
        ensures
            r@ == Seq::<u8>::empty(),
    {
        ByteVec(Vec::new())
    }

    /// A buffer owning the given bytes.
    pub fn from_vec(v: Vec<u8>) -> (r: Self)
        ensures
            r@ == v@,
    {
        ByteVec(v)
    }

    /// A buffer copied from a slice.
    pub fn from_slice(v: &[u8]) -> (r: Self)
        ensures
            r@ == v@,
    {
        ByteVec(vstd::slice::slice_to_vec(v))
    }

    /// The underlying vector.
    pub fn inner(&self) -> (r: &Vec<u8>)
        ensures
            r@ == self@,
    {
        &self.0
    }

    /// A fresh copy of the bytes.
    pub fn to_vec(&self) -> (r: Vec<u8>)
        ensures
            r@ == self@,
    {
        vstd::slice::slice_to_vec(self.0.as_slice())
    }

    /// A fresh copy of the whole buffer.
    pub fn duplicate(&self) -> (r: Self)
        ensures
            r@ == self@,
    {
        ByteVec(self.to_vec())
    }

    /// Number of bytes.
    pub fn len(&self) -> (r: usize)
        ensures
            r == self@.len(),
    {
        self.0.len()
    }

    /// True on the empty buffer.
    pub fn is_empty(&self) -> (r: bool)
        ensures
            r == (self@.len() == 0),
    {
        self.0.len() == 0
    }

    /// The bytes as a slice.
    pub fn as_slice(&self) -> (r: &[u8])
        ensures
            r@ == self@,
    {
        self.0.as_slice()
    }

    /// The first byte reinterpreted as `u8`.
    pub fn as_u8(&self) -> (r: u8)
        requires
            self@.len() >= 1,
        ensures
            r == self@[0],
    {
        self.0[0]
    }

    /// The first byte reinterpreted as `i8`.
    pub fn as_i8(&self) -> (r: i8)
        requires
            self@.len() >= 1,
        ensures
            r == self@[0] as i8,
    {
        self.0[0] as i8
    }

    /// The first eight bytes reinterpreted as `usize`.
    pub fn as_usize(&self) -> (r: usize)
        requires
            self@.len() >= 8,
        ensures
            r == spec_u64_from_le_bytes(self@.subrange(0, 8)) as usize,
    {
        let w = vstd::slice::slice_subrange(self.0.as_slice(), 0, 8);
        u64_from_le_bytes(w) as usize
    }

    /// The first 2 bytes reinterpreted as a little-endian `u16`.
    pub fn as_u16(&self) -> (r: u16)
        requires
            self@.len() >= 2,
        ensures
            r == spec_u16_from_le_bytes(self@.subrange(0, 2)),
    {
        let w = vstd::slice::slice_subrange(self.0.as_slice(), 0, 2);
        u16_from_le_bytes(w)
    }

    /// The first 4 bytes reinterpreted as a little-endian `u32`.
    pub fn as_u32(&self) -> (r: u32)
        requires
            self@.len() >= 4,
        ensures
            r == spec_u32_from_le_bytes(self@.subrange(0, 4)),
    {
        let w = vstd::slice::slice_subrange(self.0.as_slice(), 0, 4);
        u32_from_le_bytes(w)
    }

    /// The first 8 bytes reinterpreted as a little-endian `u64`.
    pub fn as_u64(&self) -> (r: u64)
        requires
            self@.len() >= 8,
        ensures
            r == spec_u64_from_le_bytes(self@.subrange(0, 8)),
    {
        let w = vstd::slice::slice_subrange(self.0.as_slice(), 0, 8);
        u64_from_le_bytes(w)
    }

    /// The first 16 bytes reinterpreted as a little-endian `u128`.
    pub fn as_u128(&self) -> (r: u128)
        requires
            self@.len() >= 16,
        ensures
            r == spec_u128_from_le_bytes(self@.subrange(0, 16)),
    {
        let w = vstd::slice::slice_subrange(self.0.as_slice(), 0, 16);
        u128_from_le_bytes(w)
    }

    /// The first 2 bytes reinterpreted as a little-endian `i16`.
    pub fn as_i16(&self) -> (r: i16)
        requires
            self@.len() >= 2,
        ensures
            r == spec_u16_from_le_bytes(self@.subrange(0, 2)) as i16,
    {
        let w = vstd::slice::slice_subrange(self.0.as_slice(), 0, 2);
        #[verifier::truncate]
        let r = u16_from_le_bytes(w) as i16;
        r
    }

    /// The first 4 bytes reinterpreted as a little-endian `i32`.
    pub fn as_i32(&self) -> (r: i32)
        requires
            self@.len() >= 4,
        ensures
            r == spec_u32_from_le_bytes(self@.subrange(0, 4)) as i32,
    {
        let w = vstd::slice::slice_subrange(self.0.as_slice(), 0, 4);
        #[verifier::truncate]
        let r = u32_from_le_bytes(w) as i32;
        r
    }

    /// The first 8 bytes reinterpreted as a little-endian `i64`.
    pub fn as_i64(&self) -> (r: i64)
        requires
            self@.len() >= 8,
        ensures
            r == spec_u64_from_le_bytes(self@.subrange(0, 8)) as i64,
    {
        let w = vstd::slice::slice_subrange(self.0.as_slice(), 0, 8);
        #[verifier::truncate]
        let r = u64_from_le_bytes(w) as i64;
        r
    }

    /// The first 16 bytes reinterpreted as a little-endian `i128`.
    pub fn as_i128(&self) -> (r: i128)
        requires
            self@.len() >= 16,
        ensures
            r == spec_u128_from_le_bytes(self@.subrange(0, 16)) as i128,
    {
        let w = vstd::slice::slice_subrange(self.0.as_slice(), 0, 16);
        #[verifier::truncate]
        let r = u128_from_le_bytes(w) as i128;
        r
    }

    /// Equality against a native `u16`, by reinterpretation.
    pub fn eq_u16(&self, other: u16) -> (r: bool)
        requires
            self@.len() >= 2,
        ensures
            r == (spec_u16_from_le_bytes(self@.subrange(0, 2)) == other),
    {
        self.as_u16() == other
    }

    /// Three-way comparison against a native `u16`, by reinterpretation.
    pub fn cmp_u16(&self, other: u16) -> (r: Ordering)
        requires
            self@.len() >= 2,
        ensures
            ({
                let v = spec_u16_from_le_bytes(self@.subrange(0, 2));
                r == (if v < other {
                    Ordering::Less
                } else if v > other {
                    Ordering::Greater
                } else {
                    Ordering::Equal
                })
            }),
    {
        let v = self.as_u16();
        if v < other {
            Ordering::Less
        } else if v > other {
            Ordering::Greater
        } else {
            Ordering::Equal
        }
    }

    /// Equality against a native `u32`, by reinterpretation.
    pub fn eq_u32(&self, other: u32) -> (r: bool)
        requires
            self@.len() >= 4,
        ensures
            r == (spec_u32_from_le_bytes(self@.subrange(0, 4)) == other),
    {
        self.as_u32() == other
    }

    /// Three-way comparison against a native `u32`, by reinterpretation.
    pub fn cmp_u32(&self, other: u32) -> (r: Ordering)
        requires
            self@.len() >= 4,
        ensures
            ({
                let v = spec_u32_from_le_bytes(self@.subrange(0, 4));
                r == (if v < other {
                    Ordering::Less
                } else if v > other {
                    Ordering::Greater
                } else {
                    Ordering::Equal
                })
            }),
    {
        let v = self.as_u32();
        if v < other {
            Ordering::Less
        } else if v > other {
            Ordering::Greater
        } else {
            Ordering::Equal
        }
    }

    /// Equality against a native `u64`, by reinterpretation.
    pub fn eq_u64(&self, other: u64) -> (r: bool)
        requires
            self@.len() >= 8,
        ensures
            r == (spec_u64_from_le_bytes(self@.subrange(0, 8)) == other),
    {
        self.as_u64() == other
    }

    /// Three-way comparison against a native `u64`, by reinterpretation.
    pub fn cmp_u64(&self, other: u64) -> (r: Ordering)
        requires
            self@.len() >= 8,
        ensures
            ({
                let v = spec_u64_from_le_bytes(self@.subrange(0, 8));
                r == (if v < other {
                    Ordering::Less
                } else if v > other {
                    Ordering::Greater
                } else {
                    Ordering::Equal
                })
            }),
    {
        let v = self.as_u64();
        if v < other {
            Ordering::Less
        } else if v > other {
            Ordering::Greater
        } else {
            Ordering::Equal
        }
    }

    /// Equality against a native `u128`, by reinterpretation.
    pub fn eq_u128(&self, other: u128) -> (r: bool)
        requires
            self@.len() >= 16,
        ensures
            r == (spec_u128_from_le_bytes(self@.subrange(0, 16)) == other),
    {
        self.as_u128() == other
    }

    /// Three-way comparison against a native `u128`, by reinterpretation.
    pub fn cmp_u128(&self, other: u128) -> (r: Ordering)
        requires
            self@.len() >= 16,
        ensures
            ({
                let v = spec_u128_from_le_bytes(self@.subrange(0, 16));
                r == (if v < other {
                    Ordering::Less
                } else if v > other {
                    Ordering::Greater
                } else {
                    Ordering::Equal
                })
            }),
    {
        let v = self.as_u128();
        if v < other {
            Ordering::Less
        } else if v > other {
            Ordering::Greater
        } else {
            Ordering::Equal
        }
    }

    /// Equality against a native `i16`, by reinterpretation.
    pub fn eq_i16(&self, other: i16) -> (r: bool)
        requires
            self@.len() >= 2,
        ensures
            r == (spec_u16_from_le_bytes(self@.subrange(0, 2)) as i16 == other),
    {
        self.as_i16() == other
    }

    /// Three-way comparison against a native `i16`, by reinterpretation.
    pub fn cmp_i16(&self, other: i16) -> (r: Ordering)
        requires
            self@.len() >= 2,
        ensures
            ({
                let v = spec_u16_from_le_bytes(self@.subrange(0, 2)) as i16;
                r == (if v < other {
                    Ordering::Less
                } else if v > other {
                    Ordering::Greater
                } else {
                    Ordering::Equal
                })
            }),
    {
        let v = self.as_i16();
        if v < other {
            Ordering::Less
        } else if v > other {
            Ordering::Greater
        } else {
            Ordering::Equal
        }
    }

    /// Equality against a native `i32`, by reinterpretation.
    pub fn eq_i32(&self, other: i32) -> (r: bool)
        requires
            self@.len() >= 4,
        ensures
            r == (spec_u32_from_le_bytes(self@.subrange(0, 4)) as i32 == other),
    {
        self.as_i32() == other
    }

    /// Three-way comparison against a native `i32`, by reinterpretation.
    pub fn cmp_i32(&self, other: i32) -> (r: Ordering)
        requires
            self@.len() >= 4,
        ensures
            ({
                let v = spec_u32_from_le_bytes(self@.subrange(0, 4)) as i32;
                r == (if v < other {
                    Ordering::Less
                } else if v > other {
                    Ordering::Greater
                } else {
                    Ordering::Equal
                })
            }),
    {
        let v = self.as_i32();
        if v < other {
            Ordering::Less
        } else if v > other {
            Ordering::Greater
        } else {
            Ordering::Equal
        }
    }

    /// Equality against a native `i64`, by reinterpretation.
    pub fn eq_i64(&self, other: i64) -> (r: bool)
        requires
            self@.len() >= 8,
        ensures
            r == (spec_u64_from_le_bytes(self@.subrange(0, 8)) as i64 == other),
    {
        self.as_i64() == other
    }

    /// Three-way comparison against a native `i64`, by reinterpretation.
    pub fn cmp_i64(&self, other: i64) -> (r: Ordering)
        requires
            self@.len() >= 8,
        ensures
            ({
                let v = spec_u64_from_le_bytes(self@.subrange(0, 8)) as i64;
                r == (if v < other {
                    Ordering::Less
                } else if v > other {
                    Ordering::Greater
                } else {
                    Ordering::Equal
                })
            }),
    {
        let v = self.as_i64();
        if v < other {
            Ordering::Less
        } else if v > other {
            Ordering::Greater
        } else {
            Ordering::Equal
        }
    }

    /// Equality against a native `i128`, by reinterpretation.
    pub fn eq_i128(&self, other: i128) -> (r: bool)
        requires
            self@.len() >= 16,
        ensures
            r == (spec_u128_from_le_bytes(self@.subrange(0, 16)) as i128 == other),
    {
        self.as_i128() == other
    }

    /// Three-way comparison against a native `i128`, by reinterpretation.
    pub fn cmp_i128(&self, other: i128) -> (r: Ordering)
        requires
            self@.len() >= 16,
        ensures
            ({
                let v = spec_u128_from_le_bytes(self@.subrange(0, 16)) as i128;
                r == (if v < other {
                    Ordering::Less
                } else if v > other {
                    Ordering::Greater
                } else {
                    Ordering::Equal
                })
            }),
    {
        let v = self.as_i128();
        if v < other {
            Ordering::Less
        } else if v > other {
            Ordering::Greater
        } else {
            Ordering::Equal
        }
    }

    /// Equality with a raw byte slice, over the whole buffer.
    pub fn eq_bytes(&self, other: &[u8]) -> (r: bool)
        ensures
            r == (self@ == other@),
    {
        bytes_eq(self.0.as_slice(), other)
    }

    /// Equality with another buffer.
    pub fn eq_bytevec(&self, other: &ByteVec) -> (r: bool)
        ensures
            r == (self@ == other@),
    {
        bytes_eq(self.0.as_slice(), other.0.as_slice())
    }

    /// Equality with a `&str`: true only when the buffer is a length-prefixed
    /// string payload whose text equals `other`.
    pub fn eq_str(&self, other: &str) -> (r: bool)
        ensures
            r == (self@.len() > 8 && self@.subrange(8, self@.len() as int)
                == other.spec_bytes()),
    {
        if self.0.len() > 8 {
            let payload = vstd::slice::slice_subrange(self.0.as_slice(), 8, self.0.len());
            bytes_eq(payload, other.as_bytes())
        } else {
            false
        }
    }

    /// Prefix test on the string payload past the 8-byte length prefix.
    pub fn starts_with(&self, other: &[u8]) -> (r: bool)
        requires
            self@.len() >= 8,
        ensures
            r == starts_with_spec(self@.subrange(8, self@.len() as int), other@),
    {
        let payload = vstd::slice::slice_subrange(self.0.as_slice(), 8, self.0.len());
        slice::starts_with(payload, other)
    }

    /// Suffix test on the string payload past the 8-byte length prefix.
    pub fn ends_with(&self, other: &[u8]) -> (r: bool)
        requires
            self@.len() >= 8,
        ensures
            r == ends_with_spec(self@.subrange(8, self@.len() as int), other@),
    {
        let payload = vstd::slice::slice_subrange(self.0.as_slice(), 8, self.0.len());
        slice::ends_with(payload, other)
    }

    /// Substring test on the string payload past the 8-byte length prefix.
    pub fn contains(&self, other: &[u8]) -> (r: bool)
        requires
            self@.len() >= 8,
        ensures
            r == has_match(self@.subrange(8, self@.len() as int), other@),
    {
        let payload = vstd::slice::slice_subrange(self.0.as_slice(), 8, self.0.len());
        slice::contains_sequence(payload, other)
    }
}

} // verus!
