//! `BvObject`: a type-erased stored value — a normalized type tag next to
//! the raw serialized bytes of the value.
//!
//! Classification (`is_int`, `is_uint`, `is_float`, `is_str`) matches the
//! tag against the canonical names exactly; any unknown tag classifies as
//! none of these. Numeric comparison operators classify first and treat a
//! non-matching tag as "not equal" / "not comparable" rather than failing.

use core::cmp::Ordering;

use vstd::prelude::*;
use vstd::bytes::{spec_u16_from_le_bytes, spec_u32_from_le_bytes, spec_u64_from_le_bytes,
    spec_u128_from_le_bytes};
use vstd::string::StringSliceAdditionalSpecFns;

use crate::bvstring::BvString;
use crate::bytevec::ByteVec;
use crate::slice::{bytes_eq, starts_with_spec, ends_with_spec, has_match};
use crate::utils::{is_int_tag, is_uint_tag, is_float_tag, str_tag, tag_width};

verus! {

/// The mathematical value of a stored object: its tag and raw bytes.
pub ghost struct ObjView {
    pub type_tag: Seq<u8>,
    pub raw: Seq<u8>,
}

/// A numeric tag is carried by a payload of exactly its fixed width.
pub open spec fn obj_width_ok(o: ObjView) -> bool {
    tag_width(o.type_tag) != 0 ==> o.raw.len() == tag_width(o.type_tag)
}

/// A type-erased value: normalized type tag plus raw serialized bytes.
pub struct BvObject {
    pub type_tag: BvString,
    pub raw: ByteVec,
}

impl View for BvObject {
    type V = ObjView;

    open spec fn view(&self) -> ObjView {
        ObjView { type_tag: self.type_tag@, raw: self.raw@ }
    }
}

impl BvObject {
    /// A value from its tag bytes and raw bytes, both owned.
    pub fn from_raw(t: Vec<u8>, v: Vec<u8>) -> (r: Self)
        ensures
            r@.type_tag == t@,
            r@.raw == v@,
    {
        BvObject { type_tag: BvString::from_vec(t), raw: ByteVec::from_vec(v) }
    }

    /// A value from borrowed tag bytes and raw bytes.
    pub fn from_tuple(t: (&[u8], &[u8])) -> (r: Self)
        ensures
            r@.type_tag == t.0@,
            r@.raw == t.1@,
    {
        BvObject { type_tag: BvString::from_slice(t.0), raw: ByteVec::from_slice(t.1) }
    }

    /// A fresh copy of another value.
    pub fn from_bvobject(other: &BvObject) -> (r: Self)
        ensures
            r@ == other@,
    {
        BvObject { type_tag: other.type_tag.duplicate(), raw: other.raw.duplicate() }
    }

    /// The type tag.
    pub fn type_tag(&self) -> (r: &BvString)
        ensures
            r@ == self@.type_tag,
    {
        &self.type_tag
    }

    /// The raw bytes.
    pub fn raw(&self) -> (r: &ByteVec)
        ensures
            r@ == self@.raw,
    {
        &self.raw
    }

    /// Replace the raw bytes, keeping the tag.
    pub fn set_raw(&mut self, v: Vec<u8>)
        ensures
            final(self)@.type_tag == old(self)@.type_tag,
            final(self)@.raw == v@,
    {
        self.raw = ByteVec::from_vec(v);
    }

    /// Number of raw bytes.
    pub fn len(&self) -> (r: usize)
        ensures
            r == self@.raw.len(),
    {
        self.raw.len()
    }

    /// The raw bytes as a slice.
    pub fn as_slice(&self) -> (r: &[u8])
        ensures
            r@ == self@.raw,
    {
        self.raw.as_slice()
    }

    /// The string payload past the 8-byte length prefix.
    pub fn as_str_slice(&self) -> (r: &[u8])
        requires
            self@.raw.len() >= 8,
        ensures
            r@ == self@.raw.subrange(8, self@.raw.len() as int),
    {
        let w = self.raw.as_slice();
        vstd::slice::slice_subrange(w, 8, w.len())
    }

    /// Is the tag the string tag `str`?
    pub fn is_str(&self) -> (r: bool)
        ensures
            r == (self@.type_tag == str_tag()),
    {
        let t: [u8; 3] = [115, 116, 114];
        proof {
            assert(t@ =~= str_tag());
        }
        bytes_eq(self.type_tag.as_slice(), t.as_slice())
    }

    /// Is the tag one of the signed integer tags?
    pub fn is_int(&self) -> (r: bool)
        ensures
            r == is_int_tag(self@.type_tag),
    {
        let i8t: [u8; 2] = [105, 56];
        let i16t: [u8; 3] = [105, 49, 54];
        let i32t: [u8; 3] = [105, 51, 50];
        let i64t: [u8; 3] = [105, 54, 52];
        let i128t: [u8; 4] = [105, 49, 50, 56];
        proof {
            assert(i8t@ =~= seq![105u8, 56u8]);
            assert(i16t@ =~= seq![105u8, 49u8, 54u8]);
            assert(i32t@ =~= seq![105u8, 51u8, 50u8]);
            assert(i64t@ =~= seq![105u8, 54u8, 52u8]);
            assert(i128t@ =~= seq![105u8, 49u8, 50u8, 56u8]);
        }
        let s = self.type_tag.as_slice();
        bytes_eq(s, i8t.as_slice()) || bytes_eq(s, i16t.as_slice()) || bytes_eq(
            s,
            i32t.as_slice(),
        ) || bytes_eq(s, i64t.as_slice()) || bytes_eq(s, i128t.as_slice())
    }

    /// Is the tag one of the unsigned integer tags?
    pub fn is_uint(&self) -> (r: bool)
        ensures
            r == is_uint_tag(self@.type_tag),
    {
        let u8t: [u8; 2] = [117, 56];
        let u16t: [u8; 3] = [117, 49, 54];
        let u32t: [u8; 3] = [117, 51, 50];
        let u64t: [u8; 3] = [117, 54, 52];
        let u128t: [u8; 4] = [117, 49, 50, 56];
        proof {
            assert(u8t@ =~= seq![117u8, 56u8]);
            assert(u16t@ =~= seq![117u8, 49u8, 54u8]);
            assert(u32t@ =~= seq![117u8, 51u8, 50u8]);
            assert(u64t@ =~= seq![117u8, 54u8, 52u8]);
            assert(u128t@ =~= seq![117u8, 49u8, 50u8, 56u8]);
        }
        let s = self.type_tag.as_slice();
        bytes_eq(s, u8t.as_slice()) || bytes_eq(s, u16t.as_slice()) || bytes_eq(
            s,
            u32t.as_slice(),
        ) || bytes_eq(s, u64t.as_slice()) || bytes_eq(s, u128t.as_slice())
    }

    /// Is the tag one of the floating-point tags?
    pub fn is_float(&self) -> (r: bool)
        ensures
            r == is_float_tag(self@.type_tag),
    {
        let f32t: [u8; 3] = [102, 51, 50];
        let f64t: [u8; 3] = [102, 54, 52];
        proof {
            assert(f32t@ =~= seq![102u8, 51u8, 50u8]);
            assert(f64t@ =~= seq![102u8, 54u8, 52u8]);
        }
        let s = self.type_tag.as_slice();
        bytes_eq(s, f32t.as_slice()) || bytes_eq(s, f64t.as_slice())
    }

    /// Equality with a raw byte slice: a string value compares its payload
    /// past the length prefix, any other value compares all raw bytes.
    pub fn eq_bytes(&self, other: &[u8]) -> (r: bool)
        requires
            self@.type_tag == str_tag() ==> self@.raw.len() >= 8,
        ensures
            r == (if self@.type_tag == str_tag() {
                self@.raw.subrange(8, self@.raw.len() as int) == other@
            } else {
                self@.raw == other@
            }),
    {
        if self.is_str() {
            bytes_eq(self.as_str_slice(), other)
        } else {
            bytes_eq(self.raw.as_slice(), other)
        }
    }

    /// Equality with a `&str`: the value must be a string and its payload
    /// must equal the text's bytes.
    pub fn eq_str(&self, other: &str) -> (r: bool)
        requires
            self@.type_tag == str_tag() ==> self@.raw.len() >= 8,
        ensures
            r == (self@.type_tag == str_tag() && self@.raw.subrange(8, self@.raw.len() as int)
                == other.spec_bytes()),
    {
        if self.is_str() {
            bytes_eq(self.as_str_slice(), other.as_bytes())
        } else {
            false
        }
    }

    /// Equality with another stored value, by raw bytes.
    pub fn eq_bvobject(&self, other: &BvObject) -> (r: bool)
        ensures
            r == (self@.raw == other@.raw),
    {
        bytes_eq(self.raw.as_slice(), other.raw.as_slice())
    }

    /// Equality with a native `bool`, by the first raw byte.
    pub fn eq_bool(&self, other: bool) -> (r: bool)
        requires
            self@.raw.len() >= 1,
        ensures
            r == (self@.raw[0] == (if other {
                1u8
            } else {
                0u8
            })),
    {
        if other {
            self.raw.as_u8() == 1
        } else {
            self.raw.as_u8() == 0
        }
    }

    /// Prefix test: a string value's payload starts with the given bytes.
    pub fn starts_with(&self, other: &[u8]) -> (r: bool)
        requires
            self@.type_tag == str_tag() ==> self@.raw.len() >= 8,
        ensures
            r == (self@.type_tag == str_tag() && starts_with_spec(
                self@.raw.subrange(8, self@.raw.len() as int),
                other@,
            )),
    {
        self.is_str() && self.raw.starts_with(other)
    }

    /// Suffix test: a string value's payload ends with the given bytes.
    pub fn ends_with(&self, other: &[u8]) -> (r: bool)
        requires
            self@.type_tag == str_tag() ==> self@.raw.len() >= 8,
        ensures
            r == (self@.type_tag == str_tag() && ends_with_spec(
                self@.raw.subrange(8, self@.raw.len() as int),
                other@,
            )),
    {
        self.is_str() && self.raw.ends_with(other)
    }

    /// Substring test on a string value's payload.
    pub fn contains(&self, other: &[u8]) -> (r: bool)
        requires
            self@.type_tag == str_tag() ==> self@.raw.len() >= 8,
        ensures
            r == (self@.type_tag == str_tag() && has_match(
                self@.raw.subrange(8, self@.raw.len() as int),
                other@,
            )),
    {
        self.is_str() && self.raw.contains(other)
    }

    /// The first 2 raw bytes reinterpreted as a little-endian `u16`.
    pub fn as_u16(&self) -> (r: u16)
        requires
            self@.raw.len() >= 2,
        ensures
            r == spec_u16_from_le_bytes(self@.raw.subrange(0, 2)),
    {
        self.raw.as_u16()
    }

    /// Equality against a native `u16`: false unless the tag is unsigned.
    pub fn eq_u16(&self, other: u16) -> (r: bool)
        requires
            is_uint_tag(self@.type_tag) ==> self@.raw.len() >= 2,
        ensures
            r == (is_uint_tag(self@.type_tag) && spec_u16_from_le_bytes(
                self@.raw.subrange(0, 2),
            ) == other),
    {
        self.is_uint() && self.raw.eq_u16(other)
    }

    /// Comparison against a native `u16`: `None` unless the tag is unsigned.
    pub fn cmp_u16(&self, other: u16) -> (r: Option<Ordering>)
        requires
            is_uint_tag(self@.type_tag) ==> self@.raw.len() >= 2,
        ensures
            ({
                let v = spec_u16_from_le_bytes(self@.raw.subrange(0, 2));
                r == (if !is_uint_tag(self@.type_tag) {
                    Option::<Ordering>::None
                } else if v < other {
                    Option::Some(Ordering::Less)
                } else if v > other {
                    Option::Some(Ordering::Greater)
                } else {
                    Option::Some(Ordering::Equal)
                })
            }),
    {
        if !self.is_uint() {
            return None;
        }
        Some(self.raw.cmp_u16(other))
    }

    /// The first 4 raw bytes reinterpreted as a little-endian `u32`.
    pub fn as_u32(&self) -> (r: u32)
        requires
            self@.raw.len() >= 4,
        ensures
            r == spec_u32_from_le_bytes(self@.raw.subrange(0, 4)),
    {
        self.raw.as_u32()
    }

    /// Equality against a native `u32`: false unless the tag is unsigned.
    pub fn eq_u32(&self, other: u32) -> (r: bool)
        requires
            is_uint_tag(self@.type_tag) ==> self@.raw.len() >= 4,
        ensures
            r == (is_uint_tag(self@.type_tag) && spec_u32_from_le_bytes(
                self@.raw.subrange(0, 4),
            ) == other),
    {
        self.is_uint() && self.raw.eq_u32(other)
    }

    /// Comparison against a native `u32`: `None` unless the tag is unsigned.
    pub fn cmp_u32(&self, other: u32) -> (r: Option<Ordering>)
        requires
            is_uint_tag(self@.type_tag) ==> self@.raw.len() >= 4,
        ensures
            ({
                let v = spec_u32_from_le_bytes(self@.raw.subrange(0, 4));
                r == (if !is_uint_tag(self@.type_tag) {
                    Option::<Ordering>::None
                } else if v < other {
                    Option::Some(Ordering::Less)
                } else if v > other {
                    Option::Some(Ordering::Greater)
                } else {
                    Option::Some(Ordering::Equal)
                })
            }),
    {
        if !self.is_uint() {
            return None;
        }
        Some(self.raw.cmp_u32(other))
    }

    /// The first 8 raw bytes reinterpreted as a little-endian `u64`.
    pub fn as_u64(&self) -> (r: u64)
        requires
            self@.raw.len() >= 8,
        ensures
            r == spec_u64_from_le_bytes(self@.raw.subrange(0, 8)),
    {
        self.raw.as_u64()
    }

    /// Equality against a native `u64`: false unless the tag is unsigned.
    pub fn eq_u64(&self, other: u64) -> (r: bool)
        requires
            is_uint_tag(self@.type_tag) ==> self@.raw.len() >= 8,
        ensures
            r == (is_uint_tag(self@.type_tag) && spec_u64_from_le_bytes(
                self@.raw.subrange(0, 8),
            ) == other),
    {
        self.is_uint() && self.raw.eq_u64(other)
    }

    /// Comparison against a native `u64`: `None` unless the tag is unsigned.
    pub fn cmp_u64(&self, other: u64) -> (r: Option<Ordering>)
        requires
            is_uint_tag(self@.type_tag) ==> self@.raw.len() >= 8,
        ensures
            ({
                let v = spec_u64_from_le_bytes(self@.raw.subrange(0, 8));
                r == (if !is_uint_tag(self@.type_tag) {
                    Option::<Ordering>::None
                } else if v < other {
                    Option::Some(Ordering::Less)
                } else if v > other {
                    Option::Some(Ordering::Greater)
                } else {
                    Option::Some(Ordering::Equal)
                })
            }),
    {
        if !self.is_uint() {
            return None;
        }
        Some(self.raw.cmp_u64(other))
    }

    /// The first 16 raw bytes reinterpreted as a little-endian `u128`.
    pub fn as_u128(&self) -> (r: u128)
        requires
            self@.raw.len() >= 16,
        ensures
            r == spec_u128_from_le_bytes(self@.raw.subrange(0, 16)),
    {
        self.raw.as_u128()
    }

    /// Equality against a native `u128`: false unless the tag is unsigned.
    pub fn eq_u128(&self, other: u128) -> (r: bool)
        requires
            is_uint_tag(self@.type_tag) ==> self@.raw.len() >= 16,
        ensures
            r == (is_uint_tag(self@.type_tag) && spec_u128_from_le_bytes(
                self@.raw.subrange(0, 16),
            ) == other),
    {
        self.is_uint() && self.raw.eq_u128(other)
    }

    /// Comparison against a native `u128`: `None` unless the tag is unsigned.
    pub fn cmp_u128(&self, other: u128) -> (r: Option<Ordering>)
        requires
            is_uint_tag(self@.type_tag) ==> self@.raw.len() >= 16,
        ensures
            ({
                let v = spec_u128_from_le_bytes(self@.raw.subrange(0, 16));
                r == (if !is_uint_tag(self@.type_tag) {
                    Option::<Ordering>::None
                } else if v < other {
                    Option::Some(Ordering::Less)
                } else if v > other {
                    Option::Some(Ordering::Greater)
                } else {
                    Option::Some(Ordering::Equal)
                })
            }),
    {
        if !self.is_uint() {
            return None;
        }
        Some(self.raw.cmp_u128(other))
    }

    /// The first 2 raw bytes reinterpreted as a little-endian `i16`.
    pub fn as_i16(&self) -> (r: i16)
        requires
            self@.raw.len() >= 2,
        ensures
            r == spec_u16_from_le_bytes(self@.raw.subrange(0, 2)) as i16,
    {
        self.raw.as_i16()
    }

    /// Equality against a native `i16`: false unless the tag is signed.
    pub fn eq_i16(&self, other: i16) -> (r: bool)
        requires
            is_int_tag(self@.type_tag) ==> self@.raw.len() >= 2,
        ensures
            r == (is_int_tag(self@.type_tag) && spec_u16_from_le_bytes(
                self@.raw.subrange(0, 2),
            ) as i16 == other),
    {
        self.is_int() && self.raw.eq_i16(other)
    }

    /// Comparison against a native `i16`: `None` unless the tag is signed.
    pub fn cmp_i16(&self, other: i16) -> (r: Option<Ordering>)
        requires
            is_int_tag(self@.type_tag) ==> self@.raw.len() >= 2,
        ensures
            ({
                let v = spec_u16_from_le_bytes(self@.raw.subrange(0, 2)) as i16;
                r == (if !is_int_tag(self@.type_tag) {
                    Option::<Ordering>::None
                } else if v < other {
                    Option::Some(Ordering::Less)
                } else if v > other {
                    Option::Some(Ordering::Greater)
                } else {
                    Option::Some(Ordering::Equal)
                })
            }),
    {
        if !self.is_int() {
            return None;
        }
        Some(self.raw.cmp_i16(other))
    }

    /// The first 4 raw bytes reinterpreted as a little-endian `i32`.
    pub fn as_i32(&self) -> (r: i32)
        requires
            self@.raw.len() >= 4,
        ensures
            r == spec_u32_from_le_bytes(self@.raw.subrange(0, 4)) as i32,
    {
        self.raw.as_i32()
    }

    /// Equality against a native `i32`: false unless the tag is signed.
    pub fn eq_i32(&self, other: i32) -> (r: bool)
        requires
            is_int_tag(self@.type_tag) ==> self@.raw.len() >= 4,
        ensures
            r == (is_int_tag(self@.type_tag) && spec_u32_from_le_bytes(
                self@.raw.subrange(0, 4),
            ) as i32 == other),
    {
        self.is_int() && self.raw.eq_i32(other)
    }

    /// Comparison against a native `i32`: `None` unless the tag is signed.
    pub fn cmp_i32(&self, other: i32) -> (r: Option<Ordering>)
        requires
            is_int_tag(self@.type_tag) ==> self@.raw.len() >= 4,
        ensures
            ({
                let v = spec_u32_from_le_bytes(self@.raw.subrange(0, 4)) as i32;
                r == (if !is_int_tag(self@.type_tag) {
                    Option::<Ordering>::None
                } else if v < other {
                    Option::Some(Ordering::Less)
                } else if v > other {
                    Option::Some(Ordering::Greater)
                } else {
                    Option::Some(Ordering::Equal)
                })
            }),
    {
        if !self.is_int() {
            return None;
        }
        Some(self.raw.cmp_i32(other))
    }

    /// The first 8 raw bytes reinterpreted as a little-endian `i64`.
    pub fn as_i64(&self) -> (r: i64)
        requires
            self@.raw.len() >= 8,
        ensures
            r == spec_u64_from_le_bytes(self@.raw.subrange(0, 8)) as i64,
    {
        self.raw.as_i64()
    }

    /// Equality against a native `i64`: false unless the tag is signed.
    pub fn eq_i64(&self, other: i64) -> (r: bool)
        requires
            is_int_tag(self@.type_tag) ==> self@.raw.len() >= 8,
        ensures
            r == (is_int_tag(self@.type_tag) && spec_u64_from_le_bytes(
                self@.raw.subrange(0, 8),
            ) as i64 == other),
    {
        self.is_int() && self.raw.eq_i64(other)
    }

    /// Comparison against a native `i64`: `None` unless the tag is signed.
    pub fn cmp_i64(&self, other: i64) -> (r: Option<Ordering>)
        requires
            is_int_tag(self@.type_tag) ==> self@.raw.len() >= 8,
        ensures
            ({
                let v = spec_u64_from_le_bytes(self@.raw.subrange(0, 8)) as i64;
                r == (if !is_int_tag(self@.type_tag) {
                    Option::<Ordering>::None
                } else if v < other {
                    Option::Some(Ordering::Less)
                } else if v > other {
                    Option::Some(Ordering::Greater)
                } else {
                    Option::Some(Ordering::Equal)
                })
            }),
    {
        if !self.is_int() {
            return None;
        }
        Some(self.raw.cmp_i64(other))
    }

    /// The first 16 raw bytes reinterpreted as a little-endian `i128`.
    pub fn as_i128(&self) -> (r: i128)
        requires
            self@.raw.len() >= 16,
        ensures
            r == spec_u128_from_le_bytes(self@.raw.subrange(0, 16)) as i128,
    {
        self.raw.as_i128()
    }

    /// Equality against a native `i128`: false unless the tag is signed.
    pub fn eq_i128(&self, other: i128) -> (r: bool)
        requires
            is_int_tag(self@.type_tag) ==> self@.raw.len() >= 16,
        ensures
            r == (is_int_tag(self@.type_tag) && spec_u128_from_le_bytes(
                self@.raw.subrange(0, 16),
            ) as i128 == other),
    {
        self.is_int() && self.raw.eq_i128(other)
    }

    /// Comparison against a native `i128`: `None` unless the tag is signed.
    pub fn cmp_i128(&self, other: i128) -> (r: Option<Ordering>)
        requires
            is_int_tag(self@.type_tag) ==> self@.raw.len() >= 16,
        ensures
            ({
                let v = spec_u128_from_le_bytes(self@.raw.subrange(0, 16)) as i128;
                r == (if !is_int_tag(self@.type_tag) {
                    Option::<Ordering>::None
                } else if v < other {
                    Option::Some(Ordering::Less)
                } else if v > other {
                    Option::Some(Ordering::Greater)
                } else {
                    Option::Some(Ordering::Equal)
                })
            }),
    {
        if !self.is_int() {
            return None;
        }
        Some(self.raw.cmp_i128(other))
    }


    /// A value holding a native `u8` under its canonical tag.
    pub fn from_u8(x: u8) -> (r: Self)
        ensures
            r@.type_tag == seq![117u8, 56u8],
            r@.raw == seq![x],
    {
        let tag: [u8; 2] = [117, 56];
        let mut raw: Vec<u8> = Vec::new();
        raw.push(x);
        proof {
            assert(tag@ =~= seq![117u8, 56u8]);
            assert(raw@ =~= seq![x]);
        }
        BvObject::from_raw(vstd::slice::slice_to_vec(tag.as_slice()), raw)
    }

    /// A value holding a native `i8` under its canonical tag, as its
    /// two's-complement byte.
    pub fn from_i8(x: i8) -> (r: Self)
        ensures
            r@.type_tag == seq![105u8, 56u8],
            r@.raw == seq![x as u8],
    {
        let tag: [u8; 2] = [105, 56];
        let mut raw: Vec<u8> = Vec::new();
        #[verifier::truncate]
        let b = x as u8;
        raw.push(b);
        proof {
            assert(tag@ =~= seq![105u8, 56u8]);
            assert(raw@ =~= seq![x as u8]);
        }
        BvObject::from_raw(vstd::slice::slice_to_vec(tag.as_slice()), raw)
    }

    /// A value holding a native `u16` under its canonical tag, in
    /// little-endian bytes.
    pub fn from_u16(x: u16) -> (r: Self)
        ensures
            r@.type_tag == seq![117u8, 49u8, 54u8],
            r@.raw == vstd::bytes::spec_u16_to_le_bytes(x),
    {
        let tag: [u8; 3] = [117, 49, 54];
        let raw = vstd::bytes::u16_to_le_bytes(x);
        proof {
            assert(tag@ =~= seq![117u8, 49u8, 54u8]);
        }
        BvObject::from_raw(vstd::slice::slice_to_vec(tag.as_slice()), raw)
    }

    /// A value holding a native `u32` under its canonical tag, in
    /// little-endian bytes.
    pub fn from_u32(x: u32) -> (r: Self)
        ensures
            r@.type_tag == seq![117u8, 51u8, 50u8],
            r@.raw == vstd::bytes::spec_u32_to_le_bytes(x),
    {
        let tag: [u8; 3] = [117, 51, 50];
        let raw = vstd::bytes::u32_to_le_bytes(x);
        proof {
            assert(tag@ =~= seq![117u8, 51u8, 50u8]);
        }
        BvObject::from_raw(vstd::slice::slice_to_vec(tag.as_slice()), raw)
    }

    /// A value holding a native `u64` under its canonical tag, in
    /// little-endian bytes.
    pub fn from_u64(x: u64) -> (r: Self)
        ensures
            r@.type_tag == seq![117u8, 54u8, 52u8],
            r@.raw == vstd::bytes::spec_u64_to_le_bytes(x),
    {
        let tag: [u8; 3] = [117, 54, 52];
        let raw = vstd::bytes::u64_to_le_bytes(x);
        proof {
            assert(tag@ =~= seq![117u8, 54u8, 52u8]);
        }
        BvObject::from_raw(vstd::slice::slice_to_vec(tag.as_slice()), raw)
    }

    /// A value holding a native `u128` under its canonical tag, in
    /// little-endian bytes.
    pub fn from_u128(x: u128) -> (r: Self)
        ensures
            r@.type_tag == seq![117u8, 49u8, 50u8, 56u8],
            r@.raw == vstd::bytes::spec_u128_to_le_bytes(x),
    {
        let tag: [u8; 4] = [117, 49, 50, 56];
        let raw = vstd::bytes::u128_to_le_bytes(x);
        proof {
            assert(tag@ =~= seq![117u8, 49u8, 50u8, 56u8]);
        }
        BvObject::from_raw(vstd::slice::slice_to_vec(tag.as_slice()), raw)
    }

    /// A value holding a native `i16` under its canonical tag, as its
    /// two's-complement little-endian bytes.
    pub fn from_i16(x: i16) -> (r: Self)
        ensures
            r@.type_tag == seq![105u8, 49u8, 54u8],
            r@.raw == vstd::bytes::spec_u16_to_le_bytes(x as u16),
    {
        let tag: [u8; 3] = [105, 49, 54];
        #[verifier::truncate]
        let u = x as u16;
        let raw = vstd::bytes::u16_to_le_bytes(u);
        proof {
            assert(tag@ =~= seq![105u8, 49u8, 54u8]);
        }
        BvObject::from_raw(vstd::slice::slice_to_vec(tag.as_slice()), raw)
    }

    /// A value holding a native `i32` under its canonical tag, as its
    /// two's-complement little-endian bytes.
    pub fn from_i32(x: i32) -> (r: Self)
        ensures
            r@.type_tag == seq![105u8, 51u8, 50u8],
            r@.raw == vstd::bytes::spec_u32_to_le_bytes(x as u32),
    {
        let tag: [u8; 3] = [105, 51, 50];
        #[verifier::truncate]
        let u = x as u32;
        let raw = vstd::bytes::u32_to_le_bytes(u);
        proof {
            assert(tag@ =~= seq![105u8, 51u8, 50u8]);
        }
        BvObject::from_raw(vstd::slice::slice_to_vec(tag.as_slice()), raw)
    }

    /// A value holding a native `i64` under its canonical tag, as its
    /// two's-complement little-endian bytes.
    pub fn from_i64(x: i64) -> (r: Self)
        ensures
            r@.type_tag == seq![105u8, 54u8, 52u8],
            r@.raw == vstd::bytes::spec_u64_to_le_bytes(x as u64),
    {
        let tag: [u8; 3] = [105, 54, 52];
        #[verifier::truncate]
        let u = x as u64;
        let raw = vstd::bytes::u64_to_le_bytes(u);
        proof {
            assert(tag@ =~= seq![105u8, 54u8, 52u8]);
        }
        BvObject::from_raw(vstd::slice::slice_to_vec(tag.as_slice()), raw)
    }

    /// A value holding a native `i128` under its canonical tag, as its
    /// two's-complement little-endian bytes.
    pub fn from_i128(x: i128) -> (r: Self)
        ensures
            r@.type_tag == seq![105u8, 49u8, 50u8, 56u8],
            r@.raw == vstd::bytes::spec_u128_to_le_bytes(x as u128),
    {
        let tag: [u8; 4] = [105, 49, 50, 56];
        #[verifier::truncate]
        let u = x as u128;
        let raw = vstd::bytes::u128_to_le_bytes(u);
        proof {
            assert(tag@ =~= seq![105u8, 49u8, 50u8, 56u8]);
        }
        BvObject::from_raw(vstd::slice::slice_to_vec(tag.as_slice()), raw)
    }

    /// A string value under the `str` tag: an 8-byte length prefix, then
    /// the text's UTF-8 bytes, as the serialization of stored strings.
    pub fn from_str_value(s: &str) -> (r: Self)
        ensures
            r@.type_tag == str_tag(),
            r@.raw == vstd::bytes::spec_u64_to_le_bytes(s.spec_bytes().len() as u64)
                + s.spec_bytes(),
    {
        let tag: [u8; 3] = [115, 116, 114];
        let b = s.as_bytes();
        let mut raw = vstd::bytes::u64_to_le_bytes(b.len() as u64);
        crate::codec::push_bytes(&mut raw, b);
        proof {
            assert(tag@ =~= str_tag());
        }
        BvObject::from_raw(vstd::slice::slice_to_vec(tag.as_slice()), raw)
    }

    /// The first raw byte reinterpreted as `u8`.
    pub fn as_u8(&self) -> (r: u8)
        requires
            self@.raw.len() >= 1,
        ensures
            r == self@.raw[0],
    {
        self.raw.as_u8()
    }

    /// The first raw byte reinterpreted as `i8`.
    pub fn as_i8(&self) -> (r: i8)
        requires
            self@.raw.len() >= 1,
        ensures
            r == self@.raw[0] as i8,
    {
        self.raw.as_i8()
    }

    /// The first eight raw bytes reinterpreted as `usize`.
    pub fn as_usize(&self) -> (r: usize)
        requires
            self@.raw.len() >= 8,
        ensures
            r == spec_u64_from_le_bytes(self@.raw.subrange(0, 8)) as usize,
    {
        self.raw.as_usize()
    }
}

} // verus!
