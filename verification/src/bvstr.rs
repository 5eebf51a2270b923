//! `BvStr`: a borrowed view of a string payload's bytes.

use vstd::prelude::*;
use vstd::string::StringSliceAdditionalSpecFns;

use crate::bvobject::BvObject;
use crate::bvstring::BvString;
use crate::slice;
use crate::slice::{bytes_eq, starts_with_spec, ends_with_spec, has_match};

verus! {

/// A borrowed string payload.
pub struct BvStr<'a>(pub &'a [u8]);

impl<'a> View for BvStr<'a> {
    type V = Seq<u8>;

    open spec fn view(&self) -> Seq<u8> {
        self.0@
    }
}

impl<'a> BvStr<'a> {
    /// A view of the given bytes.
    pub fn new(s: &'a [u8]) -> (r: Self)
        ensures
            r@ == s@,
    {
        BvStr(s)
    }

    /// The text payload of a stored string value, past its 8-byte length
    /// prefix.
    pub fn from_bvobject(o: &'a BvObject) -> (r: Self)
        requires
            o@.raw.len() >= 8,
        ensures
            r@ == o@.raw.subrange(8, o@.raw.len() as int),
    {
        BvStr(o.as_str_slice())
    }

    /// The borrowed bytes.
    pub fn inner(&self) -> (r: &'a [u8])
        ensures
            r@ == self@,
    {
        self.0
    }

    /// The bytes as a slice.
    pub fn as_slice(&self) -> (r: &'a [u8])
        ensures
            r@ == self@,
    {
        self.0
    }

    /// A fresh owned copy of the bytes.
    pub fn to_vec(&self) -> (r: Vec<u8>)
        ensures
            r@ == self@,
    {
        vstd::slice::slice_to_vec(self.0)
    }

    /// A fresh owned byte string of the text.
    pub fn to_bvstring(&self) -> (r: BvString)
        ensures
            r@ == self@,
    {
        BvString::from_slice(self.0)
    }

    /// True on the empty text.
    pub fn is_empty(&self) -> (r: bool)
        ensures
            r == (self@.len() == 0),
    {
        self.0.len() == 0
    }

    /// Number of bytes.
    pub fn len(&self) -> (r: usize)
        ensures
            r == self@.len(),
    {
        self.0.len()
    }

    /// Byte-for-byte equality with a slice.
    pub fn eq_bytes(&self, other: &[u8]) -> (r: bool)
        ensures
            r == (self@ == other@),
    {
        bytes_eq(self.0, other)
    }

    /// Equality with a `&str`'s UTF-8 bytes.
    pub fn eq_str(&self, other: &str) -> (r: bool)
        ensures
            r == (self@ == other.spec_bytes()),
    {
        bytes_eq(self.0, other.as_bytes())
    }

    /// Prefix test.
    pub fn starts_with(&self, other: &[u8]) -> (r: bool)
        ensures
            r == starts_with_spec(self@, other@),
    {
        slice::starts_with(self.0, other)
    }

    /// Suffix test.
    pub fn ends_with(&self, other: &[u8]) -> (r: bool)
        ensures
            r == ends_with_spec(self@, other@),
    {
        slice::ends_with(self.0, other)
    }

    /// Substring test.
    pub fn contains(&self, other: &[u8]) -> (r: bool)
        ensures
            r == has_match(self@, other@),
    {
        slice::contains_sequence(self.0, other)
    }
}

} // verus!
