//! `BvString`: an owned byte string used for keys and names.

use vstd::prelude::*;

use vstd::string::StringSliceAdditionalSpecFns;

use crate::slice;
use crate::slice::{bytes_eq, starts_with_spec, ends_with_spec, has_match};

verus! {

/// Strict lexicographic byte order: `a` sorts before `b`.
pub open spec fn lex_lt(a: Seq<u8>, b: Seq<u8>) -> bool {
    ||| (a.len() < b.len() && a == b.subrange(0, a.len() as int))
    ||| exists|i: int|
        0 <= i < a.len() && i < b.len() && a.subrange(0, i) == b.subrange(0, i) && a[i] < b[i]
}

/// The order is a strict total order: for any two byte strings exactly one
/// of `lex_lt(a, b)`, `a == b`, `lex_lt(b, a)` holds.
pub proof fn lemma_lex_trichotomy(a: Seq<u8>, b: Seq<u8>)
    ensures
        lex_lt(a, b) || lex_lt(b, a) || a == b,
        lex_lt(a, b) ==> !lex_lt(b, a) && a != b,
        lex_lt(b, a) ==> !lex_lt(a, b) && a != b,
{
    if exists|i: int| 0 <= i < a.len() && i < b.len() && a[i] != b[i] {
        lemma_least_difference(a, b);
        let i = least_difference(a, b);
        assert(a.subrange(0, i) =~= b.subrange(0, i));
        if a[i] < b[i] {
            assert(lex_lt(a, b));
            lemma_lex_asymmetric_at(a, b, i);
        } else {
            assert(b.subrange(0, i) =~= a.subrange(0, i));
            assert(lex_lt(b, a));
            lemma_lex_asymmetric_at(b, a, i);
        }
    } else {
        if a.len() < b.len() {
            assert(a =~= b.subrange(0, a.len() as int));
            assert(lex_lt(a, b));
            lemma_no_diff_no_witness(b, a);
            assert(!lex_lt(b, a));
        } else if b.len() < a.len() {
            assert(b =~= a.subrange(0, b.len() as int));
            assert(lex_lt(b, a));
            lemma_no_diff_no_witness(a, b);
            assert(!lex_lt(a, b));
        } else {
            assert(a =~= b);
            lemma_no_diff_no_witness(a, b);
            lemma_no_diff_no_witness(b, a);
        }
    }
}

/// The position of the first index where `a` and `b` differ.
spec fn least_difference(a: Seq<u8>, b: Seq<u8>) -> int {
    choose|i: int|
        0 <= i < a.len() && i < b.len() && a[i] != b[i] && forall|j: int| 0 <= j < i ==> a[j] == b[j]
}

proof fn lemma_least_difference(a: Seq<u8>, b: Seq<u8>)
    requires
        exists|i: int| 0 <= i < a.len() && i < b.len() && a[i] != b[i],
    ensures
        ({
            let i = least_difference(a, b);
            0 <= i < a.len() && i < b.len() && a[i] != b[i] && forall|j: int|
                0 <= j < i ==> a[j] == b[j]
        }),
    decreases a.len(),
{
    let w = choose|i: int| 0 <= i < a.len() && i < b.len() && a[i] != b[i];
    lemma_least_difference_below(a, b, w);
}

proof fn lemma_least_difference_below(a: Seq<u8>, b: Seq<u8>, w: int)
    requires
        0 <= w < a.len() && w < b.len() && a[w] != b[w],
    ensures
        ({
            let i = least_difference(a, b);
            0 <= i < a.len() && i < b.len() && a[i] != b[i] && forall|j: int|
                0 <= j < i ==> a[j] == b[j]
        }),
    decreases w,
{
    if exists|v: int| 0 <= v < w && a[v] != b[v] {
        let v = choose|v: int| 0 <= v < w && a[v] != b[v];
        lemma_least_difference_below(a, b, v);
    } else {
        assert(0 <= w < a.len() && w < b.len() && a[w] != b[w] && forall|j: int|
            0 <= j < w ==> a[j] == b[j]);
    }
}

proof fn lemma_lex_asymmetric_at(a: Seq<u8>, b: Seq<u8>, i: int)
    requires
        0 <= i < a.len() && i < b.len(),
        a.subrange(0, i) == b.subrange(0, i),
        a[i] < b[i],
    ensures
        lex_lt(a, b),
        !lex_lt(b, a),
        a != b,
{
    assert(lex_lt(a, b));
    if lex_lt(b, a) {
        if b.len() < a.len() && b == a.subrange(0, b.len() as int) {
            assert(b[i] == a.subrange(0, b.len() as int)[i]);
            assert(b[i] == a[i]);
        } else {
            let k = choose|k: int|
                0 <= k < b.len() && k < a.len() && b.subrange(0, k) == a.subrange(0, k) && b[k]
                    < a[k];
            if k < i {
                assert(a.subrange(0, i)[k] == a[k]);
                assert(b.subrange(0, i)[k] == b[k]);
                assert(a[k] == b[k]);
            } else if k == i {
            } else {
                assert(b.subrange(0, k)[i] == a.subrange(0, k)[i]);
                assert(a[i] == b[i]);
            }
        }
    }
}

proof fn lemma_no_diff_no_witness(a: Seq<u8>, b: Seq<u8>)
    requires
        forall|i: int| 0 <= i < a.len() && i < b.len() ==> a[i] == b[i],
        a.len() >= b.len(),
    ensures
        !lex_lt(a, b),
{
    if lex_lt(a, b) {
        if a.len() < b.len() && a == b.subrange(0, a.len() as int) {
        } else {
            let k = choose|k: int|
                0 <= k < a.len() && k < b.len() && a.subrange(0, k) == b.subrange(0, k) && a[k]
                    < b[k];
        }
    }
}

/// The order is transitive.
pub proof fn lemma_lex_transitive(a: Seq<u8>, b: Seq<u8>, c: Seq<u8>)
    requires
        lex_lt(a, b),
        lex_lt(b, c),
    ensures
        lex_lt(a, c),
{
    if a.len() < b.len() && a == b.subrange(0, a.len() as int) {
        if b.len() < c.len() && b == c.subrange(0, b.len() as int) {
            assert(a =~= c.subrange(0, a.len() as int));
        } else {
            let k = choose|k: int|
                0 <= k < b.len() && k < c.len() && b.subrange(0, k) == c.subrange(0, k) && b[k]
                    < c[k];
            if k < a.len() {
                assert(forall|j: int| 0 <= j < a.len() ==> a[j] == b.subrange(
                    0,
                    a.len() as int,
                )[j]);
                assert(a.subrange(0, k) =~= b.subrange(0, k));
                assert(a[k] == b[k]);
                assert(lex_lt(a, c));
            } else {
                assert(a =~= c.subrange(0, a.len() as int)) by {
                    assert(forall|j: int| 0 <= j < a.len() ==> a[j] == b[j]);
                    assert(forall|j: int|
                        0 <= j < a.len() ==> b[j] == b.subrange(0, k)[j] && c[j] == c.subrange(
                            0,
                            k,
                        )[j]);
                }
                assert(lex_lt(a, c));
            }
        }
    } else {
        let i = choose|i: int|
            0 <= i < a.len() && i < b.len() && a.subrange(0, i) == b.subrange(0, i) && a[i] < b[i];
        if b.len() < c.len() && b == c.subrange(0, b.len() as int) {
            assert(forall|j: int| 0 <= j < b.len() ==> b[j] == c[j]);
            assert(a.subrange(0, i) =~= c.subrange(0, i)) by {
                assert(forall|j: int| 0 <= j < i ==> a[j] == a.subrange(0, i)[j]);
                assert(forall|j: int| 0 <= j < i ==> b[j] == b.subrange(0, i)[j]);
            }
            assert(a[i] < c[i]);
            assert(lex_lt(a, c));
        } else {
            let k = choose|k: int|
                0 <= k < b.len() && k < c.len() && b.subrange(0, k) == c.subrange(0, k) && b[k]
                    < c[k];
            let m = if i < k {
                i
            } else {
                k
            };
            assert(a.subrange(0, m) =~= c.subrange(0, m)) by {
                assert(forall|j: int|
                    0 <= j < i ==> a[j] == a.subrange(0, i)[j] && b[j] == b.subrange(0, i)[j]);
                assert(forall|j: int|
                    0 <= j < k ==> b[j] == b.subrange(0, k)[j] && c[j] == c.subrange(0, k)[j]);
            };
            if i < k {
                assert(b[i] == b.subrange(0, k)[i]);
                assert(c[i] == c.subrange(0, k)[i]);
                assert(a[i] < c[i]);
                assert(lex_lt(a, c));
            } else if k < i {
                assert(a[k] == a.subrange(0, i)[k]);
                assert(b[k] == b.subrange(0, i)[k]);
                assert(a[k] < c[k]);
                assert(lex_lt(a, c));
            } else {
                assert(a[i] < c[i]);
                assert(lex_lt(a, c));
            }
        }
    }
}

/// Three-way lexicographic comparison of byte slices.
pub fn bytes_cmp(a: &[u8], b: &[u8]) -> (r: core::cmp::Ordering)
    ensures
        r is Less ==> lex_lt(a@, b@),
        r is Greater ==> lex_lt(b@, a@),
        r is Equal ==> a@ == b@,
{
    let al = a.len();
    let bl = b.len();
    let n = if al < bl {
        al
    } else {
        bl
    };
    let mut i: usize = 0;
    while i < n
        invariant
            n <= a@.len() && n <= b@.len(),
            n == if a@.len() < b@.len() {
                a@.len()
            } else {
                b@.len()
            },
            i <= n,
            forall|j: int| 0 <= j < i ==> a@[j] == b@[j],
        decreases n - i,
    {
        let x = a[i];
        let y = b[i];
        if x < y {
            proof {
                assert(a@.subrange(0, i as int) =~= b@.subrange(0, i as int));
            }
            return core::cmp::Ordering::Less;
        }
        if y < x {
            proof {
                assert(b@.subrange(0, i as int) =~= a@.subrange(0, i as int));
            }
            return core::cmp::Ordering::Greater;
        }
        i += 1;
    }
    if al < bl {
        proof {
            assert(a@ =~= b@.subrange(0, a@.len() as int));
        }
        core::cmp::Ordering::Less
    } else if bl < al {
        proof {
            assert(b@ =~= a@.subrange(0, b@.len() as int));
        }
        core::cmp::Ordering::Greater
    } else {
        proof {
            assert(a@ =~= b@);
        }
        core::cmp::Ordering::Equal
    }
}

/// An owned byte string: the key type of the key-value collection and the
/// name type of tables and fields.
pub struct BvString(pub Vec<u8>);

impl View for BvString {
    type V = Seq<u8>;

    open spec fn view(&self) -> Seq<u8> {
        self.0@
    }
}

impl BvString {
    /// The empty byte string.
    pub fn new() -> (r: Self)
        ensures
            r@ == Seq::<u8>::empty(),
    {
        BvString(Vec::new())
    }

    /// A byte string owning the given bytes.
    pub fn from_vec(v: Vec<u8>) -> (r: Self)
        ensures
            r@ == v@,
    {
        BvString(v)
    }

    /// A byte string copied from a slice.
    pub fn from_slice(v: &[u8]) -> (r: Self)
        ensures
            r@ == v@,
    {
        BvString(vstd::slice::slice_to_vec(v))
    }

    /// A byte string copied from a `&str`'s UTF-8 bytes.
    pub fn from_str(v: &str) -> (r: Self)
        ensures
            r@ == v.spec_bytes(),
    {
        BvString(vstd::slice::slice_to_vec(v.as_bytes()))
    }

    /// The underlying vector.
    pub fn inner(&self) -> (r: &Vec<u8>)
        ensures
            r@ == self@,
    {
        &self.0
    }

    /// The bytes as a slice.
    pub fn as_slice(&self) -> (r: &[u8])
        ensures
            r@ == self@,
    {
        self.0.as_slice()
    }

    /// A fresh copy of the bytes.
    pub fn to_vec(&self) -> (r: Vec<u8>)
        ensures
            r@ == self@,
    {
        vstd::slice::slice_to_vec(self.0.as_slice())
    }

    /// A fresh copy of the whole string.
    pub fn duplicate(&self) -> (r: Self)
        ensures
            r@ == self@,
    {
        BvString(self.to_vec())
    }

    /// True on the empty string.
    pub fn is_empty(&self) -> (r: bool)
        ensures
            r == (self@.len() == 0),
    {
        self.0.len() == 0
    }

    /// Number of bytes.
    pub fn len(&self) -> (r: usize)
        ensures
            r == self@.len(),
    {
        self.0.len()
    }

    /// Byte-for-byte equality with a slice.
    pub fn eq_bytes(&self, other: &[u8]) -> (r: bool)
        ensures
            r == (self@ == other@),
    {
        bytes_eq(self.0.as_slice(), other)
    }

    /// Byte-for-byte equality with another byte string.
    pub fn eq_bvstring(&self, other: &BvString) -> (r: bool)
        ensures
            r == (self@ == other@),
    {
        bytes_eq(self.0.as_slice(), other.0.as_slice())
    }

    /// Equality with a `&str`'s UTF-8 bytes.
    pub fn eq_str(&self, other: &str) -> (r: bool)
        ensures
            r == (self@ == other.spec_bytes()),
    {
        bytes_eq(self.0.as_slice(), other.as_bytes())
    }

    /// Three-way lexicographic comparison with another byte string.
    pub fn cmp_bvstring(&self, other: &BvString) -> (r: core::cmp::Ordering)
        ensures
            r is Less ==> lex_lt(self@, other@),
            r is Greater ==> lex_lt(other@, self@),
            r is Equal ==> self@ == other@,
    {
        bytes_cmp(self.0.as_slice(), other.0.as_slice())
    }

    /// Prefix test.
    pub fn starts_with(&self, other: &[u8]) -> (r: bool)
        ensures
            r == starts_with_spec(self@, other@),
    {
        slice::starts_with(self.0.as_slice(), other)
    }

    /// Suffix test.
    pub fn ends_with(&self, other: &[u8]) -> (r: bool)
        ensures
            r == ends_with_spec(self@, other@),
    {
        slice::ends_with(self.0.as_slice(), other)
    }

    /// Substring test.
    pub fn contains(&self, other: &[u8]) -> (r: bool)
        ensures
            r == has_match(self@, other@),
    {
        slice::contains_sequence(self.0.as_slice(), other)
    }
}

} // verus!
