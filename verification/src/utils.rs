//! Type-tag vocabulary and normalization.
//!
//! A stored value carries its type as a byte string. Tags are normalized so
//! that the byte-width assumptions of numeric reinterpretation hold: `f32`
//! becomes `f64`, `isize` becomes `i64`, `usize` becomes `u64`, and the full
//! `String` path becomes `str`.

use vstd::prelude::*;

use crate::slice::{bytes_eq, strip_ref_symbols, strip_spec, starts_with_spec};

verus! {

/// Tag of a signed integer type.
pub open spec fn is_int_tag(t: Seq<u8>) -> bool {
    ||| t == seq![105u8, 56u8]  // i8
    ||| t == seq![105u8, 49u8, 54u8]  // i16
    ||| t == seq![105u8, 51u8, 50u8]  // i32
    ||| t == seq![105u8, 54u8, 52u8]  // i64
    ||| t == seq![105u8, 49u8, 50u8, 56u8]  // i128
}

/// Tag of an unsigned integer type.
pub open spec fn is_uint_tag(t: Seq<u8>) -> bool {
    ||| t == seq![117u8, 56u8]  // u8
    ||| t == seq![117u8, 49u8, 54u8]  // u16
    ||| t == seq![117u8, 51u8, 50u8]  // u32
    ||| t == seq![117u8, 54u8, 52u8]  // u64
    ||| t == seq![117u8, 49u8, 50u8, 56u8]  // u128
}

/// Tag of a floating-point type.
pub open spec fn is_float_tag(t: Seq<u8>) -> bool {
    ||| t == seq![102u8, 51u8, 50u8]  // f32
    ||| t == seq![102u8, 54u8, 52u8]  // f64
}

/// The string tag, `str`.
pub open spec fn str_tag() -> Seq<u8> {
    seq![115u8, 116u8, 114u8]
}

/// Fixed payload width in bytes of a numeric tag; 0 for any other tag.
pub open spec fn tag_width(t: Seq<u8>) -> int {
    if t == seq![105u8, 56u8] || t == seq![117u8, 56u8] {
        1
    } else if t == seq![105u8, 49u8, 54u8] || t == seq![117u8, 49u8, 54u8] {
        2
    } else if t == seq![105u8, 51u8, 50u8] || t == seq![117u8, 51u8, 50u8] || t == seq![
        102u8,
        51u8,
        50u8,
    ] {
        4
    } else if t == seq![105u8, 54u8, 52u8] || t == seq![117u8, 54u8, 52u8] || t == seq![
        102u8,
        54u8,
        52u8,
    ] {
        8
    } else if t == seq![105u8, 49u8, 50u8, 56u8] || t == seq![117u8, 49u8, 50u8, 56u8] {
        16
    } else {
        0
    }
}

/// The normalized form of a type-name byte string: reference symbols are
/// stripped, then the width-unstable names are replaced by their canonical
/// equivalents.
pub open spec fn norm_spec(t: Seq<u8>) -> Seq<u8> {
    let s = strip_spec(t);
    if s == seq![102u8, 51u8, 50u8] {
        seq![102u8, 54u8, 52u8]  // f32 -> f64
    } else if s == seq![105u8, 115u8, 105u8, 122u8, 101u8] {
        seq![105u8, 54u8, 52u8]  // isize -> i64
    } else if s == seq![117u8, 115u8, 105u8, 122u8, 101u8] {
        seq![117u8, 54u8, 52u8]  // usize -> u64
    } else if s == seq![
        97u8, 108u8, 108u8, 111u8, 99u8, 58u8, 58u8, 115u8, 116u8, 114u8, 105u8, 110u8, 103u8,
        58u8, 58u8, 83u8, 116u8, 114u8, 105u8, 110u8, 103u8,
    ] {
        str_tag()  // alloc::string::String -> str
    } else {
        s
    }
}

/// A name that stripping leaves unchanged: non-empty and carrying none of
/// the reference prefixes. Every canonical tag has this shape.
pub open spec fn is_plain_name(t: Seq<u8>) -> bool {
    t.len() == 0 || (t[0] != 38 && t[0] != 42 && !starts_with_spec(
        t,
        seq![109u8, 117u8, 116u8, 32u8],
    ) && !starts_with_spec(t, seq![99u8, 111u8, 110u8, 115u8, 116u8, 32u8]))
}

/// Stripping a plain name is the identity.
pub proof fn lemma_strip_plain(t: Seq<u8>)
    requires
        is_plain_name(t),
    ensures
        strip_spec(t) == t,
{
}

/// Normalization is idempotent on every name whose stripped form is itself
/// plain — in particular on every name in the canonical tag set.
pub proof fn lemma_normalize_idempotent(t: Seq<u8>)
    requires
        is_plain_name(strip_spec(t)),
    ensures
        norm_spec(norm_spec(t)) == norm_spec(t),
{
    let s = strip_spec(t);
    lemma_strip_plain(s);
    let n = norm_spec(t);
    if s == seq![102u8, 51u8, 50u8] || s == seq![105u8, 115u8, 105u8, 122u8, 101u8] || s == seq![
        117u8,
        115u8,
        105u8,
        122u8,
        101u8,
    ] || s == seq![
        97u8, 108u8, 108u8, 111u8, 99u8, 58u8, 58u8, 115u8, 116u8, 114u8, 105u8, 110u8, 103u8,
        58u8, 58u8, 83u8, 116u8, 114u8, 105u8, 110u8, 103u8,
    ] {
        assert(is_plain_name(n));
        lemma_strip_plain(n);
    } else {
        assert(n == s);
        lemma_strip_plain(n);
    }
}

/// Exact test of the signed-integer tag set, as `is_int` on raw bytes.
pub fn is_int(b: &[u8]) -> (r: bool)
    ensures
        r == (is_int_tag(b@) || is_uint_tag(b@) || is_float_tag(b@)),
{
    let i8t: [u8; 2] = [105, 56];
    let i16t: [u8; 3] = [105, 49, 54];
    let i32t: [u8; 3] = [105, 51, 50];
    let i64t: [u8; 3] = [105, 54, 52];
    let i128t: [u8; 4] = [105, 49, 50, 56];
    let u8t: [u8; 2] = [117, 56];
    let u16t: [u8; 3] = [117, 49, 54];
    let u32t: [u8; 3] = [117, 51, 50];
    let u64t: [u8; 3] = [117, 54, 52];
    let u128t: [u8; 4] = [117, 49, 50, 56];
    let f32t: [u8; 3] = [102, 51, 50];
    let f64t: [u8; 3] = [102, 54, 52];
    proof {
        assert(i8t@ =~= seq![105u8, 56u8]);
        assert(i16t@ =~= seq![105u8, 49u8, 54u8]);
        assert(i32t@ =~= seq![105u8, 51u8, 50u8]);
        assert(i64t@ =~= seq![105u8, 54u8, 52u8]);
        assert(i128t@ =~= seq![105u8, 49u8, 50u8, 56u8]);
        assert(u8t@ =~= seq![117u8, 56u8]);
        assert(u16t@ =~= seq![117u8, 49u8, 54u8]);
        assert(u32t@ =~= seq![117u8, 51u8, 50u8]);
        assert(u64t@ =~= seq![117u8, 54u8, 52u8]);
        assert(u128t@ =~= seq![117u8, 49u8, 50u8, 56u8]);
        assert(f32t@ =~= seq![102u8, 51u8, 50u8]);
        assert(f64t@ =~= seq![102u8, 54u8, 52u8]);
    }
    bytes_eq(b, i8t.as_slice()) || bytes_eq(b, i16t.as_slice()) || bytes_eq(b, i32t.as_slice())
        || bytes_eq(b, i64t.as_slice()) || bytes_eq(b, i128t.as_slice()) || bytes_eq(
        b,
        u8t.as_slice(),
    ) || bytes_eq(b, u16t.as_slice()) || bytes_eq(b, u32t.as_slice()) || bytes_eq(
        b,
        u64t.as_slice(),
    ) || bytes_eq(b, u128t.as_slice()) || bytes_eq(b, f32t.as_slice()) || bytes_eq(
        b,
        f64t.as_slice(),
    )
}

/// The normalized form of a type name, as a fresh byte vector.
pub fn normalize_type_name(tn: &[u8]) -> (r: Vec<u8>)
    requires
        exists|i: int| 0 <= i < tn@.len() && tn@[i] != 38 && tn@[i] != 42,
    ensures
        r@ == norm_spec(tn@),
{
    let stripped = strip_ref_symbols(tn);
    let f32t: [u8; 3] = [102, 51, 50];
    let isizet: [u8; 5] = [105, 115, 105, 122, 101];
    let usizet: [u8; 5] = [117, 115, 105, 122, 101];
    let stringt: [u8; 21] = [
        97, 108, 108, 111, 99, 58, 58, 115, 116, 114, 105, 110, 103, 58, 58, 83, 116, 114, 105,
        110, 103,
    ];
    proof {
        assert(f32t@ =~= seq![102u8, 51u8, 50u8]);
        assert(isizet@ =~= seq![105u8, 115u8, 105u8, 122u8, 101u8]);
        assert(usizet@ =~= seq![117u8, 115u8, 105u8, 122u8, 101u8]);
        assert(stringt@ =~= seq![
            97u8, 108u8, 108u8, 111u8, 99u8, 58u8, 58u8, 115u8, 116u8, 114u8, 105u8, 110u8, 103u8,
            58u8, 58u8, 83u8, 116u8, 114u8, 105u8, 110u8, 103u8,
        ]);
    }
    if bytes_eq(stripped.as_slice(), f32t.as_slice()) {
        let out: [u8; 3] = [102, 54, 52];
        proof {
            assert(out@ =~= seq![102u8, 54u8, 52u8]);
        }
        vstd::slice::slice_to_vec(out.as_slice())
    } else if bytes_eq(stripped.as_slice(), isizet.as_slice()) {
        let out: [u8; 3] = [105, 54, 52];
        proof {
            assert(out@ =~= seq![105u8, 54u8, 52u8]);
        }
        vstd::slice::slice_to_vec(out.as_slice())
    } else if bytes_eq(stripped.as_slice(), usizet.as_slice()) {
        let out: [u8; 3] = [117, 54, 52];
        proof {
            assert(out@ =~= seq![117u8, 54u8, 52u8]);
        }
        vstd::slice::slice_to_vec(out.as_slice())
    } else if bytes_eq(stripped.as_slice(), stringt.as_slice()) {
        let out: [u8; 3] = [115, 116, 114];
        proof {
            assert(out@ =~= str_tag());
        }
        vstd::slice::slice_to_vec(out.as_slice())
    } else {
        stripped
    }
}

} // verus!
