//! Byte-slice helpers: equality, prefix/suffix tests, and substring search.
//!
//! Every decoder and every string-flavoured operation on stored values is
//! built on these primitives, so their contracts pin the exact positions of
//! matches rather than merely reporting success.

use vstd::prelude::*;

verus! {

/// The pattern `p` occurs in `v` at position `i`.
pub open spec fn is_match_at(v: Seq<u8>, p: Seq<u8>, i: int) -> bool {
    0 <= i && i + p.len() <= v.len() && v.subrange(i, i + p.len() as int) == p
}

/// The pattern `p` occurs somewhere in `v`.
pub open spec fn has_match(v: Seq<u8>, p: Seq<u8>) -> bool {
    exists|i: int| is_match_at(v, p, i)
}

/// `v` begins with `p`.
pub open spec fn starts_with_spec(v: Seq<u8>, p: Seq<u8>) -> bool {
    p.len() <= v.len() && v.subrange(0, p.len() as int) == p
}

/// `v` ends with `p`.
pub open spec fn ends_with_spec(v: Seq<u8>, p: Seq<u8>) -> bool {
    p.len() <= v.len() && v.subrange(v.len() - p.len(), v.len() as int) == p
}

/// Reference-symbol prefixes (`&`, `*`, `mut `, `const `) removed from a
/// type-name byte string, as the tag normalizer requires.
pub open spec fn strip_spec(v: Seq<u8>) -> Seq<u8>
    decreases v.len(),
{
    if v.len() > 0 && (v[0] == 38 || v[0] == 42) {
        strip_spec(v.subrange(1, v.len() as int))
    } else if starts_with_spec(v, seq![109u8, 117u8, 116u8, 32u8]) {
        v.subrange(4, v.len() as int)
    } else if starts_with_spec(v, seq![99u8, 111u8, 110u8, 115u8, 116u8, 32u8]) {
        v.subrange(6, v.len() as int)
    } else {
        v
    }
}

/// Slice equality, byte for byte.
pub fn bytes_eq(a: &[u8], b: &[u8]) -> (r: bool)
    ensures
        r == (a@ == b@),
{
    if a.len() != b.len() {
        return false;
    }
    let mut i: usize = 0;
    while i < a.len()
        invariant
            i <= a@.len(),
            a@.len() == b@.len(),
            forall|j: int| 0 <= j < i ==> a@[j] == b@[j],
        decreases a@.len() - i,
    {
        if a[i] != b[i] {
            return false;
        }
        i += 1;
    }
    proof {
        assert(a@ =~= b@);
    }
    true
}

/// Prefix test against the spec-level definition.
pub fn starts_with(v: &[u8], p: &[u8]) -> (r: bool)
    ensures
        r == starts_with_spec(v@, p@),
{
    if p.len() > v.len() {
        return false;
    }
    let head = vstd::slice::slice_subrange(v, 0, p.len());
    bytes_eq(head, p)
}

/// Suffix test against the spec-level definition.
pub fn ends_with(v: &[u8], p: &[u8]) -> (r: bool)
    ensures
        r == ends_with_spec(v@, p@),
{
    if p.len() > v.len() {
        return false;
    }
    let tail = vstd::slice::slice_subrange(v, v.len() - p.len(), v.len());
    bytes_eq(tail, p)
}

/// Does `p` occur at position `i` of `v`?
pub fn matches_at(v: &[u8], p: &[u8], i: usize) -> (r: bool)
    requires
        i + p@.len() <= v@.len(),
    ensures
        r == is_match_at(v@, p@, i as int),
{
    let vl = v.len();
    let pl = p.len();
    let w = vstd::slice::slice_subrange(v, i, i + pl);
    bytes_eq(w, p)
}

/// Position of the first occurrence of `seq` in `v`, if any.
pub fn find(v: &[u8], seq: &[u8]) -> (r: Option<usize>)
    ensures
        match r {
            Some(i) => is_match_at(v@, seq@, i as int) && forall|j: int|
                0 <= j < i ==> !is_match_at(v@, seq@, j),
            None => !has_match(v@, seq@),
        },
{
    if seq.len() > v.len() {
        return None;
    }
    if seq.len() == 0 {
        proof {
            assert(v@.subrange(0, 0) =~= Seq::<u8>::empty());
            assert(seq@ =~= Seq::<u8>::empty());
        }
        return Some(0);
    }
    let last = v.len() - seq.len();
    let mut i: usize = 0;
    while i <= last
        invariant
            1 <= seq@.len() <= v@.len(),
            v@.len() <= usize::MAX,
            last == v@.len() - seq@.len(),
            i <= last + 1,
            forall|j: int| 0 <= j < i ==> !is_match_at(v@, seq@, j),
        decreases last + 1 - i,
    {
        if matches_at(v, seq, i) {
            return Some(i);
        }
        i += 1;
    }
    None
}

/// Positions of every occurrence of `seq` in `v`, in increasing order.
pub fn find_all(v: &[u8], seq: &[u8]) -> (r: Vec<usize>)
    requires
        seq@.len() >= 1,
    ensures
        forall|k: int| 0 <= k < r@.len() ==> is_match_at(v@, seq@, r@[k] as int),
        forall|i: int| is_match_at(v@, seq@, i) ==> r@.contains(i as usize),
        forall|k: int, l: int| 0 <= k < l < r@.len() ==> r@[k] < r@[l],
{
    let mut r: Vec<usize> = Vec::new();
    if seq.len() > v.len() {
        return r;
    }
    let last = v.len() - seq.len();
    let mut i: usize = 0;
    while i <= last
        invariant
            1 <= seq@.len() <= v@.len(),
            v@.len() <= usize::MAX,
            last == v@.len() - seq@.len(),
            i <= last + 1,
            forall|k: int| 0 <= k < r@.len() ==> is_match_at(v@, seq@, r@[k] as int),
            forall|j: int| 0 <= j < i ==> is_match_at(v@, seq@, j) ==> r@.contains(j as usize),
            forall|k: int| 0 <= k < r@.len() ==> r@[k] < i,
            forall|k: int, l: int| 0 <= k < l < r@.len() ==> r@[k] < r@[l],
        decreases last + 1 - i,
    {
        if matches_at(v, seq, i) {
            let ghost prev = r@;
            r.push(i);
            proof {
                assert(r@ == prev.push(i));
                assert(r@[r@.len() - 1] == i);
                assert forall|j: int|
                    0 <= j <= i && is_match_at(v@, seq@, j) implies r@.contains(
                    j as usize,
                ) by {
                    if j < i {
                        assert(prev.contains(j as usize));
                        let k = choose|k: int| 0 <= k < prev.len() && prev[k] == j as usize;
                        assert(r@[k] == j as usize);
                    } else {
                        assert(r@[r@.len() - 1] == i as usize);
                    }
                }
            }
        }
        i += 1;
    }
    r
}

/// Does `seq` occur anywhere in `v`?
pub fn contains_sequence(v: &[u8], seq: &[u8]) -> (r: bool)
    ensures
        r == has_match(v@, seq@),
{
    match find(v, seq) {
        Some(_) => true,
        None => false,
    }
}

/// Is every byte of `s` zero?
pub fn is_zero(s: &[u8]) -> (r: bool)
    ensures
        r == (forall|j: int| 0 <= j < s@.len() ==> s@[j] == 0),
{
    let mut i: usize = 0;
    while i < s.len()
        invariant
            i <= s@.len(),
            forall|j: int| 0 <= j < i ==> s@[j] == 0,
        decreases s@.len() - i,
    {
        if s[i] != 0 {
            return false;
        }
        i += 1;
    }
    true
}

/// Reference symbols stripped from the front of a type name.
///
/// The input must keep at least one byte after stripping, which every Rust
/// type name does; an all-`&`/`*` input is left out by the precondition.
pub fn strip_ref_symbols(v: &[u8]) -> (r: Vec<u8>)
    requires
        exists|i: int| 0 <= i < v@.len() && v@[i] != 38 && v@[i] != 42,
    ensures
        r@ == strip_spec(v@),
{
    let mut start: usize = 0;
    proof {
        assert(v@.subrange(0, v@.len() as int) =~= v@);
    }
    while v[start] == 38 || v[start] == 42
        invariant
            exists|i: int| start <= i < v@.len() && v@[i] != 38 && v@[i] != 42,
            0 <= start < v@.len(),
            strip_spec(v@) == strip_spec(v@.subrange(start as int, v@.len() as int)),
        decreases v@.len() - start,
    {
        proof {
            let w = v@.subrange(start as int, v@.len() as int);
            assert(w.subrange(1, w.len() as int) =~= v@.subrange(
                start + 1,
                v@.len() as int,
            ));
            let i = choose|i: int| start <= i < v@.len() && v@[i] != 38 && v@[i] != 42;
            assert(i != start);
        }
        start += 1;
    }
    let rest = vstd::slice::slice_subrange(v, start, v.len());
    proof {
        assert(rest@[0] != 38 && rest@[0] != 42);
    }
    let mut_prefix: [u8; 4] = [109, 117, 116, 32];
    let const_prefix: [u8; 6] = [99, 111, 110, 115, 116, 32];
    let out: Vec<u8>;
    if starts_with(rest, mut_prefix.as_slice()) {
        proof {
            assert(mut_prefix@ =~= seq![109u8, 117u8, 116u8, 32u8]);
        }
        let tail = vstd::slice::slice_subrange(rest, 4, rest.len());
        out = vstd::slice::slice_to_vec(tail);
    } else if starts_with(rest, const_prefix.as_slice()) {
        proof {
            assert(const_prefix@ =~= seq![99u8, 111u8, 110u8, 115u8, 116u8, 32u8]);
            assert(!starts_with_spec(rest@, seq![109u8, 117u8, 116u8, 32u8]));
        }
        let tail = vstd::slice::slice_subrange(rest, 6, rest.len());
        out = vstd::slice::slice_to_vec(tail);
    } else {
        proof {
            assert(!starts_with_spec(rest@, seq![109u8, 117u8, 116u8, 32u8]));
            assert(!starts_with_spec(rest@, seq![99u8, 111u8, 110u8, 115u8, 116u8, 32u8]));
        }
        out = vstd::slice::slice_to_vec(rest);
    }
    out
}


/// The least position at which `p` occurs in `v`.
pub open spec fn first_match(v: Seq<u8>, p: Seq<u8>) -> int {
    choose|i: int| is_match_at(v, p, i) && forall|j: int| 0 <= j < i ==> !is_match_at(v, p, j)
}

/// A position that matches with nothing matching before it is the first
/// match.
pub proof fn lemma_first_match(v: Seq<u8>, p: Seq<u8>, i: int)
    requires
        is_match_at(v, p, i),
        forall|j: int| 0 <= j < i ==> !is_match_at(v, p, j),
    ensures
        first_match(v, p) == i,
{
    let c = choose|c: int|
        is_match_at(v, p, c) && forall|j: int| 0 <= j < c ==> !is_match_at(v, p, j);
    assert(is_match_at(v, p, c));
    if c < i {
        assert(!is_match_at(v, p, c));
    }
    if i < c {
        assert(!is_match_at(v, p, i));
    }
}

/// The pieces of `v` split on each first occurrence of `p`: what stood
/// before each separator, and finally what followed the last one.
pub open spec fn split_spec(v: Seq<u8>, p: Seq<u8>) -> Seq<Seq<u8>>
    recommends
        p.len() >= 1,
    decreases v.len(),
{
    if !has_match(v, p) {
        seq![v]
    } else {
        let i = first_match(v, p);
        if 0 <= i && i + p.len() <= v.len() && p.len() >= 1 {
            seq![v.subrange(0, i)] + split_spec(v.subrange(i + p.len(), v.len() as int), p)
        } else {
            seq![v]
        }
    }
}

/// The views of a list of byte vectors.
pub open spec fn pieces_view(r: Seq<Vec<u8>>) -> Seq<Seq<u8>> {
    r.map_values(|x: Vec<u8>| x@)
}

/// Split the buffer on every occurrence of the separator. A separator
/// longer than the buffer yields no pieces at all.
#[verifier::rlimit(60)]
pub fn split(v: &[u8], seq: &[u8]) -> (r: Vec<Vec<u8>>)
    requires
        seq@.len() >= 1,
    ensures
        seq@.len() > v@.len() ==> r@.len() == 0,
        seq@.len() <= v@.len() ==> pieces_view(r@) == split_spec(v@, seq@),
{
    let mut r: Vec<Vec<u8>> = Vec::new();
    if seq.len() > v.len() {
        return r;
    }
    let mut rest: &[u8] = v;
    proof {
        assert(pieces_view(r@) =~= Seq::<Seq<u8>>::empty());
        assert(split_spec(v@, seq@) =~= pieces_view(r@) + split_spec(rest@, seq@));
    }
    loop
        invariant
            seq@.len() >= 1,
            seq@.len() <= v@.len(),
            rest@.len() <= v@.len(),
            split_spec(v@, seq@) == pieces_view(r@) + split_spec(rest@, seq@),
        decreases rest@.len(),
    {
        match find(rest, seq) {
            Some(i) => {
                proof {
                    lemma_first_match(rest@, seq@, i as int);
                    assert(has_match(rest@, seq@));
                }
                let rl = rest.len();
                let piece = vstd::slice::slice_subrange(rest, 0, i);
                let ghost prev = r@;
                r.push(vstd::slice::slice_to_vec(piece));
                let ghost old_rest = rest@;
                rest = vstd::slice::slice_subrange(rest, i + seq.len(), rl);
                proof {
                    assert(split_spec(old_rest, seq@) == seq![old_rest.subrange(0, i as int)]
                        + split_spec(rest@, seq@));
                    assert(pieces_view(r@) =~= pieces_view(prev).push(
                        old_rest.subrange(0, i as int),
                    ));
                    assert(split_spec(v@, seq@) =~= pieces_view(r@) + split_spec(rest@, seq@));
                }
            },
            None => {
                let ghost prev = r@;
                r.push(vstd::slice::slice_to_vec(rest));
                proof {
                    assert(split_spec(rest@, seq@) =~= seq![rest@]);
                    assert(pieces_view(r@) =~= pieces_view(prev).push(rest@));
                    assert(pieces_view(r@) =~= split_spec(v@, seq@));
                }
                return r;
            },
        }
    }
}

} // verus!
