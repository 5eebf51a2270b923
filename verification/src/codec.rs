//! Serialization of rows and field maps: length-prefixed association
//! lists, all integers little-endian.
//!
//! A byte string is written as an 8-byte length followed by the bytes. A
//! row is a count followed by, per field, its name, its type tag and its
//! raw value. A field map is a count followed by, per field, its name and
//! its own count-prefixed option list.

use vstd::prelude::*;
use vstd::bytes::{spec_u64_to_le_bytes, spec_u64_from_le_bytes, u64_from_le_bytes,
    u64_to_le_bytes};

use crate::bvobject::{BvObject, ObjView};
use crate::bvstring::BvString;
use crate::bytevec::ByteVec;
use crate::table_types::{FieldMap, FieldOpts, TableRow, OptsV, FieldMapV, RowV};

verus! {

/// Append bytes to a buffer.
pub fn push_bytes(buf: &mut Vec<u8>, b: &[u8])
    ensures
        final(buf)@ == old(buf)@ + b@,
{
    let n = b.len();
    let mut i: usize = 0;
    while i < n
        invariant
            n == b@.len(),
            i <= n,
            buf@ == old(buf)@ + b@.take(i as int),
        decreases n - i,
    {
        buf.push(b[i]);
        proof {
            assert(buf@ =~= old(buf)@ + b@.take(i + 1));
        }
        i += 1;
    }
    proof {
        assert(b@.take(n as int) =~= b@);
    }
}

/// Append a `u64` in little-endian order.
pub fn push_u64(buf: &mut Vec<u8>, x: u64)
    ensures
        final(buf)@ == old(buf)@ + spec_u64_to_le_bytes(x),
{
    let b = u64_to_le_bytes(x);
    push_bytes(buf, b.as_slice());
}

/// Append a `u32` in little-endian order.
pub fn push_u32(buf: &mut Vec<u8>, x: u32)
    ensures
        final(buf)@ == old(buf)@ + vstd::bytes::spec_u32_to_le_bytes(x),
{
    let b = vstd::bytes::u32_to_le_bytes(x);
    push_bytes(buf, b.as_slice());
}

/// Append a `u16` in little-endian order.
pub fn push_u16(buf: &mut Vec<u8>, x: u16)
    ensures
        final(buf)@ == old(buf)@ + vstd::bytes::spec_u16_to_le_bytes(x),
{
    let b = vstd::bytes::u16_to_le_bytes(x);
    push_bytes(buf, b.as_slice());
}

/// A length-prefixed byte string: 8-byte length, then the bytes.
pub open spec fn enc_lp(b: Seq<u8>) -> Seq<u8> {
    spec_u64_to_le_bytes(b.len() as u64) + b
}

/// Append a length-prefixed byte string.
pub fn push_lp(buf: &mut Vec<u8>, b: &[u8])
    ensures
        final(buf)@ == old(buf)@ + enc_lp(b@),
{
    push_u64(buf, b.len() as u64);
    push_bytes(buf, b);
    proof {
        assert(buf@ =~= old(buf)@ + enc_lp(b@));
    }
}

// ---------------------------------------------------------------------
// Row bodies
// ---------------------------------------------------------------------

/// Encoding of a row's fields, concatenated.
pub open spec fn enc_row_fields(fs: RowV) -> Seq<u8>
    decreases fs.len(),
{
    if fs.len() == 0 {
        Seq::empty()
    } else {
        enc_lp(fs.first().0) + enc_lp(fs.first().1.type_tag) + enc_lp(fs.first().1.raw)
            + enc_row_fields(fs.drop_first())
    }
}

/// Encoding of a whole row: the field count, then the fields.
pub open spec fn enc_row_body(fs: RowV) -> Seq<u8> {
    spec_u64_to_le_bytes(fs.len() as u64) + enc_row_fields(fs)
}

/// Every length of the row fits its 8-byte field.
pub open spec fn row_enc_valid(fs: RowV) -> bool {
    &&& fs.len() <= u64::MAX
    &&& forall|j: int|
        0 <= j < fs.len() ==> (#[trigger] fs[j]).0.len() <= u64::MAX && fs[j].1.type_tag.len()
            <= u64::MAX && fs[j].1.raw.len() <= u64::MAX
}

/// Consume `n` fields from the front of `v`.
pub open spec fn parse_row_fields(v: Seq<u8>, n: nat) -> Option<(RowV, Seq<u8>)>
    decreases n,
{
    if n == 0 {
        Some((Seq::empty(), v))
    } else if v.len() >= 8 {
        let kl = spec_u64_from_le_bytes(v.subrange(0, 8)) as int;
        if 8 + kl + 8 <= v.len() {
            let tl = spec_u64_from_le_bytes(v.subrange(8 + kl, 16 + kl)) as int;
            if 16 + kl + tl + 8 <= v.len() {
                let rl = spec_u64_from_le_bytes(
                    v.subrange(16 + kl + tl, 24 + kl + tl),
                ) as int;
                if 24 + kl + tl + rl <= v.len() {
                    let e = (
                        v.subrange(8, 8 + kl),
                        ObjView {
                            type_tag: v.subrange(16 + kl, 16 + kl + tl),
                            raw: v.subrange(24 + kl + tl, 24 + kl + tl + rl),
                        },
                    );
                    match parse_row_fields(
                        v.subrange(24 + kl + tl + rl, v.len() as int),
                        (n - 1) as nat,
                    ) {
                        Some((rest, tail)) => Some((seq![e] + rest, tail)),
                        None => None,
                    }
                } else {
                    None
                }
            } else {
                None
            }
        } else {
            None
        }
    } else {
        None
    }
}

/// Parse a whole row body, requiring every byte to be consumed.
pub open spec fn parse_row_body(v: Seq<u8>) -> Option<RowV> {
    if v.len() >= 8 {
        let n = spec_u64_from_le_bytes(v.subrange(0, 8));
        match parse_row_fields(v.subrange(8, v.len() as int), n as nat) {
            Some((fs, tail)) => if tail.len() == 0 {
                Some(fs)
            } else {
                None
            },
            None => None,
        }
    } else {
        None
    }
}

/// A valid row re-parses to itself ahead of any tail: row decoding
/// inverts row encoding.
pub proof fn lemma_parse_row_fields_complete(fs: RowV, tail: Seq<u8>)
    requires
        row_enc_valid(fs),
    ensures
        parse_row_fields(enc_row_fields(fs) + tail, fs.len()) == Some((fs, tail)),
    decreases fs.len(),
{
    vstd::bytes::lemma_auto_spec_u64_to_from_le_bytes();
    let v = enc_row_fields(fs) + tail;
    if fs.len() == 0 {
        assert(v =~= tail);
        assert(parse_row_fields(v, 0)->Some_0.0 =~= fs);
    } else {
        let e = fs.first();
        let kl = e.0.len() as int;
        let tl = e.1.type_tag.len() as int;
        let rl = e.1.raw.len() as int;
        let head = enc_lp(e.0) + enc_lp(e.1.type_tag) + enc_lp(e.1.raw);
        let rest = enc_row_fields(fs.drop_first()) + tail;
        assert(v =~= head + rest);
        assert(head.len() == 24 + kl + tl + rl);
        assert(v.subrange(0, 8) =~= spec_u64_to_le_bytes(e.0.len() as u64));
        assert(spec_u64_from_le_bytes(v.subrange(0, 8)) == e.0.len());
        assert(v.subrange(8, 8 + kl) =~= e.0);
        assert(v.subrange(8 + kl, 16 + kl) =~= spec_u64_to_le_bytes(
            e.1.type_tag.len() as u64,
        ));
        assert(v.subrange(16 + kl, 16 + kl + tl) =~= e.1.type_tag);
        assert(v.subrange(16 + kl + tl, 24 + kl + tl) =~= spec_u64_to_le_bytes(
            e.1.raw.len() as u64,
        ));
        assert(v.subrange(24 + kl + tl, 24 + kl + tl + rl) =~= e.1.raw);
        assert(v.subrange(24 + kl + tl + rl, v.len() as int) =~= rest);
        assert(row_enc_valid(fs.drop_first())) by {
            assert(forall|j: int|
                0 <= j < fs.drop_first().len() ==> fs.drop_first()[j] == fs[j + 1]);
        }
        lemma_parse_row_fields_complete(fs.drop_first(), tail);
        let pe = (
            v.subrange(8, 8 + kl),
            ObjView {
                type_tag: v.subrange(16 + kl, 16 + kl + tl),
                raw: v.subrange(24 + kl + tl, 24 + kl + tl + rl),
            },
        );
        assert(pe.0 == e.0 && pe.1.type_tag == e.1.type_tag && pe.1.raw == e.1.raw);
        assert(pe.1 == e.1);
        assert(pe == e);
        assert(parse_row_fields(v, fs.len()) == Some(
            (seq![e] + fs.drop_first(), tail),
        ));
        assert(seq![e] + fs.drop_first() =~= fs);
    }
}

/// Round trip of a whole row body.
pub proof fn lemma_parse_row_body_complete(fs: RowV)
    requires
        row_enc_valid(fs),
    ensures
        parse_row_body(enc_row_body(fs)) == Some(fs),
{
    vstd::bytes::lemma_auto_spec_u64_to_from_le_bytes();
    let v = enc_row_body(fs);
    assert(v.subrange(0, 8) =~= spec_u64_to_le_bytes(fs.len() as u64));
    assert(v.subrange(8, v.len() as int) =~= enc_row_fields(fs) + Seq::<u8>::empty());
    lemma_parse_row_fields_complete(fs, Seq::empty());
}

/// Encode a row body into fresh bytes.
pub fn encode_row_body(row: &TableRow) -> (r: Vec<u8>)
    ensures
        r@ == enc_row_body(row@),
{
    let mut buf: Vec<u8> = Vec::new();
    let n = row.len();
    push_u64(&mut buf, n as u64);
    let mut i: usize = 0;
    while i < n
        invariant
            n == row@.len(),
            i <= n,
            buf@ == spec_u64_to_le_bytes(n as u64) + enc_row_fields(row@.take(i as int)),
        decreases n - i,
    {
        let e = row.col_at(i);
        push_lp(&mut buf, e.0.as_slice());
        push_lp(&mut buf, e.1.type_tag().as_slice());
        push_lp(&mut buf, e.1.raw().as_slice());
        proof {
            lemma_enc_row_fields_snoc(row@.take(i + 1));
            assert(row@.take(i + 1).drop_last() =~= row@.take(i as int));
            assert(row@.take(i + 1).last() == row@[i as int]);
            assert(buf@ =~= spec_u64_to_le_bytes(n as u64) + enc_row_fields(
                row@.take(i + 1),
            ));
        }
        i += 1;
    }
    proof {
        assert(row@.take(n as int) =~= row@);
    }
    buf
}

/// Appending one field extends the encoding at its end.
pub proof fn lemma_enc_row_fields_snoc(fs: RowV)
    requires
        fs.len() > 0,
    ensures
        enc_row_fields(fs) == enc_row_fields(fs.drop_last()) + (enc_lp(fs.last().0) + enc_lp(
            fs.last().1.type_tag,
        ) + enc_lp(fs.last().1.raw)),
    decreases fs.len(),
{
    if fs.len() == 1 {
        assert(fs.drop_last() =~= Seq::<(Seq<u8>, ObjView)>::empty());
        assert(fs.drop_first() =~= Seq::<(Seq<u8>, ObjView)>::empty());
        assert(fs.first() == fs.last());
        assert(enc_row_fields(fs.drop_last()) =~= Seq::<u8>::empty());
        assert(enc_row_fields(fs) =~= enc_row_fields(fs.drop_last()) + (enc_lp(fs.last().0)
            + enc_lp(fs.last().1.type_tag) + enc_lp(fs.last().1.raw)));
    } else {
        lemma_enc_row_fields_snoc(fs.drop_first());
        assert(fs.drop_first().last() == fs.last());
        assert(fs.drop_first().drop_last() =~= fs.drop_last().drop_first());
        assert(fs.drop_last().len() > 0);
        assert(fs.drop_last().first() == fs.first());
        assert(enc_row_fields(fs.drop_last()) == enc_lp(fs.first().0) + enc_lp(
            fs.first().1.type_tag,
        ) + enc_lp(fs.first().1.raw) + enc_row_fields(fs.drop_last().drop_first()));
        assert(enc_row_fields(fs) =~= enc_row_fields(fs.drop_last()) + (enc_lp(fs.last().0)
            + enc_lp(fs.last().1.type_tag) + enc_lp(fs.last().1.raw)));
    }
}

/// Decode `n` fields from the front of `v`, handing back how many bytes
/// were consumed.
pub fn decode_row_fields(v: &[u8], n: usize) -> (r: Option<(Vec<(BvString, BvObject)>, usize)>)
    ensures
        match r {
            Some(p) => parse_row_fields(v@, n as nat) matches Some(q)
                && crate::storage::pairs_view(p.0@) == q.0 && p.1 <= v@.len() && v@.subrange(
                p.1 as int,
                v@.len() as int,
            ) == q.1,
            None => parse_row_fields(v@, n as nat) is None,
        },
    decreases n,
{
    if n == 0 {
        let r: Vec<(BvString, BvObject)> = Vec::new();
        proof {
            assert(crate::storage::pairs_view(r@) =~= Seq::<(Seq<u8>, ObjView)>::empty());
            assert(v@.subrange(0, v@.len() as int) =~= v@);
        }
        return Some((r, 0));
    }
    let vl = v.len();
    if vl < 8 {
        return None;
    }
    let kl64 = u64_from_le_bytes(vstd::slice::slice_subrange(v, 0, 8));
    if kl64 as u128 + 16u128 > vl as u128 {
        return None;
    }
    let kl = kl64 as usize;
    let tl64 = u64_from_le_bytes(vstd::slice::slice_subrange(v, 8 + kl, 16 + kl));
    if 24u128 + kl as u128 + tl64 as u128 > vl as u128 {
        return None;
    }
    let tl = tl64 as usize;
    let rl64 = u64_from_le_bytes(vstd::slice::slice_subrange(v, 16 + kl + tl, 24 + kl + tl));
    if 24u128 + kl as u128 + tl as u128 + rl64 as u128 > vl as u128 {
        return None;
    }
    let rl = rl64 as usize;
    let key = vstd::slice::slice_subrange(v, 8, 8 + kl);
    let tag = vstd::slice::slice_subrange(v, 16 + kl, 16 + kl + tl);
    let raw = vstd::slice::slice_subrange(v, 24 + kl + tl, 24 + kl + tl + rl);
    let consumed = 24 + kl + tl + rl;
    let rest = vstd::slice::slice_subrange(v, consumed, vl);
    match decode_row_fields(rest, n - 1) {
        None => None,
        Some((more, used)) => {
            let ghost q = parse_row_fields(rest@, (n - 1) as nat)->Some_0;
            let ghost pe = (
                v@.subrange(8, 8 + kl as int),
                ObjView {
                    type_tag: v@.subrange(16 + kl as int, 16 + kl + tl as int),
                    raw: v@.subrange(24 + kl + tl as int, 24 + kl + tl + rl as int),
                },
            );
            let ghost morev = crate::storage::pairs_view(more@);
            let mut more = more;
            more.insert(0, (BvString::from_slice(key), BvObject::from_tuple((tag, raw))));
            proof {
                assert(crate::storage::pairs_view(more@) =~= seq![pe] + q.0) by {
                    assert(more@.len() == morev.len() + 1);
                    assert(crate::storage::pairs_view(more@)[0] == (more@[0].0@, more@[0].1@));
                    assert(more@[0].0@ == pe.0);
                    assert(more@[0].1@.type_tag == pe.1.type_tag);
                    assert(more@[0].1@.raw == pe.1.raw);
                    assert(more@[0].1@ == pe.1);
                    assert forall|j: int|
                        1 <= j < more@.len() implies crate::storage::pairs_view(more@)[j] == (
                        seq![pe] + q.0)[j] by {
                        assert(crate::storage::pairs_view(more@)[j]
                            == (more@[j].0@, more@[j].1@));
                        assert(morev[j - 1] == (more@[j].0@, more@[j].1@));
                    }
                }
                assert(v@.subrange(consumed + used, v@.len() as int) =~= rest@.subrange(
                    used as int,
                    rest@.len() as int,
                ));
                assert(parse_row_fields(v@, n as nat) == Some((seq![pe] + q.0, q.1)));
            }
            Some((more, consumed + used))
        },
    }
}


/// Decode a whole row body into a row.
pub fn decode_row_body(v: &[u8]) -> (r: Option<TableRow>)
    ensures
        match r {
            Some(row) => parse_row_body(v@) matches Some(fs) && row@ == fs,
            None => parse_row_body(v@) is None,
        },
{
    let vl = v.len();
    if vl < 8 {
        return None;
    }
    let n64 = u64_from_le_bytes(vstd::slice::slice_subrange(v, 0, 8));
    let rest = vstd::slice::slice_subrange(v, 8, vl);
    if n64 as u128 > usize::MAX as u128 {
        proof {
            if parse_row_fields(rest@, n64 as nat) is Some {
                lemma_parse_row_fields_min_len(rest@, n64 as nat);
                assert(false);
            }
        }
        return None;
    }
    match decode_row_fields(rest, n64 as usize) {
        None => None,
        Some((fields, used)) => {
            if used != rest.len() {
                proof {
                    let q = parse_row_fields(rest@, n64 as nat)->Some_0;
                    assert(q.1.len() != 0);
                }
                None
            } else {
                proof {
                    let q = parse_row_fields(rest@, n64 as nat)->Some_0;
                    assert(rest@.subrange(used as int, rest@.len() as int).len() == 0);
                }
                Some(TableRow::from_vec(fields))
            }
        },
    }
}

/// Parsing `n` fields consumes at least 24 bytes per field, so a count
/// larger than the buffer can never succeed.
pub proof fn lemma_parse_row_fields_min_len(v: Seq<u8>, n: nat)
    requires
        parse_row_fields(v, n) is Some,
    ensures
        24 * n <= v.len(),
    decreases n,
{
    if n > 0 {
        let kl = spec_u64_from_le_bytes(v.subrange(0, 8)) as int;
        let tl = spec_u64_from_le_bytes(v.subrange(8 + kl, 16 + kl)) as int;
        let rl = spec_u64_from_le_bytes(v.subrange(16 + kl + tl, 24 + kl + tl)) as int;
        let rest = v.subrange(24 + kl + tl + rl, v.len() as int);
        lemma_parse_row_fields_min_len(rest, (n - 1) as nat);
    }
}

// ---------------------------------------------------------------------
// Field maps
// ---------------------------------------------------------------------

/// Encoding of one field's options, concatenated.
pub open spec fn enc_opts_entries(os: OptsV) -> Seq<u8>
    decreases os.len(),
{
    if os.len() == 0 {
        Seq::empty()
    } else {
        enc_lp(os.first().0) + enc_lp(os.first().1) + enc_opts_entries(os.drop_first())
    }
}

/// Encoding of an option list: its count, then its entries.
pub open spec fn enc_opts(os: OptsV) -> Seq<u8> {
    spec_u64_to_le_bytes(os.len() as u64) + enc_opts_entries(os)
}

/// Encoding of a field map's entries, concatenated.
pub open spec fn enc_fm_entries(fm: FieldMapV) -> Seq<u8>
    decreases fm.len(),
{
    if fm.len() == 0 {
        Seq::empty()
    } else {
        enc_lp(fm.first().0) + enc_opts(fm.first().1) + enc_fm_entries(fm.drop_first())
    }
}

/// Encoding of a whole field map: its count, then its entries.
pub open spec fn enc_field_map(fm: FieldMapV) -> Seq<u8> {
    spec_u64_to_le_bytes(fm.len() as u64) + enc_fm_entries(fm)
}

/// Every length in an option list fits its 8-byte field.
pub open spec fn opts_enc_valid(os: OptsV) -> bool {
    &&& os.len() <= u64::MAX
    &&& forall|j: int|
        0 <= j < os.len() ==> (#[trigger] os[j]).0.len() <= u64::MAX && os[j].1.len()
            <= u64::MAX
}

/// Every length in a field map fits its 8-byte field.
pub open spec fn fm_enc_valid(fm: FieldMapV) -> bool {
    &&& fm.len() <= u64::MAX
    &&& forall|j: int|
        0 <= j < fm.len() ==> (#[trigger] fm[j]).0.len() <= u64::MAX && opts_enc_valid(
            fm[j].1,
        )
}

/// Consume `n` options from the front of `v`.
pub open spec fn parse_opts_entries(v: Seq<u8>, n: nat) -> Option<(OptsV, Seq<u8>)>
    decreases n,
{
    if n == 0 {
        Some((Seq::empty(), v))
    } else if v.len() >= 8 {
        let kl = spec_u64_from_le_bytes(v.subrange(0, 8)) as int;
        if 8 + kl + 8 <= v.len() {
            let wl = spec_u64_from_le_bytes(v.subrange(8 + kl, 16 + kl)) as int;
            if 16 + kl + wl <= v.len() {
                let e = (v.subrange(8, 8 + kl), v.subrange(16 + kl, 16 + kl + wl));
                match parse_opts_entries(v.subrange(16 + kl + wl, v.len() as int), (n - 1) as nat) {
                    Some((rest, tail)) => Some((seq![e] + rest, tail)),
                    None => None,
                }
            } else {
                None
            }
        } else {
            None
        }
    } else {
        None
    }
}

/// Consume one option list (count plus entries) from the front of `v`.
pub open spec fn parse_opts(v: Seq<u8>) -> Option<(OptsV, Seq<u8>)> {
    if v.len() >= 8 {
        let n = spec_u64_from_le_bytes(v.subrange(0, 8));
        parse_opts_entries(v.subrange(8, v.len() as int), n as nat)
    } else {
        None
    }
}

/// Consume `n` field-map entries from the front of `v`.
pub open spec fn parse_fm_entries(v: Seq<u8>, n: nat) -> Option<(FieldMapV, Seq<u8>)>
    decreases n,
{
    if n == 0 {
        Some((Seq::empty(), v))
    } else if v.len() >= 8 {
        let kl = spec_u64_from_le_bytes(v.subrange(0, 8)) as int;
        if 8 + kl <= v.len() {
            let name = v.subrange(8, 8 + kl);
            match parse_opts(v.subrange(8 + kl, v.len() as int)) {
                Some((os, tail)) => match parse_fm_entries(tail, (n - 1) as nat) {
                    Some((rest, tail2)) => Some((seq![(name, os)] + rest, tail2)),
                    None => None,
                },
                None => None,
            }
        } else {
            None
        }
    } else {
        None
    }
}

/// Parse a whole field map, requiring every byte to be consumed.
pub open spec fn parse_field_map(v: Seq<u8>) -> Option<FieldMapV> {
    if v.len() >= 8 {
        let n = spec_u64_from_le_bytes(v.subrange(0, 8));
        match parse_fm_entries(v.subrange(8, v.len() as int), n as nat) {
            Some((fm, tail)) => if tail.len() == 0 {
                Some(fm)
            } else {
                None
            },
            None => None,
        }
    } else {
        None
    }
}

/// Option-list decoding inverts option-list encoding, ahead of any tail.
pub proof fn lemma_parse_opts_entries_complete(os: OptsV, tail: Seq<u8>)
    requires
        opts_enc_valid(os),
    ensures
        parse_opts_entries(enc_opts_entries(os) + tail, os.len()) == Some((os, tail)),
    decreases os.len(),
{
    vstd::bytes::lemma_auto_spec_u64_to_from_le_bytes();
    let v = enc_opts_entries(os) + tail;
    if os.len() == 0 {
        assert(v =~= tail);
        assert(parse_opts_entries(v, 0)->Some_0.0 =~= os);
    } else {
        let e = os.first();
        let kl = e.0.len() as int;
        let wl = e.1.len() as int;
        let rest = enc_opts_entries(os.drop_first()) + tail;
        assert(v =~= (enc_lp(e.0) + enc_lp(e.1)) + rest);
        assert(v.subrange(0, 8) =~= spec_u64_to_le_bytes(e.0.len() as u64));
        assert(v.subrange(8, 8 + kl) =~= e.0);
        assert(v.subrange(8 + kl, 16 + kl) =~= spec_u64_to_le_bytes(e.1.len() as u64));
        assert(v.subrange(16 + kl, 16 + kl + wl) =~= e.1);
        assert(v.subrange(16 + kl + wl, v.len() as int) =~= rest);
        assert(opts_enc_valid(os.drop_first())) by {
            assert(forall|j: int|
                0 <= j < os.drop_first().len() ==> os.drop_first()[j] == os[j + 1]);
        }
        lemma_parse_opts_entries_complete(os.drop_first(), tail);
        let pe = (v.subrange(8, 8 + kl), v.subrange(16 + kl, 16 + kl + wl));
        assert(pe == e);
        assert(parse_opts_entries(v, os.len()) == Some((seq![e] + os.drop_first(), tail)));
        assert(seq![e] + os.drop_first() =~= os);
    }
}

/// Field-map-entry decoding inverts encoding, ahead of any tail.
pub proof fn lemma_parse_fm_entries_complete(fm: FieldMapV, tail: Seq<u8>)
    requires
        fm_enc_valid(fm),
    ensures
        parse_fm_entries(enc_fm_entries(fm) + tail, fm.len()) == Some((fm, tail)),
    decreases fm.len(),
{
    vstd::bytes::lemma_auto_spec_u64_to_from_le_bytes();
    let v = enc_fm_entries(fm) + tail;
    if fm.len() == 0 {
        assert(v =~= tail);
        assert(parse_fm_entries(v, 0)->Some_0.0 =~= fm);
    } else {
        let e = fm.first();
        let kl = e.0.len() as int;
        let rest = enc_fm_entries(fm.drop_first()) + tail;
        assert(v =~= (enc_lp(e.0) + enc_opts(e.1)) + rest);
        assert(v.subrange(0, 8) =~= spec_u64_to_le_bytes(e.0.len() as u64));
        assert(v.subrange(8, 8 + kl) =~= e.0);
        let after_name = v.subrange(8 + kl, v.len() as int);
        assert(after_name =~= enc_opts(e.1) + rest);
        assert(opts_enc_valid(e.1));
        assert(after_name.subrange(0, 8) =~= spec_u64_to_le_bytes(e.1.len() as u64));
        assert(after_name.subrange(8, after_name.len() as int) =~= enc_opts_entries(e.1)
            + rest);
        lemma_parse_opts_entries_complete(e.1, rest);
        assert(parse_opts(after_name) == Some((e.1, rest)));
        assert(fm_enc_valid(fm.drop_first())) by {
            assert(forall|j: int|
                0 <= j < fm.drop_first().len() ==> fm.drop_first()[j] == fm[j + 1]);
        }
        lemma_parse_fm_entries_complete(fm.drop_first(), tail);
        assert(parse_fm_entries(v, fm.len()) == Some(
            (seq![(e.0, e.1)] + fm.drop_first(), tail),
        ));
        assert((e.0, e.1) == e);
        assert(seq![(e.0, e.1)] + fm.drop_first() =~= fm);
    }
}

/// Round trip of a whole field map.
pub proof fn lemma_parse_field_map_complete(fm: FieldMapV)
    requires
        fm_enc_valid(fm),
    ensures
        parse_field_map(enc_field_map(fm)) == Some(fm),
{
    vstd::bytes::lemma_auto_spec_u64_to_from_le_bytes();
    let v = enc_field_map(fm);
    assert(v.subrange(0, 8) =~= spec_u64_to_le_bytes(fm.len() as u64));
    assert(v.subrange(8, v.len() as int) =~= enc_fm_entries(fm) + Seq::<u8>::empty());
    lemma_parse_fm_entries_complete(fm, Seq::empty());
}

/// Appending one option extends the encoding at its end.
proof fn lemma_enc_opts_entries_snoc(os: OptsV)
    requires
        os.len() > 0,
    ensures
        enc_opts_entries(os) == enc_opts_entries(os.drop_last()) + (enc_lp(os.last().0)
            + enc_lp(os.last().1)),
    decreases os.len(),
{
    if os.len() == 1 {
        assert(os.drop_last() =~= Seq::<(Seq<u8>, Seq<u8>)>::empty());
        assert(os.drop_first() =~= Seq::<(Seq<u8>, Seq<u8>)>::empty());
        assert(os.first() == os.last());
        assert(enc_opts_entries(os) =~= enc_opts_entries(os.drop_last()) + (enc_lp(
            os.last().0,
        ) + enc_lp(os.last().1)));
    } else {
        lemma_enc_opts_entries_snoc(os.drop_first());
        assert(os.drop_first().last() == os.last());
        assert(os.drop_first().drop_last() =~= os.drop_last().drop_first());
        assert(os.drop_last().len() > 0);
        assert(os.drop_last().first() == os.first());
        assert(enc_opts_entries(os.drop_last()) == enc_lp(os.first().0) + enc_lp(os.first().1)
            + enc_opts_entries(os.drop_last().drop_first()));
        assert(enc_opts_entries(os) =~= enc_opts_entries(os.drop_last()) + (enc_lp(
            os.last().0,
        ) + enc_lp(os.last().1)));
    }
}

/// Appending one field extends the encoding at its end.
proof fn lemma_enc_fm_entries_snoc(fm: FieldMapV)
    requires
        fm.len() > 0,
    ensures
        enc_fm_entries(fm) == enc_fm_entries(fm.drop_last()) + (enc_lp(fm.last().0) + enc_opts(
            fm.last().1,
        )),
    decreases fm.len(),
{
    if fm.len() == 1 {
        assert(fm.drop_last() =~= Seq::<(Seq<u8>, OptsV)>::empty());
        assert(fm.drop_first() =~= Seq::<(Seq<u8>, OptsV)>::empty());
        assert(fm.first() == fm.last());
        assert(enc_fm_entries(fm) =~= enc_fm_entries(fm.drop_last()) + (enc_lp(fm.last().0)
            + enc_opts(fm.last().1)));
    } else {
        lemma_enc_fm_entries_snoc(fm.drop_first());
        assert(fm.drop_first().last() == fm.last());
        assert(fm.drop_first().drop_last() =~= fm.drop_last().drop_first());
        assert(fm.drop_last().len() > 0);
        assert(fm.drop_last().first() == fm.first());
        assert(enc_fm_entries(fm.drop_last()) == enc_lp(fm.first().0) + enc_opts(fm.first().1)
            + enc_fm_entries(fm.drop_last().drop_first()));
        assert(enc_fm_entries(fm) =~= enc_fm_entries(fm.drop_last()) + (enc_lp(fm.last().0)
            + enc_opts(fm.last().1)));
    }
}

/// Encode one field's options into the buffer.
fn push_opts(buf: &mut Vec<u8>, opts: &FieldOpts)
    ensures
        final(buf)@ == old(buf)@ + enc_opts(opts@),
{
    let n = opts.len();
    push_u64(buf, n as u64);
    let mut i: usize = 0;
    while i < n
        invariant
            n == opts@.len(),
            i <= n,
            buf@ == old(buf)@ + spec_u64_to_le_bytes(n as u64) + enc_opts_entries(
                opts@.take(i as int),
            ),
        decreases n - i,
    {
        let e = &opts.0[i];
        proof {
            assert(opts@[i as int] == (opts.0@[i as int].0@, opts.0@[i as int].1@));
        }
        push_lp(buf, e.0.as_slice());
        push_lp(buf, e.1.as_slice());
        proof {
            lemma_enc_opts_entries_snoc(opts@.take(i + 1));
            assert(opts@.take(i + 1).drop_last() =~= opts@.take(i as int));
            assert(opts@.take(i + 1).last() == opts@[i as int]);
            assert(buf@ =~= old(buf)@ + spec_u64_to_le_bytes(n as u64) + enc_opts_entries(
                opts@.take(i + 1),
            ));
        }
        i += 1;
    }
    proof {
        assert(opts@.take(n as int) =~= opts@);
        assert(buf@ =~= old(buf)@ + enc_opts(opts@));
    }
}

/// Encode a field map into fresh bytes.
pub fn encode_field_map(fm: &FieldMap) -> (r: Vec<u8>)
    ensures
        r@ == enc_field_map(fm@),
{
    let mut buf: Vec<u8> = Vec::new();
    let n = fm.len();
    push_u64(&mut buf, n as u64);
    let mut i: usize = 0;
    while i < n
        invariant
            n == fm@.len(),
            i <= n,
            buf@ == spec_u64_to_le_bytes(n as u64) + enc_fm_entries(fm@.take(i as int)),
        decreases n - i,
    {
        let name = fm.name_at(i);
        let opts = fm.opts_at(i);
        push_lp(&mut buf, name.as_slice());
        push_opts(&mut buf, opts);
        proof {
            lemma_enc_fm_entries_snoc(fm@.take(i + 1));
            assert(fm@.take(i + 1).drop_last() =~= fm@.take(i as int));
            assert(fm@.take(i + 1).last() == fm@[i as int]);
            assert(buf@ =~= spec_u64_to_le_bytes(n as u64) + enc_fm_entries(fm@.take(i + 1)));
        }
        i += 1;
    }
    proof {
        assert(fm@.take(n as int) =~= fm@);
    }
    buf
}

/// Decode `n` options from the front of `v`, handing back how many bytes
/// were consumed.
fn decode_opts_entries(v: &[u8], n: usize) -> (r: Option<(FieldOpts, usize)>)
    ensures
        match r {
            Some(p) => parse_opts_entries(v@, n as nat) matches Some(q) && p.0@ == q.0 && p.1
                <= v@.len() && v@.subrange(p.1 as int, v@.len() as int) == q.1,
            None => parse_opts_entries(v@, n as nat) is None,
        },
    decreases n,
{
    if n == 0 {
        let r = FieldOpts::new();
        proof {
            assert(v@.subrange(0, v@.len() as int) =~= v@);
        }
        return Some((r, 0));
    }
    let vl = v.len();
    if vl < 8 {
        return None;
    }
    let kl64 = u64_from_le_bytes(vstd::slice::slice_subrange(v, 0, 8));
    if kl64 as u128 + 16u128 > vl as u128 {
        return None;
    }
    let kl = kl64 as usize;
    let wl64 = u64_from_le_bytes(vstd::slice::slice_subrange(v, 8 + kl, 16 + kl));
    if 16u128 + kl as u128 + wl64 as u128 > vl as u128 {
        return None;
    }
    let wl = wl64 as usize;
    let name = vstd::slice::slice_subrange(v, 8, 8 + kl);
    let value = vstd::slice::slice_subrange(v, 16 + kl, 16 + kl + wl);
    let consumed = 16 + kl + wl;
    let rest = vstd::slice::slice_subrange(v, consumed, vl);
    match decode_opts_entries(rest, n - 1) {
        None => None,
        Some((more, used)) => {
            let ghost q = parse_opts_entries(rest@, (n - 1) as nat)->Some_0;
            let ghost pe = (v@.subrange(8, 8 + kl as int), v@.subrange(
                16 + kl as int,
                16 + kl + wl as int,
            ));
            let ghost morev = more@;
            let mut more = more;
            more.0.insert(0, (BvString::from_slice(name), ByteVec::from_slice(value)));
            proof {
                assert(more@ =~= seq![pe] + q.0) by {
                    assert(more@[0] == (more.0@[0].0@, more.0@[0].1@));
                    assert forall|j: int| 1 <= j < more@.len() implies more@[j] == (seq![pe]
                        + q.0)[j] by {
                        assert(more@[j] == (more.0@[j].0@, more.0@[j].1@));
                        assert(morev[j - 1] == (more.0@[j].0@, more.0@[j].1@));
                    }
                }
                assert(v@.subrange(consumed + used, v@.len() as int) =~= rest@.subrange(
                    used as int,
                    rest@.len() as int,
                ));
                assert(parse_opts_entries(v@, n as nat) == Some((seq![pe] + q.0, q.1)));
            }
            Some((more, consumed + used))
        },
    }
}

/// Decode one option list (count plus entries) from the front of `v`.
fn decode_opts(v: &[u8]) -> (r: Option<(FieldOpts, usize)>)
    ensures
        match r {
            Some(p) => parse_opts(v@) matches Some(q) && p.0@ == q.0 && p.1 <= v@.len()
                && v@.subrange(p.1 as int, v@.len() as int) == q.1,
            None => parse_opts(v@) is None,
        },
{
    let vl = v.len();
    if vl < 8 {
        return None;
    }
    let n64 = u64_from_le_bytes(vstd::slice::slice_subrange(v, 0, 8));
    let rest = vstd::slice::slice_subrange(v, 8, vl);
    if n64 as u128 > usize::MAX as u128 {
        proof {
            if parse_opts_entries(rest@, n64 as nat) is Some {
                lemma_parse_opts_entries_min_len(rest@, n64 as nat);
                assert(false);
            }
        }
        return None;
    }
    match decode_opts_entries(rest, n64 as usize) {
        None => None,
        Some((os, used)) => {
            proof {
                assert(v@.subrange(8 + used as int, v@.len() as int) =~= rest@.subrange(
                    used as int,
                    rest@.len() as int,
                ));
            }
            Some((os, 8 + used))
        },
    }
}

/// Parsing `n` options consumes at least 16 bytes per option.
proof fn lemma_parse_opts_entries_min_len(v: Seq<u8>, n: nat)
    requires
        parse_opts_entries(v, n) is Some,
    ensures
        16 * n <= v.len(),
    decreases n,
{
    if n > 0 {
        let kl = spec_u64_from_le_bytes(v.subrange(0, 8)) as int;
        let wl = spec_u64_from_le_bytes(v.subrange(8 + kl, 16 + kl)) as int;
        let rest = v.subrange(16 + kl + wl, v.len() as int);
        lemma_parse_opts_entries_min_len(rest, (n - 1) as nat);
    }
}

/// Parsing `n` field-map entries consumes at least 16 bytes per entry.
proof fn lemma_parse_fm_entries_min_len(v: Seq<u8>, n: nat)
    requires
        parse_fm_entries(v, n) is Some,
    ensures
        16 * n <= v.len(),
    decreases n,
{
    if n > 0 {
        let kl = spec_u64_from_le_bytes(v.subrange(0, 8)) as int;
        let after_name = v.subrange(8 + kl, v.len() as int);
        let q = parse_opts(after_name)->Some_0;
        lemma_parse_opts_entries_min_len(
            after_name.subrange(8, after_name.len() as int),
            spec_u64_from_le_bytes(after_name.subrange(0, 8)) as nat,
        );
        lemma_parse_fm_entries_min_len(q.1, (n - 1) as nat);
        lemma_parse_opts_tail_len(after_name);
    }
}

/// What option parsing leaves over is no longer than its input.
proof fn lemma_parse_opts_tail_len(v: Seq<u8>)
    requires
        parse_opts(v) is Some,
    ensures
        parse_opts(v)->Some_0.1.len() + 8 <= v.len(),
{
    let n = spec_u64_from_le_bytes(v.subrange(0, 8));
    lemma_parse_opts_entries_tail_len(v.subrange(8, v.len() as int), n as nat);
}

/// What option-entry parsing leaves over is no longer than its input.
proof fn lemma_parse_opts_entries_tail_len(v: Seq<u8>, n: nat)
    requires
        parse_opts_entries(v, n) is Some,
    ensures
        parse_opts_entries(v, n)->Some_0.1.len() <= v.len(),
    decreases n,
{
    if n > 0 {
        let kl = spec_u64_from_le_bytes(v.subrange(0, 8)) as int;
        let wl = spec_u64_from_le_bytes(v.subrange(8 + kl, 16 + kl)) as int;
        let rest = v.subrange(16 + kl + wl, v.len() as int);
        lemma_parse_opts_entries_tail_len(rest, (n - 1) as nat);
    }
}

/// Decode `n` field-map entries from the front of `v`.
#[verifier::rlimit(80)]
fn decode_fm_entries(v: &[u8], n: usize) -> (r: Option<(FieldMap, usize)>)
    ensures
        match r {
            Some(p) => parse_fm_entries(v@, n as nat) matches Some(q) && p.0@ == q.0 && p.1
                <= v@.len() && v@.subrange(p.1 as int, v@.len() as int) == q.1,
            None => parse_fm_entries(v@, n as nat) is None,
        },
    decreases n,
{
    if n == 0 {
        let r = FieldMap::new();
        proof {
            assert(v@.subrange(0, v@.len() as int) =~= v@);
        }
        return Some((r, 0));
    }
    let vl = v.len();
    if vl < 8 {
        return None;
    }
    let kl64 = u64_from_le_bytes(vstd::slice::slice_subrange(v, 0, 8));
    if kl64 as u128 + 8u128 > vl as u128 {
        return None;
    }
    let kl = kl64 as usize;
    let name = vstd::slice::slice_subrange(v, 8, 8 + kl);
    let after_name = vstd::slice::slice_subrange(v, 8 + kl, vl);
    match decode_opts(after_name) {
        None => None,
        Some((os, used1)) => {
            let ghost oq = parse_opts(after_name@)->Some_0;
            let rest = vstd::slice::slice_subrange(after_name, used1, after_name.len());
            match decode_fm_entries(rest, n - 1) {
                None => None,
                Some((more, used2)) => {
                    let ghost q = parse_fm_entries(rest@, (n - 1) as nat)->Some_0;
                    let ghost pe = (v@.subrange(8, 8 + kl as int), oq.0);
                    let ghost morev = more@;
                    let mut more = more;
                    more.0.insert(0, (BvString::from_slice(name), os));
                    proof {
                        assert(more@ =~= seq![pe] + q.0) by {
                            assert(more@[0] == (more.0@[0].0@, more.0@[0].1@));
                            assert forall|j: int| 1 <= j < more@.len() implies more@[j] == (
                            seq![pe] + q.0)[j] by {
                                assert(more@[j] == (more.0@[j].0@, more.0@[j].1@));
                                assert(morev[j - 1] == (more.0@[j].0@, more.0@[j].1@));
                            }
                        }
                        assert(v@.subrange(8 + kl + used1 + used2, v@.len() as int)
                            =~= rest@.subrange(used2 as int, rest@.len() as int));
                        assert(parse_fm_entries(v@, n as nat) == Some((seq![pe] + q.0, q.1)));
                    }
                    Some((more, 8 + kl + used1 + used2))
                },
            }
        },
    }
}

/// Decode a whole field map.
pub fn decode_field_map(v: &[u8]) -> (r: Option<FieldMap>)
    ensures
        match r {
            Some(fm) => parse_field_map(v@) matches Some(q) && fm@ == q,
            None => parse_field_map(v@) is None,
        },
{
    let vl = v.len();
    if vl < 8 {
        return None;
    }
    let n64 = u64_from_le_bytes(vstd::slice::slice_subrange(v, 0, 8));
    let rest = vstd::slice::slice_subrange(v, 8, vl);
    if n64 as u128 > usize::MAX as u128 {
        proof {
            if parse_fm_entries(rest@, n64 as nat) is Some {
                lemma_parse_fm_entries_min_len(rest@, n64 as nat);
                assert(false);
            }
        }
        return None;
    }
    match decode_fm_entries(rest, n64 as usize) {
        None => None,
        Some((fm, used)) => {
            if used != rest.len() {
                proof {
                    let q = parse_fm_entries(rest@, n64 as nat)->Some_0;
                    assert(q.1.len() != 0);
                }
                None
            } else {
                proof {
                    let q = parse_fm_entries(rest@, n64 as nat)->Some_0;
                    assert(rest@.subrange(used as int, rest@.len() as int).len() == 0);
                }
                Some(fm)
            }
        },
    }
}

} // verus!

