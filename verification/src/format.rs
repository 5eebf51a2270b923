//! The binary record format: magic sequences, record encodings, and the
//! lemmas that pin down where each record lies inside an encoded region.
//!
//! All integers are little-endian. Each record kind is introduced by a
//! fixed three-byte magic sequence whose first byte is the kind
//! discriminant and whose last two bytes are a shared constant suffix.

use vstd::prelude::*;
use vstd::bytes::{spec_u16_to_le_bytes, spec_u32_to_le_bytes, spec_u64_to_le_bytes};

use crate::bvobject::ObjView;

verus! {

/// Magic of a table-definition record.
pub open spec fn table_ident_spec() -> Seq<u8> {
    seq![0u8, 30u8, 120u8]
}

/// Magic of a key-value record.
pub open spec fn kv_ident_spec() -> Seq<u8> {
    seq![1u8, 30u8, 120u8]
}

/// Magic of a table-rows section.
pub open spec fn rows_ident_spec() -> Seq<u8> {
    seq![2u8, 30u8, 120u8]
}

/// Magic of a single table-row record.
pub open spec fn record_ident_spec() -> Seq<u8> {
    seq![3u8, 30u8, 120u8]
}

/// The table-definition magic, as bytes.
pub fn table_ident() -> (r: [u8; 3])
    ensures
        r@ == table_ident_spec(),
{
    let r: [u8; 3] = [0, 30, 120];
    proof {
        assert(r@ =~= table_ident_spec());
    }
    r
}

/// The key-value magic, as bytes.
pub fn kv_ident() -> (r: [u8; 3])
    ensures
        r@ == kv_ident_spec(),
{
    let r: [u8; 3] = [1, 30, 120];
    proof {
        assert(r@ =~= kv_ident_spec());
    }
    r
}

/// The rows-section magic, as bytes.
pub fn rows_ident() -> (r: [u8; 3])
    ensures
        r@ == rows_ident_spec(),
{
    let r: [u8; 3] = [2, 30, 120];
    proof {
        assert(r@ =~= rows_ident_spec());
    }
    r
}

/// The row-record magic, as bytes.
pub fn record_ident() -> (r: [u8; 3])
    ensures
        r@ == record_ident_spec(),
{
    let r: [u8; 3] = [3, 30, 120];
    proof {
        assert(r@ =~= record_ident_spec());
    }
    r
}

/// Byte size of the key-value record header: magic, key length (1),
/// type length (1), value length (4).
pub const KV_IDENT_HEAD_BS: usize = 9;

/// Byte size of the table-definition record header: magic, name length
/// (1), fields length (2).
pub const TABLE_IDENT_HEAD_BS: usize = 6;

/// Byte size of a row-record header: magic, row length (4).
pub const RECORD_IDENT_HEAD_BS: usize = 7;

/// Byte size of the file header: `u32` table-definition length, `u64`
/// key-value length, `u64` table-rows length.
pub const HEADER_BS: usize = 20;

// ---------------------------------------------------------------------
// Key-value records
// ---------------------------------------------------------------------

/// A key-value entry that the format can carry: the key and the type tag
/// fit their one-byte length fields and the value fits its four-byte one.
pub open spec fn kv_entry_valid(e: (Seq<u8>, ObjView)) -> bool {
    &&& 1 <= e.0.len() <= 255
    &&& 1 <= e.1.type_tag.len() <= 255
    &&& e.1.raw.len() <= 0xFFFF_FFFF
}

/// Encoding of one key-value record.
pub open spec fn enc_kv_entry(e: (Seq<u8>, ObjView)) -> Seq<u8> {
    kv_ident_spec() + seq![e.0.len() as u8, e.1.type_tag.len() as u8] + spec_u32_to_le_bytes(
        e.1.raw.len() as u32,
    ) + e.0 + e.1.type_tag + e.1.raw
}

/// Total byte length of one encoded key-value record.
pub open spec fn kv_entry_len(e: (Seq<u8>, ObjView)) -> int {
    9 + e.0.len() as int + e.1.type_tag.len() as int + e.1.raw.len() as int
}

/// Every entry of the sequence is valid for the format.
pub open spec fn kv_region_valid(es: Seq<(Seq<u8>, ObjView)>) -> bool {
    forall|j: int| 0 <= j < es.len() ==> kv_entry_valid(#[trigger] es[j])
}

/// Encoding of a region of concatenated key-value records.
pub open spec fn enc_kv_region(es: Seq<(Seq<u8>, ObjView)>) -> Seq<u8>
    decreases es.len(),
{
    if es.len() == 0 {
        Seq::empty()
    } else {
        enc_kv_entry(es.first()) + enc_kv_region(es.drop_first())
    }
}

/// File offset of record `k` inside an encoded key-value region.
pub open spec fn kv_offset(es: Seq<(Seq<u8>, ObjView)>, k: int) -> int
    decreases k,
{
    if k <= 0 {
        0
    } else {
        kv_offset(es, k - 1) + kv_entry_len(es[k - 1])
    }
}

/// An encoded region splits as its head record followed by the rest.
pub proof fn lemma_enc_kv_suffix(es: Seq<(Seq<u8>, ObjView)>, k: int)
    requires
        0 <= k < es.len(),
    ensures
        enc_kv_region(es.skip(k)) == enc_kv_entry(es[k]) + enc_kv_region(es.skip(k + 1)),
{
    assert(es.skip(k).len() > 0);
    assert(es.skip(k).first() == es[k]);
    assert(es.skip(k).drop_first() =~= es.skip(k + 1));
}

/// The length of an encoded key-value region is the offset past its last
/// record, and every offset is non-negative and within the region.
pub proof fn lemma_kv_region_len(es: Seq<(Seq<u8>, ObjView)>, k: int)
    requires
        0 <= k <= es.len(),
    ensures
        enc_kv_region(es.skip(k)).len() == kv_offset(es, es.len() as int) - kv_offset(es, k),
        kv_offset(es, k) >= 0,
    decreases es.len() - k,
{
    if k == es.len() {
        assert(es.skip(k).len() == 0);
        lemma_kv_offset_nonneg(es, k);
    } else {
        lemma_enc_kv_suffix(es, k);
        lemma_kv_region_len(es, k + 1);
        lemma_kv_offset_nonneg(es, k);
        vstd::bytes::lemma_auto_spec_u32_to_from_le_bytes();
        assert(enc_kv_entry(es[k]).len() == kv_entry_len(es[k]));
        assert(kv_offset(es, k + 1) == kv_offset(es, k) + kv_entry_len(es[k]));
    }
}

proof fn lemma_kv_offset_nonneg(es: Seq<(Seq<u8>, ObjView)>, k: int)
    requires
        0 <= k <= es.len(),
    ensures
        kv_offset(es, k) >= 0,
    decreases k,
{
    if k > 0 {
        lemma_kv_offset_nonneg(es, k - 1);
    }
}

/// The bytes of record `k` inside a buffer holding an encoded region at
/// offset 0, read field by field.
pub proof fn lemma_kv_entry_bytes(v: Seq<u8>, off: int, e: (Seq<u8>, ObjView))
    requires
        kv_entry_valid(e),
        0 <= off,
        off + kv_entry_len(e) <= v.len(),
        v.subrange(off, off + kv_entry_len(e)) == enc_kv_entry(e),
    ensures
        v.subrange(off, off + 3) == kv_ident_spec(),
        v[off] == 1u8 && v[off + 1] == 30u8 && v[off + 2] == 120u8,
        v[off + 3] == e.0.len() as u8,
        v[off + 4] == e.1.type_tag.len() as u8,
        v.subrange(off + 5, off + 9) == spec_u32_to_le_bytes(e.1.raw.len() as u32),
        v.subrange(off + 9, off + 9 + e.0.len()) == e.0,
        v.subrange(off + 9 + e.0.len(), off + 9 + e.0.len() + e.1.type_tag.len())
            == e.1.type_tag,
        v.subrange(
            off + 9 + e.0.len() + e.1.type_tag.len(),
            off + kv_entry_len(e),
        ) == e.1.raw,
    {
    let enc = enc_kv_entry(e);
    let kl = e.0.len() as int;
    let tl = e.1.type_tag.len() as int;
    let rl = e.1.raw.len() as int;
    vstd::bytes::lemma_auto_spec_u32_to_from_le_bytes();
    assert(enc.len() == 9 + kl + tl + rl);
    assert forall|i: int| 0 <= i < enc.len() implies v[off + i] == enc[i] by {
        assert(v.subrange(off, off + kv_entry_len(e))[i] == v[off + i]);
    }
    assert(v.subrange(off, off + 3) =~= enc.subrange(0, 3));
    assert(enc.subrange(0, 3) =~= kv_ident_spec());
    assert(v[off + 3] == enc[3]);
    assert(v[off + 4] == enc[4]);
    assert(v.subrange(off + 5, off + 9) =~= enc.subrange(5, 9));
    assert(enc.subrange(5, 9) =~= spec_u32_to_le_bytes(e.1.raw.len() as u32));
    assert(v.subrange(off + 9, off + 9 + kl) =~= enc.subrange(9, 9 + kl));
    assert(enc.subrange(9, 9 + kl) =~= e.0);
    assert(v.subrange(off + 9 + kl, off + 9 + kl + tl) =~= enc.subrange(9 + kl, 9 + kl + tl));
    assert(enc.subrange(9 + kl, 9 + kl + tl) =~= e.1.type_tag);
    assert(v.subrange(off + 9 + kl + tl, off + 9 + kl + tl + rl) =~= enc.subrange(
        9 + kl + tl,
        9 + kl + tl + rl,
    ));
    assert(enc.subrange(9 + kl + tl, 9 + kl + tl + rl) =~= e.1.raw);
}


/// The suffix of an encoded region starting at record `k`'s offset is the
/// encoding of the remaining records.
pub proof fn lemma_kv_suffix_at(es: Seq<(Seq<u8>, ObjView)>, k: int)
    requires
        0 <= k <= es.len(),
    ensures
        0 <= kv_offset(es, k) <= enc_kv_region(es).len(),
        enc_kv_region(es).subrange(kv_offset(es, k), enc_kv_region(es).len() as int)
            == enc_kv_region(es.skip(k)),
    decreases k,
{
    let v = enc_kv_region(es);
    lemma_kv_region_len(es, 0);
    lemma_kv_region_len(es, k);
    assert(es.skip(0) =~= es);
    assert(v.len() == kv_offset(es, es.len() as int));
    if k == 0 {
        assert(v.subrange(0, v.len() as int) =~= v);
    } else {
        lemma_kv_suffix_at(es, k - 1);
        lemma_enc_kv_suffix(es, k - 1);
        lemma_kv_region_len(es, k - 1);
        vstd::bytes::lemma_auto_spec_u32_to_from_le_bytes();
        assert(enc_kv_entry(es[k - 1]).len() == kv_entry_len(es[k - 1]));
        assert(kv_offset(es, k) == kv_offset(es, k - 1) + kv_entry_len(es[k - 1]));
        let a = kv_offset(es, k - 1);
        let b = kv_offset(es, k);
        assert(v.subrange(a, v.len() as int) == enc_kv_entry(es[k - 1]) + enc_kv_region(
            es.skip(k),
        ));
        assert(v.subrange(b, v.len() as int) =~= v.subrange(a, v.len() as int).subrange(
            b - a,
            v.len() - a,
        ));
        assert(v.subrange(a, v.len() as int).subrange(b - a, v.len() - a) =~= enc_kv_region(
            es.skip(k),
        ));
    }
}

/// The bytes of record `k` inside an encoded region are that record's
/// encoding.
pub proof fn lemma_kv_record_at(es: Seq<(Seq<u8>, ObjView)>, k: int)
    requires
        0 <= k < es.len(),
    ensures
        0 <= kv_offset(es, k),
        kv_offset(es, k) + kv_entry_len(es[k]) <= enc_kv_region(es).len(),
        enc_kv_region(es).subrange(kv_offset(es, k), kv_offset(es, k) + kv_entry_len(es[k]))
            == enc_kv_entry(es[k]),
{
    let v = enc_kv_region(es);
    lemma_kv_suffix_at(es, k);
    lemma_enc_kv_suffix(es, k);
    lemma_kv_region_len(es, k);
    lemma_kv_region_len(es, k + 1);
    vstd::bytes::lemma_auto_spec_u32_to_from_le_bytes();
    assert(enc_kv_entry(es[k]).len() == kv_entry_len(es[k]));
    let a = kv_offset(es, k);
    let e = kv_entry_len(es[k]);
    assert(v.subrange(a, v.len() as int) == enc_kv_entry(es[k]) + enc_kv_region(es.skip(k + 1)));
    assert(v.subrange(a, a + e) =~= v.subrange(a, v.len() as int).subrange(0, e));
    assert(v.subrange(a, v.len() as int).subrange(0, e) =~= enc_kv_entry(es[k]));
}

// ---------------------------------------------------------------------
// Table-definition records
// ---------------------------------------------------------------------

/// A table definition as the format carries it: the name, the serialized
/// field map, and the three back-patched row fields.
pub ghost struct TableDefV {
    pub name: Seq<u8>,
    pub fields: Seq<u8>,
    pub rows_start: u64,
    pub rows_len: u64,
    pub rows_count: u64,
}

/// A definition whose name fits its one-byte length field and whose
/// serialized fields fit their two-byte one.
pub open spec fn def_valid(d: TableDefV) -> bool {
    &&& 1 <= d.name.len() <= 255
    &&& d.fields.len() <= 0xFFFF
}

/// Encoding of one table-definition record.
pub open spec fn enc_def(d: TableDefV) -> Seq<u8> {
    table_ident_spec() + seq![d.name.len() as u8] + spec_u16_to_le_bytes(d.fields.len() as u16)
        + d.name + d.fields + spec_u64_to_le_bytes(d.rows_start) + spec_u64_to_le_bytes(
        d.rows_len,
    ) + spec_u64_to_le_bytes(d.rows_count)
}

/// Total byte length of one encoded table-definition record.
pub open spec fn def_len(d: TableDefV) -> int {
    30 + d.name.len() as int + d.fields.len() as int
}

/// Every definition of the sequence is valid for the format.
pub open spec fn def_region_valid(ds: Seq<TableDefV>) -> bool {
    forall|j: int| 0 <= j < ds.len() ==> def_valid(#[trigger] ds[j])
}

/// Encoding of a region of concatenated table-definition records.
pub open spec fn enc_def_region(ds: Seq<TableDefV>) -> Seq<u8>
    decreases ds.len(),
{
    if ds.len() == 0 {
        Seq::empty()
    } else {
        enc_def(ds.first()) + enc_def_region(ds.drop_first())
    }
}

/// File offset of record `k` inside an encoded definition region.
pub open spec fn def_offset(ds: Seq<TableDefV>, k: int) -> int
    decreases k,
{
    if k <= 0 {
        0
    } else {
        def_offset(ds, k - 1) + def_len(ds[k - 1])
    }
}

/// An encoded definition region splits at its head record.
pub proof fn lemma_enc_def_suffix(ds: Seq<TableDefV>, k: int)
    requires
        0 <= k < ds.len(),
    ensures
        enc_def_region(ds.skip(k)) == enc_def(ds[k]) + enc_def_region(ds.skip(k + 1)),
{
    assert(ds.skip(k).len() > 0);
    assert(ds.skip(k).first() == ds[k]);
    assert(ds.skip(k).drop_first() =~= ds.skip(k + 1));
}

/// Region length and offset bounds for definition regions.
pub proof fn lemma_def_region_len(ds: Seq<TableDefV>, k: int)
    requires
        0 <= k <= ds.len(),
    ensures
        enc_def_region(ds.skip(k)).len() == def_offset(ds, ds.len() as int) - def_offset(ds, k),
        def_offset(ds, k) >= 0,
    decreases ds.len() - k,
{
    if k == ds.len() {
        assert(ds.skip(k).len() == 0);
        lemma_def_offset_nonneg(ds, k);
    } else {
        lemma_enc_def_suffix(ds, k);
        lemma_def_region_len(ds, k + 1);
        lemma_def_offset_nonneg(ds, k);
        vstd::bytes::lemma_auto_spec_u16_to_from_le_bytes();
        vstd::bytes::lemma_auto_spec_u64_to_from_le_bytes();
        assert(enc_def(ds[k]).len() == def_len(ds[k]));
        assert(def_offset(ds, k + 1) == def_offset(ds, k) + def_len(ds[k]));
    }
}

proof fn lemma_def_offset_nonneg(ds: Seq<TableDefV>, k: int)
    requires
        0 <= k <= ds.len(),
    ensures
        def_offset(ds, k) >= 0,
    decreases k,
{
    if k > 0 {
        lemma_def_offset_nonneg(ds, k - 1);
    }
}

/// The bytes of a table-definition record, read field by field.
pub proof fn lemma_def_bytes(v: Seq<u8>, off: int, d: TableDefV)
    requires
        def_valid(d),
        0 <= off,
        off + def_len(d) <= v.len(),
        v.subrange(off, off + def_len(d)) == enc_def(d),
    ensures
        v.subrange(off, off + 3) == table_ident_spec(),
        v[off] == 0u8 && v[off + 1] == 30u8 && v[off + 2] == 120u8,
        v[off + 3] == d.name.len() as u8,
        v.subrange(off + 4, off + 6) == spec_u16_to_le_bytes(d.fields.len() as u16),
        v.subrange(off + 6, off + 6 + d.name.len()) == d.name,
        v.subrange(off + 6 + d.name.len(), off + 6 + d.name.len() + d.fields.len()) == d.fields,
        v.subrange(
            off + 6 + d.name.len() + d.fields.len(),
            off + 14 + d.name.len() + d.fields.len(),
        ) == spec_u64_to_le_bytes(d.rows_start),
        v.subrange(
            off + 14 + d.name.len() + d.fields.len(),
            off + 22 + d.name.len() + d.fields.len(),
        ) == spec_u64_to_le_bytes(d.rows_len),
        v.subrange(
            off + 22 + d.name.len() + d.fields.len(),
            off + 30 + d.name.len() + d.fields.len(),
        ) == spec_u64_to_le_bytes(d.rows_count),
{
    let enc = enc_def(d);
    let nl = d.name.len() as int;
    let fl = d.fields.len() as int;
    vstd::bytes::lemma_auto_spec_u16_to_from_le_bytes();
    vstd::bytes::lemma_auto_spec_u64_to_from_le_bytes();
    assert(enc.len() == 30 + nl + fl);
    assert forall|i: int| 0 <= i < enc.len() implies v[off + i] == enc[i] by {
        assert(v.subrange(off, off + def_len(d))[i] == v[off + i]);
    }
    assert(v.subrange(off, off + 3) =~= enc.subrange(0, 3));
    assert(enc.subrange(0, 3) =~= table_ident_spec());
    assert(v[off + 3] == enc[3]);
    assert(v.subrange(off + 4, off + 6) =~= enc.subrange(4, 6));
    assert(enc.subrange(4, 6) =~= spec_u16_to_le_bytes(d.fields.len() as u16));
    assert(v.subrange(off + 6, off + 6 + nl) =~= enc.subrange(6, 6 + nl));
    assert(enc.subrange(6, 6 + nl) =~= d.name);
    assert(v.subrange(off + 6 + nl, off + 6 + nl + fl) =~= enc.subrange(6 + nl, 6 + nl + fl));
    assert(enc.subrange(6 + nl, 6 + nl + fl) =~= d.fields);
    assert(v.subrange(off + 6 + nl + fl, off + 14 + nl + fl) =~= enc.subrange(
        6 + nl + fl,
        14 + nl + fl,
    ));
    assert(enc.subrange(6 + nl + fl, 14 + nl + fl) =~= spec_u64_to_le_bytes(d.rows_start));
    assert(v.subrange(off + 14 + nl + fl, off + 22 + nl + fl) =~= enc.subrange(
        14 + nl + fl,
        22 + nl + fl,
    ));
    assert(enc.subrange(14 + nl + fl, 22 + nl + fl) =~= spec_u64_to_le_bytes(d.rows_len));
    assert(v.subrange(off + 22 + nl + fl, off + 30 + nl + fl) =~= enc.subrange(
        22 + nl + fl,
        30 + nl + fl,
    ));
    assert(enc.subrange(22 + nl + fl, 30 + nl + fl) =~= spec_u64_to_le_bytes(d.rows_count));
}

// ---------------------------------------------------------------------
// Table-row records
// ---------------------------------------------------------------------

/// A row's serialized bytes fit the four-byte row length field.
pub open spec fn row_valid(r: Seq<u8>) -> bool {
    r.len() <= 0xFFFF_FFFF
}

/// Encoding of one table-row record over the row's serialized bytes.
pub open spec fn enc_row(r: Seq<u8>) -> Seq<u8> {
    record_ident_spec() + spec_u32_to_le_bytes(r.len() as u32) + r
}

/// Total byte length of one encoded row record.
pub open spec fn row_len(r: Seq<u8>) -> int {
    7 + r.len() as int
}

/// Every row of the sequence fits the format.
pub open spec fn rows_valid(rs: Seq<Seq<u8>>) -> bool {
    forall|j: int| 0 <= j < rs.len() ==> row_valid(#[trigger] rs[j])
}

/// Encoding of the row records of one table, concatenated.
pub open spec fn enc_rows(rs: Seq<Seq<u8>>) -> Seq<u8>
    decreases rs.len(),
{
    if rs.len() == 0 {
        Seq::empty()
    } else {
        enc_row(rs.first()) + enc_rows(rs.drop_first())
    }
}

/// Encoding of a whole rows section: the section magic, then the records.
pub open spec fn enc_rows_section(rs: Seq<Seq<u8>>) -> Seq<u8> {
    rows_ident_spec() + enc_rows(rs)
}

/// Offset of row record `k` inside the concatenated row records,
/// counted from the end of the section magic.
pub open spec fn row_offset(rs: Seq<Seq<u8>>, k: int) -> int
    decreases k,
{
    if k <= 0 {
        0
    } else {
        row_offset(rs, k - 1) + row_len(rs[k - 1])
    }
}

/// Concatenated row records split at the head record.
pub proof fn lemma_enc_rows_suffix(rs: Seq<Seq<u8>>, k: int)
    requires
        0 <= k < rs.len(),
    ensures
        enc_rows(rs.skip(k)) == enc_row(rs[k]) + enc_rows(rs.skip(k + 1)),
{
    assert(rs.skip(k).len() > 0);
    assert(rs.skip(k).first() == rs[k]);
    assert(rs.skip(k).drop_first() =~= rs.skip(k + 1));
}

/// Length and offset bounds for concatenated row records.
pub proof fn lemma_rows_len(rs: Seq<Seq<u8>>, k: int)
    requires
        0 <= k <= rs.len(),
    ensures
        enc_rows(rs.skip(k)).len() == row_offset(rs, rs.len() as int) - row_offset(rs, k),
        row_offset(rs, k) >= 0,
    decreases rs.len() - k,
{
    if k == rs.len() {
        assert(rs.skip(k).len() == 0);
        lemma_row_offset_nonneg(rs, k);
    } else {
        lemma_enc_rows_suffix(rs, k);
        lemma_rows_len(rs, k + 1);
        lemma_row_offset_nonneg(rs, k);
        vstd::bytes::lemma_auto_spec_u32_to_from_le_bytes();
        assert(enc_row(rs[k]).len() == row_len(rs[k]));
        assert(row_offset(rs, k + 1) == row_offset(rs, k) + row_len(rs[k]));
    }
}

proof fn lemma_row_offset_nonneg(rs: Seq<Seq<u8>>, k: int)
    requires
        0 <= k <= rs.len(),
    ensures
        row_offset(rs, k) >= 0,
    decreases k,
{
    if k > 0 {
        lemma_row_offset_nonneg(rs, k - 1);
    }
}

/// The bytes of a row record, read field by field.
pub proof fn lemma_row_bytes(v: Seq<u8>, off: int, r: Seq<u8>)
    requires
        row_valid(r),
        0 <= off,
        off + row_len(r) <= v.len(),
        v.subrange(off, off + row_len(r)) == enc_row(r),
    ensures
        v.subrange(off, off + 3) == record_ident_spec(),
        v[off] == 3u8 && v[off + 1] == 30u8 && v[off + 2] == 120u8,
        v.subrange(off + 3, off + 7) == spec_u32_to_le_bytes(r.len() as u32),
        v.subrange(off + 7, off + row_len(r)) == r,
{
    let enc = enc_row(r);
    let rl = r.len() as int;
    vstd::bytes::lemma_auto_spec_u32_to_from_le_bytes();
    assert(enc.len() == 7 + rl);
    assert forall|i: int| 0 <= i < enc.len() implies v[off + i] == enc[i] by {
        assert(v.subrange(off, off + row_len(r))[i] == v[off + i]);
    }
    assert(v.subrange(off, off + 3) =~= enc.subrange(0, 3));
    assert(enc.subrange(0, 3) =~= record_ident_spec());
    assert(v.subrange(off + 3, off + 7) =~= enc.subrange(3, 7));
    assert(enc.subrange(3, 7) =~= spec_u32_to_le_bytes(r.len() as u32));
    assert(v.subrange(off + 7, off + 7 + rl) =~= enc.subrange(7, 7 + rl));
    assert(enc.subrange(7, 7 + rl) =~= r);
}


/// The suffix of an encoded definition region starting at record `k`.
pub proof fn lemma_def_suffix_at(ds: Seq<TableDefV>, k: int)
    requires
        0 <= k <= ds.len(),
    ensures
        0 <= def_offset(ds, k) <= enc_def_region(ds).len(),
        enc_def_region(ds).subrange(def_offset(ds, k), enc_def_region(ds).len() as int)
            == enc_def_region(ds.skip(k)),
    decreases k,
{
    let v = enc_def_region(ds);
    lemma_def_region_len(ds, 0);
    lemma_def_region_len(ds, k);
    assert(ds.skip(0) =~= ds);
    assert(v.len() == def_offset(ds, ds.len() as int));
    if k == 0 {
        assert(v.subrange(0, v.len() as int) =~= v);
    } else {
        lemma_def_suffix_at(ds, k - 1);
        lemma_enc_def_suffix(ds, k - 1);
        lemma_def_region_len(ds, k - 1);
        vstd::bytes::lemma_auto_spec_u16_to_from_le_bytes();
        vstd::bytes::lemma_auto_spec_u64_to_from_le_bytes();
        assert(enc_def(ds[k - 1]).len() == def_len(ds[k - 1]));
        assert(def_offset(ds, k) == def_offset(ds, k - 1) + def_len(ds[k - 1]));
        let a = def_offset(ds, k - 1);
        let b = def_offset(ds, k);
        assert(v.subrange(a, v.len() as int) == enc_def(ds[k - 1]) + enc_def_region(
            ds.skip(k),
        ));
        assert(v.subrange(b, v.len() as int) =~= v.subrange(a, v.len() as int).subrange(
            b - a,
            v.len() - a,
        ));
        assert(v.subrange(a, v.len() as int).subrange(b - a, v.len() - a) =~= enc_def_region(
            ds.skip(k),
        ));
    }
}

/// The bytes of definition record `k` inside an encoded region.
pub proof fn lemma_def_record_at(ds: Seq<TableDefV>, k: int)
    requires
        0 <= k < ds.len(),
    ensures
        0 <= def_offset(ds, k),
        def_offset(ds, k) + def_len(ds[k]) <= enc_def_region(ds).len(),
        enc_def_region(ds).subrange(def_offset(ds, k), def_offset(ds, k) + def_len(ds[k]))
            == enc_def(ds[k]),
{
    let v = enc_def_region(ds);
    lemma_def_suffix_at(ds, k);
    lemma_enc_def_suffix(ds, k);
    lemma_def_region_len(ds, k);
    lemma_def_region_len(ds, k + 1);
    vstd::bytes::lemma_auto_spec_u16_to_from_le_bytes();
    vstd::bytes::lemma_auto_spec_u64_to_from_le_bytes();
    assert(enc_def(ds[k]).len() == def_len(ds[k]));
    let a = def_offset(ds, k);
    let e = def_len(ds[k]);
    assert(v.subrange(a, v.len() as int) == enc_def(ds[k]) + enc_def_region(ds.skip(k + 1)));
    assert(v.subrange(a, a + e) =~= v.subrange(a, v.len() as int).subrange(0, e));
    assert(v.subrange(a, v.len() as int).subrange(0, e) =~= enc_def(ds[k]));
}

/// The suffix of concatenated row records starting at record `k`.
pub proof fn lemma_rows_suffix_at(rs: Seq<Seq<u8>>, k: int)
    requires
        0 <= k <= rs.len(),
    ensures
        0 <= row_offset(rs, k) <= enc_rows(rs).len(),
        enc_rows(rs).subrange(row_offset(rs, k), enc_rows(rs).len() as int) == enc_rows(
            rs.skip(k),
        ),
    decreases k,
{
    let v = enc_rows(rs);
    lemma_rows_len(rs, 0);
    lemma_rows_len(rs, k);
    assert(rs.skip(0) =~= rs);
    assert(v.len() == row_offset(rs, rs.len() as int));
    if k == 0 {
        assert(v.subrange(0, v.len() as int) =~= v);
    } else {
        lemma_rows_suffix_at(rs, k - 1);
        lemma_enc_rows_suffix(rs, k - 1);
        lemma_rows_len(rs, k - 1);
        vstd::bytes::lemma_auto_spec_u32_to_from_le_bytes();
        assert(enc_row(rs[k - 1]).len() == row_len(rs[k - 1]));
        assert(row_offset(rs, k) == row_offset(rs, k - 1) + row_len(rs[k - 1]));
        let a = row_offset(rs, k - 1);
        let b = row_offset(rs, k);
        assert(v.subrange(a, v.len() as int) == enc_row(rs[k - 1]) + enc_rows(rs.skip(k)));
        assert(v.subrange(b, v.len() as int) =~= v.subrange(a, v.len() as int).subrange(
            b - a,
            v.len() - a,
        ));
        assert(v.subrange(a, v.len() as int).subrange(b - a, v.len() - a) =~= enc_rows(
            rs.skip(k),
        ));
    }
}

/// The bytes of row record `k` inside concatenated row records.
pub proof fn lemma_row_record_at(rs: Seq<Seq<u8>>, k: int)
    requires
        0 <= k < rs.len(),
    ensures
        0 <= row_offset(rs, k),
        row_offset(rs, k) + row_len(rs[k]) <= enc_rows(rs).len(),
        enc_rows(rs).subrange(row_offset(rs, k), row_offset(rs, k) + row_len(rs[k]))
            == enc_row(rs[k]),
{
    let v = enc_rows(rs);
    lemma_rows_suffix_at(rs, k);
    lemma_enc_rows_suffix(rs, k);
    lemma_rows_len(rs, k);
    lemma_rows_len(rs, k + 1);
    vstd::bytes::lemma_auto_spec_u32_to_from_le_bytes();
    assert(enc_row(rs[k]).len() == row_len(rs[k]));
    let a = row_offset(rs, k);
    let e = row_len(rs[k]);
    assert(v.subrange(a, v.len() as int) == enc_row(rs[k]) + enc_rows(rs.skip(k + 1)));
    assert(v.subrange(a, a + e) =~= v.subrange(a, v.len() as int).subrange(0, e));
    assert(v.subrange(a, v.len() as int).subrange(0, e) =~= enc_row(rs[k]));
}

// ---------------------------------------------------------------------
// File header
// ---------------------------------------------------------------------


/// Encoding of the fixed 20-byte file header.
pub open spec fn enc_header(table_len: u32, kv_len: u64, rows_len: u64) -> Seq<u8> {
    spec_u32_to_le_bytes(table_len) + spec_u64_to_le_bytes(kv_len) + spec_u64_to_le_bytes(
        rows_len,
    )
}

} // verus!
