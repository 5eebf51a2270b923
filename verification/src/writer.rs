//! The file writer: one linear pass over the three sections, writing
//! placeholder row fields first, followed by a corrective pass that
//! back-patches each table's `rows_start`, `rows_total_length` and
//! `rows_count` once its row block has been written, and finally the
//! header once all three section lengths are known.

use vstd::prelude::*;
use vstd::bytes::spec_u64_to_le_bytes;

use crate::bvobject::{BvObject, ObjView};
use crate::bvstring::BvString;
use crate::codec::{enc_row_body, enc_field_map, encode_row_body, encode_field_map, push_bytes,
    push_u16, push_u32, push_u64};
use crate::format::{
    enc_header, enc_def, enc_def_region, enc_kv_entry, enc_kv_region, enc_row, enc_rows,
    rows_ident_spec, rows_ident, record_ident, kv_ident, table_ident, TableDefV, def_len,
    def_offset, kv_entry_len, kv_offset, row_offset, row_len, lemma_def_region_len,
    lemma_kv_region_len, lemma_rows_len,
};
use crate::table_types::{FieldMap, FieldMapV, TableRow, RowV};

verus! {

/// One table as the writer sees it: its name, its schema, and its rows.
pub ghost struct TableV {
    pub name: Seq<u8>,
    pub fields: FieldMapV,
    pub rows: Seq<RowV>,
}

/// The serialized bytes of each of a table's rows.
pub open spec fn table_row_bytes(t: TableV) -> Seq<Seq<u8>> {
    t.rows.map_values(|r: RowV| enc_row_body(r))
}

/// Byte length of a table's rows section: zero when the table is empty,
/// else the section magic plus its row records.
pub open spec fn section_len(t: TableV) -> int {
    if t.rows.len() == 0 {
        0
    } else {
        3 + row_offset(table_row_bytes(t), t.rows.len() as int)
    }
}

/// Total byte length of the rows sections of the first `k` tables.
pub open spec fn sections_len(ts: Seq<TableV>, k: int) -> int
    decreases k,
{
    if k <= 0 {
        0
    } else {
        sections_len(ts, k - 1) + section_len(ts[k - 1])
    }
}

/// The encoded rows section of one table: empty for an empty table.
pub open spec fn enc_section(t: TableV) -> Seq<u8> {
    if t.rows.len() == 0 {
        Seq::empty()
    } else {
        rows_ident_spec() + enc_rows(table_row_bytes(t))
    }
}

/// The concatenated rows sections of the first `k` tables.
pub open spec fn enc_sections(ts: Seq<TableV>, k: int) -> Seq<u8>
    decreases k,
{
    if k <= 0 {
        Seq::empty()
    } else {
        enc_sections(ts, k - 1) + enc_section(ts[k - 1])
    }
}

/// The definition record of table `i`, given the file offset where the
/// rows sections begin. Empty tables keep their zero placeholders.
pub open spec fn final_def(ts: Seq<TableV>, base: int, i: int) -> TableDefV {
    TableDefV {
        name: ts[i].name,
        fields: enc_field_map(ts[i].fields),
        rows_start: if ts[i].rows.len() == 0 {
            0u64
        } else {
            (base + sections_len(ts, i)) as u64
        },
        rows_len: section_len(ts[i]) as u64,
        rows_count: ts[i].rows.len() as u64,
    }
}

/// The definition record of table `i` with its placeholders still zero.
pub open spec fn zero_def(ts: Seq<TableV>, i: int) -> TableDefV {
    TableDefV {
        name: ts[i].name,
        fields: enc_field_map(ts[i].fields),
        rows_start: 0u64,
        rows_len: 0u64,
        rows_count: 0u64,
    }
}

/// All definition records, final form.
pub open spec fn final_defs(ts: Seq<TableV>, base: int) -> Seq<TableDefV> {
    Seq::new(ts.len(), |i: int| final_def(ts, base, i))
}

/// Definition records with the first `k` patched and the rest zero.
pub open spec fn part_defs(ts: Seq<TableV>, base: int, k: int) -> Seq<TableDefV> {
    Seq::new(
        ts.len(),
        |i: int|
            if i < k {
                final_def(ts, base, i)
            } else {
                zero_def(ts, i)
            },
    )
}

/// Byte length of the whole definition section.
pub open spec fn defs_total(ts: Seq<TableV>) -> int {
    def_offset(final_defs(ts, 0), ts.len() as int)
}

/// Byte length of the whole key-value section.
pub open spec fn kv_total(kv: Seq<(Seq<u8>, ObjView)>) -> int {
    kv_offset(kv, kv.len() as int)
}

/// A table the format can carry: name and serialized fields fit their
/// length fields, and so does every serialized row.
pub open spec fn table_valid(t: TableV) -> bool {
    &&& 1 <= t.name.len() <= 255
    &&& enc_field_map(t.fields).len() <= 0xFFFF
    &&& forall|j: int|
        0 <= j < t.rows.len() ==> enc_row_body(#[trigger] t.rows[j]).len() <= 0xFFFF_FFFF
}

/// A store the format can carry, with the whole image fitting its header
/// fields and `usize`.
pub open spec fn store_valid(ts: Seq<TableV>, kv: Seq<(Seq<u8>, ObjView)>) -> bool {
    &&& forall|i: int| 0 <= i < ts.len() ==> table_valid(#[trigger] ts[i])
    &&& forall|i: int, j: int|
        0 <= i < j < ts.len() ==> (#[trigger] ts[i]).name != (#[trigger] ts[j]).name
    &&& crate::format::kv_region_valid(kv)
    &&& defs_total(ts) <= 0xFFFF_FFFF
    &&& 20 + defs_total(ts) + kv_total(kv) + sections_len(ts, ts.len() as int) <= usize::MAX
}

/// The whole encoded file image of a store.
pub open spec fn enc_file(ts: Seq<TableV>, kv: Seq<(Seq<u8>, ObjView)>) -> Seq<u8> {
    let base = 20 + defs_total(ts) + kv_total(kv);
    enc_header(
        defs_total(ts) as u32,
        kv_total(kv) as u64,
        sections_len(ts, ts.len() as int) as u64,
    ) + enc_def_region(final_defs(ts, base)) + enc_kv_region(kv) + enc_sections(
        ts,
        ts.len() as int,
    )
}

/// Overwrite `b.len()` bytes of the buffer at `at`.
pub fn patch_bytes(buf: &mut Vec<u8>, at: usize, b: &[u8])
    requires
        at + b@.len() <= old(buf)@.len(),
    ensures
        final(buf)@.len() == old(buf)@.len(),
        final(buf)@ == old(buf)@.subrange(0, at as int) + b@ + old(buf)@.subrange(
            at + b@.len(),
            old(buf)@.len() as int,
        ),
{
    let n = b.len();
    let bl = buf.len();
    let mut i: usize = 0;
    while i < n
        invariant
            n == b@.len(),
            i <= n,
            at + n <= buf@.len(),
            buf@.len() <= usize::MAX,
            buf@.len() == old(buf)@.len(),
            forall|j: int| 0 <= j < i ==> buf@[at + j] == b@[j],
            forall|j: int| 0 <= j < buf@.len() && !(at <= j < at + i) ==> buf@[j] == old(buf)@[j],
        decreases n - i,
    {
        buf.set(at + i, b[i]);
        i += 1;
    }
    proof {
        assert(buf@ =~= old(buf)@.subrange(0, at as int) + b@ + old(buf)@.subrange(
            at + b@.len(),
            old(buf)@.len() as int,
        ));
    }
}

/// Patching one definition record's three row fields in place turns the
/// encoded region of the old records into the region of the updated ones.
pub proof fn lemma_def_region_patch(ds: Seq<TableDefV>, k: int, d2: TableDefV)
    requires
        0 <= k < ds.len(),
        d2.name == ds[k].name,
        d2.fields == ds[k].fields,
    ensures
        ({
            let v = enc_def_region(ds);
            let p = def_offset(ds, k) + 6 + ds[k].name.len() + ds[k].fields.len();
            enc_def_region(ds.update(k, d2)) == v.subrange(0, p) + (spec_u64_to_le_bytes(
                d2.rows_start,
            ) + spec_u64_to_le_bytes(d2.rows_len) + spec_u64_to_le_bytes(d2.rows_count))
                + v.subrange(p + 24, v.len() as int)
        }),
    decreases k,
{
    vstd::bytes::lemma_auto_spec_u16_to_from_le_bytes();
    vstd::bytes::lemma_auto_spec_u64_to_from_le_bytes();
    let v = enc_def_region(ds);
    let p = def_offset(ds, k) + 6 + ds[k].name.len() + ds[k].fields.len();
    let patch = spec_u64_to_le_bytes(d2.rows_start) + spec_u64_to_le_bytes(d2.rows_len)
        + spec_u64_to_le_bytes(d2.rows_count);
    if k == 0 {
        crate::format::lemma_def_record_at(ds, 0);
        let rest = enc_def_region(ds.drop_first());
        assert(v == enc_def(ds[0]) + rest);
        assert(enc_def(ds[0]).len() == def_len(ds[0]));
        let ds2 = ds.update(0, d2);
        assert(ds2.first() == d2);
        assert(ds2.drop_first() =~= ds.drop_first());
        assert(enc_def_region(ds2) == enc_def(d2) + rest);
        assert(enc_def(d2) =~= enc_def(ds[0]).subrange(
            0,
            6 + ds[0].name.len() as int + ds[0].fields.len() as int,
        ) + patch);
        assert(enc_def_region(ds2) =~= v.subrange(0, p) + patch + v.subrange(
            p + 24,
            v.len() as int,
        ));
    } else {
        let head = enc_def(ds[0]);
        let rest = ds.drop_first();
        assert(v == head + enc_def_region(rest));
        let ds2 = ds.update(k, d2);
        assert(ds2.first() == ds[0]);
        assert(ds2.drop_first() =~= rest.update(k - 1, d2));
        assert(rest[k - 1] == ds[k]);
        lemma_def_region_patch(rest, k - 1, d2);
        assert(head.len() == def_len(ds[0]));
        assert(def_offset(ds, k) == head.len() + def_offset(rest, k - 1)) by {
            lemma_def_offset_shift(ds, k);
        }
        crate::format::lemma_def_record_at(rest, k - 1);
        let pr = def_offset(rest, k - 1) + 6 + ds[k].name.len() + ds[k].fields.len();
        assert(pr + 24 <= enc_def_region(rest).len());
        assert(p == head.len() + pr);
        assert(enc_def_region(ds2) == head + enc_def_region(rest.update(k - 1, d2)));
        assert(enc_def_region(ds2) =~= v.subrange(0, p) + patch + v.subrange(
            p + 24,
            v.len() as int,
        ));
    }
}

/// A region's record offsets shift by the head record's length.
proof fn lemma_def_offset_shift(ds: Seq<TableDefV>, k: int)
    requires
        1 <= k <= ds.len(),
        ds.len() > 0,
    ensures
        def_offset(ds, k) == def_len(ds[0]) + def_offset(ds.drop_first(), k - 1),
    decreases k,
{
    if k == 1 {
        assert(def_offset(ds, 1) == def_offset(ds, 0) + def_len(ds[0]));
        assert(def_offset(ds.drop_first(), 0) == 0);
    } else {
        lemma_def_offset_shift(ds, k - 1);
        assert(ds.drop_first()[k - 2] == ds[k - 1]);
        assert(def_offset(ds, k) == def_offset(ds, k - 1) + def_len(ds[k - 1]));
        assert(def_offset(ds.drop_first(), k - 1) == def_offset(ds.drop_first(), k - 2)
            + def_len(ds.drop_first()[k - 2]));
    }
}


/// A region of definition records grows at its end.
pub proof fn lemma_enc_def_region_snoc(ds: Seq<TableDefV>)
    requires
        ds.len() > 0,
    ensures
        enc_def_region(ds) == enc_def_region(ds.drop_last()) + enc_def(ds.last()),
    decreases ds.len(),
{
    if ds.len() == 1 {
        assert(ds.drop_last() =~= Seq::<TableDefV>::empty());
        assert(ds.drop_first() =~= Seq::<TableDefV>::empty());
        assert(ds.first() == ds.last());
        assert(enc_def_region(ds) =~= enc_def_region(ds.drop_last()) + enc_def(ds.last()));
    } else {
        lemma_enc_def_region_snoc(ds.drop_first());
        assert(ds.drop_first().last() == ds.last());
        assert(ds.drop_first().drop_last() =~= ds.drop_last().drop_first());
        assert(ds.drop_last().len() > 0);
        assert(ds.drop_last().first() == ds.first());
        assert(enc_def_region(ds.drop_last()) == enc_def(ds.first()) + enc_def_region(
            ds.drop_last().drop_first(),
        ));
        assert(enc_def_region(ds) =~= enc_def_region(ds.drop_last()) + enc_def(ds.last()));
    }
}

/// A region of key-value records grows at its end.
pub proof fn lemma_enc_kv_region_snoc(es: Seq<(Seq<u8>, ObjView)>)
    requires
        es.len() > 0,
    ensures
        enc_kv_region(es) == enc_kv_region(es.drop_last()) + enc_kv_entry(es.last()),
    decreases es.len(),
{
    if es.len() == 1 {
        assert(es.drop_last() =~= Seq::<(Seq<u8>, ObjView)>::empty());
        assert(es.drop_first() =~= Seq::<(Seq<u8>, ObjView)>::empty());
        assert(es.first() == es.last());
        assert(enc_kv_region(es) =~= enc_kv_region(es.drop_last()) + enc_kv_entry(es.last()));
    } else {
        lemma_enc_kv_region_snoc(es.drop_first());
        assert(es.drop_first().last() == es.last());
        assert(es.drop_first().drop_last() =~= es.drop_last().drop_first());
        assert(es.drop_last().len() > 0);
        assert(es.drop_last().first() == es.first());
        assert(enc_kv_region(es.drop_last()) == enc_kv_entry(es.first()) + enc_kv_region(
            es.drop_last().drop_first(),
        ));
        assert(enc_kv_region(es) =~= enc_kv_region(es.drop_last()) + enc_kv_entry(es.last()));
    }
}

/// Concatenated row records grow at their end.
pub proof fn lemma_enc_rows_snoc(rs: Seq<Seq<u8>>)
    requires
        rs.len() > 0,
    ensures
        enc_rows(rs) == enc_rows(rs.drop_last()) + enc_row(rs.last()),
    decreases rs.len(),
{
    if rs.len() == 1 {
        assert(rs.drop_last() =~= Seq::<Seq<u8>>::empty());
        assert(rs.drop_first() =~= Seq::<Seq<u8>>::empty());
        assert(rs.first() == rs.last());
        assert(enc_rows(rs) =~= enc_rows(rs.drop_last()) + enc_row(rs.last()));
    } else {
        lemma_enc_rows_snoc(rs.drop_first());
        assert(rs.drop_first().last() == rs.last());
        assert(rs.drop_first().drop_last() =~= rs.drop_last().drop_first());
        assert(rs.drop_last().len() > 0);
        assert(rs.drop_last().first() == rs.first());
        assert(enc_rows(rs.drop_last()) == enc_row(rs.first()) + enc_rows(
            rs.drop_last().drop_first(),
        ));
        assert(enc_rows(rs) =~= enc_rows(rs.drop_last()) + enc_row(rs.last()));
    }
}

/// First match of a key in the offset-patch map.
pub open spec fn lu_find(m: Seq<(Seq<u8>, u64)>, key: Seq<u8>) -> Option<u64>
    decreases m.len(),
{
    if m.len() == 0 {
        Option::None
    } else if m.first().0 == key {
        Option::Some(m.first().1)
    } else {
        lu_find(m.drop_first(), key)
    }
}

/// Appending an entry leaves earlier lookups alone, and resolves its own
/// key if nothing earlier held it.
pub proof fn lemma_lu_find_push(m: Seq<(Seq<u8>, u64)>, e: (Seq<u8>, u64), key: Seq<u8>)
    ensures
        lu_find(m.push(e), key) == if lu_find(m, key) is Some {
            lu_find(m, key)
        } else if e.0 == key {
            Option::Some(e.1)
        } else {
            Option::<u64>::None
        },
    decreases m.len(),
{
    if m.len() == 0 {
        assert(m.push(e).first() == e);
        assert(m.push(e).drop_first() =~= Seq::<(Seq<u8>, u64)>::empty());
        assert(m.push(e).len() == 1);
        if e.0 == key {
            assert(lu_find(m.push(e), key) == Option::Some(e.1));
        } else {
            assert(lu_find(m.push(e), key) == lu_find(
                m.push(e).drop_first(),
                key,
            ));
        }
    } else {
        assert(m.push(e).len() > 0);
        assert(m.push(e).first() == m.first());
        assert(m.push(e).drop_first() =~= m.drop_first().push(e));
        lemma_lu_find_push(m.drop_first(), e, key);
        if m.first().0 == key {
            assert(lu_find(m.push(e), key) == Option::Some(m.first().1));
            assert(lu_find(m, key) == Option::Some(m.first().1));
        } else {
            assert(lu_find(m.push(e), key) == lu_find(m.drop_first().push(e), key));
            assert(lu_find(m, key) == lu_find(m.drop_first(), key));
        }
    }
}

/// The view of the exec offset-patch map.
pub open spec fn lu_view(m: Seq<(Vec<u8>, u64)>) -> Seq<(Seq<u8>, u64)> {
    m.map_values(|e: (Vec<u8>, u64)| (e.0@, e.1))
}

/// The suffix bytes of a `header_rdata_start` patch key.
pub open spec fn hdr_suffix() -> Seq<u8> {
    seq![
        104u8, 101u8, 97u8, 100u8, 101u8, 114u8, 95u8, 114u8, 100u8, 97u8, 116u8, 97u8, 95u8,
        115u8, 116u8, 97u8, 114u8, 116u8,
    ]
}

/// The suffix bytes of a `decl_records_start` patch key.
pub open spec fn decl_suffix() -> Seq<u8> {
    seq![
        100u8, 101u8, 99u8, 108u8, 95u8, 114u8, 101u8, 99u8, 111u8, 114u8, 100u8, 115u8, 95u8,
        115u8, 116u8, 97u8, 114u8, 116u8,
    ]
}

/// The `header_rdata_start` suffix, as bytes.
pub fn hdr_suffix_bytes() -> (r: [u8; 18])
    ensures
        r@ == hdr_suffix(),
{
    let r: [u8; 18] = [104, 101, 97, 100, 101, 114, 95, 114, 100, 97, 116, 97, 95, 115, 116, 97,
        114, 116];
    proof {
        assert(r@ =~= hdr_suffix());
    }
    r
}

/// The `decl_records_start` suffix, as bytes.
pub fn decl_suffix_bytes() -> (r: [u8; 18])
    ensures
        r@ == decl_suffix(),
{
    let r: [u8; 18] = [100, 101, 99, 108, 95, 114, 101, 99, 111, 114, 100, 115, 95, 115, 116, 97,
        114, 116];
    proof {
        assert(r@ =~= decl_suffix());
    }
    r
}

/// The in-progress writer: the file image being built, the three running
/// section lengths, and the transient offset-patch map of one commit.
pub struct Writer {
    pub buf: Vec<u8>,
    pub table_length: u32,
    pub kv_records_length: u64,
    pub table_rows_length: u64,
    pub decl_lu_map: Vec<(Vec<u8>, u64)>,
}

impl Writer {
    /// A writer with an empty image.
    pub fn new() -> (r: Writer)
        ensures
            r.buf@ == Seq::<u8>::empty(),
            r.table_length == 0,
            r.kv_records_length == 0,
            r.table_rows_length == 0,
            lu_view(r.decl_lu_map@) == Seq::<(Seq<u8>, u64)>::empty(),
    {
        let r = Writer {
            buf: Vec::new(),
            table_length: 0,
            kv_records_length: 0,
            table_rows_length: 0,
            decl_lu_map: Vec::new(),
        };
        proof {
            assert(lu_view(r.decl_lu_map@) =~= Seq::<(Seq<u8>, u64)>::empty());
        }
        r
    }

    /// First recorded offset under a patch key.
    pub fn lu_get(&self, key: &[u8]) -> (r: Option<u64>)
        ensures
            r == lu_find(lu_view(self.decl_lu_map@), key@),
    {
        let n = self.decl_lu_map.len();
        proof {
            assert(lu_view(self.decl_lu_map@).skip(0) =~= lu_view(self.decl_lu_map@));
        }
        let mut i: usize = 0;
        while i < n
            invariant
                n == self.decl_lu_map@.len(),
                i <= n,
                lu_find(lu_view(self.decl_lu_map@), key@) == lu_find(
                    lu_view(self.decl_lu_map@).skip(i as int),
                    key@,
                ),
            decreases n - i,
        {
            let e = &self.decl_lu_map[i];
            proof {
                let m = lu_view(self.decl_lu_map@);
                assert(m.skip(i as int).len() > 0);
                assert(m.skip(i as int).first() == (self.decl_lu_map@[i as int].0@,
                    self.decl_lu_map@[i as int].1));
                assert(m.skip(i as int).drop_first() =~= m.skip(i + 1));
            }
            if crate::slice::bytes_eq(e.0.as_slice(), key) {
                return Some(e.1);
            }
            i += 1;
        }
        proof {
            assert(lu_view(self.decl_lu_map@).skip(n as int).len() == 0);
        }
        None
    }

    /// Record a patch offset under a key.
    pub fn lu_insert(&mut self, key: Vec<u8>, pos: u64)
        ensures
            final(self).buf@ == old(self).buf@,
            final(self).table_length == old(self).table_length,
            final(self).kv_records_length == old(self).kv_records_length,
            final(self).table_rows_length == old(self).table_rows_length,
            lu_view(final(self).decl_lu_map@) == lu_view(old(self).decl_lu_map@).push(
                (key@, pos),
            ),
    {
        self.decl_lu_map.push((key, pos));
        proof {
            assert(lu_view(self.decl_lu_map@) =~= lu_view(old(self).decl_lu_map@).push(
                (self.decl_lu_map@.last().0@, self.decl_lu_map@.last().1),
            ));
        }
    }

    /// Write the header: append it to an empty image, or patch it over
    /// the placeholder header of a grown one.
    pub fn write_header(&mut self)
        requires
            old(self).buf@.len() == 0 || old(self).buf@.len() >= 20,
        ensures
            final(self).buf@ == enc_header(
                old(self).table_length,
                old(self).kv_records_length,
                old(self).table_rows_length,
            ) + (if old(self).buf@.len() == 0 {
                Seq::<u8>::empty()
            } else {
                old(self).buf@.subrange(20, old(self).buf@.len() as int)
            }),
            final(self).table_length == old(self).table_length,
            final(self).kv_records_length == old(self).kv_records_length,
            final(self).table_rows_length == old(self).table_rows_length,
            lu_view(final(self).decl_lu_map@) == lu_view(old(self).decl_lu_map@),
    {
        let mut h: Vec<u8> = Vec::new();
        push_u32(&mut h, self.table_length);
        push_u64(&mut h, self.kv_records_length);
        push_u64(&mut h, self.table_rows_length);
        proof {
            vstd::bytes::lemma_auto_spec_u32_to_from_le_bytes();
            vstd::bytes::lemma_auto_spec_u64_to_from_le_bytes();
            assert(h@ =~= enc_header(
                self.table_length,
                self.kv_records_length,
                self.table_rows_length,
            ));
        }
        if self.buf.len() == 0 {
            push_bytes(&mut self.buf, h.as_slice());
            proof {
                assert(self.buf@ =~= h@);
            }
        } else {
            patch_bytes(&mut self.buf, 0, h.as_slice());
            proof {
                assert(self.buf@ =~= h@ + old(self).buf@.subrange(
                    20,
                    old(self).buf@.len() as int,
                ));
            }
        }
    }
}


impl Writer {
    /// Write one table-definition record: magic, lengths, name, fields,
    /// then three zero placeholder row fields, recording where they lie.
    pub fn write_table(&mut self, name: &[u8], fields: &FieldMap) -> (len: u32)
        requires
            1 <= name@.len() <= 255,
            enc_field_map(fields@).len() <= 0xFFFF,
            old(self).buf@.len() + 30 + name@.len() + enc_field_map(fields@).len()
                <= usize::MAX,
        ensures
            final(self).buf@ == old(self).buf@ + enc_def(
                TableDefV {
                    name: name@,
                    fields: enc_field_map(fields@),
                    rows_start: 0u64,
                    rows_len: 0u64,
                    rows_count: 0u64,
                },
            ),
            len == 30 + name@.len() + enc_field_map(fields@).len(),
            final(self).table_length == old(self).table_length,
            final(self).kv_records_length == old(self).kv_records_length,
            final(self).table_rows_length == old(self).table_rows_length,
            lu_view(final(self).decl_lu_map@) == lu_view(old(self).decl_lu_map@).push(
                (name@ + hdr_suffix(), (old(self).buf@.len() + 6 + name@.len()
                    + enc_field_map(fields@).len()) as u64),
            ),
    {
        let ser_fields = encode_field_map(fields);
        let start = self.buf.len();
        push_bytes(&mut self.buf, table_ident().as_slice());
        self.buf.push(name.len() as u8);
        push_u16(&mut self.buf, ser_fields.len() as u16);
        push_bytes(&mut self.buf, name);
        push_bytes(&mut self.buf, ser_fields.as_slice());
        let patch_pos = self.buf.len();
        let mut key: Vec<u8> = vstd::slice::slice_to_vec(name);
        let suffix = hdr_suffix_bytes();
        push_bytes(&mut key, suffix.as_slice());
        proof {
            vstd::bytes::lemma_auto_spec_u16_to_from_le_bytes();
            assert(key@ =~= name@ + hdr_suffix());
            assert(patch_pos == old(self).buf@.len() + 6 + name@.len() + enc_field_map(
                fields@,
            ).len());
        }
        self.lu_insert(key, patch_pos as u64);
        push_u64(&mut self.buf, 0);
        push_u64(&mut self.buf, 0);
        push_u64(&mut self.buf, 0);
        proof {
            let d = TableDefV {
                name: name@,
                fields: enc_field_map(fields@),
                rows_start: 0u64,
                rows_len: 0u64,
                rows_count: 0u64,
            };
            vstd::bytes::lemma_auto_spec_u64_to_from_le_bytes();
            assert(self.buf@ =~= old(self).buf@ + enc_def(d));
        }
        (30 + name.len() + ser_fields.len()) as u32
    }

    /// Write one key-value record: magic, the three lengths, then the
    /// key, type-tag and value bytes.
    pub fn write_kv_record(&mut self, key: &BvString, value: &BvObject) -> (len: u64)
        requires
            1 <= key@.len() <= 255,
            1 <= value@.type_tag.len() <= 255,
            value@.raw.len() <= 0xFFFF_FFFF,
            old(self).buf@.len() + 9 + key@.len() + value@.type_tag.len() + value@.raw.len()
                <= usize::MAX,
        ensures
            final(self).buf@ == old(self).buf@ + enc_kv_entry((key@, value@)),
            len == kv_entry_len((key@, value@)),
            final(self).table_length == old(self).table_length,
            final(self).kv_records_length == old(self).kv_records_length,
            final(self).table_rows_length == old(self).table_rows_length,
            lu_view(final(self).decl_lu_map@) == lu_view(old(self).decl_lu_map@),
    {
        push_bytes(&mut self.buf, kv_ident().as_slice());
        self.buf.push(key.len() as u8);
        self.buf.push(value.type_tag().len() as u8);
        push_u32(&mut self.buf, value.raw().len() as u32);
        push_bytes(&mut self.buf, key.as_slice());
        push_bytes(&mut self.buf, value.type_tag().as_slice());
        push_bytes(&mut self.buf, value.raw().as_slice());
        proof {
            assert(self.buf@ =~= old(self).buf@ + enc_kv_entry((key@, value@)));
        }
        (9 + key.len() + value.type_tag().len() + value.raw().len()) as u64
    }

    /// Write the rows-section magic that opens one table's row block.
    pub fn write_decl_header(&mut self) -> (len: u64)
        requires
            old(self).buf@.len() + 3 <= usize::MAX,
        ensures
            final(self).buf@ == old(self).buf@ + rows_ident_spec(),
            len == 3,
            final(self).table_length == old(self).table_length,
            final(self).kv_records_length == old(self).kv_records_length,
            final(self).table_rows_length == old(self).table_rows_length,
            lu_view(final(self).decl_lu_map@) == lu_view(old(self).decl_lu_map@),
    {
        push_bytes(&mut self.buf, rows_ident().as_slice());
        3
    }

    /// Write one row record: magic, the row length, and the serialized
    /// row bytes.
    pub fn write_decl_record(&mut self, row: &TableRow) -> (len: u64)
        requires
            enc_row_body(row@).len() <= 0xFFFF_FFFF,
            old(self).buf@.len() + 7 + enc_row_body(row@).len() <= usize::MAX,
        ensures
            final(self).buf@ == old(self).buf@ + enc_row(enc_row_body(row@)),
            len == row_len(enc_row_body(row@)),
            final(self).table_length == old(self).table_length,
            final(self).kv_records_length == old(self).kv_records_length,
            final(self).table_rows_length == old(self).table_rows_length,
            lu_view(final(self).decl_lu_map@) == lu_view(old(self).decl_lu_map@),
    {
        let ser = encode_row_body(row);
        push_bytes(&mut self.buf, record_ident().as_slice());
        push_u32(&mut self.buf, ser.len() as u32);
        push_bytes(&mut self.buf, ser.as_slice());
        proof {
            assert(self.buf@ =~= old(self).buf@ + enc_row(enc_row_body(row@)));
        }
        (7 + ser.len()) as u64
    }

    /// Back-patch a table's three placeholder row fields: look up the
    /// placeholder position and the recorded row-block start, and
    /// overwrite the placeholders with the start, total length and count.
    pub fn write_table_rows_data(&mut self, name: &[u8], total_len: u64, records_count: u64)
        -> (ok: bool)
        ensures
            ({
                let m = lu_view(old(self).decl_lu_map@);
                let ph = lu_find(m, name@ + hdr_suffix());
                let pd = lu_find(m, name@ + decl_suffix());
                &&& lu_view(final(self).decl_lu_map@) == m
                &&& final(self).table_length == old(self).table_length
                &&& final(self).kv_records_length == old(self).kv_records_length
                &&& final(self).table_rows_length == old(self).table_rows_length
                &&& if ph is Some && pd is Some && ph->Some_0 + 24 <= old(self).buf@.len() {
                    ok && final(self).buf@ == old(self).buf@.subrange(0, ph->Some_0 as int) + (
                    spec_u64_to_le_bytes(pd->Some_0) + spec_u64_to_le_bytes(total_len)
                        + spec_u64_to_le_bytes(records_count)) + old(self).buf@.subrange(
                        ph->Some_0 + 24,
                        old(self).buf@.len() as int,
                    )
                } else {
                    !ok && final(self).buf@ == old(self).buf@
                }
            }),
    {
        let hsuf = hdr_suffix_bytes();
        let dsuf = decl_suffix_bytes();
        let mut hkey: Vec<u8> = vstd::slice::slice_to_vec(name);
        push_bytes(&mut hkey, hsuf.as_slice());
        let mut dkey: Vec<u8> = vstd::slice::slice_to_vec(name);
        push_bytes(&mut dkey, dsuf.as_slice());
        let ph = self.lu_get(hkey.as_slice());
        let pd = self.lu_get(dkey.as_slice());
        match (ph, pd) {
            (Some(p), Some(d)) => {
                if !(p as u128 + 24u128 <= self.buf.len() as u128) {
                    return false;
                }
                let mut patch: Vec<u8> = Vec::new();
                push_u64(&mut patch, d);
                push_u64(&mut patch, total_len);
                push_u64(&mut patch, records_count);
                proof {
                    vstd::bytes::lemma_auto_spec_u64_to_from_le_bytes();
                    assert(patch@ =~= spec_u64_to_le_bytes(d) + spec_u64_to_le_bytes(total_len)
                        + spec_u64_to_le_bytes(records_count));
                    assert(patch@.len() == 24);
                }
                patch_bytes(&mut self.buf, p as usize, patch.as_slice());
                true
            },
            _ => false,
        }
    }
}


/// The views of a list of rows.
pub open spec fn rows_view(rs: Seq<TableRow>) -> Seq<RowV> {
    rs.map_values(|r: TableRow| r@)
}

/// The view of a store's table side: schema list plus row lists, aligned
/// by position.
pub open spec fn tables_view(
    maps: Seq<(BvString, FieldMap)>,
    rowlists: Seq<(BvString, Vec<TableRow>)>,
) -> Seq<TableV> {
    Seq::new(
        maps.len(),
        |i: int|
            TableV { name: maps[i].0@, fields: maps[i].1@, rows: rows_view(rowlists[i].1@) },
    )
}

/// Offsets agree between any two definition lists of equal record sizes.
proof fn lemma_def_offset_congruence(ds1: Seq<TableDefV>, ds2: Seq<TableDefV>, j: int)
    requires
        ds1.len() == ds2.len(),
        forall|i: int| 0 <= i < ds1.len() ==> def_len(#[trigger] ds1[i]) == def_len(ds2[i]),
        0 <= j <= ds1.len(),
    ensures
        def_offset(ds1, j) == def_offset(ds2, j),
    decreases j,
{
    if j > 0 {
        lemma_def_offset_congruence(ds1, ds2, j - 1);
    }
}

/// Section lengths are never negative.
proof fn lemma_sections_nonneg(ts: Seq<TableV>, k: int)
    requires
        0 <= k <= ts.len(),
    ensures
        sections_len(ts, k) >= 0,
        enc_sections(ts, k).len() == sections_len(ts, k),
    decreases k,
{
    if k > 0 {
        lemma_sections_nonneg(ts, k - 1);
        let t = ts[k - 1];
        if t.rows.len() > 0 {
            lemma_rows_len(table_row_bytes(t), 0);
            assert(table_row_bytes(t).skip(0) =~= table_row_bytes(t));
        }
    }
}

/// Equal-suffix patch keys come from equal names.
proof fn lemma_key_same_suffix(a: Seq<u8>, b: Seq<u8>, s: Seq<u8>)
    requires
        a + s == b + s,
    ensures
        a == b,
{
    assert((a + s).len() == a.len() + s.len());
    assert((b + s).len() == b.len() + s.len());
    assert(a.len() == b.len());
    assert forall|i: int| 0 <= i < a.len() implies a[i] == b[i] by {
        assert((a + s)[i] == a[i]);
        assert((b + s)[i] == b[i]);
    }
    assert(a =~= b);
}

/// A `header_rdata_start` key never equals a `decl_records_start` key.
proof fn lemma_key_disjoint(a: Seq<u8>, b: Seq<u8>)
    ensures
        a + hdr_suffix() != b + decl_suffix(),
{
    if a + hdr_suffix() == b + decl_suffix() {
        assert((a + hdr_suffix()).len() == a.len() + 18);
        assert((b + decl_suffix()).len() == b.len() + 18);
        assert(a.len() == b.len());
        assert((a + hdr_suffix())[a.len() as int] == 104u8);
        assert((b + decl_suffix())[b.len() as int] == 100u8);
    }
}

/// The placeholder position of table `j`'s row fields in the file.
pub open spec fn hdr_pos(ts: Seq<TableV>, j: int) -> int {
    20 + def_offset(final_defs(ts, 0), j) + 6 + ts[j].name.len() + enc_field_map(
        ts[j].fields,
    ).len()
}

/// Serialize a whole store to its single file image, placeholders first,
/// row fields back-patched, header rewritten last.
#[verifier::rlimit(100)]
pub fn write_file(
    maps: &Vec<(BvString, FieldMap)>,
    rowlists: &Vec<(BvString, Vec<TableRow>)>,
    kv: &Vec<(BvString, BvObject)>,
) -> (r: Vec<u8>)
    requires
        maps@.len() == rowlists@.len(),
        forall|i: int| 0 <= i < maps@.len() ==> (#[trigger] maps@[i]).0@ == rowlists@[i].0@,
        store_valid(
            tables_view(maps@, rowlists@),
            crate::storage::pairs_view(kv@),
        ),
    ensures
        r@ == enc_file(tables_view(maps@, rowlists@), crate::storage::pairs_view(kv@)),
{
    let ghost ts = tables_view(maps@, rowlists@);
    let ghost kvv = crate::storage::pairs_view(kv@);
    let ghost base = 20 + defs_total(ts) + kv_total(kvv);
    let ghost fdefs = final_defs(ts, base);
    let ghost zdefs = part_defs(ts, base, 0);
    proof {
        assert(fdefs.len() == ts.len());
        assert(zdefs.len() == ts.len());
        assert forall|i: int| 0 <= i < ts.len() implies def_len(#[trigger] zdefs[i]) == def_len(
            fdefs[i],
        ) by {}
        lemma_kv_region_len(kvv, 0);
        lemma_sections_nonneg(ts, ts.len() as int);
        lemma_def_region_len(fdefs, 0);
        assert(fdefs.skip(0) =~= fdefs);
        assert forall|j: int| 0 <= j <= ts.len() implies def_offset(zdefs, j) == def_offset(
            final_defs(ts, 0),
            j,
        ) && def_offset(fdefs, j) == def_offset(final_defs(ts, 0), j) by {
            lemma_def_offset_congruence(zdefs, final_defs(ts, 0), j);
            lemma_def_offset_congruence(fdefs, final_defs(ts, 0), j);
        }
    }
    let mut w = Writer::new();
    w.write_header();
    proof {
        vstd::bytes::lemma_auto_spec_u32_to_from_le_bytes();
        vstd::bytes::lemma_auto_spec_u64_to_from_le_bytes();
        assert(w.buf@ == enc_header(0u32, 0u64, 0u64));
        assert(w.buf@.len() == 20);
        assert(enc_def_region(zdefs.take(0)) =~= Seq::<u8>::empty());
        assert(w.buf@ =~= enc_header(0u32, 0u64, 0u64) + enc_def_region(zdefs.take(0)));
    }
    let nt = maps.len();
    let mut i: usize = 0;
    while i < nt
        invariant
            nt == maps@.len(),
            maps@.len() == rowlists@.len(),
            i <= nt,
            ts == tables_view(maps@, rowlists@),
            kvv == crate::storage::pairs_view(kv@),
            base == 20 + defs_total(ts) + kv_total(kvv),
            fdefs == final_defs(ts, base),
            zdefs == part_defs(ts, base, 0),
            store_valid(ts, kvv),
            forall|j: int| 0 <= j <= ts.len() ==> def_offset(zdefs, j) == def_offset(
                final_defs(ts, 0),
                j,
            ),
            defs_total(ts) == def_offset(zdefs, ts.len() as int),
            kv_total(kvv) >= 0,
            sections_len(ts, ts.len() as int) >= 0,
            w.buf@ == enc_header(0u32, 0u64, 0u64) + enc_def_region(zdefs.take(i as int)),
            w.buf@.len() == 20 + def_offset(zdefs, i as int),
            w.table_length == def_offset(zdefs, i as int),
            w.kv_records_length == 0,
            w.table_rows_length == 0,
            lu_view(w.decl_lu_map@).len() == i,
            forall|j: int|
                0 <= j < i ==> #[trigger] lu_view(w.decl_lu_map@)[j] == (ts[j].name
                    + hdr_suffix(), hdr_pos(ts, j) as u64),
            forall|j: int|
                0 <= j < i ==> lu_find(lu_view(w.decl_lu_map@), ts[j].name + hdr_suffix())
                    == Option::Some((hdr_pos(ts, j)) as u64),
            forall|j: int|
                i <= j < ts.len() ==> lu_find(
                    lu_view(w.decl_lu_map@),
                    #[trigger] ts[j].name + hdr_suffix(),
                ) is None,
            forall|j: int|
                0 <= j < ts.len() ==> lu_find(
                    lu_view(w.decl_lu_map@),
                    #[trigger] ts[j].name + decl_suffix(),
                ) is None,
        decreases nt - i,
    {
        proof {
            assert(table_valid(ts[i as int]));
            assert(ts[i as int].name == maps@[i as int].0@);
            assert(ts[i as int].fields == maps@[i as int].1@);
            lemma_def_region_len(zdefs, i as int);
            lemma_def_region_len(zdefs, i + 1);
            assert(def_offset(zdefs, i + 1) == def_offset(zdefs, i as int) + def_len(
                zdefs[i as int],
            ));
            lemma_def_region_len(zdefs, ts.len() as int);
            lemma_def_offset_monotone(zdefs, i + 1, ts.len() as int);
        }
        let e = &maps[i];
        let ghost pre_lu = lu_view(w.decl_lu_map@);
        let ghost pre_buf = w.buf@;
        let len = w.write_table(e.0.as_slice(), &e.1);
        w.table_length = w.table_length + len;
        proof {
            vstd::bytes::lemma_auto_spec_u16_to_from_le_bytes();
            vstd::bytes::lemma_auto_spec_u64_to_from_le_bytes();
            assert(enc_def(zdefs[i as int]).len() == def_len(zdefs[i as int]));
            lemma_enc_def_region_snoc(zdefs.take(i + 1));
            assert(zdefs.take(i + 1).drop_last() =~= zdefs.take(i as int));
            assert(zdefs.take(i + 1).last() == zdefs[i as int]);
            assert(enc_def(zdefs[i as int]) == enc_def(
                TableDefV {
                    name: maps@[i as int].0@,
                    fields: enc_field_map(maps@[i as int].1@),
                    rows_start: 0u64,
                    rows_len: 0u64,
                    rows_count: 0u64,
                },
            ));
            assert(w.buf@ =~= enc_header(0u32, 0u64, 0u64) + enc_def_region(
                zdefs.take(i + 1),
            ));
            let newe = (ts[i as int].name + hdr_suffix(), hdr_pos(ts, i as int) as u64);
            assert(lu_view(w.decl_lu_map@) == pre_lu.push(newe));
            assert forall|j: int|
                0 <= j < ts.len() implies #[trigger] lu_find(
                lu_view(w.decl_lu_map@),
                ts[j].name + hdr_suffix(),
            ) == (if j < i + 1 {
                Option::Some(hdr_pos(ts, j) as u64)
            } else {
                Option::<u64>::None
            }) by {
                lemma_lu_find_push(pre_lu, newe, ts[j].name + hdr_suffix());
                if j != i {
                    if ts[j].name + hdr_suffix() == ts[i as int].name + hdr_suffix() {
                        lemma_key_same_suffix(ts[j].name, ts[i as int].name, hdr_suffix());
                        assert(false);
                    }
                }
            }
            assert forall|j: int|
                0 <= j < ts.len() implies #[trigger] lu_find(
                lu_view(w.decl_lu_map@),
                ts[j].name + decl_suffix(),
            ) is None by {
                lemma_lu_find_push(pre_lu, newe, ts[j].name + decl_suffix());
                lemma_key_disjoint(ts[i as int].name, ts[j].name);
            }
        }
        i += 1;
    }
    proof {
        assert(zdefs.take(ts.len() as int) =~= zdefs);
        assert(w.buf@ == enc_header(0u32, 0u64, 0u64) + enc_def_region(zdefs));
        assert(enc_kv_region(kvv.take(0)) =~= Seq::<u8>::empty());
    }
    let nk = kv.len();
    let mut i: usize = 0;
    while i < nk
        invariant
            nk == kv@.len(),
            i <= nk,
            ts == tables_view(maps@, rowlists@),
            kvv == crate::storage::pairs_view(kv@),
            base == 20 + defs_total(ts) + kv_total(kvv),
            zdefs == part_defs(ts, base, 0),
            store_valid(ts, kvv),
            defs_total(ts) == def_offset(zdefs, ts.len() as int),
            sections_len(ts, ts.len() as int) >= 0,
            w.buf@ == enc_header(0u32, 0u64, 0u64) + enc_def_region(zdefs) + enc_kv_region(
                kvv.take(i as int),
            ),
            w.buf@.len() == 20 + defs_total(ts) + kv_offset(kvv, i as int),
            w.table_length == defs_total(ts),
            w.kv_records_length == kv_offset(kvv, i as int),
            w.table_rows_length == 0,
            forall|j: int|
                0 <= j < ts.len() ==> lu_find(
                    lu_view(w.decl_lu_map@),
                    #[trigger] ts[j].name + hdr_suffix(),
                ) == Option::Some((hdr_pos(ts, j)) as u64),
            forall|j: int|
                0 <= j < ts.len() ==> lu_find(
                    lu_view(w.decl_lu_map@),
                    #[trigger] ts[j].name + decl_suffix(),
                ) is None,
        decreases nk - i,
    {
        proof {
            assert(crate::format::kv_entry_valid(kvv[i as int]));
            assert(kvv[i as int] == (kv@[i as int].0@, kv@[i as int].1@));
            lemma_kv_region_len(kvv, i as int);
            lemma_kv_region_len(kvv, i + 1);
            assert(kv_offset(kvv, i + 1) == kv_offset(kvv, i as int) + kv_entry_len(
                kvv[i as int],
            ));
            lemma_kv_offset_monotone(kvv, i + 1, kvv.len() as int);
        }
        let e = &kv[i];
        let len = w.write_kv_record(&e.0, &e.1);
        w.kv_records_length = w.kv_records_length + len;
        proof {
            vstd::bytes::lemma_auto_spec_u32_to_from_le_bytes();
            assert(enc_kv_entry(kvv[i as int]).len() == kv_entry_len(kvv[i as int]));
            lemma_enc_kv_region_snoc(kvv.take(i + 1));
            assert(kvv.take(i + 1).drop_last() =~= kvv.take(i as int));
            assert(kvv.take(i + 1).last() == kvv[i as int]);
            assert(w.buf@ =~= enc_header(0u32, 0u64, 0u64) + enc_def_region(zdefs)
                + enc_kv_region(kvv.take(i + 1)));
        }
        i += 1;
    }
    proof {
        assert(kvv.take(kvv.len() as int) =~= kvv);
        assert(enc_sections(ts, 0) =~= Seq::<u8>::empty());
        assert(w.buf@ =~= enc_header(0u32, 0u64, 0u64) + enc_def_region(part_defs(
            ts,
            base,
            0,
        )) + enc_kv_region(kvv) + enc_sections(ts, 0));
    }
    let mut i: usize = 0;
    while i < nt
        invariant
            nt == maps@.len(),
            maps@.len() == rowlists@.len(),
            forall|j: int|
                0 <= j < maps@.len() ==> (#[trigger] maps@[j]).0@ == rowlists@[j].0@,
            i <= nt,
            ts == tables_view(maps@, rowlists@),
            kvv == crate::storage::pairs_view(kv@),
            base == 20 + defs_total(ts) + kv_total(kvv),
            store_valid(ts, kvv),
            kv_total(kvv) >= 0,
            w.buf@ == enc_header(0u32, 0u64, 0u64) + enc_def_region(part_defs(ts, base, i as int))
                + enc_kv_region(kvv) + enc_sections(ts, i as int),
            w.buf@.len() == base + sections_len(ts, i as int),
            w.table_length == defs_total(ts),
            w.kv_records_length == kv_total(kvv),
            w.table_rows_length == sections_len(ts, i as int),
            forall|j: int|
                0 <= j < ts.len() ==> lu_find(
                    lu_view(w.decl_lu_map@),
                    #[trigger] ts[j].name + hdr_suffix(),
                ) == Option::Some((hdr_pos(ts, j)) as u64),
            forall|j: int|
                i <= j < ts.len() ==> lu_find(
                    lu_view(w.decl_lu_map@),
                    #[trigger] ts[j].name + decl_suffix(),
                ) is None,
        decreases nt - i,
    {
        proof {
            assert(ts[i as int].rows == rows_view(rowlists@[i as int].1@));
            assert(ts[i as int].name == maps@[i as int].0@);
        }
        let rl = &rowlists[i];
        let row_count = rl.1.len();
        if row_count > 0 {
            proof {
                assert(rl.0@ == ts[i as int].name);
            }
            write_table_block(&mut w, &rl.0, &rl.1, Ghost(ts), Ghost(kvv), Ghost(i as int));
        } else {
            proof {
                assert(ts[i as int].rows == rows_view(rowlists@[i as int].1@));
                assert(ts[i as int].rows.len() == 0);
                lemma_skip_empty_table(ts, kvv, i as int);
            }
        }
        i += 1;
    }
    proof {
        assert(part_defs(ts, base, ts.len() as int) =~= fdefs);
        lemma_sections_nonneg(ts, ts.len() as int);
    }
    w.write_header();
    proof {
        assert(w.buf@ =~= enc_file(ts, kvv));
    }
    w.buf
}

/// Offsets grow along a definition region.
proof fn lemma_def_offset_monotone(ds: Seq<TableDefV>, a: int, b: int)
    requires
        0 <= a <= b <= ds.len(),
    ensures
        def_offset(ds, a) <= def_offset(ds, b),
    decreases b - a,
{
    if a < b {
        lemma_def_offset_monotone(ds, a, b - 1);
        lemma_def_region_len(ds, b);
        lemma_def_region_len(ds, b - 1);
        assert(def_offset(ds, b) == def_offset(ds, b - 1) + def_len(ds[b - 1]));
    }
}

/// Offsets grow along a key-value region.
proof fn lemma_kv_offset_monotone(es: Seq<(Seq<u8>, ObjView)>, a: int, b: int)
    requires
        0 <= a <= b <= es.len(),
    ensures
        kv_offset(es, a) <= kv_offset(es, b),
    decreases b - a,
{
    if a < b {
        lemma_kv_offset_monotone(es, a, b - 1);
        assert(kv_offset(es, b) == kv_offset(es, b - 1) + kv_entry_len(es[b - 1]));
    }
}

/// Offsets grow along concatenated row records.
proof fn lemma_row_offset_monotone(rs: Seq<Seq<u8>>, a: int, b: int)
    requires
        0 <= a <= b <= rs.len(),
    ensures
        row_offset(rs, a) <= row_offset(rs, b),
    decreases b - a,
{
    if a < b {
        lemma_row_offset_monotone(rs, a, b - 1);
        assert(row_offset(rs, b) == row_offset(rs, b - 1) + row_len(rs[b - 1]));
    }
}

/// Later sections cost no negative space.
proof fn lemma_sections_nonneg_range(ts: Seq<TableV>, a: int, b: int)
    requires
        0 <= a <= b <= ts.len(),
    ensures
        sections_len(ts, a) <= sections_len(ts, b),
    decreases b - a,
{
    if a < b {
        lemma_sections_nonneg_range(ts, a, b - 1);
        let t = ts[b - 1];
        if t.rows.len() > 0 {
            lemma_rows_len(table_row_bytes(t), 0);
            assert(table_row_bytes(t).skip(0) =~= table_row_bytes(t));
        }
    }
}

/// Back-patch one non-empty table's definition record after its rows
/// section has been appended.
#[verifier::rlimit(100)]
fn patch_table_def(
    w: &mut Writer,
    name: &BvString,
    section_bytes: u64,
    row_count: u64,
    Ghost(ts): Ghost<Seq<TableV>>,
    Ghost(kvv): Ghost<Seq<(Seq<u8>, ObjView)>>,
    Ghost(i): Ghost<int>,
)
    requires
        0 <= i < ts.len(),
        store_valid(ts, kvv),
        name@ == ts[i].name,
        ts[i].rows.len() > 0,
        section_bytes == section_len(ts[i]),
        row_count == ts[i].rows.len(),
        old(w).buf@ == enc_header(0u32, 0u64, 0u64) + enc_def_region(
            part_defs(ts, 20 + defs_total(ts) + kv_total(kvv), i),
        ) + enc_kv_region(kvv) + enc_sections(ts, i) + enc_section(ts[i]),
        old(w).buf@.len() == 20 + defs_total(ts) + kv_total(kvv) + sections_len(ts, i + 1),
        lu_find(lu_view(old(w).decl_lu_map@), ts[i].name + hdr_suffix()) == Option::Some(
            (hdr_pos(ts, i)) as u64,
        ),
        lu_find(lu_view(old(w).decl_lu_map@), ts[i].name + decl_suffix()) == Option::Some(
            (20 + defs_total(ts) + kv_total(kvv) + sections_len(ts, i)) as u64,
        ),
    ensures
        final(w).buf@ == enc_header(0u32, 0u64, 0u64) + enc_def_region(
            part_defs(ts, 20 + defs_total(ts) + kv_total(kvv), i + 1),
        ) + enc_kv_region(kvv) + enc_sections(ts, i + 1),
        final(w).buf@.len() == 20 + defs_total(ts) + kv_total(kvv) + sections_len(ts, i + 1),
        final(w).table_rows_length == old(w).table_rows_length,
        final(w).table_length == old(w).table_length,
        final(w).kv_records_length == old(w).kv_records_length,
        lu_view(final(w).decl_lu_map@) == lu_view(old(w).decl_lu_map@),
{
    let ghost base = 20 + defs_total(ts) + kv_total(kvv);
    proof {
        lemma_hdr_pos_in_defs(ts, kvv, base, i);
        lemma_kv_region_len(kvv, 0);
        lemma_sections_nonneg(ts, i);
        lemma_sections_nonneg(ts, i + 1);
        lemma_rows_len(table_row_bytes(ts[i]), 0);
        assert(table_row_bytes(ts[i]).skip(0) =~= table_row_bytes(ts[i]));
        assert(hdr_pos(ts, i) + 24 <= old(w).buf@.len());
    }
    let ok = w.write_table_rows_data(name.as_slice(), section_bytes, row_count);
    proof {
        vstd::bytes::lemma_auto_spec_u64_to_from_le_bytes();
        assert(ok);
        assert(w.buf@.len() == old(w).buf@.len());
        lemma_finish_table(ts, kvv, base, i, w.buf@);
        lemma_sections_nonneg(ts, i + 1);
    }
}

/// The placeholder of table `i` lies wholly inside the definition
/// section.
proof fn lemma_hdr_pos_in_defs(ts: Seq<TableV>, kvv: Seq<(Seq<u8>, ObjView)>, base: int, i: int)
    requires
        0 <= i < ts.len(),
        store_valid(ts, kvv),
        base == 20 + defs_total(ts) + kv_total(kvv),
    ensures
        20 <= hdr_pos(ts, i),
        hdr_pos(ts, i) + 24 <= 20 + defs_total(ts),
{
    let pd = part_defs(ts, base, i);
    vstd::bytes::lemma_auto_spec_u16_to_from_le_bytes();
    vstd::bytes::lemma_auto_spec_u64_to_from_le_bytes();
    assert forall|j: int| 0 <= j <= ts.len() implies def_offset(pd, j) == def_offset(
        final_defs(ts, 0),
        j,
    ) by {
        lemma_def_offset_congruence(pd, final_defs(ts, 0), j);
    }
    crate::format::lemma_def_record_at(pd, i);
    lemma_def_region_len(pd, 0);
    assert(pd.skip(0) =~= pd);
    assert(enc_def_region(pd).len() == def_offset(pd, ts.len() as int));
    assert(def_offset(pd, ts.len() as int) == defs_total(ts));
    assert(def_offset(pd, i) + def_len(pd[i]) <= enc_def_region(pd).len());
    assert(def_len(pd[i]) == 30 + ts[i].name.len() + enc_field_map(ts[i].fields).len());
    lemma_def_offset_monotone(pd, 0, i);
}

/// After a table's rows are written and its placeholders patched, the
/// image is exactly the partially-patched encoding one table further on.
#[verifier::rlimit(100)]
proof fn lemma_finish_table(
    ts: Seq<TableV>,
    kvv: Seq<(Seq<u8>, ObjView)>,
    base: int,
    i: int,
    newbuf: Seq<u8>,
)
    requires
        0 <= i < ts.len(),
        ts[i].rows.len() > 0,
        store_valid(ts, kvv),
        base == 20 + defs_total(ts) + kv_total(kvv),
        ({
            let oldbuf = enc_header(0u32, 0u64, 0u64) + enc_def_region(part_defs(ts, base, i))
                + enc_kv_region(kvv) + enc_sections(ts, i) + enc_section(ts[i]);
            let p = hdr_pos(ts, i);
            p + 24 <= oldbuf.len() && newbuf == oldbuf.subrange(0, p) + (spec_u64_to_le_bytes(
                (base + sections_len(ts, i)) as u64,
            ) + spec_u64_to_le_bytes(section_len(ts[i]) as u64) + spec_u64_to_le_bytes(
                ts[i].rows.len() as u64,
            )) + oldbuf.subrange(p + 24, oldbuf.len() as int)
        }),
    ensures
        newbuf == enc_header(0u32, 0u64, 0u64) + enc_def_region(part_defs(ts, base, i + 1))
            + enc_kv_region(kvv) + enc_sections(ts, i + 1),
{
    let pd = part_defs(ts, base, i);
    let p = hdr_pos(ts, i);
    let oldbuf = enc_header(0u32, 0u64, 0u64) + enc_def_region(pd) + enc_kv_region(kvv)
        + enc_sections(ts, i) + enc_section(ts[i]);
    vstd::bytes::lemma_auto_spec_u32_to_from_le_bytes();
    vstd::bytes::lemma_auto_spec_u64_to_from_le_bytes();
    assert forall|j: int| 0 <= j <= ts.len() implies def_offset(pd, j) == def_offset(
        final_defs(ts, 0),
        j,
    ) by {
        lemma_def_offset_congruence(pd, final_defs(ts, 0), j);
    }
    crate::format::lemma_def_record_at(pd, i);
    lemma_def_region_len(pd, 0);
    assert(pd.skip(0) =~= pd);
    assert(enc_def_region(pd).len() == def_offset(pd, ts.len() as int));
    assert(def_offset(pd, ts.len() as int) == defs_total(ts));
    let d2 = final_def(ts, base, i);
    lemma_def_region_patch(pd, i, d2);
    assert(pd.update(i, d2) =~= part_defs(ts, base, i + 1));
    let patch = spec_u64_to_le_bytes(d2.rows_start) + spec_u64_to_le_bytes(d2.rows_len)
        + spec_u64_to_le_bytes(d2.rows_count);
    assert(d2.rows_start == (base + sections_len(ts, i)) as u64);
    assert(d2.rows_len == section_len(ts[i]) as u64);
    assert(d2.rows_count == ts[i].rows.len() as u64);
    let dv = enc_def_region(pd);
    let pp = p - 20;
    assert(pp == def_offset(pd, i) + 6 + pd[i].name.len() + pd[i].fields.len());
    assert(enc_def_region(part_defs(ts, base, i + 1)) == dv.subrange(0, pp) + patch
        + dv.subrange(pp + 24, dv.len() as int));
    assert(oldbuf.subrange(0, p) =~= enc_header(0u32, 0u64, 0u64) + dv.subrange(0, pp));
    assert(oldbuf.subrange(p + 24, oldbuf.len() as int) =~= dv.subrange(pp + 24, dv.len() as int)
        + enc_kv_region(kvv) + enc_sections(ts, i) + enc_section(ts[i]));
    assert(enc_sections(ts, i + 1) == enc_sections(ts, i) + enc_section(ts[i]));
    assert(newbuf =~= enc_header(0u32, 0u64, 0u64) + enc_def_region(part_defs(ts, base, i + 1))
        + enc_kv_region(kvv) + enc_sections(ts, i + 1));
}


/// Write one non-empty table's row block and back-patch its definition.
#[verifier::rlimit(100)]
fn write_table_block(
    w: &mut Writer,
    name: &BvString,
    rows: &Vec<TableRow>,
    Ghost(ts): Ghost<Seq<TableV>>,
    Ghost(kvv): Ghost<Seq<(Seq<u8>, ObjView)>>,
    Ghost(i): Ghost<int>,
)
    requires
        0 <= i < ts.len(),
        store_valid(ts, kvv),
        name@ == ts[i].name,
        rows_view(rows@) == ts[i].rows,
        rows@.len() > 0,
        old(w).buf@ == enc_header(0u32, 0u64, 0u64) + enc_def_region(
            part_defs(ts, 20 + defs_total(ts) + kv_total(kvv), i),
        ) + enc_kv_region(kvv) + enc_sections(ts, i),
        old(w).buf@.len() == 20 + defs_total(ts) + kv_total(kvv) + sections_len(ts, i),
        old(w).table_rows_length == sections_len(ts, i),
        forall|j: int|
            0 <= j < ts.len() ==> lu_find(
                lu_view(old(w).decl_lu_map@),
                #[trigger] ts[j].name + hdr_suffix(),
            ) == Option::Some((hdr_pos(ts, j)) as u64),
        forall|j: int|
            i <= j < ts.len() ==> lu_find(
                lu_view(old(w).decl_lu_map@),
                #[trigger] ts[j].name + decl_suffix(),
            ) is None,
    ensures
        final(w).buf@ == enc_header(0u32, 0u64, 0u64) + enc_def_region(
            part_defs(ts, 20 + defs_total(ts) + kv_total(kvv), i + 1),
        ) + enc_kv_region(kvv) + enc_sections(ts, i + 1),
        final(w).buf@.len() == 20 + defs_total(ts) + kv_total(kvv) + sections_len(ts, i + 1),
        final(w).table_rows_length == sections_len(ts, i + 1),
        final(w).table_length == old(w).table_length,
        final(w).kv_records_length == old(w).kv_records_length,
        forall|j: int|
            0 <= j < ts.len() ==> lu_find(
                lu_view(final(w).decl_lu_map@),
                #[trigger] ts[j].name + hdr_suffix(),
            ) == Option::Some((hdr_pos(ts, j)) as u64),
        forall|j: int|
            i + 1 <= j < ts.len() ==> lu_find(
                lu_view(final(w).decl_lu_map@),
                #[trigger] ts[j].name + decl_suffix(),
            ) is None,
{
    let ghost base = 20 + defs_total(ts) + kv_total(kvv);
    let ghost t = ts[i];
    let ghost tbr = table_row_bytes(t);
    let row_count = rows.len();
    proof {
        assert(table_valid(t));
        lemma_sections_nonneg(ts, i);
        lemma_sections_nonneg(ts, i + 1);
        lemma_sections_nonneg_range(ts, i + 1, ts.len() as int);
        lemma_kv_region_len(kvv, 0);
    }
    let pos = w.buf.len();
    let dsuf = decl_suffix_bytes();
    let mut dkey: Vec<u8> = vstd::slice::slice_to_vec(name.as_slice());
    push_bytes(&mut dkey, dsuf.as_slice());
    let ghost pre_lu = lu_view(w.decl_lu_map@);
    proof {
        assert(dkey@ =~= t.name + decl_suffix());
    }
    w.lu_insert(dkey, pos as u64);
    proof {
        assert(lu_view(w.decl_lu_map@) == pre_lu.push((t.name + decl_suffix(), pos as u64)));
        lemma_lu_after_decl_push(pre_lu, ts, i, pos as u64);
    }
    let section_bytes: u64 = write_rows_records(
        w,
        rows,
        Ghost(ts),
        Ghost(kvv),
        Ghost(i),
    );
    proof {
        assert(tbr.take(row_count as int) =~= tbr);
        assert(section_bytes == section_len(t));
        lemma_sections_nonneg(ts, i);
        lemma_sections_nonneg_range(ts, i + 1, ts.len() as int);
        lemma_kv_region_len(kvv, 0);
        lemma_def_region_len(final_defs(ts, 0), ts.len() as int);
        assert(sections_len(ts, i) + section_len(t) == sections_len(ts, i + 1));
    }
    w.table_rows_length = w.table_rows_length + section_bytes;
    patch_table_def(w, name, section_bytes, row_count as u64, Ghost(ts), Ghost(kvv), Ghost(i));
}

/// Append one table's rows section: the section magic, then one record
/// per row, and hand back the section's byte length.
#[verifier::rlimit(100)]
fn write_rows_records(
    w: &mut Writer,
    rows: &Vec<TableRow>,
    Ghost(ts): Ghost<Seq<TableV>>,
    Ghost(kvv): Ghost<Seq<(Seq<u8>, ObjView)>>,
    Ghost(i): Ghost<int>,
)
    -> (section_bytes: u64)
    requires
        0 <= i < ts.len(),
        store_valid(ts, kvv),
        rows_view(rows@) == ts[i].rows,
        rows@.len() > 0,
        old(w).buf@ == enc_header(0u32, 0u64, 0u64) + enc_def_region(
            part_defs(ts, 20 + defs_total(ts) + kv_total(kvv), i),
        ) + enc_kv_region(kvv) + enc_sections(ts, i),
        old(w).buf@.len() == 20 + defs_total(ts) + kv_total(kvv) + sections_len(ts, i),
    ensures
        final(w).buf@ == old(w).buf@ + enc_section(ts[i]),
        final(w).buf@.len() == old(w).buf@.len() + section_len(ts[i]),
        section_bytes == section_len(ts[i]),
        final(w).table_rows_length == old(w).table_rows_length,
        final(w).table_length == old(w).table_length,
        final(w).kv_records_length == old(w).kv_records_length,
        lu_view(final(w).decl_lu_map@) == lu_view(old(w).decl_lu_map@),
{
    let ghost base = 20 + defs_total(ts) + kv_total(kvv);
    let ghost t = ts[i];
    let ghost tbr = table_row_bytes(t);
    let row_count = rows.len();
    proof {
        lemma_sections_nonneg(ts, i);
        lemma_sections_nonneg(ts, i + 1);
        lemma_sections_nonneg_range(ts, i + 1, ts.len() as int);
        lemma_kv_region_len(kvv, 0);
        lemma_def_region_len(final_defs(ts, 0), ts.len() as int);
        lemma_rows_len(tbr, 0);
        lemma_rows_len(tbr, row_count as int);
        assert(tbr.skip(0) =~= tbr);
        assert(section_len(t) >= 3);
        assert(sections_len(ts, i + 1) == sections_len(ts, i) + section_len(t));
        assert(sections_len(ts, i + 1) <= sections_len(ts, ts.len() as int));
    }
    let mut section_bytes: u64 = w.write_decl_header();
    proof {
        assert(enc_rows(tbr.take(0)) =~= Seq::<u8>::empty());
        assert(w.buf@ =~= old(w).buf@ + (rows_ident_spec() + enc_rows(tbr.take(0))));
    }
    let mut j: usize = 0;
    while j < row_count
        invariant
            row_count == rows@.len(),
            0 <= i < ts.len(),
            store_valid(ts, kvv),
            base == 20 + defs_total(ts) + kv_total(kvv),
            t == ts[i],
            t.rows == rows_view(rows@),
            tbr == table_row_bytes(t),
            t.rows.len() == row_count,
            row_count > 0,
            j <= row_count,
            old(w).buf@.len() == base + sections_len(ts, i),
            w.buf@ == old(w).buf@ + (rows_ident_spec() + enc_rows(tbr.take(j as int))),
            w.buf@.len() == base + sections_len(ts, i) + 3 + row_offset(tbr, j as int),
            section_bytes == 3 + row_offset(tbr, j as int),
            w.table_rows_length == old(w).table_rows_length,
            w.table_length == old(w).table_length,
            w.kv_records_length == old(w).kv_records_length,
            lu_view(w.decl_lu_map@) == lu_view(old(w).decl_lu_map@),
        decreases row_count - j,
    {
        proof {
            assert(t.rows[j as int] == rows@[j as int]@);
            assert(tbr[j as int] == enc_row_body(t.rows[j as int]));
            lemma_rows_len(tbr, j as int);
            lemma_rows_len(tbr, j + 1);
            assert(row_offset(tbr, j + 1) == row_offset(tbr, j as int) + row_len(
                tbr[j as int],
            ));
            lemma_rows_len(tbr, row_count as int);
            lemma_row_offset_monotone(tbr, j + 1, row_count as int);
            lemma_sections_nonneg_range(ts, i + 1, ts.len() as int);
            lemma_sections_nonneg(ts, i + 1);
            lemma_sections_nonneg(ts, i);
            lemma_kv_region_len(kvv, 0);
            lemma_def_region_len(final_defs(ts, 0), ts.len() as int);
            assert(table_valid(ts[i]));
            assert(enc_row_body(t.rows[j as int]).len() <= 0xFFFF_FFFF);
            vstd::bytes::lemma_auto_spec_u32_to_from_le_bytes();
        }
        let row = &rows[j];
        proof {
            assert(row@ == t.rows[j as int]);
            assert(enc_row(enc_row_body(row@)).len() == row_len(enc_row_body(row@)));
        }
        let len = w.write_decl_record(row);
        section_bytes = section_bytes + len;
        proof {
            lemma_enc_rows_snoc(tbr.take(j + 1));
            assert(tbr.take(j + 1).drop_last() =~= tbr.take(j as int));
            assert(tbr.take(j + 1).last() == tbr[j as int]);
            assert(w.buf@ =~= old(w).buf@ + (rows_ident_spec() + enc_rows(tbr.take(j + 1))));
        }
        j += 1;
    }
    proof {
        assert(tbr.take(row_count as int) =~= tbr);
        assert(section_bytes == section_len(t));
        assert(rows_ident_spec() + enc_rows(tbr) =~= enc_section(t));
    }
    section_bytes
}


/// Pushing a table's `decl_records_start` entry resolves that key and
/// leaves every other patch key as it was.
proof fn lemma_lu_after_decl_push(
    pre: Seq<(Seq<u8>, u64)>,
    ts: Seq<TableV>,
    i: int,
    pos: u64,
)
    requires
        0 <= i < ts.len(),
        forall|j: int, k: int|
            0 <= j < k < ts.len() ==> (#[trigger] ts[j]).name != (#[trigger] ts[k]).name,
    ensures
        forall|j: int|
            0 <= j < ts.len() ==> #[trigger] lu_find(
                pre.push((ts[i].name + decl_suffix(), pos)),
                ts[j].name + hdr_suffix(),
            ) == lu_find(pre, ts[j].name + hdr_suffix()),
        forall|j: int|
            0 <= j < ts.len() && j != i && lu_find(pre, ts[j].name + decl_suffix()) is None
                ==> #[trigger] lu_find(
                pre.push((ts[i].name + decl_suffix(), pos)),
                ts[j].name + decl_suffix(),
            ) is None,
        lu_find(pre, ts[i].name + decl_suffix()) is None ==> lu_find(
            pre.push((ts[i].name + decl_suffix(), pos)),
            ts[i].name + decl_suffix(),
        ) == Option::Some(pos),
{
    let newe = (ts[i].name + decl_suffix(), pos);
    assert forall|j: int|
        0 <= j < ts.len() implies #[trigger] lu_find(
        pre.push(newe),
        ts[j].name + hdr_suffix(),
    ) == lu_find(pre, ts[j].name + hdr_suffix()) by {
        lemma_lu_find_push(pre, newe, ts[j].name + hdr_suffix());
        lemma_key_disjoint(ts[j].name, ts[i].name);
    }
    assert forall|j: int|
        0 <= j < ts.len() && j != i && lu_find(pre, ts[j].name + decl_suffix())
            is None implies #[trigger] lu_find(
        pre.push(newe),
        ts[j].name + decl_suffix(),
    ) is None by {
        lemma_lu_find_push(pre, newe, ts[j].name + decl_suffix());
        if ts[j].name + decl_suffix() == ts[i].name + decl_suffix() {
            lemma_key_same_suffix(ts[j].name, ts[i].name, decl_suffix());
            assert(false);
        }
    }
    lemma_lu_find_push(pre, newe, ts[i].name + decl_suffix());
}

/// An empty table changes nothing in the patch pass.
proof fn lemma_skip_empty_table(ts: Seq<TableV>, kvv: Seq<(Seq<u8>, ObjView)>, i: int)
    requires
        0 <= i < ts.len(),
        ts[i].rows.len() == 0,
    ensures
        part_defs(ts, 20 + defs_total(ts) + kv_total(kvv), i + 1) == part_defs(
            ts,
            20 + defs_total(ts) + kv_total(kvv),
            i,
        ),
        enc_sections(ts, i + 1) == enc_sections(ts, i),
        sections_len(ts, i + 1) == sections_len(ts, i),
{
    let base = 20 + defs_total(ts) + kv_total(kvv);
    assert(section_len(ts[i]) == 0);
    assert(final_def(ts, base, i) == zero_def(ts, i));
    assert(part_defs(ts, base, i + 1) =~= part_defs(ts, base, i));
    assert(enc_section(ts[i]) =~= Seq::<u8>::empty());
    assert(enc_sections(ts, i + 1) =~= enc_sections(ts, i));
}


/// Measure one non-empty table's rows section, checking each serialized
/// row against its four-byte length field.
#[verifier::rlimit(100)]
fn check_rows(rows: &Vec<TableRow>, Ghost(t): Ghost<TableV>) -> (r: Option<u128>)
    requires
        t.rows == rows_view(rows@),
        rows@.len() > 0,
    ensures
        match r {
            Some(acc) => acc as int == section_len(t) && acc <= usize::MAX && (forall|j: int|
                0 <= j < t.rows.len() ==> enc_row_body(#[trigger] t.rows[j]).len()
                    <= 0xFFFF_FFFF),
            None => (exists|j: int|
                0 <= j < t.rows.len() && enc_row_body(#[trigger] t.rows[j]).len()
                    > 0xFFFF_FFFF) || section_len(t) > usize::MAX,
        },
{
    let ghost tbr = table_row_bytes(t);
    let rcount = rows.len();
    let mut acc: u128 = 3;
    let mut j: usize = 0;
    proof {
        assert(row_offset(tbr, 0) == 0);
    }
    while j < rcount
        invariant
            rcount == rows@.len(),
            rcount > 0,
            j <= rcount,
            t.rows == rows_view(rows@),
            tbr == table_row_bytes(t),
            acc as int == 3 + row_offset(tbr, j as int),
            acc <= usize::MAX,
            forall|q: int|
                0 <= q < j ==> enc_row_body(#[trigger] t.rows[q]).len() <= 0xFFFF_FFFF,
        decreases rcount - j,
    {
        proof {
            assert(t.rows[j as int] == rows@[j as int]@);
            assert(tbr[j as int] == enc_row_body(t.rows[j as int]));
        }
        let ser = encode_row_body(&rows[j]);
        if ser.len() as u128 > 0xFFFF_FFFFu128 {
            return None;
        }
        acc = acc + 7 + ser.len() as u128;
        proof {
            assert(row_offset(tbr, j + 1) == row_offset(tbr, j as int) + row_len(
                tbr[j as int],
            ));
        }
        if acc > usize::MAX as u128 {
            proof {
                lemma_rows_len(tbr, rcount as int);
                lemma_row_offset_monotone(tbr, j + 1, rcount as int);
                assert(section_len(t) >= 3 + row_offset(tbr, j + 1));
                assert(section_len(t) > usize::MAX);
            }
            return None;
        }
        j += 1;
    }
    proof {
        assert(acc as int == section_len(t));
    }
    Some(acc)
}

/// Measure the definition and rows sections of every table, checking
/// each length against its field.
#[verifier::rlimit(100)]
fn check_tables(
    maps: &Vec<(BvString, FieldMap)>,
    rowlists: &Vec<(BvString, Vec<TableRow>)>,
    Ghost(ts): Ghost<Seq<TableV>>,
) -> (r: Option<(u128, u128)>)
    requires
        maps@.len() == rowlists@.len(),
        ts == tables_view(maps@, rowlists@),
    ensures
        match r {
            Some(p) => p.0 as int == defs_total(ts) && p.1 as int == sections_len(
                ts,
                ts.len() as int,
            ) && p.0 <= usize::MAX && p.1 <= usize::MAX && (forall|i: int|
                0 <= i < ts.len() ==> table_valid(#[trigger] ts[i])),
            None => (exists|i: int| 0 <= i < ts.len() && !table_valid(#[trigger] ts[i]))
                || defs_total(ts) > usize::MAX || sections_len(ts, ts.len() as int)
                > usize::MAX,
        },
{
    let ghost fdefs0 = final_defs(ts, 0);
    let nt = maps.len();
    let mut defs_acc: u128 = 0;
    let mut sections_acc: u128 = 0;
    let mut i: usize = 0;
    proof {
        assert(def_offset(fdefs0, 0) == 0);
    }
    while i < nt
        invariant
            nt == maps@.len(),
            maps@.len() == rowlists@.len(),
            i <= nt,
            ts == tables_view(maps@, rowlists@),
            fdefs0 == final_defs(ts, 0),
            defs_acc as int == def_offset(fdefs0, i as int),
            sections_acc as int == sections_len(ts, i as int),
            defs_acc <= usize::MAX,
            sections_acc <= usize::MAX,
            forall|q: int| 0 <= q < i ==> table_valid(#[trigger] ts[q]),
        decreases nt - i,
    {
        proof {
            assert(ts[i as int].name == maps@[i as int].0@);
            assert(ts[i as int].fields == maps@[i as int].1@);
            assert(ts[i as int].rows == rows_view(rowlists@[i as int].1@));
        }
        let e = &maps[i];
        let name_len = e.0.len();
        if name_len == 0 || name_len > 255 {
            proof {
                assert(!table_valid(ts[i as int]));
            }
            return None;
        }
        let ser = encode_field_map(&e.1);
        if ser.len() as u128 > 0xFFFFu128 {
            proof {
                assert(!table_valid(ts[i as int]));
            }
            return None;
        }
        let rl = &rowlists[i];
        let row_count = rl.1.len();
        if row_count > 0 {
            match check_rows(&rl.1, Ghost(ts[i as int])) {
                None => {
                    proof {
                        if exists|j: int|
                            0 <= j < ts[i as int].rows.len() && enc_row_body(
                                #[trigger] ts[i as int].rows[j],
                            ).len() > 0xFFFF_FFFF {
                            assert(!table_valid(ts[i as int]));
                        } else {
                            assert(section_len(ts[i as int]) > usize::MAX);
                            lemma_sections_nonneg(ts, i as int);
                            lemma_sections_nonneg_range(ts, i + 1, ts.len() as int);
                            assert(sections_len(ts, i + 1) == sections_len(ts, i as int)
                                + section_len(ts[i as int]));
                            assert(sections_len(ts, ts.len() as int) > usize::MAX);
                        }
                    }
                    return None;
                },
                Some(sec) => {
                    sections_acc = sections_acc + sec;
                    proof {
                        assert(sections_len(ts, i + 1) == sections_len(ts, i as int)
                            + section_len(ts[i as int]));
                    }
                    if sections_acc > usize::MAX as u128 {
                        proof {
                            lemma_sections_nonneg_range(ts, i + 1, ts.len() as int);
                            assert(sections_len(ts, ts.len() as int) > usize::MAX);
                        }
                        return None;
                    }
                },
            }
        } else {
            proof {
                assert(section_len(ts[i as int]) == 0);
                assert(sections_len(ts, i + 1) == sections_len(ts, i as int));
            }
        }
        defs_acc = defs_acc + (30 + name_len as u128 + ser.len() as u128);
        proof {
            assert(def_offset(fdefs0, i + 1) == def_offset(fdefs0, i as int) + def_len(
                fdefs0[i as int],
            ));
            assert(def_len(fdefs0[i as int]) == 30 + ts[i as int].name.len() + enc_field_map(
                ts[i as int].fields,
            ).len());
            assert(table_valid(ts[i as int]));
        }
        if defs_acc > usize::MAX as u128 {
            proof {
                lemma_def_region_len(fdefs0, ts.len() as int);
                lemma_def_offset_monotone(fdefs0, i + 1, ts.len() as int);
                assert(defs_total(ts) > usize::MAX);
            }
            return None;
        }
        i += 1;
    }
    Some((defs_acc, sections_acc))
}

/// Measure the key-value section, checking each entry's lengths against
/// their fields.
#[verifier::rlimit(100)]
fn check_kv(kv: &Vec<(BvString, BvObject)>, Ghost(kvv): Ghost<Seq<(Seq<u8>, ObjView)>>) -> (r:
    Option<u128>)
    requires
        kvv == crate::storage::pairs_view(kv@),
    ensures
        match r {
            Some(acc) => acc as int == kv_total(kvv) && acc <= usize::MAX
                && crate::format::kv_region_valid(kvv),
            None => (exists|j: int|
                0 <= j < kvv.len() && !crate::format::kv_entry_valid(#[trigger] kvv[j]))
                || kv_total(kvv) > usize::MAX,
        },
{
    let nk = kv.len();
    let mut acc: u128 = 0;
    let mut i: usize = 0;
    proof {
        assert(kv_offset(kvv, 0) == 0);
    }
    while i < nk
        invariant
            nk == kv@.len(),
            i <= nk,
            kvv == crate::storage::pairs_view(kv@),
            acc as int == kv_offset(kvv, i as int),
            acc <= usize::MAX,
            forall|q: int| 0 <= q < i ==> crate::format::kv_entry_valid(#[trigger] kvv[q]),
        decreases nk - i,
    {
        proof {
            assert(kvv[i as int] == (kv@[i as int].0@, kv@[i as int].1@));
        }
        let e = &kv[i];
        let klen = e.0.len();
        let tlen = e.1.type_tag().len();
        let rlen = e.1.raw().len();
        if klen == 0 || klen > 255 || tlen == 0 || tlen > 255 || rlen as u128
            > 0xFFFF_FFFFu128 {
            proof {
                assert(!crate::format::kv_entry_valid(kvv[i as int]));
            }
            return None;
        }
        acc = acc + 9 + klen as u128 + tlen as u128 + rlen as u128;
        proof {
            assert(kv_offset(kvv, i + 1) == kv_offset(kvv, i as int) + kv_entry_len(
                kvv[i as int],
            ));
        }
        if acc > usize::MAX as u128 {
            proof {
                lemma_kv_region_len(kvv, kvv.len() as int);
                lemma_kv_offset_monotone(kvv, i + 1, kvv.len() as int);
                assert(kv_total(kvv) > usize::MAX);
            }
            return None;
        }
        i += 1;
    }
    Some(acc)
}

/// Decide at run time whether a store fits the file format: every length
/// must fit its field, table names must be distinct, and the whole image
/// must fit in memory — exactly the validity the writer requires.
#[verifier::rlimit(100)]
pub fn check_store(
    maps: &Vec<(BvString, FieldMap)>,
    rowlists: &Vec<(BvString, Vec<TableRow>)>,
    kv: &Vec<(BvString, BvObject)>,
) -> (ok: bool)
    requires
        maps@.len() == rowlists@.len(),
    ensures
        ok == store_valid(
            tables_view(maps@, rowlists@),
            crate::storage::pairs_view(kv@),
        ),
{
    let ghost ts = tables_view(maps@, rowlists@);
    let ghost kvv = crate::storage::pairs_view(kv@);
    let nt = maps.len();
    let mut i: usize = 1;
    while i < nt
        invariant
            nt == maps@.len(),
            ts == tables_view(maps@, rowlists@),
            1 <= i <= nt || nt == 0,
            forall|p: int, q: int|
                0 <= p < q < i ==> (#[trigger] ts[p]).name != (#[trigger] ts[q]).name,
        decreases nt - i,
    {
        let mut p: usize = 0;
        while p < i
            invariant
                nt == maps@.len(),
                ts == tables_view(maps@, rowlists@),
                i < nt,
                p <= i,
                forall|p2: int| 0 <= p2 < p ==> (#[trigger] ts[p2]).name != ts[i as int].name,
            decreases i - p,
        {
            proof {
                assert(ts[p as int].name == maps@[p as int].0@);
                assert(ts[i as int].name == maps@[i as int].0@);
            }
            if maps[p].0.eq_bvstring(&maps[i].0) {
                proof {
                    if store_valid(ts, kvv) {
                        assert((#[trigger] ts[p as int]).name != ts[i as int].name);
                    }
                }
                return false;
            }
            p += 1;
        }
        i += 1;
    }
    let defs_sections = match check_tables(maps, rowlists, Ghost(ts)) {
        Some(p) => p,
        None => {
            proof {
                if store_valid(ts, kvv) {
                    if exists|q: int| 0 <= q < ts.len() && !table_valid(#[trigger] ts[q]) {
                        let q = choose|q: int|
                            0 <= q < ts.len() && !table_valid(#[trigger] ts[q]);
                        assert(table_valid(ts[q]));
                    } else {
                        lemma_kv_region_len(kvv, 0);
                        assert(kvv.skip(0) =~= kvv);
                        lemma_def_region_len(final_defs(ts, 0), ts.len() as int);
                        lemma_sections_nonneg(ts, ts.len() as int);
                        assert(false);
                    }
                }
            }
            return false;
        },
    };
    let kv_acc = match check_kv(kv, Ghost(kvv)) {
        Some(a) => a,
        None => {
            proof {
                if store_valid(ts, kvv) {
                    if exists|q: int|
                        0 <= q < kvv.len() && !crate::format::kv_entry_valid(
                            #[trigger] kvv[q],
                        ) {
                        let q = choose|q: int|
                            0 <= q < kvv.len() && !crate::format::kv_entry_valid(
                                #[trigger] kvv[q],
                            );
                        assert(crate::format::kv_entry_valid(kvv[q]));
                    } else {
                        lemma_def_region_len(final_defs(ts, 0), ts.len() as int);
                        lemma_sections_nonneg(ts, ts.len() as int);
                        assert(false);
                    }
                }
            }
            return false;
        },
    };
    if defs_sections.0 > 0xFFFF_FFFFu128 {
        return false;
    }
    let total: u128 = 20 + defs_sections.0 + kv_acc + defs_sections.1;
    if total > usize::MAX as u128 {
        return false;
    }
    proof {
        assert(store_valid(ts, kvv));
    }
    true
}

} // verus!








