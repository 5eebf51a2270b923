//! The file reader: parse the fixed header, decode each section, and
//! rebuild the in-memory store.
//!
//! A zero-length input is deliberately read as an empty store; any other
//! malformed input is a decode error.

use vstd::prelude::*;
use vstd::bytes::{u32_from_le_bytes, u64_from_le_bytes};

use crate::bvobject::ObjView;
use crate::bvstring::BvString;
use crate::codec::decode_field_map;
use crate::format::enc_header;
use crate::laws::{store_decodable, lemma_file_round_trip, lemma_store_encoding_unique};
use crate::parser::kv::extract_records;
use crate::parser::rows::extract_rows;
use crate::parser::table::{extract_tables, def_rec_view};
use crate::storage::{KvInterface, entries_map, distinct_keys};
use crate::table_types::{FieldMap, TableRow};
use crate::writer::{TableV, enc_file, enc_section, enc_sections, rows_view, store_valid,
    defs_total, kv_total, sections_len, section_len, final_defs, final_def, table_row_bytes};

verus! {

/// The region of table `i`'s rows section inside the whole file image.
pub proof fn lemma_section_at(ts: Seq<TableV>, kvv: Seq<(Seq<u8>, ObjView)>, i: int)
    requires
        0 <= i <= ts.len(),
    ensures
        enc_sections(ts, ts.len() as int).len() == sections_len(ts, ts.len() as int),
        sections_len(ts, i) >= 0,
        sections_len(ts, i) + (if i < ts.len() {
            section_len(ts[i])
        } else {
            0
        }) <= sections_len(ts, ts.len() as int),
        i < ts.len() ==> enc_sections(ts, ts.len() as int).subrange(
            sections_len(ts, i),
            sections_len(ts, i) + section_len(ts[i]),
        ) == enc_section(ts[i]),
    decreases ts.len() - i,
{
    lemma_sections_structure(ts, ts.len() as int);
    if i < ts.len() {
        lemma_sections_structure(ts, i);
        lemma_sections_structure(ts, i + 1);
        lemma_sections_tail(ts, i + 1, ts.len() as int);
        lemma_sections_prefix_at(ts, i);
    } else {
        lemma_sections_structure(ts, i);
    }
}

/// Prefix lengths of the concatenated sections.
proof fn lemma_sections_structure(ts: Seq<TableV>, k: int)
    requires
        0 <= k <= ts.len(),
    ensures
        enc_sections(ts, k).len() == sections_len(ts, k),
        sections_len(ts, k) >= 0,
    decreases k,
{
    if k > 0 {
        lemma_sections_structure(ts, k - 1);
        let t = ts[k - 1];
        if t.rows.len() > 0 {
            crate::format::lemma_rows_len(table_row_bytes(t), 0);
            assert(table_row_bytes(t).skip(0) =~= table_row_bytes(t));
        }
    }
}

/// Section lengths grow with the table index.
proof fn lemma_sections_tail(ts: Seq<TableV>, a: int, b: int)
    requires
        0 <= a <= b <= ts.len(),
    ensures
        sections_len(ts, a) <= sections_len(ts, b),
    decreases b - a,
{
    if a < b {
        lemma_sections_tail(ts, a, b - 1);
        lemma_sections_structure(ts, b);
        lemma_sections_structure(ts, b - 1);
    }
}

/// Each table's section lies at its prefix offset in the concatenation.
proof fn lemma_sections_prefix_at(ts: Seq<TableV>, i: int)
    requires
        0 <= i < ts.len(),
    ensures
        enc_sections(ts, ts.len() as int).subrange(
            sections_len(ts, i),
            sections_len(ts, i) + section_len(ts[i]),
        ) == enc_section(ts[i]),
    decreases ts.len() - i,
{
    lemma_sections_decompose(ts, i + 1, ts.len() as int);
    lemma_sections_structure(ts, i);
    lemma_sections_structure(ts, i + 1);
    let whole = enc_sections(ts, ts.len() as int);
    let a = sections_len(ts, i);
    let b = sections_len(ts, i + 1);
    lemma_sections_tail(ts, i + 1, ts.len() as int);
    assert(whole =~= enc_sections(ts, i + 1) + sections_rest(ts, i + 1, ts.len() as int));
    assert(whole.subrange(a, b) =~= enc_section(ts[i]));
}

/// What follows the first `a` sections.
spec fn sections_rest(ts: Seq<TableV>, a: int, b: int) -> Seq<u8>
    decreases b - a,
{
    if a >= b {
        Seq::empty()
    } else {
        enc_section(ts[a]) + sections_rest(ts, a + 1, b)
    }
}

/// The concatenation splits at any prefix point.
proof fn lemma_sections_decompose(ts: Seq<TableV>, a: int, b: int)
    requires
        0 <= a <= b <= ts.len(),
    ensures
        enc_sections(ts, b) == enc_sections(ts, a) + sections_rest(ts, a, b),
    decreases b - a,
{
    if a == b {
        assert(enc_sections(ts, b) =~= enc_sections(ts, a) + sections_rest(ts, a, b));
    } else {
        lemma_sections_decompose(ts, a, b - 1);
        assert(sections_rest(ts, a, b) =~= sections_rest(ts, a, b - 1) + enc_section(
            ts[b - 1],
        )) by {
            lemma_sections_rest_snoc(ts, a, b);
        }
        assert(enc_sections(ts, b) =~= enc_sections(ts, a) + sections_rest(ts, a, b));
    }
}

proof fn lemma_sections_rest_snoc(ts: Seq<TableV>, a: int, b: int)
    requires
        0 <= a < b <= ts.len(),
    ensures
        sections_rest(ts, a, b) == sections_rest(ts, a, b - 1) + enc_section(ts[b - 1]),
    decreases b - a,
{
    assert(sections_rest(ts, a, b) == enc_section(ts[a]) + sections_rest(ts, a + 1, b));
    if a == b - 1 {
        assert(sections_rest(ts, a + 1, b) =~= Seq::<u8>::empty());
        assert(sections_rest(ts, a, b - 1) =~= Seq::<u8>::empty());
        assert(sections_rest(ts, a, b) =~= sections_rest(ts, a, b - 1) + enc_section(
            ts[b - 1],
        ));
    } else {
        lemma_sections_rest_snoc(ts, a + 1, b);
        assert(sections_rest(ts, a, b - 1) == enc_section(ts[a]) + sections_rest(
            ts,
            a + 1,
            b - 1,
        ));
        assert(sections_rest(ts, a, b) =~= sections_rest(ts, a, b - 1) + enc_section(
            ts[b - 1],
        ));
    }
}

/// A non-empty table's back-patched `rows_start` points at bytes that
/// begin with the rows-section magic.
pub proof fn lemma_back_patch_points_at_magic(
    ts: Seq<TableV>,
    kvv: Seq<(Seq<u8>, ObjView)>,
    i: int,
)
    requires
        store_valid(ts, kvv),
        0 <= i < ts.len(),
        ts[i].rows.len() > 0,
    ensures
        ({
            let v = enc_file(ts, kvv);
            let start = final_def(ts, 20 + defs_total(ts) + kv_total(kvv), i).rows_start as int;
            &&& start + 3 <= v.len()
            &&& v.subrange(start, start + 3) == crate::format::rows_ident_spec()
        }),
{
    let v = enc_file(ts, kvv);
    let base = 20 + defs_total(ts) + kv_total(kvv);
    let start = final_def(ts, base, i).rows_start as int;
    lemma_file_structure(ts, kvv);
    lemma_section_at(ts, kvv, i);
    assert(section_len(ts[i]) >= 3) by {
        crate::format::lemma_rows_len(table_row_bytes(ts[i]), 0);
        assert(table_row_bytes(ts[i]).skip(0) =~= table_row_bytes(ts[i]));
        crate::format::lemma_rows_len(
            table_row_bytes(ts[i]),
            table_row_bytes(ts[i]).len() as int,
        );
    }
    assert(0 <= base + sections_len(ts, i) <= usize::MAX);
    assert(final_def(ts, base, i).rows_start == (base + sections_len(ts, i)) as u64);
    assert(base + sections_len(ts, i) <= u64::MAX);
    assert(start == base + sections_len(ts, i));
    let s = enc_sections(ts, ts.len() as int);
    assert(v.subrange(base, v.len() as int) == s);
    assert(s.subrange(sections_len(ts, i), sections_len(ts, i) + section_len(ts[i]))
        == enc_section(ts[i]));
    assert(v.subrange(start, start + 3) =~= enc_section(ts[i]).subrange(0, 3));
    assert(enc_section(ts[i]).subrange(0, 3) =~= crate::format::rows_ident_spec());
}

/// The whole file image splits as header, definitions, key-value records
/// and rows sections, with the lengths the header declares.
pub proof fn lemma_file_structure(ts: Seq<TableV>, kvv: Seq<(Seq<u8>, ObjView)>)
    requires
        store_valid(ts, kvv),
    ensures
        ({
            let v = enc_file(ts, kvv);
            let base = 20 + defs_total(ts) + kv_total(kvv);
            let fdefs = final_defs(ts, base);
            &&& v.len() == base + sections_len(ts, ts.len() as int)
            &&& defs_total(ts) >= 0
            &&& kv_total(kvv) >= 0
            &&& sections_len(ts, ts.len() as int) >= 0
            &&& v.subrange(0, 20) == enc_header(
                defs_total(ts) as u32,
                kv_total(kvv) as u64,
                sections_len(ts, ts.len() as int) as u64,
            )
            &&& v.subrange(20, 20 + defs_total(ts)) == crate::format::enc_def_region(fdefs)
            &&& v.subrange(20 + defs_total(ts), base) == crate::format::enc_kv_region(kvv)
            &&& v.subrange(base, v.len() as int) == enc_sections(ts, ts.len() as int)
        }),
{
    let v = enc_file(ts, kvv);
    let base = 20 + defs_total(ts) + kv_total(kvv);
    let fdefs = final_defs(ts, base);
    vstd::bytes::lemma_auto_spec_u32_to_from_le_bytes();
    vstd::bytes::lemma_auto_spec_u64_to_from_le_bytes();
    crate::format::lemma_def_region_len(fdefs, 0);
    assert(fdefs.skip(0) =~= fdefs);
    assert forall|j: int| 0 <= j <= ts.len() implies crate::format::def_offset(fdefs, j)
        == crate::format::def_offset(final_defs(ts, 0), j) by {
        lemma_defs_offsets_eq(ts, base, j);
    }
    crate::format::lemma_kv_region_len(kvv, 0);
    assert(kvv.skip(0) =~= kvv);
    lemma_sections_structure(ts, ts.len() as int);
    assert(v.subrange(0, 20) =~= enc_header(
        defs_total(ts) as u32,
        kv_total(kvv) as u64,
        sections_len(ts, ts.len() as int) as u64,
    ));
    assert(v.subrange(20, 20 + defs_total(ts)) =~= crate::format::enc_def_region(fdefs));
    assert(v.subrange(20 + defs_total(ts), base) =~= crate::format::enc_kv_region(kvv));
    assert(v.subrange(base, v.len() as int) =~= enc_sections(ts, ts.len() as int));
}

proof fn lemma_defs_offsets_eq(ts: Seq<TableV>, base: int, j: int)
    requires
        0 <= j <= ts.len(),
    ensures
        crate::format::def_offset(final_defs(ts, base), j) == crate::format::def_offset(
            final_defs(ts, 0),
            j,
        ),
    decreases j,
{
    if j > 0 {
        lemma_defs_offsets_eq(ts, base, j - 1);
    }
}

/// A reader over a borrowed file image.
pub struct Reader<'a> {
    pub cursor: crate::cursor::Cursor<'a>,
}

impl<'a> Reader<'a> {
    /// A reader at the start of the image.
    pub fn new(b: &'a [u8]) -> (r: Self)
        ensures
            r.cursor.inner@ == b@,
            r.cursor.cursor == 0,
    {
        Reader { cursor: crate::cursor::Cursor::new(b) }
    }

    /// True on a zero-length image: read as an empty store.
    pub fn is_empty(&self) -> (r: bool)
        ensures
            r == (self.cursor.inner@.len() == 0),
    {
        self.cursor.inner.len() == 0
    }

    /// Read the fixed 20-byte header: the three section lengths.
    pub fn read_header(&mut self) -> (r: Option<(u32, u64, u64)>)
        ensures
            final(self).cursor.inner@ == old(self).cursor.inner@,
            match r {
                Some(h) => old(self).cursor.inner@.len() >= 20
                    && old(self).cursor.inner@.subrange(0, 20) == enc_header(h.0, h.1, h.2)
                    && final(self).cursor.cursor == 20,
                None => old(self).cursor.inner@.len() < 20,
            },
    {
        if self.cursor.inner.len() < 20 {
            return None;
        }
        self.cursor.jump(0);
        let tl = u32_from_le_bytes(self.cursor.get(4));
        let kl = u64_from_le_bytes(self.cursor.get(8));
        let rl = u64_from_le_bytes(self.cursor.get(8));
        proof {
            vstd::bytes::lemma_auto_spec_u32_to_from_le_bytes();
            vstd::bytes::lemma_auto_spec_u64_to_from_le_bytes();
            let v = self.cursor.inner@;
            assert(v.subrange(0, 4) =~= v.subrange(0, 20).subrange(0, 4));
            assert(v.subrange(4, 12) =~= v.subrange(0, 20).subrange(4, 12));
            assert(v.subrange(12, 20) =~= v.subrange(0, 20).subrange(12, 20));
            assert(v.subrange(0, 20) =~= enc_header(tl, kl, rl));
        }
        Some((tl, kl, rl))
    }
}


/// Rebuild a whole store from its file image: parse the header, decode
/// the definition and key-value sections, then seek to each non-empty
/// table's back-patched offset and decode its rows. A zero-length image
/// is an empty store; and any image a store encodes to decodes back to
/// exactly that store.
#[verifier::rlimit(100)]
pub fn read_file<KV: KvInterface>(v: &[u8]) -> (r: Option<
    (Vec<(BvString, FieldMap)>, Vec<(BvString, Vec<TableRow>)>, KV),
>)
    ensures
        v@.len() == 0 ==> (r matches Some(st) && st.0@.len() == 0 && st.1@.len() == 0
            && st.2.wf() && st.2.entry_seq() == Seq::<(Seq<u8>, ObjView)>::empty()),
        forall|ts: Seq<TableV>, kvv: Seq<(Seq<u8>, ObjView)>|
            store_decodable(ts, kvv) && distinct_keys(kvv) && v@ == #[trigger] enc_file(ts, kvv)
                ==> (r matches Some(st) && st.0@.len() == ts.len() && (forall|i: int|
                0 <= i < ts.len() ==> (#[trigger] st.0@[i]).0@ == ts[i].name && st.0@[i].1@
                    == ts[i].fields) && st.1@.len() == ts.len() && (forall|i: int|
                0 <= i < ts.len() ==> (#[trigger] st.1@[i]).0@ == ts[i].name && rows_view(
                    st.1@[i].1@,
                ) == ts[i].rows) && st.2.wf() && entries_map(st.2.entry_seq()) == entries_map(
                kvv,
            )),
{
    let ghost okw = exists|ts: Seq<TableV>, kvv: Seq<(Seq<u8>, ObjView)>|
        store_decodable(ts, kvv) && distinct_keys(kvv) && v@ == enc_file(ts, kvv);
    let ghost (cts, ckv) = choose|ts: Seq<TableV>, kvv: Seq<(Seq<u8>, ObjView)>|
        store_decodable(ts, kvv) && distinct_keys(kvv) && v@ == enc_file(ts, kvv);
    proof {
        if okw {
            lemma_file_round_trip(cts, ckv);
            lemma_file_structure(cts, ckv);
        }
    }
    let ghost cbase = 20 + defs_total(cts) + kv_total(ckv);
    let ghost cfdefs = final_defs(cts, cbase);
    if v.len() == 0 {
        let maps: Vec<(BvString, FieldMap)> = Vec::new();
        let rowlists: Vec<(BvString, Vec<TableRow>)> = Vec::new();
        let kvstore = KV::new_empty();
        proof {
            if okw {
                crate::format::lemma_kv_region_len(ckv, 0);
                assert(ckv.skip(0) =~= ckv);
                assert(v@.len() >= 20);
                assert(false);
            }
        }
        return Some((maps, rowlists, kvstore));
    }
    let mut rd = Reader::new(v);
    let (tl, kl, rl) = match rd.read_header() {
        Some(h) => h,
        None => {
            proof {
                if okw {
                    assert(false);
                }
            }
            return None;
        },
    };
    proof {
        if okw {
            vstd::bytes::lemma_auto_spec_u32_to_from_le_bytes();
            vstd::bytes::lemma_auto_spec_u64_to_from_le_bytes();
            let h1 = enc_header(tl, kl, rl);
            let h2 = enc_header(
                defs_total(cts) as u32,
                kv_total(ckv) as u64,
                sections_len(cts, cts.len() as int) as u64,
            );
            assert(h1 == h2);
            assert(h1.subrange(0, 4) =~= vstd::bytes::spec_u32_to_le_bytes(tl));
            assert(h2.subrange(0, 4) =~= vstd::bytes::spec_u32_to_le_bytes(
                defs_total(cts) as u32,
            ));
            assert(h1.subrange(4, 12) =~= vstd::bytes::spec_u64_to_le_bytes(kl));
            assert(h2.subrange(4, 12) =~= vstd::bytes::spec_u64_to_le_bytes(
                kv_total(ckv) as u64,
            ));
            assert(h1.subrange(12, 20) =~= vstd::bytes::spec_u64_to_le_bytes(rl));
            assert(h2.subrange(12, 20) =~= vstd::bytes::spec_u64_to_le_bytes(
                sections_len(cts, cts.len() as int) as u64,
            ));
            assert(tl as int == defs_total(cts));
            assert(kl as int == kv_total(ckv));
        }
    }
    if 20u128 + tl as u128 + kl as u128 > v.len() as u128 {
        proof {
            if okw {
                assert(false);
            }
        }
        return None;
    }
    let defs_end = 20 + tl as usize;
    let kv_end = defs_end + kl as usize;
    let defs_slice = vstd::slice::slice_subrange(v, 20, defs_end);
    let recs = match extract_tables(defs_slice) {
        Some(recs) => recs,
        None => {
            proof {
                if okw {
                    assert(defs_slice@ =~= v@.subrange(20, 20 + defs_total(cts)));
                    assert(false);
                }
            }
            return None;
        },
    };
    proof {
        if okw {
            assert(defs_slice@ =~= v@.subrange(20, 20 + defs_total(cts)));
            assert(crate::parser::table::parse_def_region(defs_slice@) == Some(cfdefs));
        }
    }
    let kv_slice = vstd::slice::slice_subrange(v, defs_end, kv_end);
    let kvstore: KV = match extract_records(kv_slice) {
        Some(k) => k,
        None => {
            proof {
                if okw {
                    assert(kv_slice@ =~= v@.subrange(20 + defs_total(cts), cbase));
                    assert(false);
                }
            }
            return None;
        },
    };
    proof {
        if okw {
            assert(kv_slice@ =~= v@.subrange(20 + defs_total(cts), cbase));
            assert(crate::parser::kv::parse_kv_region(kv_slice@) == Some(ckv));
            assert(kvstore.wf() && entries_map(kvstore.entry_seq()) == entries_map(ckv));
        }
    }
    let nt = recs.len();
    let mut maps: Vec<(BvString, FieldMap)> = Vec::new();
    let mut rowlists: Vec<(BvString, Vec<TableRow>)> = Vec::new();
    let mut i: usize = 0;
    while i < nt
        invariant
            nt == recs@.len(),
            i <= nt,
            v@.len() > 0,
            okw == (exists|ts: Seq<TableV>, kvv: Seq<(Seq<u8>, ObjView)>|
                store_decodable(ts, kvv) && distinct_keys(kvv) && v@ == enc_file(ts, kvv)),
            okw ==> store_decodable(cts, ckv) && distinct_keys(ckv) && v@ == enc_file(cts, ckv),
            cbase == 20 + defs_total(cts) + kv_total(ckv),
            cfdefs == final_defs(cts, cbase),
            okw ==> nt == cts.len() && (forall|q: int|
                0 <= q < nt ==> def_rec_view(#[trigger] recs@[q]) == cfdefs[q]),
            maps@.len() == i,
            rowlists@.len() == i,
            okw ==> (forall|q: int|
                0 <= q < i ==> (#[trigger] maps@[q]).0@ == cts[q].name && maps@[q].1@
                    == cts[q].fields),
            okw ==> (forall|q: int|
                0 <= q < i ==> (#[trigger] rowlists@[q]).0@ == cts[q].name && rows_view(
                    rowlists@[q].1@,
                ) == cts[q].rows),
        decreases nt - i,
    {
        proof {
            if okw {
                lemma_file_round_trip(cts, ckv);
                lemma_file_structure(cts, ckv);
                lemma_section_at(cts, ckv, i as int);
                assert(def_rec_view(recs@[i as int]) == cfdefs[i as int]);
            }
        }
        let e = &recs[i];
        let fm = match decode_field_map(e.1.as_slice()) {
            Some(fm) => fm,
            None => {
                proof {
                    if okw {
                        assert(e.1@ == cfdefs[i as int].fields);
                        assert(crate::codec::parse_field_map(cfdefs[i as int].fields) == Some(
                            cts[i as int].fields,
                        ));
                        assert(false);
                    }
                }
                return None;
            },
        };
        proof {
            if okw {
                assert(e.1@ == cfdefs[i as int].fields);
                assert(fm@ == cts[i as int].fields);
            }
        }
        let rows: Vec<TableRow> = if e.3 == 0 {
            proof {
                if okw {
                    assert(cfdefs[i as int].rows_len == section_len(cts[i as int]) as u64);
                    if cts[i as int].rows.len() > 0 {
                        crate::format::lemma_rows_len(table_row_bytes(cts[i as int]), 0);
                        assert(table_row_bytes(cts[i as int]).skip(0) =~= table_row_bytes(
                            cts[i as int],
                        ));
                        assert(section_len(cts[i as int]) >= 3);
                        assert(0 <= section_len(cts[i as int]) <= usize::MAX);
                        assert(false);
                    }
                    assert(rows_view(Seq::<TableRow>::empty()) =~= cts[i as int].rows);
                }
            }
            Vec::new()
        } else {
            proof {
                if okw {
                    assert(cfdefs[i as int].rows_len == section_len(cts[i as int]) as u64);
                    assert(cfdefs[i as int].rows_count == cts[i as int].rows.len() as u64);
                    if cts[i as int].rows.len() == 0 {
                        assert(cfdefs[i as int].rows_len == 0u64);
                        assert(false);
                    }
                    crate::format::lemma_rows_len(table_row_bytes(cts[i as int]), 0);
                    assert(table_row_bytes(cts[i as int]).skip(0) =~= table_row_bytes(
                        cts[i as int],
                    ));
                    assert(0 <= section_len(cts[i as int]) <= usize::MAX);
                    assert(cfdefs[i as int].rows_start as int == cbase + sections_len(
                        cts,
                        i as int,
                    ));
                    assert(cfdefs[i as int].rows_start as int + cfdefs[i as int].rows_len as int
                        <= v@.len());
                }
            }
            if e.2 as u128 + e.3 as u128 > v.len() as u128 {
                proof {
                    if okw {
                        assert(false);
                    }
                }
                return None;
            }
            let start = e.2 as usize;
            let sect_len = e.3 as usize;
            let sect = vstd::slice::slice_subrange(v, start, start + sect_len);
            match extract_rows(sect) {
                Some(rows) => {
                    proof {
                        if okw {
                            assert(sect@ =~= v@.subrange(
                                cfdefs[i as int].rows_start as int,
                                cfdefs[i as int].rows_start + cfdefs[i as int].rows_len,
                            ));
                            assert(crate::parser::rows::parse_rows_section(sect@) == Some(
                                table_row_bytes(cts[i as int]),
                            ));
                            let tbr = table_row_bytes(cts[i as int]);
                            assert(rows@.len() == tbr.len());
                            assert(rows_view(rows@) =~= cts[i as int].rows) by {
                                assert forall|j: int|
                                    0 <= j < tbr.len() implies rows_view(rows@)[j]
                                    == cts[i as int].rows[j] by {
                                    assert(crate::codec::parse_row_body(#[trigger] tbr[j])
                                        == Some(cts[i as int].rows[j]));
                                    assert((rows@[j])@ == crate::codec::parse_row_body(
                                        tbr[j],
                                    )->Some_0);
                                }
                            }
                        }
                    }
                    rows
                },
                None => {
                    proof {
                        if okw {
                            assert(sect@ =~= v@.subrange(
                                cfdefs[i as int].rows_start as int,
                                cfdefs[i as int].rows_start + cfdefs[i as int].rows_len,
                            ));
                            assert(crate::parser::rows::parse_rows_section(sect@) == Some(
                                table_row_bytes(cts[i as int]),
                            ));
                            assert(false);
                        }
                    }
                    return None;
                },
            }
        };
        let name1 = e.0.duplicate();
        let name2 = e.0.duplicate();
        let ghost prev_maps = maps@;
        let ghost prev_rows = rowlists@;
        maps.push((name1, fm));
        rowlists.push((name2, rows));
        proof {
            if okw {
                assert(maps@ =~= prev_maps.push((maps@.last().0, maps@.last().1)));
                assert(maps@[i as int].0@ == cfdefs[i as int].name);
                assert(cfdefs[i as int].name == cts[i as int].name);
            }
        }
        i += 1;
    }
    proof {
        assert forall|ts2: Seq<TableV>, kvv2: Seq<(Seq<u8>, ObjView)>|
            store_decodable(ts2, kvv2) && distinct_keys(kvv2) && v@ == #[trigger] enc_file(
                ts2,
                kvv2,
            ) implies (maps@.len() == ts2.len() && (forall|q: int|
            0 <= q < ts2.len() ==> (#[trigger] maps@[q]).0@ == ts2[q].name && maps@[q].1@
                == ts2[q].fields) && rowlists@.len() == ts2.len() && (forall|q: int|
            0 <= q < ts2.len() ==> (#[trigger] rowlists@[q]).0@ == ts2[q].name && rows_view(
                rowlists@[q].1@,
            ) == ts2[q].rows) && kvstore.wf() && entries_map(kvstore.entry_seq())
            == entries_map(kvv2)) by {
            assert(okw);
            lemma_store_encoding_unique(ts2, kvv2, cts, ckv);
        }
    }
    Some((maps, rowlists, kvstore))
}

} // verus!

