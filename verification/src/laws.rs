//! The library's global laws, stated and proved over the spec functions
//! that the executable contracts use.

use vstd::prelude::*;
use vstd::bytes::{spec_u16_to_le_bytes, spec_u16_from_le_bytes, spec_u32_to_le_bytes,
    spec_u32_from_le_bytes, spec_u64_to_le_bytes, spec_u64_from_le_bytes};

use crate::bvobject::ObjView;
use crate::codec::{parse_field_map, parse_row_body, enc_field_map, enc_row_body, fm_enc_valid,
    row_enc_valid, lemma_parse_field_map_complete, lemma_parse_row_body_complete};
use crate::format::enc_header;
use crate::parser::kv::{parse_kv_region, lemma_parse_kv_complete};
use crate::parser::rows::{parse_rows_section, lemma_parse_rows_section_complete};
use crate::parser::table::{parse_def_region, lemma_parse_def_complete};
use crate::reader::{lemma_file_structure, lemma_section_at};
use crate::writer::{TableV, enc_file, enc_section, store_valid, defs_total, kv_total,
    sections_len, section_len, final_defs, table_row_bytes};

verus! {

/// Round trip of a whole store: every region of the encoded file image
/// parses back to exactly the store it was written from — the header
/// declares the three section lengths, the definition region parses to
/// the back-patched definitions, the key-value region parses to the
/// key-value entries, each non-empty table's rows section (at the offset
/// its patched definition declares) parses to its serialized rows, and
/// every serialized row parses back to the row itself.
pub proof fn lemma_file_round_trip(ts: Seq<TableV>, kvv: Seq<(Seq<u8>, ObjView)>)
    requires
        store_valid(ts, kvv),
        forall|i: int| 0 <= i < ts.len() ==> fm_enc_valid((#[trigger] ts[i]).fields),
        forall|i: int, j: int|
            0 <= i < ts.len() && 0 <= j < ts[i].rows.len() ==> row_enc_valid(
                (#[trigger] ts[i].rows[j]),
            ),
    ensures
        ({
            let v = enc_file(ts, kvv);
            let base = 20 + defs_total(ts) + kv_total(kvv);
            let fdefs = final_defs(ts, base);
            &&& v.subrange(0, 20) == enc_header(
                defs_total(ts) as u32,
                kv_total(kvv) as u64,
                sections_len(ts, ts.len() as int) as u64,
            )
            &&& parse_def_region(v.subrange(20, 20 + defs_total(ts))) == Some(fdefs)
            &&& parse_kv_region(v.subrange(20 + defs_total(ts), base)) == Some(kvv)
            &&& forall|i: int|
                0 <= i < ts.len() ==> parse_field_map((#[trigger] fdefs[i]).fields) == Some(
                    ts[i].fields,
                )
            &&& forall|i: int|
                0 <= i < ts.len() && ts[i].rows.len() > 0 ==> parse_rows_section(
                    v.subrange(
                        (#[trigger] fdefs[i]).rows_start as int,
                        fdefs[i].rows_start + fdefs[i].rows_len,
                    ),
                ) == Some(table_row_bytes(ts[i]))
            &&& forall|i: int, j: int|
                0 <= i < ts.len() && 0 <= j < ts[i].rows.len() ==> parse_row_body(
                    #[trigger] table_row_bytes(ts[i])[j],
                ) == Some(ts[i].rows[j])
        }),
{
    let v = enc_file(ts, kvv);
    let base = 20 + defs_total(ts) + kv_total(kvv);
    let fdefs = final_defs(ts, base);
    lemma_file_structure(ts, kvv);
    assert(crate::format::def_region_valid(fdefs)) by {
        assert forall|i: int| 0 <= i < fdefs.len() implies crate::format::def_valid(
            #[trigger] fdefs[i],
        ) by {
            assert(crate::writer::table_valid(ts[i]));
        }
    }
    lemma_parse_def_complete(fdefs);
    lemma_parse_kv_complete(kvv);
    assert forall|i: int| 0 <= i < ts.len() implies parse_field_map(
        (#[trigger] fdefs[i]).fields,
    ) == Some(ts[i].fields) by {
        assert(fdefs[i].fields == enc_field_map(ts[i].fields));
        lemma_parse_field_map_complete(ts[i].fields);
    }
    assert forall|i: int, j: int|
        0 <= i < ts.len() && 0 <= j < ts[i].rows.len() implies parse_row_body(
        #[trigger] table_row_bytes(ts[i])[j],
    ) == Some(ts[i].rows[j]) by {
        assert(table_row_bytes(ts[i])[j] == enc_row_body(ts[i].rows[j]));
        lemma_parse_row_body_complete(ts[i].rows[j]);
    }
    assert forall|i: int|
        0 <= i < ts.len() && ts[i].rows.len() > 0 implies parse_rows_section(
        v.subrange(
            (#[trigger] fdefs[i]).rows_start as int,
            fdefs[i].rows_start + fdefs[i].rows_len,
        ),
    ) == Some(table_row_bytes(ts[i])) by {
        crate::reader::lemma_back_patch_points_at_magic(ts, kvv, i);
        lemma_section_at(ts, kvv, i);
        assert(crate::format::rows_valid(table_row_bytes(ts[i]))) by {
            assert forall|j: int|
                0 <= j < table_row_bytes(ts[i]).len() implies crate::format::row_valid(
                #[trigger] table_row_bytes(ts[i])[j],
            ) by {
                assert(crate::writer::table_valid(ts[i]));
                assert(table_row_bytes(ts[i])[j] == enc_row_body(ts[i].rows[j]));
            }
        }
        let start = fdefs[i].rows_start as int;
        assert(fdefs[i].rows_start == (base + sections_len(ts, i)) as u64);
        assert(fdefs[i].rows_len == section_len(ts[i]) as u64);
        assert(section_len(ts[i]) >= 0) by {
            crate::format::lemma_rows_len(table_row_bytes(ts[i]), 0);
            assert(table_row_bytes(ts[i]).skip(0) =~= table_row_bytes(ts[i]));
        }
        assert(0 <= base + sections_len(ts, i) <= usize::MAX);
        assert(0 <= section_len(ts[i]) <= usize::MAX);
        assert(start == base + sections_len(ts, i));
        let s = enc_sections_whole(ts);
        assert(v.subrange(base, v.len() as int) == s);
        assert(s.subrange(sections_len(ts, i), sections_len(ts, i) + section_len(ts[i]))
            == enc_section(ts[i]));
        assert(v.subrange(start, start + section_len(ts[i])) =~= enc_section(ts[i]));
        assert(enc_section(ts[i]) == crate::format::rows_ident_spec() + crate::format::enc_rows(
            table_row_bytes(ts[i]),
        ));
        lemma_parse_rows_section_complete(table_row_bytes(ts[i]));
    }
}

/// The whole rows-section concatenation of a store.
pub open spec fn enc_sections_whole(ts: Seq<TableV>) -> Seq<u8> {
    crate::writer::enc_sections(ts, ts.len() as int)
}


/// The decode hypotheses of the round trip: the store fits the format
/// and every nested encoding fits its length fields.
pub open spec fn store_decodable(ts: Seq<TableV>, kvv: Seq<(Seq<u8>, ObjView)>) -> bool {
    &&& store_valid(ts, kvv)
    &&& forall|i: int| 0 <= i < ts.len() ==> fm_enc_valid((#[trigger] ts[i]).fields)
    &&& forall|i: int, j: int|
        0 <= i < ts.len() && 0 <= j < ts[i].rows.len() ==> row_enc_valid(
            (#[trigger] ts[i].rows[j]),
        )
}

/// Two tables read off the same definition record and rows bytes are
/// the same table.
proof fn lemma_table_equal_from_image(
    v: Seq<u8>,
    d: crate::format::TableDefV,
    t1: TableV,
    t2: TableV,
)
    requires
        t1.name == d.name,
        t2.name == d.name,
        parse_field_map(d.fields) == Some(t1.fields),
        parse_field_map(d.fields) == Some(t2.fields),
        0 <= section_len(t1) <= usize::MAX,
        0 <= section_len(t2) <= usize::MAX,
        d.rows_len == section_len(t1) as u64,
        d.rows_len == section_len(t2) as u64,
        t1.rows.len() > 0 ==> parse_rows_section(
            v.subrange(d.rows_start as int, d.rows_start + d.rows_len),
        ) == Some(table_row_bytes(t1)),
        t2.rows.len() > 0 ==> parse_rows_section(
            v.subrange(d.rows_start as int, d.rows_start + d.rows_len),
        ) == Some(table_row_bytes(t2)),
        forall|j: int|
            0 <= j < t1.rows.len() ==> parse_row_body(#[trigger] table_row_bytes(t1)[j])
                == Some(t1.rows[j]),
        forall|j: int|
            0 <= j < t2.rows.len() ==> parse_row_body(#[trigger] table_row_bytes(t2)[j])
                == Some(t2.rows[j]),
    ensures
        t1 == t2,
{
    if t1.rows.len() > 0 {
        crate::format::lemma_rows_len(table_row_bytes(t1), 0);
        assert(table_row_bytes(t1).skip(0) =~= table_row_bytes(t1));
        assert(section_len(t1) >= 3);
    }
    if t2.rows.len() > 0 {
        crate::format::lemma_rows_len(table_row_bytes(t2), 0);
        assert(table_row_bytes(t2).skip(0) =~= table_row_bytes(t2));
        assert(section_len(t2) >= 3);
    }
    if t1.rows.len() == 0 && t2.rows.len() == 0 {
        assert(t1.rows =~= t2.rows);
    } else if t1.rows.len() > 0 && t2.rows.len() > 0 {
        let tbr = table_row_bytes(t1);
        assert(table_row_bytes(t2) == tbr);
        assert(t1.rows.len() == tbr.len());
        assert(t2.rows.len() == tbr.len());
        assert(t1.rows =~= t2.rows) by {
            assert forall|j: int| 0 <= j < t1.rows.len() implies t1.rows[j] == t2.rows[j] by {
                assert(parse_row_body(tbr[j]) == Some(t1.rows[j]));
                assert(table_row_bytes(t2)[j] == tbr[j]);
                assert(parse_row_body(tbr[j]) == Some(t2.rows[j]));
            }
        }
    } else if t1.rows.len() > 0 {
        assert(section_len(t2) == 0);
        assert(d.rows_len == 0u64);
        assert(section_len(t1) >= 3);
        assert(false);
    } else {
        assert(section_len(t1) == 0);
        assert(d.rows_len == 0u64);
        assert(section_len(t2) >= 3);
        assert(false);
    }
}

/// One image, one store: two stores that encode to the same file image
/// are the same store.
#[verifier::rlimit(100)]
pub proof fn lemma_store_encoding_unique(
    ts1: Seq<TableV>,
    kvv1: Seq<(Seq<u8>, ObjView)>,
    ts2: Seq<TableV>,
    kvv2: Seq<(Seq<u8>, ObjView)>,
)
    requires
        store_decodable(ts1, kvv1),
        store_decodable(ts2, kvv2),
        enc_file(ts1, kvv1) == enc_file(ts2, kvv2),
    ensures
        ts1 == ts2,
        kvv1 == kvv2,
{
    let v = enc_file(ts1, kvv1);
    lemma_file_round_trip(ts1, kvv1);
    lemma_file_round_trip(ts2, kvv2);
    lemma_file_structure(ts1, kvv1);
    lemma_file_structure(ts2, kvv2);
    assert(defs_total(ts1) == defs_total(ts2) && kv_total(kvv1) == kv_total(kvv2)
        && sections_len(ts1, ts1.len() as int) == sections_len(ts2, ts2.len() as int)) by {
        vstd::bytes::lemma_auto_spec_u32_to_from_le_bytes();
        vstd::bytes::lemma_auto_spec_u64_to_from_le_bytes();
        let h1 = enc_header(
            defs_total(ts1) as u32,
            kv_total(kvv1) as u64,
            sections_len(ts1, ts1.len() as int) as u64,
        );
        let h2 = enc_header(
            defs_total(ts2) as u32,
            kv_total(kvv2) as u64,
            sections_len(ts2, ts2.len() as int) as u64,
        );
        assert(h1 == h2);
        assert(h1.subrange(0, 4) =~= vstd::bytes::spec_u32_to_le_bytes(
            defs_total(ts1) as u32,
        ));
        assert(h2.subrange(0, 4) =~= vstd::bytes::spec_u32_to_le_bytes(
            defs_total(ts2) as u32,
        ));
        assert(h1.subrange(4, 12) =~= spec_u64_to_le_bytes(kv_total(kvv1) as u64));
        assert(h2.subrange(4, 12) =~= spec_u64_to_le_bytes(kv_total(kvv2) as u64));
        assert(h1.subrange(12, 20) =~= spec_u64_to_le_bytes(
            sections_len(ts1, ts1.len() as int) as u64,
        ));
        assert(h2.subrange(12, 20) =~= spec_u64_to_le_bytes(
            sections_len(ts2, ts2.len() as int) as u64,
        ));
    }
    let base = 20 + defs_total(ts1) + kv_total(kvv1);
    let fdefs1 = final_defs(ts1, base);
    let fdefs2 = final_defs(ts2, base);
    assert(parse_def_region(v.subrange(20, 20 + defs_total(ts1))) == Some(fdefs1));
    assert(parse_def_region(v.subrange(20, 20 + defs_total(ts2))) == Some(fdefs2));
    assert(fdefs1 == fdefs2);
    assert(parse_kv_region(v.subrange(20 + defs_total(ts1), base)) == Some(kvv1));
    assert(parse_kv_region(v.subrange(20 + defs_total(ts2), base)) == Some(kvv2));
    assert(kvv1 == kvv2);
    assert(ts1.len() == ts2.len());
    assert forall|i: int| 0 <= i < ts1.len() implies ts1[i] == ts2[i] by {
        assert(fdefs1[i] == fdefs2[i]);
        lemma_section_at(ts1, kvv1, i);
        lemma_section_at(ts2, kvv2, i);
        assert(0 <= section_len(ts1[i]) <= usize::MAX) by {
            if ts1[i].rows.len() > 0 {
                crate::format::lemma_rows_len(table_row_bytes(ts1[i]), 0);
                assert(table_row_bytes(ts1[i]).skip(0) =~= table_row_bytes(ts1[i]));
            }
        }
        assert(0 <= section_len(ts2[i]) <= usize::MAX) by {
            if ts2[i].rows.len() > 0 {
                crate::format::lemma_rows_len(table_row_bytes(ts2[i]), 0);
                assert(table_row_bytes(ts2[i]).skip(0) =~= table_row_bytes(ts2[i]));
            }
        }
        lemma_table_equal_from_image(v, fdefs1[i], ts1[i], ts2[i]);
    }
    assert(ts1 =~= ts2);
}

/// Numeric reinterpretation inverts construction: a value whose raw
/// bytes are the little-endian encoding of a native `u16` reinterprets
/// to that very number.
pub proof fn lemma_reinterpret_u16(x: u16)
    ensures
        ({
            let o = ObjView { type_tag: seq![117u8, 49u8, 54u8], raw: spec_u16_to_le_bytes(x) };
            spec_u16_from_le_bytes(o.raw.subrange(0, 2)) == x
        }),
{
    vstd::bytes::lemma_auto_spec_u16_to_from_le_bytes();
    let o = ObjView { type_tag: seq![117u8, 49u8, 54u8], raw: spec_u16_to_le_bytes(x) };
    assert(o.raw.subrange(0, 2) =~= spec_u16_to_le_bytes(x));
}

/// Numeric reinterpretation inverts construction for `u32`.
pub proof fn lemma_reinterpret_u32(x: u32)
    ensures
        ({
            let o = ObjView { type_tag: seq![117u8, 51u8, 50u8], raw: spec_u32_to_le_bytes(x) };
            spec_u32_from_le_bytes(o.raw.subrange(0, 4)) == x
        }),
{
    vstd::bytes::lemma_auto_spec_u32_to_from_le_bytes();
    let o = ObjView { type_tag: seq![117u8, 51u8, 50u8], raw: spec_u32_to_le_bytes(x) };
    assert(o.raw.subrange(0, 4) =~= spec_u32_to_le_bytes(x));
}

/// Numeric reinterpretation inverts construction for `u64`.
pub proof fn lemma_reinterpret_u64(x: u64)
    ensures
        ({
            let o = ObjView { type_tag: seq![117u8, 54u8, 52u8], raw: spec_u64_to_le_bytes(x) };
            spec_u64_from_le_bytes(o.raw.subrange(0, 8)) == x
        }),
{
    vstd::bytes::lemma_auto_spec_u64_to_from_le_bytes();
    let o = ObjView { type_tag: seq![117u8, 54u8, 52u8], raw: spec_u64_to_le_bytes(x) };
    assert(o.raw.subrange(0, 8) =~= spec_u64_to_le_bytes(x));
}

/// Numeric reinterpretation inverts construction for `i32`: the
/// two's-complement bytes of a signed value reinterpret to it.
pub proof fn lemma_reinterpret_i32(x: i32)
    ensures
        ({
            let o = ObjView {
                type_tag: seq![105u8, 51u8, 50u8],
                raw: spec_u32_to_le_bytes(x as u32),
            };
            spec_u32_from_le_bytes(o.raw.subrange(0, 4)) as i32 == x
        }),
{
    vstd::bytes::lemma_auto_spec_u32_to_from_le_bytes();
    let o = ObjView { type_tag: seq![105u8, 51u8, 50u8], raw: spec_u32_to_le_bytes(x as u32) };
    assert(o.raw.subrange(0, 4) =~= spec_u32_to_le_bytes(x as u32));
    assert(spec_u32_from_le_bytes(spec_u32_to_le_bytes(x as u32)) == x as u32);
    assert((x as u32) as i32 == x) by (bit_vector);
}

/// Numeric reinterpretation inverts construction for `i64`.
pub proof fn lemma_reinterpret_i64(x: i64)
    ensures
        ({
            let o = ObjView {
                type_tag: seq![105u8, 54u8, 52u8],
                raw: spec_u64_to_le_bytes(x as u64),
            };
            spec_u64_from_le_bytes(o.raw.subrange(0, 8)) as i64 == x
        }),
{
    vstd::bytes::lemma_auto_spec_u64_to_from_le_bytes();
    let o = ObjView { type_tag: seq![105u8, 54u8, 52u8], raw: spec_u64_to_le_bytes(x as u64) };
    assert(o.raw.subrange(0, 8) =~= spec_u64_to_le_bytes(x as u64));
    assert(spec_u64_from_le_bytes(spec_u64_to_le_bytes(x as u64)) == x as u64);
    assert((x as u64) as i64 == x) by (bit_vector);
}

} // verus!
