//! Decoding of table-definition record regions.

use vstd::prelude::*;
use vstd::bytes::{spec_u16_from_le_bytes, spec_u64_from_le_bytes, u16_from_le_bytes,
    u64_from_le_bytes};

use crate::bvstring::BvString;
use crate::bytevec::ByteVec;
use crate::cursor::Cursor;
use crate::format::{
    table_ident_spec, table_ident, enc_def_region, enc_def, def_len, def_valid,
    def_region_valid, def_offset, TableDefV, lemma_def_region_len, lemma_def_suffix_at,
    lemma_def_record_at, lemma_def_bytes,
};
use crate::slice::{bytes_eq, is_match_at};

verus! {

/// The grammar of a table-definition region.
pub open spec fn parse_def_region(v: Seq<u8>) -> Option<Seq<TableDefV>>
    decreases v.len(),
{
    if v.len() == 0 {
        Some(Seq::empty())
    } else if v.len() >= 6 && v.subrange(0, 3) == table_ident_spec() {
        let nl = v[3] as int;
        let fl = spec_u16_from_le_bytes(v.subrange(4, 6)) as int;
        if 1 <= nl && 30 + nl + fl <= v.len() {
            let d = TableDefV {
                name: v.subrange(6, 6 + nl),
                fields: v.subrange(6 + nl, 6 + nl + fl),
                rows_start: spec_u64_from_le_bytes(v.subrange(6 + nl + fl, 14 + nl + fl)),
                rows_len: spec_u64_from_le_bytes(v.subrange(14 + nl + fl, 22 + nl + fl)),
                rows_count: spec_u64_from_le_bytes(v.subrange(22 + nl + fl, 30 + nl + fl)),
            };
            match parse_def_region(v.subrange(30 + nl + fl, v.len() as int)) {
                Some(rest) => Some(seq![d] + rest),
                None => None,
            }
        } else {
            None
        }
    } else {
        None
    }
}

/// What the grammar accepts re-encodes to the input.
pub proof fn lemma_parse_def_sound(v: Seq<u8>)
    requires
        parse_def_region(v) is Some,
    ensures
        def_region_valid(parse_def_region(v)->Some_0),
        enc_def_region(parse_def_region(v)->Some_0) == v,
    decreases v.len(),
{
    let ds = parse_def_region(v)->Some_0;
    if v.len() == 0 {
        assert(ds =~= Seq::<TableDefV>::empty());
        assert(enc_def_region(ds) =~= v);
    } else {
        let nl = v[3] as int;
        let fl = spec_u16_from_le_bytes(v.subrange(4, 6)) as int;
        let relen = 30 + nl + fl;
        let d = TableDefV {
            name: v.subrange(6, 6 + nl),
            fields: v.subrange(6 + nl, 6 + nl + fl),
            rows_start: spec_u64_from_le_bytes(v.subrange(6 + nl + fl, 14 + nl + fl)),
            rows_len: spec_u64_from_le_bytes(v.subrange(14 + nl + fl, 22 + nl + fl)),
            rows_count: spec_u64_from_le_bytes(v.subrange(22 + nl + fl, 30 + nl + fl)),
        };
        let suffix = v.subrange(relen, v.len() as int);
        lemma_parse_def_sound(suffix);
        let rest = parse_def_region(suffix)->Some_0;
        assert(ds == seq![d] + rest);
        vstd::bytes::lemma_auto_spec_u16_to_from_le_bytes();
        vstd::bytes::lemma_auto_spec_u64_to_from_le_bytes();
        assert(def_valid(d)) by {
            assert(d.name.len() == nl);
            assert(d.fields.len() == fl);
            assert(fl <= u16::MAX);
        }
        assert(def_region_valid(ds)) by {
            assert forall|j: int| 0 <= j < ds.len() implies def_valid(#[trigger] ds[j]) by {
                if j == 0 {
                    assert(ds[0] == d);
                } else {
                    assert(ds[j] == rest[j - 1]);
                }
            }
        }
        assert(ds.first() == d);
        assert(ds.drop_first() =~= rest);
        assert(enc_def(d) =~= v.subrange(0, relen));
        assert(enc_def_region(ds) == enc_def(d) + enc_def_region(rest));
        assert(enc_def_region(ds) =~= v);
    }
}

/// Every valid region is accepted by the grammar, record for record.
pub proof fn lemma_parse_def_complete(ds: Seq<TableDefV>)
    requires
        def_region_valid(ds),
    ensures
        parse_def_region(enc_def_region(ds)) == Some(ds),
    decreases ds.len(),
{
    let v = enc_def_region(ds);
    if ds.len() == 0 {
        assert(v.len() == 0);
        assert(parse_def_region(v)->Some_0 =~= ds);
    } else {
        let d = ds[0];
        let dlen = def_len(d);
        lemma_def_record_at(ds, 0);
        lemma_def_suffix_at(ds, 1);
        lemma_def_region_len(ds, 0);
        lemma_def_region_len(ds, 1);
        vstd::bytes::lemma_auto_spec_u16_to_from_le_bytes();
        vstd::bytes::lemma_auto_spec_u64_to_from_le_bytes();
        assert(def_offset(ds, 0) == 0);
        assert(def_offset(ds, 1) == dlen);
        assert(v.subrange(0, dlen) == enc_def(d));
        lemma_def_bytes(v, 0, d);
        assert(v.len() >= 6);
        let nl = v[3] as int;
        let fl = spec_u16_from_le_bytes(v.subrange(4, 6)) as int;
        assert(nl == d.name.len()) by {
            assert(v[3] == d.name.len() as u8);
        }
        assert(fl == d.fields.len()) by {
            assert(v.subrange(4, 6) == vstd::bytes::spec_u16_to_le_bytes(
                d.fields.len() as u16,
            ));
        }
        assert(30 + nl + fl == dlen);
        let pd = TableDefV {
            name: v.subrange(6, 6 + nl),
            fields: v.subrange(6 + nl, 6 + nl + fl),
            rows_start: spec_u64_from_le_bytes(v.subrange(6 + nl + fl, 14 + nl + fl)),
            rows_len: spec_u64_from_le_bytes(v.subrange(14 + nl + fl, 22 + nl + fl)),
            rows_count: spec_u64_from_le_bytes(v.subrange(22 + nl + fl, 30 + nl + fl)),
        };
        assert(pd.name == d.name);
        assert(pd.fields == d.fields);
        assert(pd.rows_start == d.rows_start);
        assert(pd.rows_len == d.rows_len);
        assert(pd.rows_count == d.rows_count);
        assert(pd == d);
        let suffix = v.subrange(dlen, v.len() as int);
        assert(suffix == enc_def_region(ds.skip(1)));
        assert(def_region_valid(ds.skip(1))) by {
            assert forall|j: int| 0 <= j < ds.skip(1).len() implies def_valid(
                #[trigger] ds.skip(1)[j],
            ) by {
                assert(ds.skip(1)[j] == ds[j + 1]);
            }
        }
        lemma_parse_def_complete(ds.skip(1));
        assert(parse_def_region(v) == Some(seq![d] + ds.skip(1)));
        assert(seq![d] + ds.skip(1) =~= ds);
    }
}

/// Parse the three section lengths out of a file header.
pub fn extract_length(v: &[u8]) -> (r: Option<(usize, usize, usize)>)
    ensures
        match r {
            Some(t) => v@.len() >= 20 && t.0 == vstd::bytes::spec_u32_from_le_bytes(
                v@.subrange(0, 4),
            ) as usize && t.1 == spec_u64_from_le_bytes(v@.subrange(4, 12)) as usize && t.2
                == spec_u64_from_le_bytes(v@.subrange(12, 20)) as usize,
            None => v@.len() < 20,
        },
{
    if v.len() < 20 {
        return None;
    }
    let tl = vstd::bytes::u32_from_le_bytes(vstd::slice::slice_subrange(v, 0, 4));
    let kl = u64_from_le_bytes(vstd::slice::slice_subrange(v, 4, 12));
    let rl = u64_from_le_bytes(vstd::slice::slice_subrange(v, 12, 20));
    Some((tl as usize, kl as usize, rl as usize))
}

/// Parse the two length fields out of a table-definition header.
pub fn get_table_len(v: &[u8]) -> (r: Option<(usize, usize)>)
    ensures
        match r {
            Some(t) => v@.len() >= 6 && v@.subrange(0, 3) == table_ident_spec() && t.0 == v@[3]
                as usize && t.1 == spec_u16_from_le_bytes(v@.subrange(4, 6)) as usize,
            None => v@.len() < 6 || v@.subrange(0, 3) != table_ident_spec(),
        },
{
    if v.len() < 6 {
        return None;
    }
    let magic = vstd::slice::slice_subrange(v, 0, 3);
    let ident = table_ident();
    if !bytes_eq(magic, ident.as_slice()) {
        return None;
    }
    let lenb = vstd::slice::slice_subrange(v, 4, 6);
    let fl = u16_from_le_bytes(lenb);
    Some((v[3] as usize, fl as usize))
}

/// Extract the name, field bytes, and row fields of one record, given
/// its name and fields lengths.
pub fn extract_table(v: &[u8], k_len: usize, v_len: usize) -> (r: Option<
    (BvString, ByteVec, u64, u64, u64),
>)
    ensures
        match r {
            Some(p) => v@.len() >= 30 + k_len + v_len && v@.subrange(0, 3)
                == table_ident_spec() && p.0@ == v@.subrange(6, 6 + k_len) && p.1@
                == v@.subrange(6 + k_len, 6 + k_len + v_len) && p.2
                == spec_u64_from_le_bytes(
                v@.subrange(6 + k_len + v_len, 14 + k_len + v_len),
            ) && p.3 == spec_u64_from_le_bytes(
                v@.subrange(14 + k_len + v_len, 22 + k_len + v_len),
            ) && p.4 == spec_u64_from_le_bytes(
                v@.subrange(22 + k_len + v_len, 30 + k_len + v_len),
            ),
            None => v@.len() < 30 + k_len + v_len || v@.subrange(0, 3) != table_ident_spec(),
        },
{
    let n = v.len();
    let need = 30u128 + k_len as u128 + v_len as u128;
    if (n as u128) < need {
        return None;
    }
    let magic = vstd::slice::slice_subrange(v, 0, 3);
    let ident = table_ident();
    if !bytes_eq(magic, ident.as_slice()) {
        return None;
    }
    let mut cursor = Cursor::new(v);
    cursor.jump(6);
    let name = cursor.get(k_len);
    let fields = cursor.get(v_len);
    let rstart = u64_from_le_bytes(cursor.get(8));
    let rlen = u64_from_le_bytes(cursor.get(8));
    let rcount = u64_from_le_bytes(cursor.get(8));
    Some((BvString::from_slice(name), ByteVec::from_slice(fields), rstart, rlen, rcount))
}

/// Scan a definition region for record boundaries by the same
/// match-then-skip walk as the key-value scanner.
pub fn seqs_find_all(v: &[u8], seq: &[u8]) -> (r: Vec<usize>)
    requires
        seq@ == table_ident_spec(),
    ensures
        forall|j: int| 0 <= j < r@.len() ==> is_match_at(v@, seq@, r@[j] as int),
        parse_def_region(v@) matches Some(ds) ==> r@.len() == ds.len() && (forall|j: int|
            0 <= j < ds.len() ==> r@[j] == def_offset(ds, j)),
{
    let ghost valid = parse_def_region(v@) is Some;
    let ghost ds: Seq<TableDefV> = if valid {
        parse_def_region(v@)->Some_0
    } else {
        Seq::empty()
    };
    proof {
        if valid {
            lemma_parse_def_sound(v@);
        }
    }
    let n = v.len();
    let mut cursor = Cursor::new(v);
    let mut idxs: Vec<usize> = Vec::new();
    let mut seq_i: usize = 0;
    while cursor.position() < n
        invariant
            n == v@.len(),
            seq@ == table_ident_spec(),
            cursor.inner@ == v@,
            cursor.cursor <= n,
            seq_i <= 3,
            seq_i > 0 ==> cursor.cursor >= seq_i && v@.subrange(
                cursor.cursor - seq_i,
                cursor.cursor as int,
            ) == seq@.subrange(0, seq_i as int),
            forall|j: int| 0 <= j < idxs@.len() ==> is_match_at(v@, seq@, idxs@[j] as int),
            valid == (parse_def_region(v@) is Some),
            valid ==> ds == parse_def_region(v@)->Some_0,
            valid ==> v@ == enc_def_region(ds) && def_region_valid(ds),
            valid ==> idxs@.len() <= ds.len(),
            valid ==> (forall|j: int| 0 <= j < idxs@.len() ==> idxs@[j] == def_offset(ds, j)),
            valid ==> cursor.cursor == def_offset(ds, idxs@.len() as int) + seq_i,
            valid ==> (idxs@.len() < ds.len() || seq_i == 0),
        decreases n - cursor.cursor,
    {
        if seq_i == 3 {
            let pos = cursor.position();
            let back = pos - 3;
            proof {
                assert(v@.subrange(back as int, pos as int) == seq@.subrange(0, 3));
                assert(seq@.subrange(0, 3) =~= seq@);
                assert(is_match_at(v@, seq@, back as int));
                if valid {
                    let k = idxs@.len() as int;
                    assert(k < ds.len());
                    assert(back == def_offset(ds, k));
                    assert(def_valid(ds[k]));
                    lemma_def_record_at(ds, k);
                    lemma_def_bytes(v@, back as int, ds[k]);
                }
            }
            let ghost prev_idxs = idxs@;
            idxs.push(back);
            cursor.jump(back);
            proof {
                if valid {
                    let k = prev_idxs.len() as int;
                    assert(idxs@ =~= prev_idxs.push(back));
                    assert(idxs@[k] == back);
                    assert(back + def_len(ds[k]) <= n);
                }
            }
            if n - back < 6 {
                proof {
                    if valid {
                        let k = prev_idxs.len() as int;
                        assert(k < ds.len());
                        assert(def_valid(ds[k]));
                        assert(def_len(ds[k]) >= 31);
                        assert(false);
                    }
                }
                return idxs;
            }
            let header = cursor.get(6);
            match get_table_len(header) {
                None => {
                    proof {
                        if valid {
                            let k = prev_idxs.len() as int;
                            assert(header@ == v@.subrange(back as int, back + 6));
                            assert(header@.subrange(0, 3) =~= v@.subrange(
                                back as int,
                                back + 3,
                            ));
                            assert(false);
                        }
                    }
                    return idxs;
                },
                Some((k_len, v_len)) => {
                    let skip128 = k_len as u128 + v_len as u128 + 24u128;
                    let pos128 = cursor.position() as u128;
                    proof {
                        if valid {
                            let k = prev_idxs.len() as int;
                            assert(header@ == v@.subrange(back as int, back + 6));
                            assert(header@[3] == v@[back + 3]);
                            assert(header@.subrange(4, 6) =~= v@.subrange(back + 4, back + 6));
                            vstd::bytes::lemma_auto_spec_u16_to_from_le_bytes();
                            assert(k_len == ds[k].name.len());
                            assert(v_len == ds[k].fields.len());
                            assert(def_offset(ds, k + 1) == def_offset(ds, k) + def_len(
                                ds[k],
                            ));
                        }
                    }
                    if pos128 + skip128 > n as u128 {
                        proof {
                            if valid {
                                assert(false);
                            }
                        }
                        return idxs;
                    }
                    cursor.jump_forward(k_len + v_len + 24);
                    seq_i = 0;
                },
            }
        }
        if cursor.position() < n {
            let ghost pre = cursor.cursor;
            let b = cursor.next();
            if b == seq[seq_i] {
                proof {
                    assert(v@.subrange(pre - seq_i, pre + 1) =~= v@.subrange(
                        pre - seq_i,
                        pre as int,
                    ).push(v@[pre as int]));
                    assert(seq@.subrange(0, seq_i + 1) =~= seq@.subrange(0, seq_i as int).push(
                        seq@[seq_i as int],
                    ));
                    if valid {
                        let k = idxs@.len() as int;
                        if k < ds.len() {
                            assert(def_valid(ds[k]));
                            lemma_def_record_at(ds, k);
                            lemma_def_bytes(v@, def_offset(ds, k), ds[k]);
                        } else {
                            lemma_def_region_len(ds, k);
                            lemma_def_region_len(ds, 0);
                            assert(ds.skip(0) =~= ds);
                            assert(def_offset(ds, k) == v@.len());
                            assert(false);
                        }
                    }
                }
                seq_i = seq_i + 1;
            } else {
                proof {
                    if valid {
                        let k = idxs@.len() as int;
                        if k < ds.len() {
                            assert(def_valid(ds[k]));
                            lemma_def_record_at(ds, k);
                            lemma_def_bytes(v@, def_offset(ds, k), ds[k]);
                            assert(v@[def_offset(ds, k) + seq_i]
                                == table_ident_spec()[seq_i as int]);
                            assert(false);
                        } else {
                            lemma_def_region_len(ds, k);
                            lemma_def_region_len(ds, 0);
                            assert(ds.skip(0) =~= ds);
                            assert(def_offset(ds, k) == v@.len());
                            assert(false);
                        }
                    }
                }
                seq_i = 0;
            }
        } else {
            proof {
                if valid {
                    let k = idxs@.len() as int;
                    if k < ds.len() {
                        assert(def_valid(ds[k]));
                        lemma_def_record_at(ds, k);
                        assert(def_offset(ds, k) + def_len(ds[k]) <= n);
                        assert(def_len(ds[k]) >= 31);
                        assert(false);
                    }
                }
            }
            seq_i = 0;
        }
    }
    proof {
        if valid {
            let k = idxs@.len() as int;
            if k < ds.len() {
                assert(def_valid(ds[k]));
                lemma_def_record_at(ds, k);
                assert(def_offset(ds, k) + def_len(ds[k]) <= n);
                assert(def_len(ds[k]) >= 31);
                assert(cursor.cursor < n);
                assert(false);
            }
        }
    }
    idxs
}

/// The view of an extracted definition record.
pub open spec fn def_rec_view(p: (BvString, ByteVec, u64, u64, u64)) -> TableDefV {
    TableDefV {
        name: p.0@,
        fields: p.1@,
        rows_start: p.2,
        rows_len: p.3,
        rows_count: p.4,
    }
}

/// Decode a whole definition region into its records, in file order.
pub fn extract_tables(v: &[u8]) -> (r: Option<Vec<(BvString, ByteVec, u64, u64, u64)>>)
    ensures
        parse_def_region(v@) matches Some(ds) ==> (r matches Some(recs) && recs@.len()
            == ds.len() && (forall|j: int|
            0 <= j < ds.len() ==> def_rec_view(#[trigger] recs@[j]) == ds[j])),
{
    let ghost valid = parse_def_region(v@) is Some;
    let ghost ds: Seq<TableDefV> = if valid {
        parse_def_region(v@)->Some_0
    } else {
        Seq::empty()
    };
    proof {
        if valid {
            lemma_parse_def_sound(v@);
        }
    }
    let ident = table_ident();
    let idxs = seqs_find_all(v, ident.as_slice());
    let mut out: Vec<(BvString, ByteVec, u64, u64, u64)> = Vec::new();
    let n = idxs.len();
    let mut i: usize = 0;
    while i < n
        invariant
            n == idxs@.len(),
            i <= n,
            forall|j: int|
                0 <= j < idxs@.len() ==> is_match_at(v@, table_ident_spec(), idxs@[j] as int),
            valid == (parse_def_region(v@) is Some),
            valid ==> ds == parse_def_region(v@)->Some_0 && v@ == enc_def_region(ds)
                && def_region_valid(ds) && idxs@.len() == ds.len() && (forall|j: int|
                0 <= j < ds.len() ==> idxs@[j] == def_offset(ds, j)),
            out@.len() == i,
            valid ==> (forall|j: int|
                0 <= j < i ==> def_rec_view(#[trigger] out@[j]) == ds[j]),
        decreases n - i,
    {
        let idx = idxs[i];
        proof {
            if valid {
                assert(def_valid(ds[i as int]));
                lemma_def_record_at(ds, i as int);
                lemma_def_bytes(v@, idx as int, ds[i as int]);
            }
        }
        if v.len() - idx < 6 {
            proof {
                if valid {
                    assert(false);
                }
            }
            return None;
        }
        let mut cursor = Cursor::new(v);
        cursor.jump(idx);
        let header = cursor.peek(6);
        match get_table_len(header) {
            None => {
                proof {
                    if valid {
                        assert(header@.subrange(0, 3) =~= v@.subrange(
                            idx as int,
                            idx as int + 3,
                        ));
                        assert(false);
                    }
                }
                return None;
            },
            Some((k_len, v_len)) => {
                proof {
                    if valid {
                        assert(header@[3] == v@[idx + 3]);
                        assert(header@.subrange(4, 6) =~= v@.subrange(idx + 4, idx + 6));
                        vstd::bytes::lemma_auto_spec_u16_to_from_le_bytes();
                        assert(k_len == ds[i as int].name.len());
                        assert(v_len == ds[i as int].fields.len());
                    }
                }
                let rec_end = idx as u128 + 30u128 + k_len as u128 + v_len as u128;
                if rec_end > v.len() as u128 {
                    proof {
                        if valid {
                            assert(false);
                        }
                    }
                    return None;
                }
                let rec = cursor.get(30 + k_len + v_len);
                match extract_table(rec, k_len, v_len) {
                    None => {
                        proof {
                            if valid {
                                assert(rec@.subrange(0, 3) =~= v@.subrange(
                                    idx as int,
                                    idx as int + 3,
                                ));
                                assert(false);
                            }
                        }
                        return None;
                    },
                    Some(p) => {
                        proof {
                            if valid {
                                let d = ds[i as int];
                                vstd::bytes::lemma_auto_spec_u64_to_from_le_bytes();
                                assert(rec@ == v@.subrange(idx as int, idx + def_len(d)));
                                assert(rec@.subrange(6, 6 + k_len as int) =~= v@.subrange(
                                    idx + 6,
                                    idx + 6 + k_len,
                                ));
                                assert(rec@.subrange(
                                    6 + k_len as int,
                                    6 + k_len + v_len as int,
                                ) =~= v@.subrange(idx + 6 + k_len, idx + 6 + k_len + v_len));
                                assert(rec@.subrange(
                                    6 + k_len + v_len as int,
                                    14 + k_len + v_len as int,
                                ) =~= v@.subrange(
                                    idx + 6 + k_len + v_len,
                                    idx + 14 + k_len + v_len,
                                ));
                                assert(rec@.subrange(
                                    14 + k_len + v_len as int,
                                    22 + k_len + v_len as int,
                                ) =~= v@.subrange(
                                    idx + 14 + k_len + v_len,
                                    idx + 22 + k_len + v_len,
                                ));
                                assert(rec@.subrange(
                                    22 + k_len + v_len as int,
                                    30 + k_len + v_len as int,
                                ) =~= v@.subrange(
                                    idx + 22 + k_len + v_len,
                                    idx + 30 + k_len + v_len,
                                ));
                                assert(def_rec_view(p) == d);
                            }
                        }
                        let ghost prev = out@;
                        out.push(p);
                        proof {
                            assert(out@ =~= prev.push(p));
                        }
                    },
                }
            },
        }
        i += 1;
    }
    proof {
        if valid {
            assert(out@.len() == ds.len());
        }
    }
    Some(out)
}

} // verus!
