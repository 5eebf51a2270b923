//! Decoding of table-row sections: one section magic, then one record per
//! row, each holding a serialized row body.

use vstd::prelude::*;
use vstd::bytes::{spec_u32_from_le_bytes, u32_from_le_bytes};

use crate::codec::{decode_row_body, parse_row_body};
use crate::cursor::Cursor;
use crate::format::{
    rows_ident_spec, record_ident_spec, record_ident, enc_rows, enc_row, row_len, row_valid,
    rows_valid, row_offset, lemma_rows_len, lemma_rows_suffix_at, lemma_row_record_at,
    lemma_row_bytes,
};
use crate::slice::{bytes_eq, is_match_at};
use crate::table_types::TableRow;

verus! {

/// The grammar of concatenated row records.
pub open spec fn parse_row_records(v: Seq<u8>) -> Option<Seq<Seq<u8>>>
    decreases v.len(),
{
    if v.len() == 0 {
        Some(Seq::empty())
    } else if v.len() >= 7 && v.subrange(0, 3) == record_ident_spec() {
        let rl = spec_u32_from_le_bytes(v.subrange(3, 7)) as int;
        if 7 + rl <= v.len() {
            match parse_row_records(v.subrange(7 + rl, v.len() as int)) {
                Some(rest) => Some(seq![v.subrange(7, 7 + rl)] + rest),
                None => None,
            }
        } else {
            None
        }
    } else {
        None
    }
}

/// The grammar of a whole rows section: the section magic, then records.
pub open spec fn parse_rows_section(v: Seq<u8>) -> Option<Seq<Seq<u8>>> {
    if v.len() >= 3 && v.subrange(0, 3) == rows_ident_spec() {
        parse_row_records(v.subrange(3, v.len() as int))
    } else {
        None
    }
}

/// What the grammar accepts re-encodes to the input.
pub proof fn lemma_parse_rows_sound(v: Seq<u8>)
    requires
        parse_row_records(v) is Some,
    ensures
        rows_valid(parse_row_records(v)->Some_0),
        enc_rows(parse_row_records(v)->Some_0) == v,
    decreases v.len(),
{
    let rs = parse_row_records(v)->Some_0;
    if v.len() == 0 {
        assert(rs =~= Seq::<Seq<u8>>::empty());
        assert(enc_rows(rs) =~= v);
    } else {
        let rl = spec_u32_from_le_bytes(v.subrange(3, 7)) as int;
        let relen = 7 + rl;
        let p = v.subrange(7, relen);
        let suffix = v.subrange(relen, v.len() as int);
        lemma_parse_rows_sound(suffix);
        let rest = parse_row_records(suffix)->Some_0;
        assert(rs == seq![p] + rest);
        vstd::bytes::lemma_auto_spec_u32_to_from_le_bytes();
        assert(row_valid(p));
        assert(rows_valid(rs)) by {
            assert forall|j: int| 0 <= j < rs.len() implies row_valid(#[trigger] rs[j]) by {
                if j == 0 {
                    assert(rs[0] == p);
                } else {
                    assert(rs[j] == rest[j - 1]);
                }
            }
        }
        assert(rs.first() == p);
        assert(rs.drop_first() =~= rest);
        assert(enc_row(p) =~= v.subrange(0, relen));
        assert(enc_rows(rs) == enc_row(p) + enc_rows(rest));
        assert(enc_rows(rs) =~= v);
    }
}

/// Every valid record list is accepted by the grammar.
pub proof fn lemma_parse_rows_complete(rs: Seq<Seq<u8>>)
    requires
        rows_valid(rs),
    ensures
        parse_row_records(enc_rows(rs)) == Some(rs),
    decreases rs.len(),
{
    let v = enc_rows(rs);
    if rs.len() == 0 {
        assert(v.len() == 0);
        assert(parse_row_records(v)->Some_0 =~= rs);
    } else {
        let p = rs[0];
        let plen = row_len(p);
        lemma_row_record_at(rs, 0);
        lemma_rows_suffix_at(rs, 1);
        lemma_rows_len(rs, 0);
        lemma_rows_len(rs, 1);
        vstd::bytes::lemma_auto_spec_u32_to_from_le_bytes();
        assert(row_offset(rs, 0) == 0);
        assert(row_offset(rs, 1) == plen);
        assert(v.subrange(0, plen) == enc_row(p));
        lemma_row_bytes(v, 0, p);
        assert(v.len() >= 7);
        let rl = spec_u32_from_le_bytes(v.subrange(3, 7)) as int;
        assert(rl == p.len()) by {
            assert(v.subrange(3, 7) == vstd::bytes::spec_u32_to_le_bytes(p.len() as u32));
        }
        assert(7 + rl == plen);
        assert(v.subrange(7, 7 + rl) == p);
        let suffix = v.subrange(plen, v.len() as int);
        assert(suffix == enc_rows(rs.skip(1)));
        assert(rows_valid(rs.skip(1))) by {
            assert forall|j: int| 0 <= j < rs.skip(1).len() implies row_valid(
                #[trigger] rs.skip(1)[j],
            ) by {
                assert(rs.skip(1)[j] == rs[j + 1]);
            }
        }
        lemma_parse_rows_complete(rs.skip(1));
        assert(parse_row_records(v) == Some(seq![p] + rs.skip(1)));
        assert(seq![p] + rs.skip(1) =~= rs);
    }
}

/// A whole valid section round-trips through the section grammar.
pub proof fn lemma_parse_rows_section_complete(rs: Seq<Seq<u8>>)
    requires
        rows_valid(rs),
    ensures
        parse_rows_section(rows_ident_spec() + enc_rows(rs)) == Some(rs),
{
    let v = rows_ident_spec() + enc_rows(rs);
    assert(v.subrange(0, 3) =~= rows_ident_spec());
    assert(v.subrange(3, v.len() as int) =~= enc_rows(rs));
    lemma_parse_rows_complete(rs);
}

/// Parse the row length out of a row-record header.
pub fn get_record_len(v: &[u8]) -> (r: Option<u32>)
    ensures
        match r {
            Some(t) => v@.len() >= 7 && v@.subrange(0, 3) == record_ident_spec() && t
                == spec_u32_from_le_bytes(v@.subrange(3, 7)),
            None => v@.len() < 7 || v@.subrange(0, 3) != record_ident_spec(),
        },
{
    if v.len() < 7 {
        return None;
    }
    let magic = vstd::slice::slice_subrange(v, 0, 3);
    let ident = record_ident();
    if !bytes_eq(magic, ident.as_slice()) {
        return None;
    }
    let lenb = vstd::slice::slice_subrange(v, 3, 7);
    Some(u32_from_le_bytes(lenb))
}

/// Decode one row record into its in-memory row.
pub fn extract_single(v: &[u8], r_len: u32) -> (r: Option<TableRow>)
    ensures
        match r {
            Some(row) => v@.len() >= 7 + r_len && v@.subrange(0, 3) == record_ident_spec()
                && parse_row_body(v@.subrange(7, 7 + r_len as int)) == Some(row@),
            None => v@.len() < 7 + r_len || v@.subrange(0, 3) != record_ident_spec()
                || parse_row_body(v@.subrange(7, 7 + r_len as int)) is None,
        },
{
    let n = v.len();
    if (n as u128) < 7u128 + r_len as u128 {
        return None;
    }
    let magic = vstd::slice::slice_subrange(v, 0, 3);
    let ident = record_ident();
    if !bytes_eq(magic, ident.as_slice()) {
        return None;
    }
    let rl = r_len as usize;
    let payload = vstd::slice::slice_subrange(v, 7, 7 + rl);
    decode_row_body(payload)
}

/// Scan a rows section for record boundaries. The section magic never
/// matches the record magic's first byte, so the scan passes it by.
pub fn seqs_find_all(v: &[u8], seq: &[u8]) -> (r: Vec<usize>)
    requires
        seq@ == record_ident_spec(),
    ensures
        forall|j: int| 0 <= j < r@.len() ==> is_match_at(v@, seq@, r@[j] as int),
        parse_rows_section(v@) matches Some(rs) ==> r@.len() == rs.len() && (forall|j: int|
            0 <= j < rs.len() ==> r@[j] == 3 + row_offset(rs, j)),
{
    let ghost valid = parse_rows_section(v@) is Some;
    let ghost rs: Seq<Seq<u8>> = if valid {
        parse_rows_section(v@)->Some_0
    } else {
        Seq::empty()
    };
    proof {
        if valid {
            lemma_parse_rows_sound(v@.subrange(3, v@.len() as int));
            assert(v@ =~= rows_ident_spec() + enc_rows(rs));
        }
    }
    let n = v.len();
    let mut cursor = Cursor::new(v);
    let mut idxs: Vec<usize> = Vec::new();
    let mut seq_i: usize = 0;
    while cursor.position() < n
        invariant
            n == v@.len(),
            seq@ == record_ident_spec(),
            cursor.inner@ == v@,
            cursor.cursor <= n,
            seq_i <= 3,
            seq_i > 0 ==> cursor.cursor >= seq_i && v@.subrange(
                cursor.cursor - seq_i,
                cursor.cursor as int,
            ) == seq@.subrange(0, seq_i as int),
            forall|j: int| 0 <= j < idxs@.len() ==> is_match_at(v@, seq@, idxs@[j] as int),
            valid == (parse_rows_section(v@) is Some),
            valid ==> rs == parse_rows_section(v@)->Some_0,
            valid ==> v@ == rows_ident_spec() + enc_rows(rs) && rows_valid(rs),
            valid ==> idxs@.len() <= rs.len(),
            valid ==> (forall|j: int|
                0 <= j < idxs@.len() ==> idxs@[j] == 3 + row_offset(rs, j)),
            valid ==> ((idxs@.len() == 0 && seq_i == 0 && cursor.cursor <= 3) || (
            cursor.cursor == 3 + row_offset(rs, idxs@.len() as int) + seq_i && (idxs@.len()
                < rs.len() || seq_i == 0))),
        decreases n - cursor.cursor,
    {
        if seq_i == 3 {
            let pos = cursor.position();
            let back = pos - 3;
            proof {
                assert(v@.subrange(back as int, pos as int) == seq@.subrange(0, 3));
                assert(seq@.subrange(0, 3) =~= seq@);
                assert(is_match_at(v@, seq@, back as int));
                if valid {
                    let k = idxs@.len() as int;
                    assert(k < rs.len());
                    assert(back == 3 + row_offset(rs, k));
                    assert(row_valid(rs[k]));
                    lemma_row_record_at(rs, k);
                    lemma_shifted_record(v@, rs, k);
                }
            }
            let ghost prev_idxs = idxs@;
            idxs.push(back);
            cursor.jump(back);
            proof {
                if valid {
                    let k = prev_idxs.len() as int;
                    assert(idxs@ =~= prev_idxs.push(back));
                    assert(idxs@[k] == back);
                    assert(back + row_len(rs[k]) <= n);
                }
            }
            if n - back < 7 {
                proof {
                    if valid {
                        let k = prev_idxs.len() as int;
                        assert(row_len(rs[k]) >= 7);
                        assert(false);
                    }
                }
                return idxs;
            }
            let header = cursor.get(7);
            match get_record_len(header) {
                None => {
                    proof {
                        if valid {
                            let k = prev_idxs.len() as int;
                            assert(header@ == v@.subrange(back as int, back + 7));
                            assert(header@.subrange(0, 3) =~= v@.subrange(
                                back as int,
                                back + 3,
                            ));
                            assert(false);
                        }
                    }
                    return idxs;
                },
                Some(r_len) => {
                    proof {
                        if valid {
                            let k = prev_idxs.len() as int;
                            assert(header@ == v@.subrange(back as int, back + 7));
                            assert(header@.subrange(3, 7) =~= v@.subrange(back + 3, back + 7));
                            vstd::bytes::lemma_auto_spec_u32_to_from_le_bytes();
                            assert(r_len == rs[k].len());
                            assert(row_offset(rs, k + 1) == row_offset(rs, k) + row_len(
                                rs[k],
                            ));
                        }
                    }
                    let pos128 = cursor.position() as u128;
                    if pos128 + r_len as u128 > n as u128 {
                        proof {
                            if valid {
                                assert(false);
                            }
                        }
                        return idxs;
                    }
                    cursor.jump_forward(r_len as usize);
                    seq_i = 0;
                },
            }
        }
        if cursor.position() < n {
            let ghost pre = cursor.cursor;
            let b = cursor.next();
            if b == seq[seq_i] {
                proof {
                    assert(v@.subrange(pre - seq_i, pre + 1) =~= v@.subrange(
                        pre - seq_i,
                        pre as int,
                    ).push(v@[pre as int]));
                    assert(seq@.subrange(0, seq_i + 1) =~= seq@.subrange(0, seq_i as int).push(
                        seq@[seq_i as int],
                    ));
                    if valid {
                        let k = idxs@.len() as int;
                        if k == 0 && seq_i == 0 && pre < 3 {
                            assert(v@[pre as int] == rows_ident_spec()[pre as int]);
                            assert(v@[pre as int] != 3u8);
                            assert(seq@[0] == 3u8);
                            assert(false);
                        } else if k < rs.len() {
                            assert(row_valid(rs[k]));
                            lemma_row_record_at(rs, k);
                            lemma_shifted_record(v@, rs, k);
                        } else {
                            lemma_rows_len(rs, k);
                            lemma_rows_len(rs, 0);
                            assert(rs.skip(0) =~= rs);
                            assert(3 + row_offset(rs, k) == v@.len());
                            assert(false);
                        }
                    }
                }
                seq_i = seq_i + 1;
            } else {
                proof {
                    if valid {
                        let k = idxs@.len() as int;
                        if k == 0 && seq_i == 0 && pre < 3 {
                        } else if k < rs.len() {
                            assert(row_valid(rs[k]));
                            lemma_row_record_at(rs, k);
                            lemma_shifted_record(v@, rs, k);
                            assert(v@[3 + row_offset(rs, k) + seq_i]
                                == record_ident_spec()[seq_i as int]);
                            assert(false);
                        } else {
                            lemma_rows_len(rs, k);
                            lemma_rows_len(rs, 0);
                            assert(rs.skip(0) =~= rs);
                            assert(3 + row_offset(rs, k) == v@.len());
                            assert(false);
                        }
                    }
                }
                seq_i = 0;
            }
        } else {
            proof {
                if valid {
                    let k = idxs@.len() as int;
                    if k < rs.len() {
                        assert(row_valid(rs[k]));
                        lemma_row_record_at(rs, k);
                        assert(3 + row_offset(rs, k) + row_len(rs[k]) <= n);
                        if !(idxs@.len() == 0 && seq_i == 0 && cursor.cursor <= 3) {
                            assert(false);
                        }
                    }
                }
            }
            seq_i = 0;
        }
    }
    proof {
        if valid {
            let k = idxs@.len() as int;
            if k < rs.len() {
                assert(row_valid(rs[k]));
                lemma_row_record_at(rs, k);
                assert(3 + row_offset(rs, k) + row_len(rs[k]) <= n);
                assert(row_len(rs[k]) >= 7);
                assert(cursor.cursor < n);
                assert(false);
            }
        }
    }
    idxs
}

/// The bytes of record `k` of a rows section, shifted past the magic.
proof fn lemma_shifted_record(v: Seq<u8>, rs: Seq<Seq<u8>>, k: int)
    requires
        0 <= k < rs.len(),
        rows_valid(rs),
        v == rows_ident_spec() + enc_rows(rs),
    ensures
        3 + row_offset(rs, k) + row_len(rs[k]) <= v.len(),
        row_offset(rs, k) >= 0,
        v.subrange(3 + row_offset(rs, k), 3 + row_offset(rs, k) + row_len(rs[k])) == enc_row(
            rs[k],
        ),
        v.subrange(3 + row_offset(rs, k), 3 + row_offset(rs, k) + 3) == record_ident_spec(),
        v[3 + row_offset(rs, k)] == 3u8 && v[4 + row_offset(rs, k)] == 30u8 && v[5
            + row_offset(rs, k)] == 120u8,
        v.subrange(3 + row_offset(rs, k) + 3, 3 + row_offset(rs, k) + 7)
            == vstd::bytes::spec_u32_to_le_bytes(rs[k].len() as u32),
        v.subrange(3 + row_offset(rs, k) + 7, 3 + row_offset(rs, k) + row_len(rs[k]))
            == rs[k],
{
    lemma_row_record_at(rs, k);
    let off = row_offset(rs, k);
    assert(v.subrange(3 + off, 3 + off + row_len(rs[k])) =~= enc_rows(rs).subrange(
        off,
        off + row_len(rs[k]),
    ));
    lemma_row_bytes(v, 3 + off, rs[k]);
}

/// Decode a whole rows section into its rows, in file order.
pub fn extract_rows(v: &[u8]) -> (r: Option<Vec<TableRow>>)
    ensures
        parse_rows_section(v@) matches Some(rs) ==> ((forall|j: int|
            0 <= j < rs.len() ==> parse_row_body(#[trigger] rs[j]) is Some) ==> (r matches Some(
            rows,
        ) && rows@.len() == rs.len() && (forall|j: int|
            0 <= j < rs.len() ==> (#[trigger] rows@[j])@ == parse_row_body(rs[j])->Some_0))),
{
    let ghost valid = parse_rows_section(v@) is Some;
    let ghost rs: Seq<Seq<u8>> = if valid {
        parse_rows_section(v@)->Some_0
    } else {
        Seq::empty()
    };
    let ghost bodies_ok = valid && (forall|j: int|
        0 <= j < rs.len() ==> parse_row_body(#[trigger] rs[j]) is Some);
    proof {
        if valid {
            lemma_parse_rows_sound(v@.subrange(3, v@.len() as int));
            assert(v@ =~= rows_ident_spec() + enc_rows(rs));
        }
    }
    let ident = record_ident();
    let idxs = seqs_find_all(v, ident.as_slice());
    let mut out: Vec<TableRow> = Vec::new();
    let n = idxs.len();
    let mut i: usize = 0;
    while i < n
        invariant
            n == idxs@.len(),
            i <= n,
            forall|j: int|
                0 <= j < idxs@.len() ==> is_match_at(v@, record_ident_spec(), idxs@[j] as int),
            valid == (parse_rows_section(v@) is Some),
            valid ==> rs == parse_rows_section(v@)->Some_0 && v@ == rows_ident_spec()
                + enc_rows(rs) && rows_valid(rs) && idxs@.len() == rs.len() && (forall|j: int|
                0 <= j < rs.len() ==> idxs@[j] == 3 + row_offset(rs, j)),
            bodies_ok == (valid && (forall|j: int|
                0 <= j < rs.len() ==> parse_row_body(#[trigger] rs[j]) is Some)),
            out@.len() == i,
            bodies_ok ==> (forall|j: int|
                0 <= j < i ==> (#[trigger] out@[j])@ == parse_row_body(rs[j])->Some_0),
        decreases n - i,
    {
        let idx = idxs[i];
        proof {
            if valid {
                assert(row_valid(rs[i as int]));
                lemma_shifted_record(v@, rs, i as int);
            }
        }
        if v.len() - idx < 7 {
            proof {
                if valid {
                    assert(false);
                }
            }
            return None;
        }
        let mut cursor = Cursor::new(v);
        cursor.jump(idx);
        let header = cursor.peek(7);
        match get_record_len(header) {
            None => {
                proof {
                    if valid {
                        assert(header@.subrange(0, 3) =~= v@.subrange(
                            idx as int,
                            idx as int + 3,
                        ));
                        assert(false);
                    }
                }
                return None;
            },
            Some(r_len) => {
                proof {
                    if valid {
                        assert(header@.subrange(3, 7) =~= v@.subrange(idx + 3, idx + 7));
                        vstd::bytes::lemma_auto_spec_u32_to_from_le_bytes();
                        assert(r_len == rs[i as int].len());
                    }
                }
                let rec_end = idx as u128 + 7u128 + r_len as u128;
                if rec_end > v.len() as u128 {
                    proof {
                        if valid {
                            assert(false);
                        }
                    }
                    return None;
                }
                let rec = cursor.get(7 + r_len as usize);
                match extract_single(rec, r_len) {
                    None => {
                        proof {
                            if valid {
                                assert(rec@ == v@.subrange(
                                    idx as int,
                                    idx + 7 + r_len as int,
                                ));
                                assert(rec@.subrange(0, 3) =~= v@.subrange(
                                    idx as int,
                                    idx as int + 3,
                                ));
                                assert(rec@.subrange(7, 7 + r_len as int) =~= v@.subrange(
                                    idx + 7,
                                    idx + 7 + r_len as int,
                                ));
                                assert(rec@.subrange(7, 7 + r_len as int) == rs[i as int]);
                                if bodies_ok {
                                    assert(parse_row_body(rs[i as int]) is Some);
                                    assert(false);
                                }
                            }
                        }
                        return None;
                    },
                    Some(row) => {
                        proof {
                            if valid {
                                assert(rec@ == v@.subrange(
                                    idx as int,
                                    idx + 7 + r_len as int,
                                ));
                                assert(rec@.subrange(7, 7 + r_len as int) =~= v@.subrange(
                                    idx + 7,
                                    idx + 7 + r_len as int,
                                ));
                                assert(rec@.subrange(7, 7 + r_len as int) == rs[i as int]);
                            }
                        }
                        let ghost prev = out@;
                        out.push(row);
                        proof {
                            assert(out@ =~= prev.push(row));
                        }
                    },
                }
            },
        }
        i += 1;
    }
    Some(out)
}

} // verus!
