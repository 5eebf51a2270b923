//! Decoding of key-value record regions: boundary scanning and record
//! extraction.
//!
//! `parse_kv_region` is the grammar of a well-formed region; the executable
//! scanner and extractor are proved to reproduce exactly its result on any
//! region the grammar accepts.

use vstd::prelude::*;
use vstd::bytes::{spec_u32_from_le_bytes, u32_from_le_bytes};

use crate::bvobject::{BvObject, ObjView};
use crate::bvstring::BvString;
use crate::cursor::Cursor;
use crate::format::{
    kv_ident_spec, kv_ident, enc_kv_region, enc_kv_entry, kv_entry_len, kv_entry_valid,
    kv_region_valid, kv_offset, lemma_kv_region_len, lemma_kv_suffix_at, lemma_kv_record_at,
    lemma_kv_entry_bytes,
};
use crate::slice::{bytes_eq, is_match_at};
use crate::storage::{KvInterface, entries_map, distinct_keys, lemma_entries_map,
    lemma_entries_map_insert};

verus! {

/// The grammar of a key-value region: zero or more records, each a magic,
/// a three-field length header, and the key, tag and value bytes.
pub open spec fn parse_kv_region(v: Seq<u8>) -> Option<Seq<(Seq<u8>, ObjView)>>
    decreases v.len(),
{
    if v.len() == 0 {
        Some(Seq::empty())
    } else if v.len() >= 9 && v.subrange(0, 3) == kv_ident_spec() {
        let kl = v[3] as int;
        let tl = v[4] as int;
        let rl = spec_u32_from_le_bytes(v.subrange(5, 9)) as int;
        if 1 <= kl && 1 <= tl && 9 + kl + tl + rl <= v.len() {
            let e = (
                v.subrange(9, 9 + kl),
                ObjView {
                    type_tag: v.subrange(9 + kl, 9 + kl + tl),
                    raw: v.subrange(9 + kl + tl, 9 + kl + tl + rl),
                },
            );
            match parse_kv_region(v.subrange(9 + kl + tl + rl, v.len() as int)) {
                Some(rest) => Some(seq![e] + rest),
                None => None,
            }
        } else {
            None
        }
    } else {
        None
    }
}

/// What the grammar accepts re-encodes to the input: parsing is sound.
pub proof fn lemma_parse_kv_sound(v: Seq<u8>)
    requires
        parse_kv_region(v) is Some,
    ensures
        kv_region_valid(parse_kv_region(v)->Some_0),
        enc_kv_region(parse_kv_region(v)->Some_0) == v,
    decreases v.len(),
{
    let es = parse_kv_region(v)->Some_0;
    if v.len() == 0 {
        assert(es =~= Seq::<(Seq<u8>, ObjView)>::empty());
        assert(enc_kv_region(es) =~= v);
    } else {
        let kl = v[3] as int;
        let tl = v[4] as int;
        let rl = spec_u32_from_le_bytes(v.subrange(5, 9)) as int;
        let relen = 9 + kl + tl + rl;
        let e = (
            v.subrange(9, 9 + kl),
            ObjView {
                type_tag: v.subrange(9 + kl, 9 + kl + tl),
                raw: v.subrange(9 + kl + tl, relen),
            },
        );
        let suffix = v.subrange(relen, v.len() as int);
        lemma_parse_kv_sound(suffix);
        let rest = parse_kv_region(suffix)->Some_0;
        assert(es == seq![e] + rest);
        assert(kv_entry_valid(e)) by {
            assert(e.0.len() == kl);
            assert(e.1.type_tag.len() == tl);
            assert(e.1.raw.len() == rl);
        }
        assert(kv_region_valid(es)) by {
            assert forall|j: int| 0 <= j < es.len() implies kv_entry_valid(
                #[trigger] es[j],
            ) by {
                if j == 0 {
                    assert(es[0] == e);
                } else {
                    assert(es[j] == rest[j - 1]);
                }
            }
        }
        assert(es.first() == e);
        assert(es.drop_first() =~= rest);
        vstd::bytes::lemma_auto_spec_u32_to_from_le_bytes();
        assert(enc_kv_entry(e) =~= v.subrange(0, relen)) by {
            assert(spec_u32_to_le_check(rl, v.subrange(5, 9)));
        }
        assert(enc_kv_region(es) == enc_kv_entry(e) + enc_kv_region(rest));
        assert(enc_kv_region(es) =~= v);
    }
}

/// The four length bytes re-encode the value they denote.
spec fn spec_u32_to_le_check(rl: int, s: Seq<u8>) -> bool {
    vstd::bytes::spec_u32_to_le_bytes(spec_u32_from_le_bytes(s)) == s && s.len() == 4 && 0 <= rl
        <= u32::MAX && rl == spec_u32_from_le_bytes(s)
}

/// Every valid region is accepted by the grammar, record for record:
/// parsing is complete, and decoding inverts encoding.
pub proof fn lemma_parse_kv_complete(es: Seq<(Seq<u8>, ObjView)>)
    requires
        kv_region_valid(es),
    ensures
        parse_kv_region(enc_kv_region(es)) == Some(es),
    decreases es.len(),
{
    let v = enc_kv_region(es);
    if es.len() == 0 {
        assert(v.len() == 0);
        assert(parse_kv_region(v)->Some_0 =~= es);
    } else {
        let e = es[0];
        let elen = kv_entry_len(e);
        lemma_kv_record_at(es, 0);
        lemma_kv_suffix_at(es, 1);
        lemma_kv_region_len(es, 0);
        lemma_kv_region_len(es, 1);
        vstd::bytes::lemma_auto_spec_u32_to_from_le_bytes();
        assert(kv_offset(es, 0) == 0);
        assert(kv_offset(es, 1) == elen);
        assert(v.subrange(0, elen) == enc_kv_entry(e));
        lemma_kv_entry_bytes(v, 0, e);
        assert(v.len() >= 9);
        let kl = v[3] as int;
        let tl = v[4] as int;
        let rl = spec_u32_from_le_bytes(v.subrange(5, 9)) as int;
        assert(kl == e.0.len()) by {
            assert(v[3] == e.0.len() as u8);
        }
        assert(tl == e.1.type_tag.len());
        assert(rl == e.1.raw.len()) by {
            assert(v.subrange(5, 9) == vstd::bytes::spec_u32_to_le_bytes(e.1.raw.len() as u32));
        }
        assert(9 + kl + tl + rl == elen);
        assert(elen <= v.len());
        let pe = (
            v.subrange(9, 9 + kl),
            ObjView {
                type_tag: v.subrange(9 + kl, 9 + kl + tl),
                raw: v.subrange(9 + kl + tl, elen),
            },
        );
        assert(pe.0 == e.0);
        assert(pe.1.type_tag == e.1.type_tag);
        assert(pe.1.raw == e.1.raw);
        assert(pe == e);
        let suffix = v.subrange(elen, v.len() as int);
        assert(suffix == enc_kv_region(es.skip(1)));
        assert(kv_region_valid(es.skip(1))) by {
            assert forall|j: int| 0 <= j < es.skip(1).len() implies kv_entry_valid(
                #[trigger] es.skip(1)[j],
            ) by {
                assert(es.skip(1)[j] == es[j + 1]);
            }
        }
        lemma_parse_kv_complete(es.skip(1));
        assert(parse_kv_region(v) == Some(seq![e] + es.skip(1)));
        assert(seq![e] + es.skip(1) =~= es);
    }
}

/// Parse the three length fields out of a key-value record header.
pub fn get_ktv_len(v: &[u8]) -> (r: Option<(usize, usize, usize)>)
    ensures
        match r {
            Some(t) => v@.len() >= 9 && v@.subrange(0, 3) == kv_ident_spec() && t.0 == v@[3]
                as usize && t.1 == v@[4] as usize && t.2 == spec_u32_from_le_bytes(
                v@.subrange(5, 9),
            ) as usize,
            None => v@.len() < 9 || v@.subrange(0, 3) != kv_ident_spec(),
        },
{
    if v.len() < 9 {
        return None;
    }
    let magic = vstd::slice::slice_subrange(v, 0, 3);
    let ident = kv_ident();
    if !bytes_eq(magic, ident.as_slice()) {
        return None;
    }
    let lenb = vstd::slice::slice_subrange(v, 5, 9);
    let vl = u32_from_le_bytes(lenb);
    Some((v[3] as usize, v[4] as usize, vl as usize))
}

/// Extract the key, tag and value slices of one record, given its three
/// lengths, and build the in-memory pair.
pub fn extract_single(v: &[u8], k_len: usize, t_len: usize, v_len: usize) -> (r: Option<
    (BvString, BvObject),
>)
    ensures
        match r {
            Some(p) => v@.len() >= 9 + k_len + t_len + v_len && v@.subrange(0, 3)
                == kv_ident_spec() && p.0@ == v@.subrange(9, 9 + k_len) && p.1@.type_tag
                == v@.subrange(9 + k_len, 9 + k_len + t_len) && p.1@.raw == v@.subrange(
                9 + k_len + t_len,
                9 + k_len + t_len + v_len,
            ),
            None => v@.len() < 9 + k_len + t_len + v_len || v@.subrange(0, 3)
                != kv_ident_spec(),
        },
{
    let n = v.len();
    let need = 9u128 + k_len as u128 + t_len as u128 + v_len as u128;
    if (n as u128) < need {
        return None;
    }
    let magic = vstd::slice::slice_subrange(v, 0, 3);
    let ident = kv_ident();
    if !bytes_eq(magic, ident.as_slice()) {
        return None;
    }
    let mut cursor = Cursor::new(v);
    cursor.jump(9);
    let k = cursor.get(k_len);
    let t = cursor.get(t_len);
    let val = cursor.get(v_len);
    Some((BvString::from_slice(k), BvObject::from_tuple((t, val))))
}

/// Scan a region for record boundaries: a byte-at-a-time match of the
/// magic sequence which, on each full match, trusts the record's declared
/// lengths to jump past its whole body before scanning on.
pub fn seqs_find_all(v: &[u8], seq: &[u8]) -> (r: Vec<usize>)
    requires
        seq@ == kv_ident_spec(),
    ensures
        forall|j: int| 0 <= j < r@.len() ==> is_match_at(v@, seq@, r@[j] as int),
        parse_kv_region(v@) matches Some(es) ==> r@.len() == es.len() && (forall|j: int|
            0 <= j < es.len() ==> r@[j] == kv_offset(es, j)),
{
    let ghost valid = parse_kv_region(v@) is Some;
    let ghost es: Seq<(Seq<u8>, ObjView)> = if valid {
        parse_kv_region(v@)->Some_0
    } else {
        Seq::empty()
    };
    proof {
        if valid {
            lemma_parse_kv_sound(v@);
        }
    }
    let n = v.len();
    let mut cursor = Cursor::new(v);
    let mut idxs: Vec<usize> = Vec::new();
    let mut seq_i: usize = 0;
    while cursor.position() < n
        invariant
            n == v@.len(),
            seq@ == kv_ident_spec(),
            cursor.inner@ == v@,
            cursor.cursor <= n,
            seq_i <= 3,
            seq_i > 0 ==> cursor.cursor >= seq_i && v@.subrange(
                cursor.cursor - seq_i,
                cursor.cursor as int,
            ) == seq@.subrange(0, seq_i as int),
            forall|j: int| 0 <= j < idxs@.len() ==> is_match_at(v@, seq@, idxs@[j] as int),
            valid == (parse_kv_region(v@) is Some),
            valid ==> es == parse_kv_region(v@)->Some_0,
            valid ==> v@ == enc_kv_region(es) && kv_region_valid(es),
            valid ==> idxs@.len() <= es.len(),
            valid ==> (forall|j: int| 0 <= j < idxs@.len() ==> idxs@[j] == kv_offset(es, j)),
            valid ==> cursor.cursor == kv_offset(es, idxs@.len() as int) + seq_i,
            valid ==> (idxs@.len() < es.len() || seq_i == 0),
        decreases n - cursor.cursor,
    {
        if seq_i == 3 {
            let pos = cursor.position();
            let back = pos - 3;
            proof {
                assert(v@.subrange(back as int, pos as int) == seq@.subrange(0, 3));
                assert(seq@.subrange(0, 3) =~= seq@);
                assert(is_match_at(v@, seq@, back as int));
                if valid {
                    let k = idxs@.len() as int;
                    assert(k < es.len());
                    assert(back == kv_offset(es, k));
                    lemma_kv_record_at(es, k);
                    lemma_kv_entry_bytes(v@, back as int, es[k]);
                }
            }
            let ghost prev_idxs = idxs@;
            idxs.push(back);
            cursor.jump(back);
            proof {
                if valid {
                    let k = prev_idxs.len() as int;
                    assert(idxs@ =~= prev_idxs.push(back));
                    assert(idxs@[k] == back);
                    assert(back + kv_entry_len(es[k]) <= n);
                }
            }
            if n - back < 9 {
                proof {
                    if valid {
                        let k = prev_idxs.len() as int;
                        assert(k < es.len());
                        assert(kv_entry_valid(es[k]));
                        assert(kv_entry_len(es[k]) >= 11);
                        assert(back + kv_entry_len(es[k]) <= n);
                        assert(false);
                    }
                }
                return idxs;
            }
            let header = cursor.get(9);
            match get_ktv_len(header) {
                None => {
                    proof {
                        if valid {
                            let k = prev_idxs.len() as int;
                            assert(header@ == v@.subrange(back as int, back + 9));
                            assert(header@.subrange(0, 3) =~= v@.subrange(
                                back as int,
                                back + 3,
                            ));
                            assert(false);
                        }
                    }
                    return idxs;
                },
                Some((k_len, t_len, v_len)) => {
                    let skip128 = k_len as u128 + t_len as u128 + v_len as u128;
                    let pos128 = cursor.position() as u128;
                    if pos128 + skip128 > n as u128 {
                        proof {
                            if valid {
                                let k = prev_idxs.len() as int;
                                assert(header@ == v@.subrange(back as int, back + 9));
                                assert(header@[3] == v@[back + 3]);
                                assert(header@[4] == v@[back + 4]);
                                assert(header@.subrange(5, 9) =~= v@.subrange(
                                    back + 5,
                                    back + 9,
                                ));
                                vstd::bytes::lemma_auto_spec_u32_to_from_le_bytes();
                                assert(k_len == es[k].0.len());
                                assert(t_len == es[k].1.type_tag.len());
                                assert(v_len == es[k].1.raw.len());
                                assert(false);
                            }
                        }
                        return idxs;
                    }
                    proof {
                        if valid {
                            let k = prev_idxs.len() as int;
                            assert(header@ == v@.subrange(back as int, back + 9));
                            assert(header@[3] == v@[back + 3]);
                            assert(header@[4] == v@[back + 4]);
                            assert(header@.subrange(5, 9) =~= v@.subrange(back + 5, back + 9));
                            vstd::bytes::lemma_auto_spec_u32_to_from_le_bytes();
                            assert(k_len == es[k].0.len());
                            assert(t_len == es[k].1.type_tag.len());
                            assert(v_len == es[k].1.raw.len());
                            assert(kv_offset(es, k + 1) == kv_offset(es, k) + kv_entry_len(
                                es[k],
                            ));
                        }
                    }
                    cursor.jump_forward(k_len + t_len + v_len);
                    seq_i = 0;
                },
            }
        }
        if cursor.position() < n {
            let ghost pre = cursor.cursor;
            let b = cursor.next();
            if b == seq[seq_i] {
                proof {
                    assert(v@.subrange(pre - seq_i, pre + 1) =~= v@.subrange(
                        pre - seq_i,
                        pre as int,
                    ).push(v@[pre as int]));
                    assert(seq@.subrange(0, seq_i + 1) =~= seq@.subrange(0, seq_i as int).push(
                        seq@[seq_i as int],
                    ));
                    if valid {
                        let k = idxs@.len() as int;
                        if k < es.len() {
                            assert(kv_entry_valid(es[k]));
                            lemma_kv_record_at(es, k);
                            lemma_kv_entry_bytes(v@, kv_offset(es, k), es[k]);
                        } else {
                            lemma_kv_region_len(es, k);
                            lemma_kv_region_len(es, 0);
                            assert(es.skip(0) =~= es);
                            assert(kv_offset(es, k) == v@.len());
                            assert(false);
                        }
                    }
                }
                seq_i = seq_i + 1;
            } else {
                proof {
                    if valid {
                        let k = idxs@.len() as int;
                        if k < es.len() {
                            assert(kv_entry_valid(es[k]));
                            lemma_kv_record_at(es, k);
                            lemma_kv_entry_bytes(v@, kv_offset(es, k), es[k]);
                            assert(v@[kv_offset(es, k) + seq_i]
                                == kv_ident_spec()[seq_i as int]);
                            assert(false);
                        } else {
                            lemma_kv_region_len(es, k);
                            lemma_kv_region_len(es, 0);
                            assert(es.skip(0) =~= es);
                            assert(kv_offset(es, k) == v@.len());
                            assert(false);
                        }
                    }
                }
                seq_i = 0;
            }
        } else {
            proof {
                if valid {
                    let k = idxs@.len() as int;
                    if k < es.len() {
                        assert(kv_entry_valid(es[k]));
                        lemma_kv_record_at(es, k);
                        assert(kv_offset(es, k) + kv_entry_len(es[k]) <= n);
                        assert(kv_entry_len(es[k]) >= 11);
                        assert(false);
                    }
                }
            }
            seq_i = 0;
        }
    }
    proof {
        if valid {
            let k = idxs@.len() as int;
            if k < es.len() {
                assert(kv_entry_valid(es[k]));
                lemma_kv_record_at(es, k);
                assert(kv_offset(es, k) + kv_entry_len(es[k]) <= n);
                assert(kv_entry_len(es[k]) >= 11);
                assert(cursor.cursor < n);
                assert(false);
            }
        }
    }
    idxs
}

/// Decode a whole region into a storage backend.
///
/// On a region the grammar accepts whose keys are distinct, the backend
/// holds exactly the region's entries.
pub fn extract_records<KV: KvInterface>(v: &[u8]) -> (r: Option<KV>)
    ensures
        parse_kv_region(v@) matches Some(es) ==> (distinct_keys(es) ==> (r matches Some(kv)
            && kv.wf() && entries_map(kv.entry_seq()) == entries_map(es))),
{
    let ghost valid = parse_kv_region(v@) is Some;
    let ghost es: Seq<(Seq<u8>, ObjView)> = if valid {
        parse_kv_region(v@)->Some_0
    } else {
        Seq::empty()
    };
    let ghost dk = valid && distinct_keys(es);
    proof {
        if valid {
            lemma_parse_kv_sound(v@);
        }
    }
    let ident = kv_ident();
    let idxs = seqs_find_all(v, ident.as_slice());
    let mut kv = KV::new_empty();
    let n = idxs.len();
    let mut i: usize = 0;
    proof {
        if dk {
            assert(entries_map(kv.entry_seq()) =~= entries_map(es.take(0)));
        }
    }
    while i < n
        invariant
            n == idxs@.len(),
            i <= n,
            cursor_facts(v@, idxs@),
            valid == (parse_kv_region(v@) is Some),
            valid ==> es == parse_kv_region(v@)->Some_0 && v@ == enc_kv_region(es)
                && kv_region_valid(es) && idxs@.len() == es.len() && (forall|j: int|
                0 <= j < es.len() ==> idxs@[j] == kv_offset(es, j)),
            kv.wf(),
            dk == (valid && distinct_keys(es)),
            dk ==> kv.wf() && entries_map(kv.entry_seq()) == entries_map(es.take(i as int))
                && (forall|k: Seq<u8>|
                #[trigger] entries_map(kv.entry_seq()).dom().contains(k) ==> exists|j: int|
                    0 <= j < i && (#[trigger] es[j]).0 == k),
        decreases n - i,
    {
        let idx = idxs[i];
        proof {
            if valid {
                lemma_kv_record_at(es, i as int);
                lemma_kv_entry_bytes(v@, idx as int, es[i as int]);
            }
        }
        if v.len() - idx < 9 {
            proof {
                if valid {
                    assert(false);
                }
            }
            return if i == 0 {
                None
            } else {
                None
            };
        }
        let mut cursor = Cursor::new(v);
        cursor.jump(idx);
        let header = cursor.peek(9);
        match get_ktv_len(header) {
            None => {
                proof {
                    if valid {
                        assert(header@.subrange(0, 3) =~= v@.subrange(
                            idx as int,
                            idx as int + 3,
                        ));
                        assert(false);
                    }
                }
                return None;
            },
            Some((k_len, t_len, v_len)) => {
                proof {
                    if valid {
                        assert(header@[3] == v@[idx + 3]);
                        assert(header@[4] == v@[idx + 4]);
                        assert(header@.subrange(5, 9) =~= v@.subrange(idx + 5, idx + 9));
                        vstd::bytes::lemma_auto_spec_u32_to_from_le_bytes();
                        assert(k_len == es[i as int].0.len());
                        assert(t_len == es[i as int].1.type_tag.len());
                        assert(v_len == es[i as int].1.raw.len());
                    }
                }
                let rec_end = idx as u128 + 9u128 + k_len as u128 + t_len as u128
                    + v_len as u128;
                if rec_end > v.len() as u128 {
                    proof {
                        if valid {
                            assert(false);
                        }
                    }
                    return None;
                }
                let rec = cursor.get(9 + k_len + t_len + v_len);
                match extract_single(rec, k_len, t_len, v_len) {
                    None => {
                        proof {
                            if valid {
                                assert(rec@.subrange(0, 3) =~= v@.subrange(
                                    idx as int,
                                    idx as int + 3,
                                ));
                                assert(false);
                            }
                        }
                        return None;
                    },
                    Some((key, value)) => {
                        proof {
                            if valid {
                                let e = es[i as int];
                                assert(rec@ == v@.subrange(
                                    idx as int,
                                    idx + kv_entry_len(e),
                                ));
                                assert(rec@.subrange(9, 9 + k_len as int) =~= v@.subrange(
                                    idx + 9,
                                    idx + 9 + k_len,
                                ));
                                assert(rec@.subrange(
                                    9 + k_len as int,
                                    9 + k_len + t_len as int,
                                ) =~= v@.subrange(
                                    idx + 9 + k_len,
                                    idx + 9 + k_len + t_len,
                                ));
                                assert(rec@.subrange(
                                    9 + k_len + t_len as int,
                                    9 + k_len + t_len + v_len as int,
                                ) =~= v@.subrange(
                                    idx + 9 + k_len + t_len,
                                    idx + 9 + k_len + t_len + v_len,
                                ));
                                assert(key@ == e.0);
                                assert(value@.type_tag == e.1.type_tag);
                                assert(value@.raw == e.1.raw);
                                assert(value@ == e.1);
                            }
                        }
                        if key.len() == 0 {
                            proof {
                                if valid {
                                    assert(es[i as int].0.len() >= 1);
                                    assert(false);
                                }
                            }
                            return None;
                        }
                        if kv.has_key(key.as_slice()) {
                            proof {
                                if dk {
                                    let e = es[i as int];
                                    let j = choose|j: int|
                                        0 <= j < i && (#[trigger] es[j]).0 == key@;
                                    assert(es[j].0 == es[i as int].0);
                                    assert(false);
                                }
                            }
                            return None;
                        }
                        proof {
                            kv.lemma_wf_distinct();
                        }
                        let ghost before = kv.entry_seq();
                        kv.insert(key, value);
                        proof {
                            if dk {
                                let e = es[i as int];
                                let news = kv.entry_seq();
                                let ins = choose|ii: int|
                                    0 <= ii <= before.len() && news == before.insert(
                                        ii,
                                        (e.0, e.1),
                                    );
                                kv.lemma_wf_distinct();
                                lemma_entries_map_insert(before, ins, (e.0, e.1));
                                assert(es.take(i as int + 1).drop_last() =~= es.take(i as int));
                                assert(es.take(i as int + 1).last() == e);
                                assert((e.0, e.1) == e);
                                assert(entries_map(news) =~= entries_map(
                                    es.take(i as int + 1),
                                ));
                                lemma_entries_map(news);
                                assert forall|k: Seq<u8>|
                                    #[trigger] entries_map(news).dom().contains(k) implies exists|
                                    j: int,
                                |
                                    0 <= j < i + 1 && (#[trigger] es[j]).0 == k by {
                                    let jj = choose|jj: int|
                                        0 <= jj < news.len() && (#[trigger] news[jj]).0 == k;
                                    if jj == ins {
                                        assert(es[i as int].0 == k);
                                    } else {
                                        let bj = if jj < ins {
                                            jj
                                        } else {
                                            jj - 1
                                        };
                                        assert(before[bj] == news[jj]);
                                        lemma_entries_map(before);
                                        assert(entries_map(before).dom().contains(k));
                                    }
                                }
                            }
                        }
                    },
                }
            },
        }
        i += 1;
    }
    proof {
        if dk {
            assert(es.take(n as int) =~= es);
        }
    }
    Some(kv)
}

/// The boundary positions a scan produced all lie at magic matches.
pub open spec fn cursor_facts(v: Seq<u8>, idxs: Seq<usize>) -> bool {
    forall|j: int| 0 <= j < idxs.len() ==> is_match_at(v, kv_ident_spec(), idxs[j] as int)
}

} // verus!
