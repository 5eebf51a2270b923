//! The key-value database: type-erased set/get/del plus read-modify-write
//! arithmetic dispatched on the stored value's numeric tag.

use vstd::prelude::*;
use vstd::bytes::{spec_u64_to_le_bytes, spec_u64_from_le_bytes, u64_to_le_bytes};

use crate::bvobject::{BvObject, ObjView};
use crate::bvstring::BvString;
use crate::slice::{starts_with_spec, ends_with_spec, has_match};
use crate::storage::{KvInterface, entries_map, distinct_keys, pairs_view};
use crate::utils::{is_int_tag, is_uint_tag, normalize_type_name};

verus! {

/// A key-value database over a pluggable storage backend.
pub struct KvDb<KV: KvInterface> {
    pub records: KV,
}

/// The contents after setting a list of pairs in order: each pair
/// overwrites the key's binding, so a later pair of the same key wins.
pub open spec fn set_many_map(
    m: Map<Seq<u8>, ObjView>,
    ps: Seq<(Seq<u8>, ObjView)>,
) -> Map<Seq<u8>, ObjView>
    decreases ps.len(),
{
    if ps.len() == 0 {
        m
    } else {
        set_many_map(m, ps.drop_last()).insert(ps.last().0, ps.last().1)
    }
}

/// An in-memory, empty key-value database.
pub fn mem<KV: KvInterface>() -> (r: KvDb<KV>)
    ensures
        r.records.wf(),
        r.records.entry_seq().len() == 0,
{
    KvDb { records: KV::new_empty() }
}

impl<KV: KvInterface> KvDb<KV> {
    /// The mathematical contents.
    pub open spec fn contents(&self) -> Map<Seq<u8>, ObjView> {
        entries_map(self.records.entry_seq())
    }

    /// The backend invariant.
    pub open spec fn wf(&self) -> bool {
        self.records.wf()
    }

    /// Number of stored records.
    pub fn len(&self) -> (r: usize)
        requires
            self.wf(),
        ensures
            r == self.records.entry_seq().len(),
    {
        self.records.len()
    }

    /// Does the key exist?
    pub fn has_key(&self, key: &[u8]) -> (r: bool)
        requires
            self.wf(),
        ensures
            r == self.contents().dom().contains(key@),
    {
        self.records.has_key(key)
    }

    /// Look a key up.
    pub fn get(&self, key: &[u8]) -> (r: Option<&BvObject>)
        requires
            self.wf(),
        ensures
            match r {
                Some(v) => self.contents().dom().contains(key@) && v@ == self.contents()[key@],
                None => !self.contents().dom().contains(key@),
            },
    {
        self.records.get(key)
    }

    /// Set a key to a tagged value: insert it fresh, or replace the value
    /// stored under it.
    pub fn set(&mut self, key: &[u8], value: BvObject)
        requires
            old(self).wf(),
            key@.len() >= 1,
        ensures
            final(self).wf(),
            final(self).contents() == old(self).contents().insert(key@, value@),
    {
        proof {
            self.records.lemma_wf_distinct();
            crate::storage::lemma_entries_map(self.records.entry_seq());
        }
        if self.records.has_key(key) {
            let ghost olds = self.records.entry_seq();
            self.records.update(key, value);
            proof {
                self.records.lemma_wf_distinct();
                let news = self.records.entry_seq();
                let i = choose|i: int|
                    0 <= i < olds.len() && olds[i].0 == key@ && news == olds.update(
                        i,
                        (key@, value@),
                    );
                crate::storage::lemma_entries_map(news);
                crate::storage::lemma_entries_map(olds);
                assert forall|k: Seq<u8>| #[trigger]
                    entries_map(news).dom().contains(k) || entries_map(olds).dom().contains(
                    k,
                ) implies true by {}
                assert(entries_map(news) =~= entries_map(olds).insert(key@, value@)) by {
                    assert forall|k: Seq<u8>| #[trigger] entries_map(news).dom().contains(
                        k,
                    ) implies entries_map(olds).insert(key@, value@).dom().contains(k)
                        && entries_map(news)[k] == entries_map(olds).insert(
                        key@,
                        value@,
                    )[k] by {
                        let j = choose|j: int|
                            0 <= j < news.len() && (#[trigger] news[j]).0 == k;
                        if j == i {
                            assert(news[i] == (key@, value@));
                        } else {
                            assert(news[j] == olds[j]);
                            assert(olds[j].0 == k);
                            assert(k != key@) by {
                                if k == key@ {
                                    assert(olds[j].0 == olds[i].0);
                                }
                            }
                        }
                    }
                    assert forall|k: Seq<u8>|
                        #[trigger] entries_map(olds).insert(key@, value@).dom().contains(
                            k,
                        ) implies entries_map(news).dom().contains(k) by {
                        if k == key@ {
                            assert(news[i].0 == k);
                        } else {
                            let j = choose|j: int|
                                0 <= j < olds.len() && (#[trigger] olds[j]).0 == k;
                            assert(news[j].0 == k);
                        }
                    }
                }
            }
        } else {
            let ghost olds = self.records.entry_seq();
            self.records.insert(BvString::from_slice(key), value);
            proof {
                self.records.lemma_wf_distinct();
                let news = self.records.entry_seq();
                let i = choose|i: int|
                    0 <= i <= olds.len() && news == olds.insert(i, (key@, value@));
                crate::storage::lemma_entries_map_insert(olds, i, (key@, value@));
            }
        }
    }

    /// Step a stored value by one: an integer-tagged value changes by one
    /// with wrap-around at its width's bounds; a float-tagged or
    /// non-numeric value is left unchanged; a missing key is set to a
    /// signed 64-bit one.
    fn step(&mut self, key: &[u8], up: bool)
        requires
            old(self).wf(),
            key@.len() >= 1,
        ensures
            final(self).wf(),
            final(self).contents() == (if old(self).contents().dom().contains(key@) {
                old(self).contents().insert(
                    key@,
                    stepped_obj(old(self).contents()[key@], up),
                )
            } else {
                old(self).contents().insert(
                    key@,
                    ObjView {
                        type_tag: seq![105u8, 54u8, 52u8],
                        raw: spec_u64_to_le_bytes(1u64),
                    },
                )
            }),
    {
        let cur = match self.get(key) {
            Some(v) => Some(BvObject::from_bvobject(v)),
            None => None,
        };
        match cur {
            None => {
                let tag: [u8; 3] = [105, 54, 52];
                let one = u64_to_le_bytes(1u64);
                proof {
                    assert(tag@ =~= seq![105u8, 54u8, 52u8]);
                }
                self.set(key, BvObject::from_raw(vstd::slice::slice_to_vec(tag.as_slice()), one));
            },
            Some(v) => {
                let numeric = v.is_int() || v.is_uint();
                let w = tag_width_of(v.type_tag().as_slice());
                if !numeric || w == 0 || v.raw().len() < w {
                    proof {
                        assert(stepped_obj(v@, up) == v@);
                    }
                    self.set(key, v);
                } else {
                    let mut raw = v.raw().to_vec();
                    if w == 1 {
                        let b = raw[0];
                        let nb: u8 = if up {
                            if b == 255 {
                                0
                            } else {
                                b + 1
                            }
                        } else {
                            if b == 0 {
                                255
                            } else {
                                b - 1
                            }
                        };
                        raw.set(0, nb);
                        proof {
                            assert(raw@ =~= stepped_raw(1, v@.raw, up));
                        }
                    } else if w == 2 {
                        let x = vstd::bytes::u16_from_le_bytes(
                            vstd::slice::slice_subrange(raw.as_slice(), 0, 2),
                        );
                        let y: u16 = if up {
                            if x == u16::MAX {
                                0
                            } else {
                                x + 1
                            }
                        } else {
                            if x == 0 {
                                u16::MAX
                            } else {
                                x - 1
                            }
                        };
                        let nb = vstd::bytes::u16_to_le_bytes(y);
                        crate::writer::patch_bytes(&mut raw, 0, nb.as_slice());
                        proof {
                            vstd::bytes::lemma_auto_spec_u16_to_from_le_bytes();
                            assert(raw@ =~= stepped_raw(2, v@.raw, up));
                        }
                    } else if w == 4 {
                        let x = vstd::bytes::u32_from_le_bytes(
                            vstd::slice::slice_subrange(raw.as_slice(), 0, 4),
                        );
                        let y: u32 = if up {
                            if x == u32::MAX {
                                0
                            } else {
                                x + 1
                            }
                        } else {
                            if x == 0 {
                                u32::MAX
                            } else {
                                x - 1
                            }
                        };
                        let nb = vstd::bytes::u32_to_le_bytes(y);
                        crate::writer::patch_bytes(&mut raw, 0, nb.as_slice());
                        proof {
                            vstd::bytes::lemma_auto_spec_u32_to_from_le_bytes();
                            assert(raw@ =~= stepped_raw(4, v@.raw, up));
                        }
                    } else if w == 8 {
                        let x = vstd::bytes::u64_from_le_bytes(
                            vstd::slice::slice_subrange(raw.as_slice(), 0, 8),
                        );
                        let y: u64 = if up {
                            if x == u64::MAX {
                                0
                            } else {
                                x + 1
                            }
                        } else {
                            if x == 0 {
                                u64::MAX
                            } else {
                                x - 1
                            }
                        };
                        let nb = vstd::bytes::u64_to_le_bytes(y);
                        crate::writer::patch_bytes(&mut raw, 0, nb.as_slice());
                        proof {
                            vstd::bytes::lemma_auto_spec_u64_to_from_le_bytes();
                            assert(raw@ =~= stepped_raw(8, v@.raw, up));
                        }
                    } else {
                        let x = vstd::bytes::u128_from_le_bytes(
                            vstd::slice::slice_subrange(raw.as_slice(), 0, 16),
                        );
                        let y: u128 = if up {
                            if x == u128::MAX {
                                0
                            } else {
                                x + 1
                            }
                        } else {
                            if x == 0 {
                                u128::MAX
                            } else {
                                x - 1
                            }
                        };
                        let nb = vstd::bytes::u128_to_le_bytes(y);
                        crate::writer::patch_bytes(&mut raw, 0, nb.as_slice());
                        proof {
                            vstd::bytes::lemma_auto_spec_u128_to_from_le_bytes();
                            assert(raw@ =~= stepped_raw(16, v@.raw, up));
                        }
                    }
                    let tag = v.type_tag().to_vec();
                    let newv = BvObject::from_raw(tag, raw);
                    proof {
                        assert(newv@ == stepped_obj(v@, up));
                    }
                    self.set(key, newv);
                }
            },
        }
    }

    /// Increment a stored numeric value by one; a missing key becomes a
    /// signed 64-bit one.
    pub fn incr(&mut self, key: &[u8])
        requires
            old(self).wf(),
            key@.len() >= 1,
        ensures
            final(self).wf(),
            final(self).contents() == (if old(self).contents().dom().contains(key@) {
                old(self).contents().insert(
                    key@,
                    stepped_obj(old(self).contents()[key@], true),
                )
            } else {
                old(self).contents().insert(
                    key@,
                    ObjView {
                        type_tag: seq![105u8, 54u8, 52u8],
                        raw: spec_u64_to_le_bytes(1u64),
                    },
                )
            }),
    {
        self.step(key, true)
    }

    /// Decrement a stored numeric value by one; a missing key becomes a
    /// signed 64-bit one, as the increment does.
    pub fn decr(&mut self, key: &[u8])
        requires
            old(self).wf(),
            key@.len() >= 1,
        ensures
            final(self).wf(),
            final(self).contents() == (if old(self).contents().dom().contains(key@) {
                old(self).contents().insert(
                    key@,
                    stepped_obj(old(self).contents()[key@], false),
                )
            } else {
                old(self).contents().insert(
                    key@,
                    ObjView {
                        type_tag: seq![105u8, 54u8, 52u8],
                        raw: spec_u64_to_le_bytes(1u64),
                    },
                )
            }),
    {
        self.step(key, false)
    }

    /// Replace the value under a key with one of the same tag and raw
    /// length, handing the old value back; any other replacement is
    /// refused without touching the store.
    pub fn swap(&mut self, key: &[u8], value: BvObject) -> (r: Option<BvObject>)
        requires
            old(self).wf(),
            key@.len() >= 1,
        ensures
            final(self).wf(),
            match r {
                Some(prev) => old(self).contents().dom().contains(key@) && prev@ == old(
                    self,
                ).contents()[key@] && prev@.type_tag == value@.type_tag && prev@.raw.len()
                    == value@.raw.len() && final(self).contents() == old(
                    self,
                ).contents().insert(key@, value@),
                None => *final(self) == *old(self) && (old(self).contents().dom().contains(key@)
                    ==> (old(self).contents()[key@].type_tag != value@.type_tag || old(
                    self,
                ).contents()[key@].raw.len() != value@.raw.len())),
            },
    {
        let prev = match self.get(key) {
            Some(v) => BvObject::from_bvobject(v),
            None => {
                return None;
            },
        };
        if prev.type_tag().eq_bvstring(value.type_tag()) && prev.raw().len() == value.raw().len()
        {
            self.set(key, value);
            Some(prev)
        } else {
            None
        }
    }

    /// Set several keys in order: each pair overwrites the key's binding,
    /// so a later pair of the same key wins.
    pub fn set_many(&mut self, values: Vec<(BvString, BvObject)>)
        requires
            old(self).wf(),
            forall|j: int| 0 <= j < values@.len() ==> (#[trigger] values@[j]).0@.len() >= 1,
        ensures
            final(self).wf(),
            final(self).contents() == set_many_map(
                old(self).contents(),
                crate::storage::pairs_view(values@),
            ),
    {
        let ghost pv = crate::storage::pairs_view(values@);
        let n = values.len();
        let mut i: usize = 0;
        proof {
            assert(pv.take(0) =~= Seq::<(Seq<u8>, ObjView)>::empty());
        }
        while i < n
            invariant
                n == values@.len(),
                i <= n,
                self.wf(),
                pv == crate::storage::pairs_view(values@),
                forall|j: int| 0 <= j < values@.len() ==> (#[trigger] values@[j]).0@.len() >= 1,
                self.contents() == set_many_map(old(self).contents(), pv.take(i as int)),
            decreases n - i,
        {
            let e = &values[i];
            proof {
                assert(pv[i as int] == (values@[i as int].0@, values@[i as int].1@));
            }
            self.set(e.0.as_slice(), BvObject::from_bvobject(&e.1));
            proof {
                assert(pv.take(i + 1).drop_last() =~= pv.take(i as int));
                assert(pv.take(i + 1).last() == pv[i as int]);
            }
            i += 1;
        }
        proof {
            assert(pv.take(n as int) =~= pv);
        }
    }

    /// The text payload of a stored string value.
    pub fn get_str<'a>(&'a self, key: &[u8]) -> (r: Option<crate::bvstr::BvStr<'a>>)
        requires
            self.wf(),
        ensures
            match r {
                Some(s) => self.contents().dom().contains(key@) && self.contents()[key@].raw.len()
                    >= 8 && s@ == self.contents()[key@].raw.subrange(
                    8,
                    self.contents()[key@].raw.len() as int,
                ),
                None => !self.contents().dom().contains(key@) || self.contents()[key@].raw.len()
                    < 8,
            },
    {
        match self.get(key) {
            Some(v) => {
                if v.raw().len() >= 8 {
                    Some(crate::bvstr::BvStr::from_bvobject(v))
                } else {
                    None
                }
            },
            None => None,
        }
    }

    /// Set a key to raw bytes under a normalized type tag.
    pub fn set_raw(&mut self, key: &[u8], tag: &[u8], value: Vec<u8>)
        requires
            old(self).wf(),
            key@.len() >= 1,
            exists|i: int| 0 <= i < tag@.len() && tag@[i] != 38 && tag@[i] != 42,
        ensures
            final(self).wf(),
            final(self).contents() == old(self).contents().insert(
                key@,
                ObjView { type_tag: crate::utils::norm_spec(tag@), raw: value@ },
            ),
    {
        let t = normalize_type_name(tag);
        let obj = BvObject::from_raw(t, value);
        self.set(key, obj);
    }

    /// Delete a key and hand its value back.
    pub fn del(&mut self, key: &[u8]) -> (r: BvObject)
        requires
            old(self).wf(),
            entries_map(old(self).records.entry_seq()).dom().contains(key@),
        ensures
            final(self).wf(),
            r@ == old(self).contents()[key@],
            final(self).contents() == old(self).contents().remove(key@),
    {
        proof {
            self.records.lemma_wf_distinct();
            crate::storage::lemma_entries_map(self.records.entry_seq());
        }
        let ghost olds = self.records.entry_seq();
        let r = self.records.remove(key);
        proof {
            self.records.lemma_wf_distinct();
            let news = self.records.entry_seq();
            let i = choose|i: int|
                0 <= i < olds.len() && olds[i] == (key@, r@) && news == olds.remove(i);
            crate::storage::lemma_entries_map(news);
            crate::storage::lemma_entries_map(olds);
            assert(olds[i].0 == key@);
            assert(r@ == entries_map(olds)[key@]);
            assert(entries_map(news) =~= entries_map(olds).remove(key@)) by {
                assert forall|k: Seq<u8>| #[trigger] entries_map(news).dom().contains(
                    k,
                ) implies entries_map(olds).remove(key@).dom().contains(k) && entries_map(
                    news,
                )[k] == entries_map(olds).remove(key@)[k] by {
                    let j = choose|j: int| 0 <= j < news.len() && (#[trigger] news[j]).0 == k;
                    let oj = if j < i {
                        j
                    } else {
                        j + 1
                    };
                    assert(news[j] == olds[oj]);
                    assert(olds[oj].0 == k);
                    assert(k != key@) by {
                        if k == key@ {
                            assert(olds[oj].0 == olds[i].0);
                        }
                    }
                }
                assert forall|k: Seq<u8>|
                    #[trigger] entries_map(olds).remove(key@).dom().contains(
                        k,
                    ) implies entries_map(news).dom().contains(k) by {
                    let j = choose|j: int| 0 <= j < olds.len() && (#[trigger] olds[j]).0 == k;
                    assert(j != i);
                    let nj = if j < i {
                        j
                    } else {
                        j - 1
                    };
                    assert(news[nj] == olds[j]);
                }
            }
        }
        r
    }

    /// Replace all records from an ordered list with distinct keys.
    pub fn import(&mut self, data: Vec<(BvString, BvObject)>)
        requires
            distinct_keys(pairs_view(data@)),
            forall|j: int| 0 <= j < data@.len() ==> (#[trigger] pairs_view(data@)[j]).0.len() >= 1,
        ensures
            final(self).wf(),
            final(self).contents() == entries_map(pairs_view(data@)),
    {
        self.records.import(data);
    }

    /// All records, in the backend's iteration order.
    pub fn export(&self) -> (r: Vec<(BvString, BvObject)>)
        requires
            self.wf(),
        ensures
            pairs_view(r@) == self.records.entry_seq(),
    {
        self.records.export()
    }

    /// All records whose key begins with the given bytes.
    pub fn starts_with(&self, key_part: &[u8]) -> (r: Vec<(BvString, BvObject)>)
        requires
            self.wf(),
        ensures
            pairs_view(r@) == self.records.entry_seq().filter(
                |e: (Seq<u8>, ObjView)| starts_with_spec(e.0, key_part@),
            ),
    {
        let ghost pred = |e: (Seq<u8>, ObjView)| starts_with_spec(e.0, key_part@);
        let all = self.records.export();
        let n = all.len();
        let mut r: Vec<(BvString, BvObject)> = Vec::new();
        let mut i: usize = 0;
        proof {
            assert(pairs_view(all@).take(0) =~= Seq::<(Seq<u8>, ObjView)>::empty());
            reveal(Seq::filter);
            assert(pairs_view(r@) =~= pairs_view(all@).take(0).filter(pred));
        }
        while i < n
            invariant
                n == all@.len(),
                i <= n,
                pairs_view(all@) == self.records.entry_seq(),
                pairs_view(r@) == pairs_view(all@).take(i as int).filter(pred),
                pred == (|e: (Seq<u8>, ObjView)| starts_with_spec(e.0, key_part@)),
            decreases n - i,
        {
            let e = &all[i];
            let keep = e.0.starts_with(key_part);
            proof {
                assert(pairs_view(all@)[i as int] == (all@[i as int].0@, all@[i as int].1@));
                assert(pairs_view(all@).take(i + 1) =~= pairs_view(all@).take(i as int).push(
                    pairs_view(all@)[i as int],
                ));
                lemma_filter_push(
                    pairs_view(all@).take(i as int),
                    pairs_view(all@)[i as int],
                    pred,
                );
            }
            let ghost prevr = r@;
            if keep {
                r.push((e.0.duplicate(), BvObject::from_bvobject(&e.1)));
                proof {
                    assert(pairs_view(r@) =~= pairs_view(prevr).push(
                        pairs_view(all@)[i as int],
                    ));
                }
            }
            i += 1;
        }
        proof {
            assert(pairs_view(all@).take(n as int) =~= pairs_view(all@));
        }
        r
    }

    /// All records whose key ends with the given bytes.
    pub fn ends_with(&self, key_part: &[u8]) -> (r: Vec<(BvString, BvObject)>)
        requires
            self.wf(),
        ensures
            pairs_view(r@) == self.records.entry_seq().filter(
                |e: (Seq<u8>, ObjView)| ends_with_spec(e.0, key_part@),
            ),
    {
        let ghost pred = |e: (Seq<u8>, ObjView)| ends_with_spec(e.0, key_part@);
        let all = self.records.export();
        let n = all.len();
        let mut r: Vec<(BvString, BvObject)> = Vec::new();
        let mut i: usize = 0;
        proof {
            assert(pairs_view(all@).take(0) =~= Seq::<(Seq<u8>, ObjView)>::empty());
            reveal(Seq::filter);
            assert(pairs_view(r@) =~= pairs_view(all@).take(0).filter(pred));
        }
        while i < n
            invariant
                n == all@.len(),
                i <= n,
                pairs_view(all@) == self.records.entry_seq(),
                pairs_view(r@) == pairs_view(all@).take(i as int).filter(pred),
                pred == (|e: (Seq<u8>, ObjView)| ends_with_spec(e.0, key_part@)),
            decreases n - i,
        {
            let e = &all[i];
            let keep = e.0.ends_with(key_part);
            proof {
                assert(pairs_view(all@)[i as int] == (all@[i as int].0@, all@[i as int].1@));
                assert(pairs_view(all@).take(i + 1) =~= pairs_view(all@).take(i as int).push(
                    pairs_view(all@)[i as int],
                ));
                lemma_filter_push(
                    pairs_view(all@).take(i as int),
                    pairs_view(all@)[i as int],
                    pred,
                );
            }
            let ghost prevr = r@;
            if keep {
                r.push((e.0.duplicate(), BvObject::from_bvobject(&e.1)));
                proof {
                    assert(pairs_view(r@) =~= pairs_view(prevr).push(
                        pairs_view(all@)[i as int],
                    ));
                }
            }
            i += 1;
        }
        proof {
            assert(pairs_view(all@).take(n as int) =~= pairs_view(all@));
        }
        r
    }

    /// All records whose key contains the given bytes.
    pub fn contains(&self, key_part: &[u8]) -> (r: Vec<(BvString, BvObject)>)
        requires
            self.wf(),
        ensures
            pairs_view(r@) == self.records.entry_seq().filter(
                |e: (Seq<u8>, ObjView)| has_match(e.0, key_part@),
            ),
    {
        let ghost pred = |e: (Seq<u8>, ObjView)| has_match(e.0, key_part@);
        let all = self.records.export();
        let n = all.len();
        let mut r: Vec<(BvString, BvObject)> = Vec::new();
        let mut i: usize = 0;
        proof {
            assert(pairs_view(all@).take(0) =~= Seq::<(Seq<u8>, ObjView)>::empty());
            reveal(Seq::filter);
            assert(pairs_view(r@) =~= pairs_view(all@).take(0).filter(pred));
        }
        while i < n
            invariant
                n == all@.len(),
                i <= n,
                pairs_view(all@) == self.records.entry_seq(),
                pairs_view(r@) == pairs_view(all@).take(i as int).filter(pred),
                pred == (|e: (Seq<u8>, ObjView)| has_match(e.0, key_part@)),
            decreases n - i,
        {
            let e = &all[i];
            let keep = e.0.contains(key_part);
            proof {
                assert(pairs_view(all@)[i as int] == (all@[i as int].0@, all@[i as int].1@));
                assert(pairs_view(all@).take(i + 1) =~= pairs_view(all@).take(i as int).push(
                    pairs_view(all@)[i as int],
                ));
                lemma_filter_push(
                    pairs_view(all@).take(i as int),
                    pairs_view(all@)[i as int],
                    pred,
                );
            }
            let ghost prevr = r@;
            if keep {
                r.push((e.0.duplicate(), BvObject::from_bvobject(&e.1)));
                proof {
                    assert(pairs_view(r@) =~= pairs_view(prevr).push(
                        pairs_view(all@)[i as int],
                    ));
                }
            }
            i += 1;
        }
        proof {
            assert(pairs_view(all@).take(n as int) =~= pairs_view(all@));
        }
        r
    }

}


/// The raw bytes of a numeric value stepped by one, wrapping at the
/// width's bounds; bytes past the numeric width are kept.
pub open spec fn stepped_raw(w: int, raw: Seq<u8>, up: bool) -> Seq<u8> {
    if w == 1 {
        seq![
            (if up {
                ((raw[0] + 1) % 0x100) as u8
            } else {
                ((raw[0] + 0xFF) % 0x100) as u8
            }),
        ] + raw.skip(1)
    } else if w == 2 {
        vstd::bytes::spec_u16_to_le_bytes(
            (if up {
                ((vstd::bytes::spec_u16_from_le_bytes(raw.subrange(0, 2)) + 1) % 0x1_0000) as u16
            } else {
                ((vstd::bytes::spec_u16_from_le_bytes(raw.subrange(0, 2)) + 0xFFFF)
                    % 0x1_0000) as u16
            }),
        ) + raw.skip(2)
    } else if w == 4 {
        vstd::bytes::spec_u32_to_le_bytes(
            (if up {
                ((vstd::bytes::spec_u32_from_le_bytes(raw.subrange(0, 4)) + 1)
                    % 0x1_0000_0000) as u32
            } else {
                ((vstd::bytes::spec_u32_from_le_bytes(raw.subrange(0, 4)) + 0xFFFF_FFFF)
                    % 0x1_0000_0000) as u32
            }),
        ) + raw.skip(4)
    } else if w == 8 {
        vstd::bytes::spec_u64_to_le_bytes(
            (if up {
                ((spec_u64_from_le_bytes(raw.subrange(0, 8)) + 1)
                    % 0x1_0000_0000_0000_0000int) as u64
            } else {
                ((spec_u64_from_le_bytes(raw.subrange(0, 8)) + 0xFFFF_FFFF_FFFF_FFFF)
                    % 0x1_0000_0000_0000_0000int) as u64
            }),
        ) + raw.skip(8)
    } else {
        vstd::bytes::spec_u128_to_le_bytes(
            (if up {
                ((vstd::bytes::spec_u128_from_le_bytes(raw.subrange(0, 16)) + 1)
                    % 0x1_0000_0000_0000_0000_0000_0000_0000_0000int) as u128
            } else {
                ((vstd::bytes::spec_u128_from_le_bytes(raw.subrange(0, 16))
                    + 0xFFFF_FFFF_FFFF_FFFF_FFFF_FFFF_FFFF_FFFF)
                    % 0x1_0000_0000_0000_0000_0000_0000_0000_0000int) as u128
            }),
        ) + raw.skip(16)
    }
}

/// A stored value stepped by one: integer-tagged values of full width
/// change by one with wrap-around; anything else is left as it is.
pub open spec fn stepped_obj(o: ObjView, up: bool) -> ObjView {
    let w = crate::utils::tag_width(o.type_tag);
    if (is_int_tag(o.type_tag) || is_uint_tag(o.type_tag)) && o.raw.len() >= w && w >= 1 {
        ObjView { type_tag: o.type_tag, raw: stepped_raw(w, o.raw, up) }
    } else {
        o
    }
}

/// The numeric width of a tag, as the classifier reads it.
pub fn tag_width_of(t: &[u8]) -> (r: usize)
    ensures
        r == crate::utils::tag_width(t@),
{
    if t.len() == 2 {
        if (t[0] == 105 || t[0] == 117) && t[1] == 56 {
            proof {
                if t@[0] == 105 {
                    assert(t@ =~= seq![105u8, 56u8]);
                } else {
                    assert(t@ =~= seq![117u8, 56u8]);
                }
            }
            return 1;
        }
    } else if t.len() == 3 {
        if (t[0] == 105 || t[0] == 117) && t[1] == 49 && t[2] == 54 {
            proof {
                if t@[0] == 105 {
                    assert(t@ =~= seq![105u8, 49u8, 54u8]);
                } else {
                    assert(t@ =~= seq![117u8, 49u8, 54u8]);
                }
            }
            return 2;
        }
        if (t[0] == 105 || t[0] == 117 || t[0] == 102) && t[1] == 51 && t[2] == 50 {
            proof {
                if t@[0] == 105 {
                    assert(t@ =~= seq![105u8, 51u8, 50u8]);
                } else if t@[0] == 117 {
                    assert(t@ =~= seq![117u8, 51u8, 50u8]);
                } else {
                    assert(t@ =~= seq![102u8, 51u8, 50u8]);
                }
            }
            return 4;
        }
        if (t[0] == 105 || t[0] == 117 || t[0] == 102) && t[1] == 54 && t[2] == 52 {
            proof {
                if t@[0] == 105 {
                    assert(t@ =~= seq![105u8, 54u8, 52u8]);
                } else if t@[0] == 117 {
                    assert(t@ =~= seq![117u8, 54u8, 52u8]);
                } else {
                    assert(t@ =~= seq![102u8, 54u8, 52u8]);
                }
            }
            return 8;
        }
    } else if t.len() == 4 {
        if (t[0] == 105 || t[0] == 117) && t[1] == 49 && t[2] == 50 && t[3] == 56 {
            proof {
                if t@[0] == 105 {
                    assert(t@ =~= seq![105u8, 49u8, 50u8, 56u8]);
                } else {
                    assert(t@ =~= seq![117u8, 49u8, 50u8, 56u8]);
                }
            }
            return 16;
        }
    }
    proof {
        lemma_tag_width_zero(t@);
    }
    0
}

/// Tags outside the numeric set have width zero.
proof fn lemma_tag_width_zero(t: Seq<u8>)
    requires
        t.len() == 2 ==> !((t[0] == 105 || t[0] == 117) && t[1] == 56),
        t.len() == 3 ==> !((t[0] == 105 || t[0] == 117) && t[1] == 49 && t[2] == 54) && !((t[0]
            == 105 || t[0] == 117 || t[0] == 102) && t[1] == 51 && t[2] == 50) && !((t[0] == 105
            || t[0] == 117 || t[0] == 102) && t[1] == 54 && t[2] == 52),
        t.len() == 4 ==> !((t[0] == 105 || t[0] == 117) && t[1] == 49 && t[2] == 50 && t[3]
            == 56),
    ensures
        crate::utils::tag_width(t) == 0,
{
}

/// Filtering a sequence extended by one element keeps the element exactly
/// when it passes the test.
pub proof fn lemma_filter_push(
    s: Seq<(Seq<u8>, ObjView)>,
    e: (Seq<u8>, ObjView),
    pred: spec_fn((Seq<u8>, ObjView)) -> bool,
)
    ensures
        s.push(e).filter(pred) == if pred(e) {
            s.filter(pred).push(e)
        } else {
            s.filter(pred)
        },
{
    assert(s.push(e).drop_last() =~= s);
    assert(s.push(e).last() == e);
    reveal(Seq::filter);
}

} // verus!
