//! The ordered-map backend: entries kept sorted by key in strictly
//! increasing lexicographic order, giving ordered iteration.

use vstd::prelude::*;

use crate::bvobject::{BvObject, ObjView};
use crate::bvstring::{BvString, lex_lt, lemma_lex_trichotomy, lemma_lex_transitive, bytes_cmp};
use crate::storage::{KvInterface, entries_map, distinct_keys, pairs_view, lemma_entries_map, lemma_entries_map_insert};

verus! {

/// Keys strictly increase left to right.
pub open spec fn sorted_entries(s: Seq<(Seq<u8>, ObjView)>) -> bool {
    forall|i: int, j: int| 0 <= i < j < s.len() ==> lex_lt((#[trigger] s[i]).0, (#[trigger] s[j]).0)
}

/// The ordered-map storage backend.
pub struct BTreeMap {
    pub entries: Vec<(BvString, BvObject)>,
}

impl BTreeMap {
    /// Position of the key, if present.
    fn find_index(&self, key: &[u8]) -> (r: Option<usize>)
        ensures
            match r {
                Some(i) => i < self.entries@.len() && pairs_view(self.entries@)[i as int].0
                    == key@,
                None => forall|j: int|
                    0 <= j < self.entries@.len() ==> (#[trigger] pairs_view(self.entries@)[j]).0
                        != key@,
            },
    {
        let n = self.entries.len();
        let mut i: usize = 0;
        while i < n
            invariant
                n == self.entries@.len(),
                i <= n,
                forall|j: int|
                    0 <= j < i ==> (#[trigger] pairs_view(self.entries@)[j]).0 != key@,
            decreases n - i,
        {
            let e = &self.entries[i];
            if e.0.eq_bytes(key) {
                proof {
                    assert(pairs_view(self.entries@)[i as int].0 == self.entries@[i as int].0@);
                }
                return Some(i);
            }
            proof {
                assert(pairs_view(self.entries@)[i as int].0 == self.entries@[i as int].0@);
            }
            i += 1;
        }
        None
    }

    /// Where a fresh key belongs so that the order is kept.
    fn find_insert_pos(&self, key: &[u8]) -> (r: usize)
        requires
            sorted_entries(pairs_view(self.entries@)),
            forall|j: int|
                0 <= j < self.entries@.len() ==> (#[trigger] pairs_view(self.entries@)[j]).0
                    != key@,
        ensures
            r <= self.entries@.len(),
            forall|j: int| 0 <= j < r ==> lex_lt((#[trigger] pairs_view(self.entries@)[j]).0, key@),
            r < self.entries@.len() ==> lex_lt(key@, pairs_view(self.entries@)[r as int].0),
    {
        let n = self.entries.len();
        let mut i: usize = 0;
        while i < n
            invariant
                n == self.entries@.len(),
                i <= n,
                sorted_entries(pairs_view(self.entries@)),
                forall|j: int|
                    0 <= j < self.entries@.len() ==> (#[trigger] pairs_view(self.entries@)[j]).0
                        != key@,
                forall|j: int|
                    0 <= j < i ==> lex_lt((#[trigger] pairs_view(self.entries@)[j]).0, key@),
            decreases n - i,
        {
            let e = &self.entries[i];
            let c = bytes_cmp(e.0.as_slice(), key);
            proof {
                assert(pairs_view(self.entries@)[i as int].0 == self.entries@[i as int].0@);
            }
            match c {
                core::cmp::Ordering::Less => {
                    i += 1;
                },
                core::cmp::Ordering::Equal => {
                    proof {
                        assert(pairs_view(self.entries@)[i as int].0 == key@);
                        assert(false);
                    }
                    i += 1;
                },
                core::cmp::Ordering::Greater => {
                    return i;
                },
            }
        }
        n
    }
}

impl KvInterface for BTreeMap {
    open spec fn entry_seq(&self) -> Seq<(Seq<u8>, ObjView)> {
        pairs_view(self.entries@)
    }

    open spec fn wf(&self) -> bool {
        sorted_entries(pairs_view(self.entries@))
    }

    proof fn lemma_wf_distinct(&self) {
        let s = self.entry_seq();
        assert forall|i: int, j: int| 0 <= i < j < s.len() implies (#[trigger] s[i]).0 != (
        #[trigger] s[j]).0 by {
            lemma_lex_trichotomy(s[i].0, s[j].0);
        }
    }

    fn new_empty() -> (r: Self) {
        let r = BTreeMap { entries: Vec::new() };
        proof {
            assert(pairs_view(r.entries@) =~= Seq::<(Seq<u8>, ObjView)>::empty());
        }
        r
    }

    fn has_key(&self, key: &[u8]) -> (r: bool) {
        proof {
            self.lemma_wf_distinct();
            lemma_entries_map(self.entry_seq());
        }
        match self.find_index(key) {
            Some(_) => true,
            None => false,
        }
    }

    fn len(&self) -> (r: usize) {
        self.entries.len()
    }

    fn is_empty(&self) -> (r: bool) {
        self.entries.len() == 0
    }

    fn insert(&mut self, key: BvString, value: BvObject) {
        proof {
            self.lemma_wf_distinct();
            lemma_entries_map(self.entry_seq());
        }
        let ghost olds = pairs_view(self.entries@);
        let i = self.find_insert_pos(key.as_slice());
        let n = self.entries.len();
        self.entries.insert(i, (key, value));
        proof {
            let news = pairs_view(self.entries@);
            assert(news =~= olds.insert(i as int, (key@, value@)));
            assert forall|p: int, q: int| 0 <= p < q < news.len() implies lex_lt(
                (#[trigger] news[p]).0,
                (#[trigger] news[q]).0,
            ) by {
                let ii = i as int;
                if p < ii && q == ii {
                    assert(news[p] == olds[p]);
                    assert(news[q] == (key@, value@));
                } else if p == ii && q > ii {
                    assert(news[q] == olds[q - 1]);
                    if q - 1 > ii {
                        assert(lex_lt(key@, olds[ii].0));
                        lemma_lex_transitive(key@, olds[ii].0, olds[q - 1].0);
                    }
                } else if p < ii && q > ii {
                    assert(news[p] == olds[p]);
                    assert(news[q] == olds[q - 1]);
                    if q - 1 == p {
                        assert(false);
                    }
                } else if p > ii && q > ii {
                    assert(news[p] == olds[p - 1]);
                    assert(news[q] == olds[q - 1]);
                } else if p < ii && q < ii {
                    assert(news[p] == olds[p]);
                    assert(news[q] == olds[q]);
                }
            }
        }
    }

    fn get(&self, key: &[u8]) -> (r: Option<&BvObject>) {
        proof {
            self.lemma_wf_distinct();
            lemma_entries_map(self.entry_seq());
        }
        match self.find_index(key) {
            Some(i) => {
                let e = &self.entries[i];
                proof {
                    assert(pairs_view(self.entries@)[i as int].1 == self.entries@[i as int].1@);
                }
                Some(&e.1)
            },
            None => None,
        }
    }

    fn update(&mut self, key: &[u8], value: BvObject) {
        proof {
            self.lemma_wf_distinct();
            lemma_entries_map(self.entry_seq());
        }
        let ghost olds = pairs_view(self.entries@);
        match self.find_index(key) {
            Some(i) => {
                self.entries.set(i, (BvString::from_slice(key), value));
                proof {
                    let news = pairs_view(self.entries@);
                    assert(news =~= olds.update(i as int, (key@, value@)));
                    assert forall|p: int, q: int| 0 <= p < q < news.len() implies lex_lt(
                        (#[trigger] news[p]).0,
                        (#[trigger] news[q]).0,
                    ) by {
                        assert(news[p].0 == olds[p].0);
                        assert(news[q].0 == olds[q].0);
                    }
                }
            },
            None => {
                proof {
                    assert(false);
                }
            },
        }
    }

    fn remove(&mut self, key: &[u8]) -> (r: BvObject) {
        proof {
            self.lemma_wf_distinct();
            lemma_entries_map(self.entry_seq());
        }
        let ghost olds = pairs_view(self.entries@);
        match self.find_index(key) {
            Some(i) => {
                let e = self.entries.remove(i);
                proof {
                    let news = pairs_view(self.entries@);
                    assert(news =~= olds.remove(i as int));
                    assert forall|p: int, q: int| 0 <= p < q < news.len() implies lex_lt(
                        (#[trigger] news[p]).0,
                        (#[trigger] news[q]).0,
                    ) by {
                        let ii = i as int;
                        if p < ii && q < ii {
                            assert(news[p] == olds[p]);
                            assert(news[q] == olds[q]);
                        } else if p < ii && q >= ii {
                            assert(news[p] == olds[p]);
                            assert(news[q] == olds[q + 1]);
                        } else {
                            assert(news[p] == olds[p + 1]);
                            assert(news[q] == olds[q + 1]);
                        }
                    }
                }
                e.1
            },
            None => {
                proof {
                    assert(false);
                }
                let e = self.entries.remove(0);
                e.1
            },
        }
    }

    fn import(&mut self, from: Vec<(BvString, BvObject)>) {
        let mut fresh = BTreeMap { entries: Vec::new() };
        proof {
            assert(pairs_view(fresh.entries@) =~= Seq::<(Seq<u8>, ObjView)>::empty());
            assert(entries_map(fresh.entry_seq()) =~= entries_map(
                pairs_view(from@).take(0),
            ));
        }
        let ghost fv = pairs_view(from@);
        let n = from.len();
        let mut i: usize = 0;
        while i < n
            invariant
                n == from@.len(),
                i <= n,
                fv == pairs_view(from@),
                distinct_keys(fv),
                forall|j: int| 0 <= j < fv.len() ==> (#[trigger] fv[j]).0.len() >= 1,
                fresh.wf(),
                entries_map(fresh.entry_seq()) == entries_map(fv.take(i as int)),
                fresh.entry_seq().len() <= i,
                forall|k: Seq<u8>|
                    #[trigger] entries_map(fresh.entry_seq()).dom().contains(k) ==> exists|j: int|
                        0 <= j < i && (#[trigger] fv[j]).0 == k,
            decreases n - i,
        {
            proof {
                fresh.lemma_wf_distinct();
                lemma_entries_map(fresh.entry_seq());
            }
            let ghost before = fresh.entry_seq();
            let e = &from[i];
            let key = e.0.duplicate();
            let value = BvObject::from_bvobject(&e.1);
            proof {
                assert(fv[i as int] == (from@[i as int].0@, from@[i as int].1@));
                assert(key@ == fv[i as int].0);
                if entries_map(before).dom().contains(key@) {
                    let j = choose|j: int| 0 <= j < i && (#[trigger] fv[j]).0 == key@;
                    assert(fv[j].0 == fv[i as int].0);
                    assert(false);
                }
            }
            fresh.insert(key, value);
            proof {
                let news = fresh.entry_seq();
                let ins = choose|ii: int|
                    0 <= ii <= before.len() && news == before.insert(
                        ii,
                        (fv[i as int].0, fv[i as int].1),
                    );
                fresh.lemma_wf_distinct();
                lemma_entries_map_insert(before, ins, (fv[i as int].0, fv[i as int].1));
                assert(fv.take(i as int + 1).drop_last() =~= fv.take(i as int));
                assert(fv.take(i as int + 1).last() == fv[i as int]);
                assert(entries_map(news) =~= entries_map(fv.take(i as int + 1)));
                lemma_entries_map(news);
                assert forall|k: Seq<u8>|
                    #[trigger] entries_map(news).dom().contains(k) implies exists|j: int|
                        0 <= j < i + 1 && (#[trigger] fv[j]).0 == k by {
                    let jj = choose|jj: int| 0 <= jj < news.len() && (#[trigger] news[jj]).0 == k;
                    if jj == ins {
                        assert(fv[i as int].0 == k);
                    } else {
                        let bj = if jj < ins {
                            jj
                        } else {
                            jj - 1
                        };
                        assert(before[bj] == news[jj]);
                        lemma_entries_map(before);
                        assert(entries_map(before).dom().contains(k));
                    }
                }
            }
            i += 1;
        }
        proof {
            assert(fv.take(n as int) =~= fv);
        }
        *self = fresh;
    }

    fn export(&self) -> (r: Vec<(BvString, BvObject)>) {
        let n = self.entries.len();
        let mut r: Vec<(BvString, BvObject)> = Vec::new();
        let mut i: usize = 0;
        while i < n
            invariant
                n == self.entries@.len(),
                i <= n,
                r@.len() == i,
                forall|j: int|
                    0 <= j < i ==> pairs_view(r@)[j] == pairs_view(self.entries@)[j],
            decreases n - i,
        {
            let e = &self.entries[i];
            let k = e.0.duplicate();
            let v = BvObject::from_bvobject(&e.1);
            let ghost prev = r@;
            r.push((k, v));
            proof {
                assert forall|j: int| 0 <= j < i + 1 implies pairs_view(r@)[j] == pairs_view(
                    self.entries@,
                )[j] by {
                    if j < i {
                        assert(r@[j] == prev[j]);
                        assert(pairs_view(prev)[j] == pairs_view(self.entries@)[j]);
                    } else {
                        assert(r@[j] == (k, v));
                    }
                }
            }
            i += 1;
        }
        proof {
            assert(pairs_view(r@) =~= pairs_view(self.entries@));
        }
        r
    }
}

} // verus!
