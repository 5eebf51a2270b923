//! The linear-scan backend, meant for very small collections where the
//! overhead of the ordered map is not justified: entries are kept in
//! insertion order and every lookup walks them front to back.

use vstd::prelude::*;

use crate::bvobject::{BvObject, ObjView};
use crate::bvstring::BvString;
use crate::storage::{KvInterface, entries_map, distinct_keys, pairs_view, lemma_entries_map};

verus! {

/// The linear-scan storage backend: entries in insertion order.
pub struct IndexedVec {
    pub entries: Vec<(BvString, BvObject)>,
}

impl IndexedVec {
    /// Position of the key, if present.
    fn find_index(&self, key: &[u8]) -> (r: Option<usize>)
        ensures
            match r {
                Some(i) => i < self.entries@.len() && pairs_view(self.entries@)[i as int].0
                    == key@,
                None => forall|j: int|
                    0 <= j < self.entries@.len() ==> (#[trigger] pairs_view(self.entries@)[j]).0
                        != key@,
            },
    {
        let n = self.entries.len();
        let mut i: usize = 0;
        while i < n
            invariant
                n == self.entries@.len(),
                i <= n,
                forall|j: int|
                    0 <= j < i ==> (#[trigger] pairs_view(self.entries@)[j]).0 != key@,
            decreases n - i,
        {
            let e = &self.entries[i];
            proof {
                assert(pairs_view(self.entries@)[i as int].0 == self.entries@[i as int].0@);
            }
            if e.0.eq_bytes(key) {
                return Some(i);
            }
            i += 1;
        }
        None
    }

    /// How many entries the backend walks per scan.
    pub fn indexes_len(&self) -> (r: usize)
        ensures
            r == self.entries@.len(),
    {
        self.entries.len()
    }
}

impl KvInterface for IndexedVec {
    open spec fn entry_seq(&self) -> Seq<(Seq<u8>, ObjView)> {
        pairs_view(self.entries@)
    }

    open spec fn wf(&self) -> bool {
        distinct_keys(pairs_view(self.entries@))
    }

    proof fn lemma_wf_distinct(&self) {
    }

    fn new_empty() -> (r: Self) {
        let r = IndexedVec { entries: Vec::new() };
        proof {
            assert(pairs_view(r.entries@) =~= Seq::<(Seq<u8>, ObjView)>::empty());
        }
        r
    }

    fn has_key(&self, key: &[u8]) -> (r: bool) {
        proof {
            lemma_entries_map(self.entry_seq());
        }
        match self.find_index(key) {
            Some(_) => true,
            None => false,
        }
    }

    fn len(&self) -> (r: usize) {
        self.entries.len()
    }

    fn is_empty(&self) -> (r: bool) {
        self.entries.len() == 0
    }

    fn insert(&mut self, key: BvString, value: BvObject) {
        proof {
            lemma_entries_map(self.entry_seq());
        }
        let ghost olds = pairs_view(self.entries@);
        let ghost n = olds.len();
        self.entries.push((key, value));
        proof {
            assert(pairs_view(self.entries@) =~= olds.insert(
                n as int,
                (self.entries@.last().0@, self.entries@.last().1@),
            ));
            assert forall|p: int, q: int|
                0 <= p < q < pairs_view(self.entries@).len() implies (#[trigger] pairs_view(
                self.entries@,
            )[p]).0 != (#[trigger] pairs_view(self.entries@)[q]).0 by {
                if q < n {
                    assert(pairs_view(self.entries@)[p] == olds[p]);
                    assert(pairs_view(self.entries@)[q] == olds[q]);
                } else {
                    assert(pairs_view(self.entries@)[p] == olds[p]);
                    assert(olds[p].0 != pairs_view(self.entries@)[q].0);
                }
            }
        }
    }

    fn get(&self, key: &[u8]) -> (r: Option<&BvObject>) {
        proof {
            lemma_entries_map(self.entry_seq());
        }
        match self.find_index(key) {
            Some(i) => {
                let e = &self.entries[i];
                proof {
                    assert(pairs_view(self.entries@)[i as int].1 == self.entries@[i as int].1@);
                }
                Some(&e.1)
            },
            None => None,
        }
    }

    fn update(&mut self, key: &[u8], value: BvObject) {
        proof {
            lemma_entries_map(self.entry_seq());
        }
        let ghost olds = pairs_view(self.entries@);
        match self.find_index(key) {
            Some(i) => {
                self.entries.set(i, (BvString::from_slice(key), value));
                proof {
                    assert(pairs_view(self.entries@) =~= olds.update(
                        i as int,
                        (key@, value@),
                    ));
                    assert forall|p: int, q: int|
                        0 <= p < q < pairs_view(self.entries@).len() implies (
                    #[trigger] pairs_view(self.entries@)[p]).0 != (#[trigger] pairs_view(
                        self.entries@,
                    )[q]).0 by {
                        assert(pairs_view(self.entries@)[p].0 == olds[p].0);
                        assert(pairs_view(self.entries@)[q].0 == olds[q].0);
                    }
                }
            },
            None => {
                proof {
                    assert(false);
                }
            },
        }
    }

    fn remove(&mut self, key: &[u8]) -> (r: BvObject) {
        proof {
            lemma_entries_map(self.entry_seq());
        }
        let ghost olds = pairs_view(self.entries@);
        match self.find_index(key) {
            Some(i) => {
                let e = self.entries.remove(i);
                proof {
                    assert(pairs_view(self.entries@) =~= olds.remove(i as int));
                    assert forall|p: int, q: int|
                        0 <= p < q < pairs_view(self.entries@).len() implies (
                    #[trigger] pairs_view(self.entries@)[p]).0 != (#[trigger] pairs_view(
                        self.entries@,
                    )[q]).0 by {
                        let ii = i as int;
                        if p < ii && q < ii {
                            assert(pairs_view(self.entries@)[p] == olds[p]);
                            assert(pairs_view(self.entries@)[q] == olds[q]);
                        } else if p < ii {
                            assert(pairs_view(self.entries@)[p] == olds[p]);
                            assert(pairs_view(self.entries@)[q] == olds[q + 1]);
                        } else {
                            assert(pairs_view(self.entries@)[p] == olds[p + 1]);
                            assert(pairs_view(self.entries@)[q] == olds[q + 1]);
                        }
                    }
                }
                e.1
            },
            None => {
                proof {
                    assert(false);
                }
                let e = self.entries.remove(0);
                e.1
            },
        }
    }

    fn import(&mut self, from: Vec<(BvString, BvObject)>) {
        let fresh = IndexedVec { entries: from };
        proof {
            assert(entries_map(fresh.entry_seq()) == entries_map(pairs_view(fresh.entries@)));
        }
        *self = fresh;
    }

    fn export(&self) -> (r: Vec<(BvString, BvObject)>) {
        let n = self.entries.len();
        let mut r: Vec<(BvString, BvObject)> = Vec::new();
        let mut i: usize = 0;
        while i < n
            invariant
                n == self.entries@.len(),
                i <= n,
                r@.len() == i,
                forall|j: int|
                    0 <= j < i ==> pairs_view(r@)[j] == pairs_view(self.entries@)[j],
            decreases n - i,
        {
            let e = &self.entries[i];
            let k = e.0.duplicate();
            let v = BvObject::from_bvobject(&e.1);
            let ghost prev = r@;
            r.push((k, v));
            proof {
                assert forall|j: int| 0 <= j < i + 1 implies pairs_view(r@)[j] == pairs_view(
                    self.entries@,
                )[j] by {
                    if j < i {
                        assert(r@[j] == prev[j]);
                        assert(pairs_view(prev)[j] == pairs_view(self.entries@)[j]);
                    } else {
                        assert(r@[j] == (k, v));
                        assert(pairs_view(self.entries@)[j] == (self.entries@[j].0@,
                            self.entries@[j].1@));
                    }
                }
            }
            i += 1;
        }
        proof {
            assert(pairs_view(r@) =~= pairs_view(self.entries@));
        }
        r
    }
}

} // verus!
