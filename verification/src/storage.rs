//! Pluggable key-value storage backends.
//!
//! `KvInterface` is the contract every backend meets: a finite mapping from
//! byte-string keys to tagged values, with an iteration order exposed as a
//! sequence of entries. Two backends implement it: an ordered map that keeps
//! its entries sorted by key, and a first-byte-bucketed vector searched
//! linearly, meant for small collections.

pub mod btreemap;
pub mod ikv;

use vstd::prelude::*;

use crate::bvobject::{BvObject, ObjView};
use crate::bvstring::BvString;

verus! {

/// The mathematical contents of an entry sequence, read left to right:
/// a later entry with the same key would win, though well-formed backends
/// never hold two entries with one key.
pub open spec fn entries_map(s: Seq<(Seq<u8>, ObjView)>) -> Map<Seq<u8>, ObjView>
    decreases s.len(),
{
    if s.len() == 0 {
        Map::empty()
    } else {
        entries_map(s.drop_last()).insert(s.last().0, s.last().1)
    }
}

/// No two entries share a key.
pub open spec fn distinct_keys(s: Seq<(Seq<u8>, ObjView)>) -> bool {
    forall|i: int, j: int| 0 <= i < j < s.len() ==> (#[trigger] s[i]).0 != (#[trigger] s[j]).0
}

/// What `entries_map` holds, entry by entry.
pub proof fn lemma_entries_map(s: Seq<(Seq<u8>, ObjView)>)
    requires
        distinct_keys(s),
    ensures
        forall|k: Seq<u8>|
            #[trigger] entries_map(s).dom().contains(k) <==> exists|j: int|
                0 <= j < s.len() && (#[trigger] s[j]).0 == k,
        forall|j: int|
            0 <= j < s.len() ==> entries_map(s)[(#[trigger] s[j]).0] == s[j].1,
        entries_map(s).dom().finite(),
    decreases s.len(),
{
    if s.len() > 0 {
        let t = s.drop_last();
        assert(distinct_keys(t));
        lemma_entries_map(t);
        assert forall|j: int| 0 <= j < s.len() implies entries_map(s)[(#[trigger] s[j]).0]
            == s[j].1 by {
            if j < s.len() - 1 {
                assert(t[j] == s[j]);
                assert(s[j].0 != s[s.len() - 1].0);
            }
        }
        assert forall|k: Seq<u8>| #[trigger] entries_map(s).dom().contains(k) implies exists|
            j: int,
        |
            0 <= j < s.len() && (#[trigger] s[j]).0 == k by {
            if k == s.last().0 {
                assert(s[s.len() - 1].0 == k);
            } else {
                let j = choose|j: int| 0 <= j < t.len() && (#[trigger] t[j]).0 == k;
                assert(s[j].0 == k);
            }
        }
        assert forall|k: Seq<u8>|
            (exists|j: int| 0 <= j < s.len() && (#[trigger] s[j]).0 == k) implies #[trigger]
            entries_map(s).dom().contains(k) by {
            let j = choose|j: int| 0 <= j < s.len() && (#[trigger] s[j]).0 == k;
            if j < s.len() - 1 {
                assert(t[j].0 == k);
            }
        }
    }
}

/// The number of keys equals the number of entries.
pub proof fn lemma_entries_map_len(s: Seq<(Seq<u8>, ObjView)>)
    requires
        distinct_keys(s),
    ensures
        entries_map(s).dom().len() == s.len(),
        entries_map(s).dom().finite(),
    decreases s.len(),
{
    if s.len() > 0 {
        let t = s.drop_last();
        assert(distinct_keys(t));
        lemma_entries_map_len(t);
        lemma_entries_map(t);
        assert(!entries_map(t).dom().contains(s.last().0));
        assert(entries_map(s).dom() =~= entries_map(t).dom().insert(s.last().0));
    }
}

/// Inserting a fresh-keyed entry anywhere in a distinct-key sequence adds
/// exactly that binding to the contents.
pub proof fn lemma_entries_map_insert(s: Seq<(Seq<u8>, ObjView)>, i: int, e: (Seq<u8>, ObjView))
    requires
        0 <= i <= s.len(),
        distinct_keys(s.insert(i, e)),
    ensures
        entries_map(s.insert(i, e)) == entries_map(s).insert(e.0, e.1),
{
    let t = s.insert(i, e);
    assert(distinct_keys(s)) by {
        assert forall|p: int, q: int| 0 <= p < q < s.len() implies (#[trigger] s[p]).0 != (
        #[trigger] s[q]).0 by {
            let tp = if p < i {
                p
            } else {
                p + 1
            };
            let tq = if q < i {
                q
            } else {
                q + 1
            };
            assert(t[tp] == s[p]);
            assert(t[tq] == s[q]);
        }
    }
    lemma_entries_map(s);
    lemma_entries_map(t);
    assert forall|j: int| 0 <= j < s.len() implies (#[trigger] s[j]).0 != e.0 by {
        let tj = if j < i {
            j
        } else {
            j + 1
        };
        assert(t[tj] == s[j]);
        assert(t[i] == e);
    }
    let lhs = entries_map(t);
    let rhs = entries_map(s).insert(e.0, e.1);
    assert forall|k: Seq<u8>| #[trigger] lhs.dom().contains(k) implies rhs.dom().contains(k)
        && lhs[k] == rhs[k] by {
        let j = choose|j: int| 0 <= j < t.len() && (#[trigger] t[j]).0 == k;
        if j == i {
            assert(t[i] == e);
        } else {
            let sj = if j < i {
                j
            } else {
                j - 1
            };
            assert(s[sj] == t[j]);
            assert(entries_map(s)[k] == s[sj].1);
            assert(lhs[k] == t[j].1);
            assert(k != e.0);
        }
    }
    assert forall|k: Seq<u8>| #[trigger] rhs.dom().contains(k) implies lhs.dom().contains(
        k,
    ) by {
        if k == e.0 {
            assert(t[i] == e);
            assert(t[i].0 == k);
        } else {
            let sj = choose|sj: int| 0 <= sj < s.len() && (#[trigger] s[sj]).0 == k;
            let tj = if sj < i {
                sj
            } else {
                sj + 1
            };
            assert(t[tj] == s[sj]);
        }
    }
    assert(lhs =~= rhs);
}

/// The view of an exec entry vector.
pub open spec fn pairs_view(v: Seq<(BvString, BvObject)>) -> Seq<(Seq<u8>, ObjView)> {
    v.map_values(|e: (BvString, BvObject)| (e.0@, e.1@))
}

/// The contract of a key-value storage backend.
///
/// `entry_seq` is the backend's iteration order; `wf` is its internal
/// invariant, which every operation preserves and which guarantees that no
/// key occurs twice.
pub trait KvInterface: Sized {
    /// The entries in iteration order.
    spec fn entry_seq(&self) -> Seq<(Seq<u8>, ObjView)>;

    /// The backend's internal invariant.
    spec fn wf(&self) -> bool;

    /// A well-formed backend holds each key at most once.
    proof fn lemma_wf_distinct(&self)
        requires
            self.wf(),
        ensures
            distinct_keys(self.entry_seq()),
    ;

    /// An empty backend.
    fn new_empty() -> (r: Self)
        ensures
            r.wf(),
            r.entry_seq() == Seq::<(Seq<u8>, ObjView)>::empty(),
    ;

    /// Does the key exist?
    fn has_key(&self, key: &[u8]) -> (r: bool)
        requires
            self.wf(),
        ensures
            r == entries_map(self.entry_seq()).dom().contains(key@),
    ;

    /// Number of entries.
    fn len(&self) -> (r: usize)
        requires
            self.wf(),
        ensures
            r == self.entry_seq().len(),
    ;

    /// True when no entry is stored.
    fn is_empty(&self) -> (r: bool)
        requires
            self.wf(),
        ensures
            r == (self.entry_seq().len() == 0),
    ;

    /// Insert a fresh, non-empty key.
    fn insert(&mut self, key: BvString, value: BvObject)
        requires
            old(self).wf(),
            key@.len() >= 1,
            !entries_map(old(self).entry_seq()).dom().contains(key@),
        ensures
            final(self).wf(),
            exists|i: int|
                0 <= i <= old(self).entry_seq().len() && final(self).entry_seq() == old(
                    self,
                ).entry_seq().insert(i, (key@, value@)),
    ;

    /// Look a key up.
    fn get(&self, key: &[u8]) -> (r: Option<&BvObject>)
        requires
            self.wf(),
        ensures
            match r {
                Some(v) => entries_map(self.entry_seq()).dom().contains(key@) && v@
                    == entries_map(self.entry_seq())[key@],
                None => !entries_map(self.entry_seq()).dom().contains(key@),
            },
    ;

    /// Replace the value under an existing key, keeping its position.
    fn update(&mut self, key: &[u8], value: BvObject)
        requires
            old(self).wf(),
            entries_map(old(self).entry_seq()).dom().contains(key@),
        ensures
            final(self).wf(),
            exists|i: int|
                0 <= i < old(self).entry_seq().len() && old(self).entry_seq()[i].0 == key@
                    && final(self).entry_seq() == old(self).entry_seq().update(
                    i,
                    (key@, value@),
                ),
    ;

    /// Remove an existing key and hand its value back.
    fn remove(&mut self, key: &[u8]) -> (r: BvObject)
        requires
            old(self).wf(),
            entries_map(old(self).entry_seq()).dom().contains(key@),
        ensures
            final(self).wf(),
            exists|i: int|
                0 <= i < old(self).entry_seq().len() && old(self).entry_seq()[i] == (key@, r@)
                    && final(self).entry_seq() == old(self).entry_seq().remove(i),
    ;

    /// Replace all entries from an ordered list of distinct-key records.
    fn import(&mut self, from: Vec<(BvString, BvObject)>)
        requires
            distinct_keys(pairs_view(from@)),
            forall|j: int| 0 <= j < from@.len() ==> (#[trigger] pairs_view(from@)[j]).0.len() >= 1,
        ensures
            final(self).wf(),
            entries_map(final(self).entry_seq()) == entries_map(pairs_view(from@)),
    ;

    /// All entries, in iteration order.
    fn export(&self) -> (r: Vec<(BvString, BvObject)>)
        requires
            self.wf(),
        ensures
            pairs_view(r@) == self.entry_seq(),
    ;
}

} // verus!
