//! In-memory pairing of a key-value backend with declaration maps, for
//! embeddings that drive the pieces directly.

use vstd::prelude::*;

use crate::bvobject::BvObject;
use crate::bvstring::BvString;
use crate::storage::{KvInterface, entries_map};
use crate::table_types::{FieldMap, TableRow};

verus! {

/// A bare in-memory store: one key-value backend plus the declaration
/// map and declaration rows.
pub struct Memory<KV: KvInterface> {
    pub kv_records: KV,
    pub decl_map: Vec<(BvString, FieldMap)>,
    pub decl_records: Vec<(BvString, Vec<TableRow>)>,
}

impl<KV: KvInterface> Memory<KV> {
    /// An empty in-memory store.
    pub fn new() -> (r: Self)
        ensures
            r.kv_records.wf(),
            r.kv_records.entry_seq().len() == 0,
            r.decl_map@.len() == 0,
            r.decl_records@.len() == 0,
    {
        Memory { kv_records: KV::new_empty(), decl_map: Vec::new(), decl_records: Vec::new() }
    }

    /// Look a key up.
    pub fn get(&self, key: &[u8]) -> (r: Option<&BvObject>)
        requires
            self.kv_records.wf(),
        ensures
            match r {
                Some(v) => entries_map(self.kv_records.entry_seq()).dom().contains(key@) && v@
                    == entries_map(self.kv_records.entry_seq())[key@],
                None => !entries_map(self.kv_records.entry_seq()).dom().contains(key@),
            },
    {
        self.kv_records.get(key)
    }

    /// Number of key-value records.
    pub fn len(&self) -> (r: usize)
        requires
            self.kv_records.wf(),
        ensures
            r == self.kv_records.entry_seq().len(),
    {
        self.kv_records.len()
    }

    /// Does the key exist?
    pub fn has_key(&self, key: &[u8]) -> (r: bool)
        requires
            self.kv_records.wf(),
        ensures
            r == entries_map(self.kv_records.entry_seq()).dom().contains(key@),
    {
        self.kv_records.has_key(key)
    }

    /// The declaration map.
    pub fn declaration_map(&self) -> (r: &Vec<(BvString, FieldMap)>)
        ensures
            r@ == self.decl_map@,
    {
        &self.decl_map
    }

    /// The key-value backend.
    pub fn kv_records(&self) -> (r: &KV)
        ensures
            r == &self.kv_records,
    {
        &self.kv_records
    }

    /// The declaration rows.
    pub fn decl_records(&self) -> (r: &Vec<(BvString, Vec<TableRow>)>)
        ensures
            r@ == self.decl_records@,
    {
        &self.decl_records
    }

    /// Insert a fresh key-value record.
    pub fn push_record(&mut self, r: (BvString, BvObject))
        requires
            old(self).kv_records.wf(),
            r.0@.len() >= 1,
            !entries_map(old(self).kv_records.entry_seq()).dom().contains(r.0@),
        ensures
            final(self).kv_records.wf(),
            exists|i: int|
                0 <= i <= old(self).kv_records.entry_seq().len()
                    && final(self).kv_records.entry_seq()
                    == old(self).kv_records.entry_seq().insert(i, (r.0@, r.1@)),
    {
        let (k, v) = r;
        self.kv_records.insert(k, v);
    }

    /// Remove a key-value record and hand its value back.
    pub fn delete_record(&mut self, key: &[u8]) -> (r: BvObject)
        requires
            old(self).kv_records.wf(),
            entries_map(old(self).kv_records.entry_seq()).dom().contains(key@),
        ensures
            final(self).kv_records.wf(),
            exists|i: int|
                0 <= i < old(self).kv_records.entry_seq().len() && old(
                    self,
                ).kv_records.entry_seq()[i] == (key@, r@) && final(self).kv_records.entry_seq()
                    == old(self).kv_records.entry_seq().remove(i),
    {
        self.kv_records.remove(key)
    }
}

} // verus!
