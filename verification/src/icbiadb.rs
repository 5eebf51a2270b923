//! The store facade: one key-value collection, one table database, and
//! the document-store stub, committed to and loaded from one file image.

use vstd::prelude::*;

use crate::kvdb::KvDb;
use crate::reader::read_file;
use crate::storage::KvInterface;
use crate::storage::btreemap::BTreeMap;
use crate::tabledb::TableDb;
use crate::writer::{enc_file, store_valid, check_store, write_file};

verus! {

/// The document-store stub: construction only, no operations.
pub struct DocDb {}

impl DocDb {
    /// The only operation: make one.
    pub fn new() -> (r: DocDb) {
        DocDb {  }
    }
}

/// The whole store: key-value records, tables, and the document stub.
pub struct IcbiaDB {
    pub kvs: KvDb<BTreeMap>,
    pub tables: TableDb,
    pub docs: DocDb,
}

impl IcbiaDB {
    /// The facade's invariant: both collections are well-formed.
    pub open spec fn wf(&self) -> bool {
        &&& self.kvs.wf()
        &&& self.tables.wf()
    }

    /// An empty in-memory store.
    pub fn mem() -> (r: IcbiaDB)
        ensures
            r.wf(),
            r.kvs.records.entry_seq().len() == 0,
            r.tables.tables().len() == 0,
    {
        IcbiaDB { kvs: crate::kvdb::mem(), tables: TableDb::mem(), docs: DocDb::new() }
    }

    /// The key-value side.
    pub fn kv_db(&self) -> (r: &KvDb<BTreeMap>)
        ensures
            r == &self.kvs,
    {
        &self.kvs
    }

    /// The table side.
    pub fn table_db(&self) -> (r: &TableDb)
        ensures
            r == &self.tables,
    {
        &self.tables
    }

    /// The document side.
    pub fn doc_db(&self) -> (r: &DocDb) {
        &self.docs
    }

    /// Decide at run time whether the store fits the file format's
    /// length fields and memory, so that an embedder can test the
    /// writer's precondition before committing.
    pub fn can_commit(&self) -> (r: bool)
        requires
            self.wf(),
        ensures
            r == store_valid(self.tables.tables(), self.kvs.records.entry_seq()),
    {
        let kv_entries = self.kvs.export();
        check_store(&self.tables.maps, &self.tables.rows, &kv_entries)
    }

    /// Serialize the whole store if it fits the file format, and refuse
    /// — leaving everything untouched — exactly when it does not.
    pub fn try_to_file_bytes(&self) -> (r: Option<Vec<u8>>)
        requires
            self.wf(),
        ensures
            match r {
                Some(b) => store_valid(self.tables.tables(), self.kvs.records.entry_seq())
                    && b@ == enc_file(self.tables.tables(), self.kvs.records.entry_seq()),
                None => !store_valid(self.tables.tables(), self.kvs.records.entry_seq()),
            },
    {
        if self.can_commit() {
            Some(self.to_file_bytes())
        } else {
            None
        }
    }

    /// Rebuild the whole store from a file image. A zero-length image is
    /// deliberately an empty store; any image some store encodes to
    /// decodes back to exactly that store, key-value contents compared as
    /// a map.
    pub fn from_file_bytes(v: &[u8]) -> (r: Option<IcbiaDB>)
        ensures
            v@.len() == 0 ==> (r matches Some(db) && db.wf() && db.tables.tables().len() == 0
                && db.kvs.records.entry_seq().len() == 0),
            forall|ts: Seq<crate::writer::TableV>, kvv: Seq<(Seq<u8>, crate::bvobject::ObjView)>|
                crate::laws::store_decodable(ts, kvv) && crate::storage::distinct_keys(kvv)
                    && v@ == #[trigger] enc_file(ts, kvv) ==> (r matches Some(db)
                    && db.kvs.wf() && crate::storage::entries_map(db.kvs.records.entry_seq())
                    == crate::storage::entries_map(kvv) && db.tables.tables().len() == ts.len()
                    && (forall|i: int|
                    0 <= i < ts.len() ==> (#[trigger] db.tables.tables()[i]).name == ts[i].name
                        && db.tables.tables()[i].fields == ts[i].fields
                        && db.tables.tables()[i].rows == ts[i].rows) && ((forall|i: int|
                    0 <= i < ts.len() ==> crate::table_types::field_map_wf(
                        (#[trigger] ts[i]).fields,
                    )) && (forall|i: int, j: int|
                    0 <= i < ts.len() && 0 <= j < ts[i].rows.len()
                        ==> crate::table_types::row_wf((#[trigger] ts[i].rows[j])))
                    ==> db.wf())),
    {
        match read_file(v) {
            Some((maps, rowlists, kvstore)) => {
                let db = IcbiaDB {
                    kvs: KvDb { records: kvstore },
                    tables: crate::tabledb::TableDb { maps, rows: rowlists },
                    docs: DocDb::new(),
                };
                proof {
                    if v@.len() == 0 {
                        assert(db.tables.tables() =~= Seq::<crate::writer::TableV>::empty());
                        assert(db.tables.wf());
                    }
                    assert forall|
                        ts: Seq<crate::writer::TableV>,
                        kvv: Seq<(Seq<u8>, crate::bvobject::ObjView)>,
                    |
                        crate::laws::store_decodable(ts, kvv) && crate::storage::distinct_keys(
                            kvv,
                        ) && v@ == #[trigger] enc_file(ts, kvv) implies (db.kvs.wf()
                        && crate::storage::entries_map(db.kvs.records.entry_seq())
                        == crate::storage::entries_map(kvv) && db.tables.tables().len()
                        == ts.len() && (forall|i: int|
                        0 <= i < ts.len() ==> (#[trigger] db.tables.tables()[i]).name
                            == ts[i].name && db.tables.tables()[i].fields == ts[i].fields
                            && db.tables.tables()[i].rows == ts[i].rows) && ((forall|i: int|
                        0 <= i < ts.len() ==> crate::table_types::field_map_wf(
                            (#[trigger] ts[i]).fields,
                        )) && (forall|i: int, j: int|
                        0 <= i < ts.len() && 0 <= j < ts[i].rows.len()
                            ==> crate::table_types::row_wf((#[trigger] ts[i].rows[j])))
                        ==> db.wf())) by {
                        assert forall|i: int|
                            0 <= i < ts.len() implies (#[trigger] db.tables.tables()[i]).name
                            == ts[i].name && db.tables.tables()[i].fields == ts[i].fields
                            && db.tables.tables()[i].rows == ts[i].rows by {
                            assert(db.tables.tables()[i].name == db.tables.maps@[i].0@);
                            assert(db.tables.tables()[i].fields == db.tables.maps@[i].1@);
                            assert(db.tables.tables()[i].rows == crate::writer::rows_view(
                                db.tables.rows@[i].1@,
                            ));
                        }
                        if (forall|i: int|
                            0 <= i < ts.len() ==> crate::table_types::field_map_wf(
                                (#[trigger] ts[i]).fields,
                            )) && (forall|i: int, j: int|
                            0 <= i < ts.len() && 0 <= j < ts[i].rows.len()
                                ==> crate::table_types::row_wf((#[trigger] ts[i].rows[j]))) {
                            assert(db.tables.wf()) by {
                                assert forall|p: int, q: int|
                                    0 <= p < q < db.tables.maps@.len() implies (
                                #[trigger] db.tables.maps@[p]).0@ != (
                                #[trigger] db.tables.maps@[q]).0@ by {
                                    assert(db.tables.tables()[p].name == ts[p].name);
                                    assert(db.tables.tables()[q].name == ts[q].name);
                                    assert((#[trigger] ts[p]).name != (#[trigger] ts[q]).name);
                                }
                                assert forall|p: int|
                                    0 <= p < db.tables.maps@.len() implies (
                                #[trigger] db.tables.maps@[p]).0@ == db.tables.rows@[p].0@
                                    && crate::table_types::field_map_wf(
                                    db.tables.maps@[p].1@,
                                ) by {
                                    assert(db.tables.tables()[p].fields == ts[p].fields);
                                    assert(crate::table_types::field_map_wf(
                                        (#[trigger] ts[p]).fields,
                                    ));
                                }
                                assert forall|p: int, q: int|
                                    0 <= p < db.tables.rows@.len() && 0 <= q
                                        < db.tables.rows@[p].1@.len() implies
                                    crate::table_types::row_wf(
                                    (#[trigger] db.tables.rows@[p].1@[q])@,
                                ) by {
                                    assert(db.tables.tables()[p].rows
                                        == crate::writer::rows_view(db.tables.rows@[p].1@));
                                    assert(crate::writer::rows_view(db.tables.rows@[p].1@)[q]
                                        == db.tables.rows@[p].1@[q]@);
                                    assert(crate::table_types::row_wf(
                                        (#[trigger] ts[p].rows[q]),
                                    ));
                                }
                            }
                        }
                    }
                }
                Some(db)
            },
            None => None,
        }
    }

    /// Serialize the whole store to its single file image. A commit always
    /// rewrites the entire file; the caller writes these bytes whole.
    pub fn to_file_bytes(&self) -> (r: Vec<u8>)
        requires
            self.wf(),
            store_valid(self.tables.tables(), self.kvs.records.entry_seq()),
        ensures
            r@ == enc_file(self.tables.tables(), self.kvs.records.entry_seq()),
    {
        let kv_entries = self.kvs.export();
        write_file(&self.tables.maps, &self.tables.rows, &kv_entries)
    }
}

} // verus!
