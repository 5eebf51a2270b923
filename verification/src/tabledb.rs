//! The table database: schema declarations, row insertion with type and
//! uniqueness validation, and queries over a table's rows.

use vstd::prelude::*;

use crate::bvobject::{BvObject, ObjView};
use crate::bvstring::BvString;
use crate::bytevec::ByteVec;
use crate::table_types::{FieldMap, FieldOpts, TableRow, FieldMapV, RowV, row_wf, field_map_wf, opts_distinct};
use crate::writer::{TableV, rows_view, tables_view};

verus! {

/// The byte name of the `type` field option.
pub open spec fn type_opt_name() -> Seq<u8> {
    seq![116u8, 121u8, 112u8, 101u8]
}

/// The byte name of the `unique` field option.
pub open spec fn unique_opt_name() -> Seq<u8> {
    seq![117u8, 110u8, 105u8, 113u8, 117u8, 101u8]
}

/// The `type` option name, as bytes.
pub fn type_opt_bytes() -> (r: [u8; 4])
    ensures
        r@ == type_opt_name(),
{
    let r: [u8; 4] = [116, 121, 112, 101];
    proof {
        assert(r@ =~= type_opt_name());
    }
    r
}

/// The `unique` option name, as bytes.
pub fn unique_opt_bytes() -> (r: [u8; 6])
    ensures
        r@ == unique_opt_name(),
{
    let r: [u8; 6] = [117, 110, 105, 113, 117, 101];
    proof {
        assert(r@ =~= unique_opt_name());
    }
    r
}

/// Why a row was rejected.
#[derive(Debug, PartialEq, Eq, Structural)]
pub enum TableError {
    /// The named table is not declared.
    NoSuchTable,
    /// A declared field is missing from the row.
    MissingField,
    /// A row value's tag differs from the field's declared type.
    TypeMismatch,
    /// A `unique` field repeats a value an existing row already holds.
    UniqueViolation,
}

/// The declared type tag of a field, when the option is present.
pub open spec fn field_type_of(fm: FieldMapV, field: Seq<u8>) -> Option<Seq<u8>> {
    if exists|i: int, j: int|
        0 <= i < fm.len() && 0 <= j < fm[i].1.len() && (#[trigger] fm[i]).0 == field && (
        #[trigger] fm[i].1[j]).0 == type_opt_name() {
        let (i, j) = choose|i: int, j: int|
            0 <= i < fm.len() && 0 <= j < fm[i].1.len() && (#[trigger] fm[i]).0 == field && (
            #[trigger] fm[i].1[j]).0 == type_opt_name();
        Some(fm[i].1[j].1)
    } else {
        None
    }
}

/// Is the field declared `unique`?
pub open spec fn field_is_unique(fm: FieldMapV, field: Seq<u8>) -> bool {
    exists|i: int, j: int|
        0 <= i < fm.len() && 0 <= j < fm[i].1.len() && (#[trigger] fm[i]).0 == field && (
        #[trigger] fm[i].1[j]).0 == unique_opt_name()
}

/// The value a row holds under a field, when present.
pub open spec fn row_value_of(row: RowV, field: Seq<u8>) -> Option<ObjView> {
    if exists|i: int| 0 <= i < row.len() && (#[trigger] row[i]).0 == field {
        let i = choose|i: int| 0 <= i < row.len() && (#[trigger] row[i]).0 == field;
        Some(row[i].1)
    } else {
        None
    }
}

/// A row is admissible against a schema: every declared field is present
/// with exactly the declared type tag.
pub open spec fn row_types_ok(fm: FieldMapV, row: RowV) -> bool {
    forall|i: int|
        0 <= i < fm.len() ==> match field_type_of(fm, (#[trigger] fm[i]).0) {
            Some(t) => match row_value_of(row, fm[i].0) {
                Some(v) => v.type_tag == t,
                None => false,
            },
            None => true,
        }
}

/// Two rows collide when some `unique` field holds equal raw bytes in
/// both.
pub open spec fn rows_collide(fm: FieldMapV, a: RowV, b: RowV) -> bool {
    exists|i: int|
        0 <= i < fm.len() && field_is_unique(fm, (#[trigger] fm[i]).0) && match (
        row_value_of(a, fm[i].0),
        row_value_of(b, fm[i].0),
    ) {
        (Some(x), Some(y)) => x.raw == y.raw,
        _ => false,
    }
}

/// A row may join a table when its types are right and it collides with
/// no existing row.
pub open spec fn row_admissible(fm: FieldMapV, rows: Seq<RowV>, row: RowV) -> bool {
    &&& row_types_ok(fm, row)
    &&& forall|k: int| 0 <= k < rows.len() ==> !rows_collide(fm, #[trigger] rows[k], row)
}

/// What each rejection stands for: a missing field means some declared
/// field is absent from the row; a type mismatch means some declared
/// field is present under a different tag; a uniqueness violation means
/// the types are right but some existing row holds equal raw bytes under
/// a `unique` field.
pub open spec fn reject_reason(fm: FieldMapV, rows: Seq<RowV>, row: RowV, e: TableError) -> bool {
    match e {
        TableError::NoSuchTable => false,
        TableError::MissingField => exists|i: int|
            0 <= i < fm.len() && field_type_of(fm, (#[trigger] fm[i]).0) is Some
                && row_value_of(row, fm[i].0) is None,
        TableError::TypeMismatch => exists|i: int|
            0 <= i < fm.len() && match (
                field_type_of(fm, (#[trigger] fm[i]).0),
                row_value_of(row, fm[i].0),
            ) {
                (Some(t), Some(v)) => v.type_tag != t,
                _ => false,
            },
        TableError::UniqueViolation => row_types_ok(fm, row) && exists|k: int|
            0 <= k < rows.len() && rows_collide(fm, #[trigger] rows[k], row),
    }
}

/// The table database: the declared schemas and each table's rows, kept
/// aligned by position.
pub struct TableDb {
    pub maps: Vec<(BvString, FieldMap)>,
    pub rows: Vec<(BvString, Vec<TableRow>)>,
}

impl TableDb {
    /// The tables, as the writer sees them.
    pub open spec fn tables(&self) -> Seq<TableV> {
        tables_view(self.maps@, self.rows@)
    }

    /// Schemas and row lists are aligned, and table names are distinct.
    pub open spec fn wf(&self) -> bool {
        &&& self.maps@.len() == self.rows@.len()
        &&& forall|i: int|
            0 <= i < self.maps@.len() ==> (#[trigger] self.maps@[i]).0@ == self.rows@[i].0@
        &&& forall|i: int, j: int|
            0 <= i < j < self.maps@.len() ==> (#[trigger] self.maps@[i]).0@ != (
            #[trigger] self.maps@[j]).0@
        &&& forall|i: int|
            0 <= i < self.maps@.len() ==> field_map_wf((#[trigger] self.maps@[i]).1@)
        &&& forall|i: int, j: int|
            0 <= i < self.rows@.len() && 0 <= j < self.rows@[i].1@.len() ==> row_wf(
                (#[trigger] self.rows@[i].1@[j])@,
            )
    }

    /// An empty table database.
    pub fn mem() -> (r: TableDb)
        ensures
            r.wf(),
            r.tables().len() == 0,
    {
        TableDb { maps: Vec::new(), rows: Vec::new() }
    }

    /// Position of a declared table, if present.
    pub fn find(&self, name: &[u8]) -> (r: Option<usize>)
        ensures
            match r {
                Some(i) => i < self.maps@.len() && self.maps@[i as int].0@ == name@,
                None => forall|j: int|
                    0 <= j < self.maps@.len() ==> (#[trigger] self.maps@[j]).0@ != name@,
            },
    {
        let n = self.maps.len();
        let mut i: usize = 0;
        while i < n
            invariant
                n == self.maps@.len(),
                i <= n,
                forall|j: int| 0 <= j < i ==> (#[trigger] self.maps@[j]).0@ != name@,
            decreases n - i,
        {
            if self.maps[i].0.eq_bytes(name) {
                return Some(i);
            }
            i += 1;
        }
        None
    }

    /// Is the table declared?
    pub fn has_table(&self, name: &[u8]) -> (r: bool)
        ensures
            r == exists|j: int| 0 <= j < self.maps@.len() && (#[trigger] self.maps@[j]).0@
                == name@,
    {
        match self.find(name) {
            Some(i) => {
                proof {
                    assert(self.maps@[i as int].0@ == name@);
                }
                true
            },
            None => false,
        }
    }

    /// A fresh schema builder for a table of the given name.
    pub fn new_table(&self, name: &[u8]) -> (r: Table)
        ensures
            r.name@ == name@,
            r.fields@.len() == 0,
    {
        Table::new(name)
    }

    /// Declare a table: insert its schema once, with an empty row list.
    pub fn create(&mut self, table: Table)
        requires
            old(self).wf(),
            field_map_wf(table.fields@),
            forall|j: int|
                0 <= j < old(self).maps@.len() ==> (#[trigger] old(self).maps@[j]).0@
                    != table.name@,
        ensures
            final(self).wf(),
            final(self).maps@.len() == old(self).maps@.len() + 1,
            final(self).tables() == old(self).tables().push(
                TableV { name: table.name@, fields: table.fields@, rows: Seq::empty() },
            ),
    {
        let ghost oldts = self.tables();
        let name2 = table.name.duplicate();
        self.maps.push((table.name, table.fields));
        self.rows.push((name2, Vec::new()));
        proof {
            assert(rows_view(self.rows@.last().1@) =~= Seq::<RowV>::empty());
            assert(self.tables() =~= oldts.push(
                TableV {
                    name: self.maps@.last().0@,
                    fields: self.maps@.last().1@,
                    rows: Seq::empty(),
                },
            ));
        }
    }

    /// The rows of a declared table, by position.
    pub fn rows_at(&self, i: usize) -> (r: &Vec<TableRow>)
        requires
            self.wf(),
            i < self.rows@.len(),
        ensures
            r@ == self.rows@[i as int].1@,
    {
        &self.rows[i].1
    }

    /// The schema of a declared table, by position.
    pub fn map_at(&self, i: usize) -> (r: &FieldMap)
        requires
            i < self.maps@.len(),
        ensures
            r@ == self.maps@[i as int].1@,
    {
        &self.maps[i].1
    }

    /// Remove a declared table and its rows: the named table alone
    /// disappears and every other table survives unchanged; a name that
    /// is not declared leaves the store exactly as it was.
    pub fn remove(&mut self, name: &[u8])
        requires
            old(self).wf(),
        ensures
            final(self).wf(),
            forall|j: int|
                0 <= j < final(self).maps@.len() ==> (#[trigger] final(self).maps@[j]).0@
                    != name@,
            if exists|i: int|
                0 <= i < old(self).tables().len() && (#[trigger] old(self).tables()[i]).name
                    == name@ {
                exists|i: int|
                    0 <= i < old(self).tables().len() && (#[trigger] old(
                        self,
                    ).tables()[i]).name == name@ && final(self).tables() == old(
                        self,
                    ).tables().remove(i)
            } else {
                *final(self) == *old(self)
            },
    {
        match self.find(name) {
            Some(i) => {
                let ghost oldts = self.tables();
                let ghost oldmaps = self.maps@;
                let ghost oldrows = self.rows@;
                self.maps.remove(i);
                self.rows.remove(i);
                proof {
                    assert(oldts[i as int].name == name@);
                    assert(self.tables() =~= oldts.remove(i as int));
                    assert forall|j: int|
                        0 <= j < self.maps@.len() implies (#[trigger] self.maps@[j]).0@
                        != name@ by {
                        let oj = if j < i {
                            j
                        } else {
                            j + 1
                        };
                        assert(self.maps@[j] == oldmaps[oj]);
                        if oldmaps[oj].0@ == name@ {
                            assert(oldmaps[i as int].0@ == name@);
                        }
                    }
                    assert forall|p: int, q: int|
                        0 <= p < q < self.maps@.len() implies (#[trigger] self.maps@[p]).0@ != (
                    #[trigger] self.maps@[q]).0@ by {
                        let op = if p < i {
                            p
                        } else {
                            p + 1
                        };
                        let oq = if q < i {
                            q
                        } else {
                            q + 1
                        };
                        assert(self.maps@[p] == oldmaps[op]);
                        assert(self.maps@[q] == oldmaps[oq]);
                    }
                    assert forall|p: int|
                        0 <= p < self.maps@.len() implies (#[trigger] self.maps@[p]).0@
                        == self.rows@[p].0@ && field_map_wf(self.maps@[p].1@) by {
                        let op = if p < i {
                            p
                        } else {
                            p + 1
                        };
                        assert(self.maps@[p] == oldmaps[op]);
                        assert(self.rows@[p] == oldrows[op]);
                    }
                    assert forall|p: int, q: int|
                        0 <= p < self.rows@.len() && 0 <= q < self.rows@[p].1@.len() implies
                        row_wf((#[trigger] self.rows@[p].1@[q])@) by {
                        let op = if p < i {
                            p
                        } else {
                            p + 1
                        };
                        assert(self.rows@[p] == oldrows[op]);
                    }
                }
            },
            None => {
                proof {
                    assert forall|i: int|
                        0 <= i < self.tables().len() implies (#[trigger] self.tables()[i]).name
                        != name@ by {
                        assert(self.tables()[i].name == self.maps@[i].0@);
                    }
                }
            },
        }
    }

    /// The schema of a declared table, by name.
    pub fn map(&self, name: &[u8]) -> (r: Option<&FieldMap>)
        requires
            self.wf(),
        ensures
            match r {
                Some(fm) => exists|i: int|
                    0 <= i < self.maps@.len() && (#[trigger] self.maps@[i]).0@ == name@
                        && fm@ == self.maps@[i].1@,
                None => forall|j: int|
                    0 <= j < self.maps@.len() ==> (#[trigger] self.maps@[j]).0@ != name@,
            },
    {
        match self.find(name) {
            Some(i) => {
                proof {
                    assert(self.maps@[i as int].0@ == name@);
                }
                Some(&self.maps[i].1)
            },
            None => None,
        }
    }

    /// The rows of a declared table, by name.
    pub fn rows(&self, name: &[u8]) -> (r: Option<&Vec<TableRow>>)
        requires
            self.wf(),
        ensures
            match r {
                Some(rs) => exists|i: int|
                    0 <= i < self.rows@.len() && (#[trigger] self.rows@[i]).0@ == name@ && rs@
                        == self.rows@[i].1@,
                None => forall|j: int|
                    0 <= j < self.maps@.len() ==> (#[trigger] self.maps@[j]).0@ != name@,
            },
    {
        match self.find(name) {
            Some(i) => {
                proof {
                    assert(self.maps@[i as int].0@ == name@);
                    assert(self.rows@[i as int].0@ == name@);
                }
                Some(&self.rows[i].1)
            },
            None => None,
        }
    }

    /// A query builder over a declared table's schema and rows.
    pub fn query<'a>(&'a self, name: &[u8]) -> (r: Option<QueryBuilder<'a>>)
        requires
            self.wf(),
        ensures
            match r {
                Some(q) => exists|i: int|
                    0 <= i < self.maps@.len() && (#[trigger] self.maps@[i]).0@ == name@
                        && q.field_map@ == self.maps@[i].1@ && q.records@
                        == self.rows@[i].1@,
                None => forall|j: int|
                    0 <= j < self.maps@.len() ==> (#[trigger] self.maps@[j]).0@ != name@,
            },
    {
        match self.find(name) {
            Some(i) => {
                proof {
                    assert(self.maps@[i as int].0@ == name@);
                }
                Some(QueryBuilder::new(&self.maps[i].1, &self.rows[i].1))
            },
            None => None,
        }
    }

    /// Validate a row against a schema and the table's existing rows:
    /// every declared field must be present with its declared type, and no
    /// `unique` field may repeat an existing row's raw value.
    fn validate_row(fm: &FieldMap, rows: &Vec<TableRow>, row: &TableRow) -> (r: Result<
        (),
        TableError,
    >)
        requires
            field_map_wf(fm@),
            row_wf(row@),
            forall|k: int| 0 <= k < rows@.len() ==> row_wf((#[trigger] rows@[k])@),
        ensures
            r is Ok <==> row_admissible(fm@, rows_view(rows@), row@),
            r matches Err(e) ==> reject_reason(fm@, rows_view(rows@), row@, e),
    {
        let tkey = type_opt_bytes();
        let ukey = unique_opt_bytes();
        let nf = fm.len();
        let mut i: usize = 0;
        while i < nf
            invariant
                nf == fm@.len(),
                i <= nf,
                field_map_wf(fm@),
                row_wf(row@),
                tkey@ == type_opt_name(),
                ukey@ == unique_opt_name(),
                forall|ii: int|
                    0 <= ii < i ==> match field_type_of(fm@, (#[trigger] fm@[ii]).0) {
                        Some(t) => match row_value_of(row@, fm@[ii].0) {
                            Some(v) => v.type_tag == t,
                            None => false,
                        },
                        None => true,
                    },
            decreases nf - i,
        {
            let fname = fm.name_at(i);
            let opts = fm.opts_at(i);
            match opts.get(tkey.as_slice()) {
                Some(t) => {
                    let ghost jj = choose|j: int|
                        0 <= j < opts@.len() && (#[trigger] opts@[j]).0 == tkey@ && opts@[j].1
                            == t@;
                    proof {
                        assert(opts@ == fm@[i as int].1);
                        assert(fm@[i as int].1[jj].0 == type_opt_name());
                        lemma_field_type_unique(fm@, i as int, jj);
                    }
                    match row.get(fname.as_slice()) {
                        Some(v) => {
                            let ghost vi = choose|j: int|
                                0 <= j < row@.len() && (#[trigger] row@[j]).0 == fname@
                                    && row@[j].1 == v@;
                            proof {
                                lemma_row_value_unique(row@, vi);
                            }
                            if !v.type_tag().eq_bytes(t.as_slice()) {
                                proof {
                                    assert(field_type_of(fm@, fm@[i as int].0) == Some(t@));
                                    assert(row_value_of(row@, fm@[i as int].0) == Some(v@));
                                    assert(reject_reason(
                                        fm@,
                                        rows_view(rows@),
                                        row@,
                                        TableError::TypeMismatch,
                                    ));
                                }
                                return Err(TableError::TypeMismatch);
                            }
                        },
                        None => {
                            proof {
                                lemma_row_value_absent(row@, fm@[i as int].0);
                                assert(field_type_of(fm@, fm@[i as int].0) is Some);
                                assert(reject_reason(
                                    fm@,
                                    rows_view(rows@),
                                    row@,
                                    TableError::MissingField,
                                ));
                            }
                            return Err(TableError::MissingField);
                        },
                    }
                },
                None => {
                    proof {
                        lemma_field_type_absent(fm@, i as int);
                    }
                },
            }
            i += 1;
        }
        let nr = rows.len();
        let mut k: usize = 0;
        while k < nr
            invariant
                nr == rows@.len(),
                k <= nr,
                nf == fm@.len(),
                field_map_wf(fm@),
                row_wf(row@),
                tkey@ == type_opt_name(),
                ukey@ == unique_opt_name(),
                forall|kk: int| 0 <= kk < rows@.len() ==> row_wf((#[trigger] rows@[kk])@),
                row_types_ok(fm@, row@),
                forall|kk: int|
                    0 <= kk < k ==> !rows_collide(fm@, #[trigger] rows_view(rows@)[kk], row@),
            decreases nr - k,
        {
            let srow = &rows[k];
            proof {
                assert(srow@ == (#[trigger] rows@[k as int])@);
                assert(row_wf(srow@));
            }
            let mut i: usize = 0;
            while i < nf
                invariant
                    nf == fm@.len(),
                    nr == rows@.len(),
                    k < nr,
                    i <= nf,
                    field_map_wf(fm@),
                    row_wf(row@),
                    tkey@ == type_opt_name(),
                    ukey@ == unique_opt_name(),
                    row_types_ok(fm@, row@),
                    srow@ == rows_view(rows@)[k as int],
                    row_wf(srow@),
                    forall|ii: int|
                        0 <= ii < i ==> !(field_is_unique(fm@, (#[trigger] fm@[ii]).0) && match (
                        row_value_of(srow@, fm@[ii].0),
                        row_value_of(row@, fm@[ii].0),
                    ) {
                        (Some(x), Some(y)) => x.raw == y.raw,
                        _ => false,
                    }),
                decreases nf - i,
            {
                let fname = fm.name_at(i);
                let opts = fm.opts_at(i);
                if opts.contains_key(ukey.as_slice()) {
                    proof {
                        lemma_field_unique_iff(fm@, i as int);
                        assert(field_is_unique(fm@, fm@[i as int].0));
                    }
                    let a = srow.get(fname.as_slice());
                    let b = row.get(fname.as_slice());
                    match (a, b) {
                        (Some(x), Some(y)) => {
                            proof {
                                let ai = choose|j: int|
                                    0 <= j < srow@.len() && (#[trigger] srow@[j]).0 == fname@
                                        && srow@[j].1 == x@;
                                let bi = choose|j: int|
                                    0 <= j < row@.len() && (#[trigger] row@[j]).0 == fname@
                                        && row@[j].1 == y@;
                                lemma_row_value_unique(row@, bi);
                                if row_value_of(srow@, fname@) is Some {
                                } else {
                                    assert(srow@[ai].0 == fname@);
                                    assert(false);
                                }
                            }
                            if x.raw().eq_bytevec(y.raw()) {
                                proof {
                                    let ci = choose|ci: int|
                                        0 <= ci < srow@.len() && (#[trigger] srow@[ci]).0
                                            == fname@;
                                    assert(row_value_of(srow@, fname@) == Some(srow@[ci].1));
                                    if srow@[ci].1.raw == x@.raw {
                                    } else {
                                        lemma_srow_value(srow@, fname@, x@, ci);
                                    }
                                    assert(rows_collide(
                                        fm@,
                                        rows_view(rows@)[k as int],
                                        row@,
                                    ));
                                    assert(!row_admissible(fm@, rows_view(rows@), row@));
                                    assert(reject_reason(
                                        fm@,
                                        rows_view(rows@),
                                        row@,
                                        TableError::UniqueViolation,
                                    ));
                                }
                                return Err(TableError::UniqueViolation);
                            }
                            proof {
                                lemma_no_collision_at(fm@, srow@, row@, i as int, x@, y@);
                            }
                        },
                        (None, _) => {
                            proof {
                                lemma_row_value_absent(srow@, fm@[i as int].0);
                            }
                        },
                        (_, None) => {
                            proof {
                                lemma_row_value_absent(row@, fm@[i as int].0);
                            }
                        },
                    }
                }
                i += 1;
            }
            proof {
                assert(!rows_collide(fm@, rows_view(rows@)[k as int], row@)) by {
                    if rows_collide(fm@, rows_view(rows@)[k as int], row@) {
                        let ii = choose|ii: int|
                            0 <= ii < fm@.len() && field_is_unique(fm@, (#[trigger] fm@[ii]).0)
                                && match (
                                row_value_of(rows_view(rows@)[k as int], fm@[ii].0),
                                row_value_of(row@, fm@[ii].0),
                            ) {
                                (Some(x), Some(y)) => x.raw == y.raw,
                                _ => false,
                            };
                        assert(false);
                    }
                }
            }
            k += 1;
        }
        Ok(())
    }

    /// Insert one row into a declared table after validating its declared
    /// field types and `unique` constraints against every existing row;
    /// on any rejection the store is unchanged.
    pub fn insert_row(&mut self, name: &[u8], row: TableRow) -> (r: Result<(), TableError>)
        requires
            old(self).wf(),
            row_wf(row@),
        ensures
            final(self).wf(),
            match r {
                Ok(()) => exists|i: int|
                    0 <= i < old(self).tables().len() && (#[trigger] old(
                        self,
                    ).tables()[i]).name == name@ && row_admissible(
                        old(self).tables()[i].fields,
                        old(self).tables()[i].rows,
                        row@,
                    ) && final(self).tables() == old(self).tables().update(
                        i,
                        TableV {
                            name: old(self).tables()[i].name,
                            fields: old(self).tables()[i].fields,
                            rows: old(self).tables()[i].rows.push(row@),
                        },
                    ),
                Err(e) => *final(self) == *old(self) && (e == TableError::NoSuchTable ==> forall|
                    i: int,
                |
                    0 <= i < old(self).tables().len() ==> (#[trigger] old(
                        self,
                    ).tables()[i]).name != name@) && (e != TableError::NoSuchTable ==> exists|
                    i: int,
                |
                    0 <= i < old(self).tables().len() && (#[trigger] old(
                        self,
                    ).tables()[i]).name == name@ && !row_admissible(
                        old(self).tables()[i].fields,
                        old(self).tables()[i].rows,
                        row@,
                    ) && reject_reason(
                        old(self).tables()[i].fields,
                        old(self).tables()[i].rows,
                        row@,
                        e,
                    )),
            },
    {
        let idx = match self.find(name) {
            Some(i) => i,
            None => {
                proof {
                    assert forall|i: int| 0 <= i < self.tables().len() implies (#[trigger] self
                        .tables()[i]).name != name@ by {
                        assert(self.tables()[i].name == self.maps@[i].0@);
                    }
                }
                return Err(TableError::NoSuchTable);
            },
        };
        proof {
            assert(self.tables()[idx as int].name == name@);
            assert(self.tables()[idx as int].fields == self.maps@[idx as int].1@);
            assert(self.tables()[idx as int].rows == rows_view(self.rows@[idx as int].1@));
        }
        match Self::validate_row(&self.maps[idx].1, &self.rows[idx].1, &row) {
            Err(e) => {
                proof {
                    assert(e != TableError::NoSuchTable);
                }
                Err(e)
            },
            Ok(()) => {
                let ghost oldts = self.tables();
                let ghost oldrows = self.rows@;
                let name_copy = self.rows[idx].0.duplicate();
                let ghost rowv = row@;
                let mut lst = self.rows.remove(idx);
                lst.1.push(row);
                self.rows.insert(idx, lst);
                proof {
                    assert(self.rows@ =~= oldrows.update(
                        idx as int,
                        (oldrows[idx as int].0, self.rows@[idx as int].1),
                    ));
                    assert(self.rows@[idx as int].1@ =~= oldrows[idx as int].1@.push(
                        self.rows@[idx as int].1@.last(),
                    ));
                    assert(rows_view(self.rows@[idx as int].1@) =~= rows_view(
                        oldrows[idx as int].1@,
                    ).push(rowv));
                    assert(self.tables() =~= oldts.update(
                        idx as int,
                        TableV {
                            name: oldts[idx as int].name,
                            fields: oldts[idx as int].fields,
                            rows: oldts[idx as int].rows.push(rowv),
                        },
                    ));
                    assert forall|i: int, j: int|
                        0 <= i < j < self.maps@.len() implies (#[trigger] self.maps@[i]).0@ != (
                    #[trigger] self.maps@[j]).0@ by {}
                }
                Ok(())
            },
        }
    }

    /// Insert several rows into a declared table: every row is validated
    /// against the declared field types and, for `unique` fields, against
    /// the rows the table already holds, before anything changes; on full
    /// success all rows are appended in order, and on any rejection the
    /// store is left untouched. Rows of the batch are not checked against
    /// one another.
    pub fn insert_many(&mut self, name: &[u8], new_rows: Vec<TableRow>) -> (r: Result<
        (),
        TableError,
    >)
        requires
            old(self).wf(),
            forall|j: int| 0 <= j < new_rows@.len() ==> row_wf((#[trigger] new_rows@[j])@),
        ensures
            final(self).wf(),
            match r {
                Ok(()) => exists|i: int|
                    0 <= i < old(self).tables().len() && (#[trigger] old(
                        self,
                    ).tables()[i]).name == name@ && (forall|q: int|
                        0 <= q < new_rows@.len() ==> row_admissible(
                            old(self).tables()[i].fields,
                            old(self).tables()[i].rows,
                            (#[trigger] new_rows@[q])@,
                        )) && final(self).tables() == old(self).tables().update(
                        i,
                        TableV {
                            name: old(self).tables()[i].name,
                            fields: old(self).tables()[i].fields,
                            rows: old(self).tables()[i].rows + rows_view(new_rows@),
                        },
                    ),
                Err(e) => *final(self) == *old(self) && (e == TableError::NoSuchTable ==> forall|
                    i: int,
                |
                    0 <= i < old(self).tables().len() ==> (#[trigger] old(
                        self,
                    ).tables()[i]).name != name@) && (e != TableError::NoSuchTable ==> exists|
                    i: int,
                |
                    0 <= i < old(self).tables().len() && (#[trigger] old(
                        self,
                    ).tables()[i]).name == name@ && exists|q: int|
                        0 <= q < new_rows@.len() && !row_admissible(
                            old(self).tables()[i].fields,
                            old(self).tables()[i].rows,
                            (#[trigger] new_rows@[q])@,
                        ) && reject_reason(
                            old(self).tables()[i].fields,
                            old(self).tables()[i].rows,
                            new_rows@[q]@,
                            e,
                        )),
            },
    {
        let idx = match self.find(name) {
            Some(i) => i,
            None => {
                proof {
                    assert forall|i: int| 0 <= i < self.tables().len() implies (#[trigger] self
                        .tables()[i]).name != name@ by {
                        assert(self.tables()[i].name == self.maps@[i].0@);
                    }
                }
                return Err(TableError::NoSuchTable);
            },
        };
        proof {
            assert(self.tables()[idx as int].name == name@);
            assert(self.tables()[idx as int].fields == self.maps@[idx as int].1@);
            assert(self.tables()[idx as int].rows == rows_view(self.rows@[idx as int].1@));
        }
        let n = new_rows.len();
        let mut j: usize = 0;
        while j < n
            invariant
                n == new_rows@.len(),
                j <= n,
                self.wf(),
                idx < self.maps@.len(),
                self.maps@[idx as int].0@ == name@,
                forall|q: int| 0 <= q < new_rows@.len() ==> row_wf((#[trigger] new_rows@[q])@),
                forall|q: int|
                    0 <= q < j ==> row_admissible(
                        self.maps@[idx as int].1@,
                        rows_view(self.rows@[idx as int].1@),
                        (#[trigger] new_rows@[q])@,
                    ),
            decreases n - j,
        {
            match Self::validate_row(&self.maps[idx].1, &self.rows[idx].1, &new_rows[j]) {
                Ok(()) => {},
                Err(e) => {
                    proof {
                        assert(!row_admissible(
                            self.maps@[idx as int].1@,
                            rows_view(self.rows@[idx as int].1@),
                            new_rows@[j as int]@,
                        ));
                        assert(reject_reason(
                            self.tables()[idx as int].fields,
                            self.tables()[idx as int].rows,
                            new_rows@[j as int]@,
                            e,
                        ));
                    }
                    return Err(e);
                },
            }
            j += 1;
        }
        let ghost oldts = self.tables();
        let ghost oldrows = self.rows@;
        let ghost orig_new = new_rows@;
        let mut new_rows = new_rows;
        let mut lst = self.rows.remove(idx);
        let ghost oldvec = lst.1@;
        let mut k: usize = 0;
        while k < n
            invariant
                k <= n,
                n - k == new_rows@.len(),
                orig_new.len() == n,
                idx < oldrows.len(),
                lst.0 == oldrows[idx as int].0,
                forall|q: int| 0 <= q < new_rows@.len() ==> new_rows@[q] == orig_new[k + q],
                lst.1@ == oldvec + orig_new.take(k as int),
            decreases n - k,
        {
            let row = new_rows.remove(0);
            proof {
                assert(row == orig_new[k as int]);
            }
            lst.1.push(row);
            proof {
                assert(lst.1@ =~= oldvec + orig_new.take(k + 1));
            }
            k += 1;
        }
        proof {
            assert(orig_new.take(n as int) =~= orig_new);
            assert(lst.1@ == oldvec + orig_new);
        }
        self.rows.insert(idx, lst);
        proof {
            assert(self.rows@ =~= oldrows.update(
                idx as int,
                (oldrows[idx as int].0, self.rows@[idx as int].1),
            ));
            assert(rows_view(self.rows@[idx as int].1@) =~= rows_view(oldvec) + rows_view(
                orig_new,
            ));
            assert(self.tables() =~= oldts.update(
                idx as int,
                TableV {
                    name: oldts[idx as int].name,
                    fields: oldts[idx as int].fields,
                    rows: oldts[idx as int].rows + rows_view(orig_new),
                },
            ));
            assert forall|p: int, q: int|
                0 <= p < self.rows@.len() && 0 <= q < self.rows@[p].1@.len() implies row_wf(
                (#[trigger] self.rows@[p].1@[q])@,
            ) by {
                if p == idx {
                    if q < oldvec.len() {
                        assert(self.rows@[p].1@[q] == oldvec[q]);
                        assert(oldrows[p].1@[q] == oldvec[q]);
                    } else {
                        assert(self.rows@[p].1@[q] == orig_new[q - oldvec.len()]);
                    }
                } else {
                    assert(self.rows@[p] == oldrows[p]);
                }
            }
        }
        Ok(())
    }
}

/// With distinct field and option names, the declared type of field `i`
/// is exactly its `type` option's value.
proof fn lemma_field_type_unique(fm: FieldMapV, i: int, j: int)
    requires
        field_map_wf(fm),
        0 <= i < fm.len(),
        0 <= j < fm[i].1.len(),
        fm[i].1[j].0 == type_opt_name(),
    ensures
        field_type_of(fm, fm[i].0) == Some(fm[i].1[j].1),
{
    assert(0 <= i < fm.len() && 0 <= j < fm[i].1.len() && (fm[i]).0 == fm[i].0 && (
    fm[i].1[j]).0 == type_opt_name());
    let (ci, cj) = choose|ci: int, cj: int|
        0 <= ci < fm.len() && 0 <= cj < fm[ci].1.len() && (#[trigger] fm[ci]).0 == fm[i].0 && (
        #[trigger] fm[ci].1[cj]).0 == type_opt_name();
    assert(ci == i);
    assert(opts_distinct(fm[i].1));
    assert(cj == j);
}

/// With distinct field names, a field with no `type` option declares no
/// type.
proof fn lemma_field_type_absent(fm: FieldMapV, i: int)
    requires
        field_map_wf(fm),
        0 <= i < fm.len(),
        forall|j: int| 0 <= j < fm[i].1.len() ==> (#[trigger] fm[i].1[j]).0 != type_opt_name(),
    ensures
        field_type_of(fm, fm[i].0) is None,
{
    if exists|ci: int, cj: int|
        0 <= ci < fm.len() && 0 <= cj < fm[ci].1.len() && (#[trigger] fm[ci]).0 == fm[i].0 && (
        #[trigger] fm[ci].1[cj]).0 == type_opt_name() {
        let (ci, cj) = choose|ci: int, cj: int|
            0 <= ci < fm.len() && 0 <= cj < fm[ci].1.len() && (#[trigger] fm[ci]).0 == fm[i].0
                && (#[trigger] fm[ci].1[cj]).0 == type_opt_name();
        assert(ci == i);
        assert(false);
    }
}

/// With distinct field names, `unique` on field `i` is read off its own
/// options.
proof fn lemma_field_unique_iff(fm: FieldMapV, i: int)
    requires
        field_map_wf(fm),
        0 <= i < fm.len(),
    ensures
        field_is_unique(fm, fm[i].0) == exists|j: int|
            0 <= j < fm[i].1.len() && (#[trigger] fm[i].1[j]).0 == unique_opt_name(),
{
    if field_is_unique(fm, fm[i].0) {
        let (ci, cj) = choose|ci: int, cj: int|
            0 <= ci < fm.len() && 0 <= cj < fm[ci].1.len() && (#[trigger] fm[ci]).0 == fm[i].0
                && (#[trigger] fm[ci].1[cj]).0 == unique_opt_name();
        assert(ci == i);
        assert(0 <= cj < fm[i].1.len() && (fm[i].1[cj]).0 == unique_opt_name());
    }
    if exists|j: int| 0 <= j < fm[i].1.len() && (#[trigger] fm[i].1[j]).0 == unique_opt_name() {
        let j = choose|j: int|
            0 <= j < fm[i].1.len() && (#[trigger] fm[i].1[j]).0 == unique_opt_name();
        assert(0 <= i < fm.len() && 0 <= j < fm[i].1.len() && (fm[i]).0 == fm[i].0 && (
        fm[i].1[j]).0 == unique_opt_name());
    }
}

/// With distinct field names, a row's value under a field is exactly what
/// a lookup finds.
proof fn lemma_row_value_unique(row: RowV, i: int)
    requires
        row_wf(row),
        0 <= i < row.len(),
    ensures
        row_value_of(row, row[i].0) == Some(row[i].1),
{
    assert(0 <= i < row.len() && (row[i]).0 == row[i].0);
    let ci = choose|ci: int| 0 <= ci < row.len() && (#[trigger] row[ci]).0 == row[i].0;
    assert(ci == i);
}

/// A row with no entry under a field holds no value there.
proof fn lemma_row_value_absent(row: RowV, field: Seq<u8>)
    requires
        forall|j: int| 0 <= j < row.len() ==> (#[trigger] row[j]).0 != field,
    ensures
        row_value_of(row, field) is None,
{
}


/// A matching stored value under a unique field pins the collision test.
proof fn lemma_srow_value(srow: RowV, field: Seq<u8>, x: ObjView, ci: int)
    requires
        0 <= ci < srow.len(),
        srow[ci].0 == field,
        exists|j: int|
            0 <= j < srow.len() && (#[trigger] srow[j]).0 == field && srow[j].1 == x,
        forall|p: int, q: int|
            0 <= p < q < srow.len() ==> (#[trigger] srow[p]).0 != (#[trigger] srow[q]).0,
    ensures
        srow[ci].1 == x,
{
    let j = choose|j: int|
        0 <= j < srow.len() && (#[trigger] srow[j]).0 == field && srow[j].1 == x;
    assert(j == ci);
}

/// Differing raw bytes under a unique field rule out a collision there.
proof fn lemma_no_collision_at(
    fm: FieldMapV,
    srow: RowV,
    row: RowV,
    i: int,
    x: ObjView,
    y: ObjView,
)
    requires
        0 <= i < fm.len(),
        row_wf(row),
        forall|p: int, q: int|
            0 <= p < q < srow.len() ==> (#[trigger] srow[p]).0 != (#[trigger] srow[q]).0,
        exists|j: int|
            0 <= j < srow.len() && (#[trigger] srow[j]).0 == fm[i].0 && srow[j].1 == x,
        exists|j: int|
            0 <= j < row.len() && (#[trigger] row[j]).0 == fm[i].0 && row[j].1 == y,
        x.raw != y.raw,
    ensures
        !match (row_value_of(srow, fm[i].0), row_value_of(row, fm[i].0)) {
            (Some(a), Some(b)) => a.raw == b.raw,
            _ => false,
        },
{
    let sj = choose|j: int|
        0 <= j < srow.len() && (#[trigger] srow[j]).0 == fm[i].0 && srow[j].1 == x;
    let rj = choose|j: int|
        0 <= j < row.len() && (#[trigger] row[j]).0 == fm[i].0 && row[j].1 == y;
    let csj = choose|j: int| 0 <= j < srow.len() && (#[trigger] srow[j]).0 == fm[i].0;
    let crj = choose|j: int| 0 <= j < row.len() && (#[trigger] row[j]).0 == fm[i].0;
    assert(csj == sj);
    assert(crj == rj);
}


/// A row updated at one field: an existing column of that name is
/// replaced in place, else a new column is appended.
pub open spec fn row_set(r: RowV, k: Seq<u8>, v: ObjView) -> RowV {
    if exists|i: int| 0 <= i < r.len() && (#[trigger] r[i]).0 == k {
        let i = choose|i: int| 0 <= i < r.len() && (#[trigger] r[i]).0 == k;
        r.update(i, (k, v))
    } else {
        r.push((k, v))
    }
}

/// The projection of a row onto a list of field names, taken in order:
/// a selected field the row holds is copied over, one the row lacks is
/// left out.
pub open spec fn project_row(row: RowV, fields: Seq<Seq<u8>>) -> RowV
    decreases fields.len(),
{
    if fields.len() == 0 {
        Seq::empty()
    } else {
        let prev = project_row(row, fields.drop_last());
        match row_value_of(row, fields.last()) {
            Some(v) => row_set(prev, fields.last(), v),
            None => prev,
        }
    }
}

/// The byte views of a list of field names.
pub open spec fn names_view(fs: Seq<BvString>) -> Seq<Seq<u8>> {
    fs.map_values(|b: BvString| b@)
}

/// A query over one table: the schema, the rows, and the selected field
/// names; filtering beyond field selection is the embedder's concern.
pub struct QueryBuilder<'a> {
    pub field_map: &'a FieldMap,
    pub records: &'a Vec<TableRow>,
    pub select_fields: Vec<BvString>,
}

impl<'a> QueryBuilder<'a> {
    /// A builder over a schema and its rows.
    pub fn new(field_map: &'a FieldMap, records: &'a Vec<TableRow>) -> (r: Self)
        ensures
            r.field_map == field_map,
            r.records == records,
            r.select_fields@.len() == 0,
    {
        QueryBuilder { field_map, records, select_fields: Vec::new() }
    }

    /// A fresh empty row.
    pub fn new_row(&self) -> (r: TableRow)
        ensures
            r@.len() == 0,
    {
        TableRow::new()
    }

    /// The table's schema.
    pub fn field_map(&self) -> (r: &'a FieldMap)
        ensures
            r == self.field_map,
    {
        self.field_map
    }

    /// The table's rows.
    pub fn records(&self) -> (r: &'a Vec<TableRow>)
        ensures
            r == self.records,
    {
        self.records
    }

    /// Choose the fields a collect projects.
    pub fn select(&mut self, fields: Vec<BvString>)
        ensures
            final(self).field_map == old(self).field_map,
            final(self).records == old(self).records,
            final(self).select_fields@ == fields@,
    {
        self.select_fields = fields;
    }

    /// Project every row onto the selected fields, in record order: each
    /// result row holds exactly the selected columns the record holds.
    pub fn collect(&self) -> (r: Vec<TableRow>)
        requires
            forall|k: int| 0 <= k < self.records@.len() ==> row_wf((#[trigger] self.records@[k])@),
        ensures
            r@.len() == self.records@.len(),
            forall|i: int|
                0 <= i < r@.len() ==> (#[trigger] r@[i])@ == project_row(
                    self.records@[i]@,
                    names_view(self.select_fields@),
                ),
    {
        let ghost nv = names_view(self.select_fields@);
        let n = self.records.len();
        let mut out: Vec<TableRow> = Vec::new();
        let mut i: usize = 0;
        while i < n
            invariant
                n == self.records@.len(),
                i <= n,
                nv == names_view(self.select_fields@),
                forall|k: int|
                    0 <= k < self.records@.len() ==> row_wf((#[trigger] self.records@[k])@),
                out@.len() == i,
                forall|k: int|
                    0 <= k < i ==> (#[trigger] out@[k])@ == project_row(
                        self.records@[k]@,
                        nv,
                    ),
            decreases n - i,
        {
            let row = &self.records[i];
            let mut projected = TableRow::new();
            let m = self.select_fields.len();
            let mut j: usize = 0;
            proof {
                assert(nv.take(0) =~= Seq::<Seq<u8>>::empty());
                assert(projected@ =~= project_row(row@, nv.take(0)));
            }
            while j < m
                invariant
                    m == self.select_fields@.len(),
                    nv == names_view(self.select_fields@),
                    nv.len() == m,
                    j <= m,
                    n == self.records@.len(),
                    i < n,
                    row@ == self.records@[i as int]@,
                    row_wf(row@),
                    row_wf(projected@),
                    projected@ == project_row(row@, nv.take(j as int)),
                decreases m - j,
            {
                let f = &self.select_fields[j];
                proof {
                    assert(nv[j as int] == self.select_fields@[j as int]@);
                    assert(nv.take(j + 1).drop_last() =~= nv.take(j as int));
                    assert(nv.take(j + 1).last() == nv[j as int]);
                }
                let ghost prev = projected@;
                match row.get(f.as_slice()) {
                    Some(v) => {
                        proof {
                            let vi = choose|q: int|
                                0 <= q < row@.len() && (#[trigger] row@[q]).0 == f@ && row@[q].1
                                    == v@;
                            lemma_row_value_unique(row@, vi);
                        }
                        projected.set_col(f.as_slice(), BvObject::from_bvobject(v));
                        proof {
                            if exists|q: int| 0 <= q < prev.len() && (#[trigger] prev[q]).0
                                == f@ {
                                let sq = choose|q: int|
                                    0 <= q < prev.len() && (#[trigger] prev[q]).0 == f@
                                        && projected@ == prev.update(q, (f@, v@));
                                let cq = choose|q: int|
                                    0 <= q < prev.len() && (#[trigger] prev[q]).0 == f@;
                                assert(sq == cq);
                                assert(projected@ == row_set(prev, f@, v@));
                                assert forall|a: int, b: int|
                                    0 <= a < b < projected@.len() implies (
                                #[trigger] projected@[a]).0 != (#[trigger] projected@[b]).0 by {
                                    assert(projected@[a].0 == prev[a].0);
                                    assert(projected@[b].0 == prev[b].0);
                                }
                            } else {
                                assert(projected@ == prev.push((f@, v@)));
                                assert(projected@ == row_set(prev, f@, v@));
                                assert forall|a: int, b: int|
                                    0 <= a < b < projected@.len() implies (
                                #[trigger] projected@[a]).0 != (#[trigger] projected@[b]).0 by {
                                    if b < prev.len() {
                                        assert(projected@[a] == prev[a]);
                                        assert(projected@[b] == prev[b]);
                                    } else {
                                        assert(projected@[a] == prev[a]);
                                        assert(projected@[b] == (f@, v@));
                                        assert(prev[a].0 != f@);
                                    }
                                }
                            }
                            assert(projected@ == project_row(row@, nv.take(j + 1)));
                        }
                    },
                    None => {
                        proof {
                            lemma_row_value_absent(row@, f@);
                            assert(projected@ == project_row(row@, nv.take(j + 1)));
                        }
                    },
                }
                j += 1;
            }
            proof {
                assert(nv.take(m as int) =~= nv);
            }
            out.push(projected);
            i += 1;
        }
        out
    }
}

/// A finished query's projection: the schema it ran against and the
/// projected rows.
pub struct QueryResult<'a> {
    pub field_map: &'a FieldMap,
    pub records: Vec<TableRow>,
}

impl<'a> QueryResult<'a> {
    /// A result over a schema and projected rows.
    pub fn new(field_map: &'a FieldMap, records: Vec<TableRow>) -> (r: Self)
        ensures
            r.field_map == field_map,
            r.records@ == records@,
    {
        QueryResult { field_map, records }
    }

    /// The schema the query ran against.
    pub fn field_map(&self) -> (r: &'a FieldMap)
        ensures
            r == self.field_map,
    {
        self.field_map
    }
}

/// A schema builder:
/// A schema builder: fields are added one at a time, each starting with
/// its `type` option; further options attach to the current field.
pub struct Table {
    pub name: BvString,
    pub fields: FieldMap,
    pub current_field: BvString,
}

impl Table {
    /// A builder for a table of the given name.
    pub fn new(name: &[u8]) -> (r: Table)
        ensures
            r.name@ == name@,
            r.fields@.len() == 0,
    {
        Table {
            name: BvString::from_slice(name),
            fields: FieldMap::new(),
            current_field: BvString::new(),
        }
    }

    /// Declare a fresh field with the given normalized type tag.
    pub fn add_field(&mut self, name: &[u8], type_tag: &[u8])
        requires
            forall|j: int|
                0 <= j < old(self).fields@.len() ==> (#[trigger] old(self).fields@[j]).0
                    != name@,
        ensures
            final(self).name@ == old(self).name@,
            final(self).current_field@ == name@,
            final(self).fields@ == old(self).fields@.push(
                (name@, seq![(type_opt_name(), type_tag@)]),
            ),
    {
        let mut opts = FieldOpts::new();
        let tkey = type_opt_bytes();
        opts.set(tkey.as_slice(), ByteVec::from_slice(type_tag));
        proof {
            assert(opts@ =~= seq![(type_opt_name(), type_tag@)]);
        }
        self.current_field = BvString::from_slice(name);
        self.fields.push_field(BvString::from_slice(name), opts);
    }

    /// Attach an option to the current field: the field's option list
    /// gains the pair, or has its existing pair of that name replaced;
    /// every other field is left exactly as it was.
    pub fn option(&mut self, key: &[u8], value: ByteVec)
        requires
            field_map_wf(old(self).fields@),
            exists|i: int|
                0 <= i < old(self).fields@.len() && (#[trigger] old(self).fields@[i]).0 == old(
                    self,
                ).current_field@,
        ensures
            final(self).name@ == old(self).name@,
            final(self).current_field@ == old(self).current_field@,
            field_map_wf(final(self).fields@),
            exists|i: int|
                0 <= i < old(self).fields@.len() && (#[trigger] old(self).fields@[i]).0 == old(
                    self,
                ).current_field@ && if exists|j: int|
                    0 <= j < old(self).fields@[i].1.len() && (#[trigger] old(
                        self,
                    ).fields@[i].1[j]).0 == key@ {
                    exists|j: int|
                        0 <= j < old(self).fields@[i].1.len() && (#[trigger] old(
                            self,
                        ).fields@[i].1[j]).0 == key@ && final(self).fields@ == old(
                            self,
                        ).fields@.update(
                            i,
                            (old(self).fields@[i].0, old(self).fields@[i].1.update(
                                j,
                                (key@, value@),
                            )),
                        )
                } else {
                    final(self).fields@ == old(self).fields@.update(
                        i,
                        (old(self).fields@[i].0, old(self).fields@[i].1.push((key@, value@))),
                    )
                },
    {
        let idx = match self.fields.find(self.current_field.as_slice()) {
            Some(i) => i,
            None => {
                proof {
                    assert(false);
                }
                return ;
            },
        };
        let ghost oldfm = self.fields@;
        let ghost old0 = self.fields.0@;
        let mut entry = self.fields.0.remove(idx);
        let ghost oldopts = entry.1@;
        proof {
            assert(oldopts == oldfm[idx as int].1);
            assert(entry.0@ == oldfm[idx as int].0);
        }
        entry.1.set(key, value);
        self.fields.0.insert(idx, entry);
        proof {
            assert(self.fields.0@ =~= old0.update(idx as int, self.fields.0@[idx as int]));
            let newopts = self.fields.0@[idx as int].1@;
            assert(self.fields@ =~= oldfm.update(idx as int, (oldfm[idx as int].0, newopts)));
            if exists|j: int| 0 <= j < oldopts.len() && (#[trigger] oldopts[j]).0 == key@ {
                let j = choose|j: int|
                    0 <= j < oldopts.len() && (#[trigger] oldopts[j]).0 == key@ && newopts
                        == oldopts.update(j, (key@, value@));
                assert(oldfm[idx as int].1[j].0 == key@);
                assert(self.fields@ == oldfm.update(
                    idx as int,
                    (oldfm[idx as int].0, oldfm[idx as int].1.update(j, (key@, value@))),
                ));
            } else {
                assert(newopts == oldopts.push((key@, value@)));
            }
            assert(field_map_wf(self.fields@)) by {
                assert forall|p: int, q: int|
                    0 <= p < q < self.fields@.len() implies (#[trigger] self.fields@[p]).0 != (
                #[trigger] self.fields@[q]).0 by {
                    assert(self.fields@[p].0 == oldfm[p].0);
                    assert(self.fields@[q].0 == oldfm[q].0);
                }
                assert forall|p: int|
                    0 <= p < self.fields@.len() implies opts_distinct(
                    (#[trigger] self.fields@[p]).1,
                ) by {
                    if p != idx {
                        assert(self.fields@[p] == oldfm[p]);
                    } else {
                        let os = self.fields@[idx as int].1;
                        assert forall|a: int, b: int|
                            0 <= a < b < os.len() implies (#[trigger] os[a]).0 != (
                        #[trigger] os[b]).0 by {
                            if exists|j: int|
                                0 <= j < oldopts.len() && (#[trigger] oldopts[j]).0 == key@ {
                                assert(os[a].0 == oldopts[a].0);
                                assert(os[b].0 == oldopts[b].0);
                            } else {
                                if b < oldopts.len() {
                                    assert(os[a] == oldopts[a]);
                                    assert(os[b] == oldopts[b]);
                                } else {
                                    assert(os[a] == oldopts[a]);
                                    assert(os[b] == (key@, value@));
                                    assert(oldopts[a].0 != key@);
                                }
                            }
                        }
                    }
                }
            }
        }
    }

    /// The table's name.
    pub fn raw_name(&self) -> (r: &BvString)
        ensures
            r@ == self.name@,
    {
        &self.name
    }

    /// The table's schema.
    pub fn fields(&self) -> (r: &FieldMap)
        ensures
            r@ == self.fields@,
    {
        &self.fields
    }

    /// The table's name, owned by the builder.
    pub fn name(&self) -> (r: &BvString)
        ensures
            r@ == self.name@,
    {
        &self.name
    }

    /// The schema serialized to its stored byte form.
    pub fn data(&self) -> (r: ByteVec)
        ensures
            r@ == crate::codec::enc_field_map(self.fields@),
    {
        ByteVec::from_vec(crate::codec::encode_field_map(&self.fields))
    }
}

} // verus!
