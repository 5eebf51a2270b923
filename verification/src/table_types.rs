//! Table-side data: field maps (a table's schema) and table rows.
//!
//! A field map takes each field name to its options; every field carries a
//! `type` option holding the declared tag, and may carry a `unique` option.
//! A row takes field names to tagged values. Both are association lists
//! whose keys are distinct.

use vstd::prelude::*;

use crate::bvobject::{BvObject, ObjView};
use crate::bvstring::BvString;
use crate::bytevec::ByteVec;

verus! {

/// View of one field's options: option name to option value bytes.
pub type OptsV = Seq<(Seq<u8>, Seq<u8>)>;

/// View of a field map: field name to options.
pub type FieldMapV = Seq<(Seq<u8>, OptsV)>;

/// View of a row: field name to tagged value.
pub type RowV = Seq<(Seq<u8>, ObjView)>;

/// Distinct keys in an option list.
pub open spec fn opts_distinct(s: OptsV) -> bool {
    forall|i: int, j: int| 0 <= i < j < s.len() ==> (#[trigger] s[i]).0 != (#[trigger] s[j]).0
}

/// Distinct keys in a field map, and distinct option names per field.
pub open spec fn field_map_wf(s: FieldMapV) -> bool {
    &&& forall|i: int, j: int|
        0 <= i < j < s.len() ==> (#[trigger] s[i]).0 != (#[trigger] s[j]).0
    &&& forall|i: int| 0 <= i < s.len() ==> opts_distinct((#[trigger] s[i]).1)
}

/// Distinct field names in a row.
pub open spec fn row_wf(s: RowV) -> bool {
    forall|i: int, j: int| 0 <= i < j < s.len() ==> (#[trigger] s[i]).0 != (#[trigger] s[j]).0
}

/// The options of one field.
pub struct FieldOpts(pub Vec<(BvString, ByteVec)>);

impl View for FieldOpts {
    type V = OptsV;

    open spec fn view(&self) -> OptsV {
        self.0@.map_values(|e: (BvString, ByteVec)| (e.0@, e.1@))
    }
}

impl FieldOpts {
    /// No options.
    pub fn new() -> (r: Self)
        ensures
            r@ == Seq::<(Seq<u8>, Seq<u8>)>::empty(),
    {
        let r = FieldOpts(Vec::new());
        proof {
            assert(r@ =~= Seq::<(Seq<u8>, Seq<u8>)>::empty());
        }
        r
    }

    /// Number of options.
    pub fn len(&self) -> (r: usize)
        ensures
            r == self@.len(),
    {
        self.0.len()
    }

    /// Position of an option, if present.
    fn find(&self, name: &[u8]) -> (r: Option<usize>)
        ensures
            match r {
                Some(i) => i < self@.len() && self@[i as int].0 == name@,
                None => forall|j: int| 0 <= j < self@.len() ==> (#[trigger] self@[j]).0 != name@,
            },
    {
        let n = self.0.len();
        let mut i: usize = 0;
        while i < n
            invariant
                n == self.0@.len(),
                i <= n,
                forall|j: int| 0 <= j < i ==> (#[trigger] self@[j]).0 != name@,
            decreases n - i,
        {
            let e = &self.0[i];
            proof {
                assert(self@[i as int] == (self.0@[i as int].0@, self.0@[i as int].1@));
            }
            if e.0.eq_bytes(name) {
                return Some(i);
            }
            i += 1;
        }
        None
    }

    /// Is the option present?
    pub fn contains_key(&self, name: &[u8]) -> (r: bool)
        ensures
            r == exists|j: int| 0 <= j < self@.len() && (#[trigger] self@[j]).0 == name@,
    {
        match self.find(name) {
            Some(i) => {
                proof {
                    assert(self@[i as int].0 == name@);
                }
                true
            },
            None => false,
        }
    }

    /// The option's value bytes, if present.
    pub fn get(&self, name: &[u8]) -> (r: Option<&ByteVec>)
        ensures
            match r {
                Some(v) => exists|j: int|
                    0 <= j < self@.len() && (#[trigger] self@[j]).0 == name@ && self@[j].1 == v@,
                None => forall|j: int| 0 <= j < self@.len() ==> (#[trigger] self@[j]).0 != name@,
            },
    {
        match self.find(name) {
            Some(i) => {
                let e = &self.0[i];
                proof {
                    assert(self@[i as int] == (self.0@[i as int].0@, self.0@[i as int].1@));
                }
                Some(&e.1)
            },
            None => None,
        }
    }

    /// Set an option: replace the value of an existing option of the same
    /// name in place, else append a new option.
    pub fn set(&mut self, name: &[u8], value: ByteVec)
        ensures
            if exists|i: int| 0 <= i < old(self)@.len() && (#[trigger] old(self)@[i]).0 == name@ {
                exists|i: int|
                    0 <= i < old(self)@.len() && (#[trigger] old(self)@[i]).0 == name@ && final(self)@ == old(self)@.update(i, (name@, value@))
            } else {
                final(self)@ == old(self)@.push((name@, value@))
            },
    {
        let ghost olds = self@;
        match self.find(name) {
            Some(i) => {
                self.0.set(i, (BvString::from_slice(name), value));
                proof {
                    assert(olds[i as int].0 == name@);
                    assert(self@ =~= olds.update(i as int, (name@, value@)));
                }
            },
            None => {
                self.0.push((BvString::from_slice(name), value));
                proof {
                    assert(self@ =~= olds.push((name@, value@)));
                }
            },
        }
    }
}

/// A table's schema: each field's name with its options.
pub struct FieldMap(pub Vec<(BvString, FieldOpts)>);

impl View for FieldMap {
    type V = FieldMapV;

    open spec fn view(&self) -> FieldMapV {
        self.0@.map_values(|e: (BvString, FieldOpts)| (e.0@, e.1@))
    }
}

impl FieldMap {
    /// An empty schema.
    pub fn new() -> (r: Self)
        ensures
            r@ == Seq::<(Seq<u8>, OptsV)>::empty(),
    {
        let r = FieldMap(Vec::new());
        proof {
            assert(r@ =~= Seq::<(Seq<u8>, OptsV)>::empty());
        }
        r
    }

    /// Number of fields.
    pub fn len(&self) -> (r: usize)
        ensures
            r == self@.len(),
    {
        self.0.len()
    }

    /// Position of a field, if present.
    pub fn find(&self, name: &[u8]) -> (r: Option<usize>)
        ensures
            match r {
                Some(i) => i < self@.len() && self@[i as int].0 == name@,
                None => forall|j: int| 0 <= j < self@.len() ==> (#[trigger] self@[j]).0 != name@,
            },
    {
        let n = self.0.len();
        let mut i: usize = 0;
        while i < n
            invariant
                n == self.0@.len(),
                i <= n,
                forall|j: int| 0 <= j < i ==> (#[trigger] self@[j]).0 != name@,
            decreases n - i,
        {
            let e = &self.0[i];
            proof {
                assert(self@[i as int] == (self.0@[i as int].0@, self.0@[i as int].1@));
            }
            if e.0.eq_bytes(name) {
                return Some(i);
            }
            i += 1;
        }
        None
    }

    /// Is the field declared?
    pub fn contains_key(&self, name: &[u8]) -> (r: bool)
        ensures
            r == exists|j: int| 0 <= j < self@.len() && (#[trigger] self@[j]).0 == name@,
    {
        match self.find(name) {
            Some(i) => {
                proof {
                    assert(self@[i as int].0 == name@);
                }
                true
            },
            None => false,
        }
    }

    /// The field's options at a known position.
    pub fn opts_at(&self, i: usize) -> (r: &FieldOpts)
        requires
            i < self@.len(),
        ensures
            r@ == self@[i as int].1,
    {
        proof {
            assert(self@[i as int] == (self.0@[i as int].0@, self.0@[i as int].1@));
        }
        &self.0[i].1
    }

    /// The field's name at a known position.
    pub fn name_at(&self, i: usize) -> (r: &BvString)
        requires
            i < self@.len(),
        ensures
            r@ == self@[i as int].0,
    {
        proof {
            assert(self@[i as int] == (self.0@[i as int].0@, self.0@[i as int].1@));
        }
        &self.0[i].0
    }

    /// Append a fresh field with its options.
    pub fn push_field(&mut self, name: BvString, opts: FieldOpts)
        requires
            forall|j: int|
                0 <= j < old(self)@.len() ==> (#[trigger] old(self)@[j]).0 != name@,
        ensures
            final(self)@ == old(self)@.push((name@, opts@)),
    {
        self.0.push((name, opts));
        proof {
            assert(self@ =~= old(self)@.push((self.0@.last().0@, self.0@.last().1@)));
        }
    }
}

/// One table row: each stored field's name with its tagged value.
pub struct TableRow(pub Vec<(BvString, BvObject)>);

impl View for TableRow {
    type V = RowV;

    open spec fn view(&self) -> RowV {
        self.0@.map_values(|e: (BvString, BvObject)| (e.0@, e.1@))
    }
}

impl TableRow {
    /// An empty row.
    pub fn new() -> (r: Self)
        ensures
            r@ == Seq::<(Seq<u8>, ObjView)>::empty(),
    {
        let r = TableRow(Vec::new());
        proof {
            assert(r@ =~= Seq::<(Seq<u8>, ObjView)>::empty());
        }
        r
    }

    /// A row owning the given columns.
    pub fn from_vec(v: Vec<(BvString, BvObject)>) -> (r: Self)
        ensures
            r@ == crate::storage::pairs_view(v@),
    {
        TableRow(v)
    }

    /// A row owning the given column mapping.
    pub fn from_hashmap(hm: Vec<(BvString, BvObject)>) -> (r: Self)
        ensures
            r@ == crate::storage::pairs_view(hm@),
    {
        TableRow(hm)
    }

    /// An empty row with room reserved for `cap` columns.
    pub fn with_capacity(cap: usize) -> (r: Self)
        ensures
            r@ == Seq::<(Seq<u8>, ObjView)>::empty(),
    {
        let r = TableRow(Vec::with_capacity(cap));
        proof {
            assert(r@ =~= Seq::<(Seq<u8>, ObjView)>::empty());
        }
        r
    }

    /// Number of stored fields.
    pub fn len(&self) -> (r: usize)
        ensures
            r == self@.len(),
    {
        self.0.len()
    }

    /// Position of a field, if present.
    pub fn find(&self, name: &[u8]) -> (r: Option<usize>)
        ensures
            match r {
                Some(i) => i < self@.len() && self@[i as int].0 == name@,
                None => forall|j: int| 0 <= j < self@.len() ==> (#[trigger] self@[j]).0 != name@,
            },
    {
        let n = self.0.len();
        let mut i: usize = 0;
        while i < n
            invariant
                n == self.0@.len(),
                i <= n,
                forall|j: int| 0 <= j < i ==> (#[trigger] self@[j]).0 != name@,
            decreases n - i,
        {
            let e = &self.0[i];
            proof {
                assert(self@[i as int] == (self.0@[i as int].0@, self.0@[i as int].1@));
            }
            if e.0.eq_bytes(name) {
                return Some(i);
            }
            i += 1;
        }
        None
    }

    /// The value stored under a field, if present.
    pub fn get(&self, name: &[u8]) -> (r: Option<&BvObject>)
        ensures
            match r {
                Some(v) => exists|j: int|
                    0 <= j < self@.len() && (#[trigger] self@[j]).0 == name@ && self@[j].1 == v@,
                None => forall|j: int| 0 <= j < self@.len() ==> (#[trigger] self@[j]).0 != name@,
            },
    {
        match self.find(name) {
            Some(i) => {
                let e = &self.0[i];
                proof {
                    assert(self@[i as int] == (self.0@[i as int].0@, self.0@[i as int].1@));
                }
                Some(&e.1)
            },
            None => None,
        }
    }

    /// The column at a known position.
    pub fn col_at(&self, i: usize) -> (r: &(BvString, BvObject))
        requires
            i < self@.len(),
        ensures
            r.0@ == self@[i as int].0,
            r.1@ == self@[i as int].1,
    {
        proof {
            assert(self@[i as int] == (self.0@[i as int].0@, self.0@[i as int].1@));
        }
        &self.0[i]
    }

    /// Set a column: replace the value of an existing column of the same
    /// field name in place, else append a new column.
    pub fn set_col(&mut self, field: &[u8], value: BvObject)
        ensures
            if exists|i: int| 0 <= i < old(self)@.len() && (#[trigger] old(self)@[i]).0
                == field@ {
                exists|i: int|
                    0 <= i < old(self)@.len() && (#[trigger] old(self)@[i]).0 == field@ && final(self)@ == old(self)@.update(i, (field@, value@))
            } else {
                final(self)@ == old(self)@.push((field@, value@))
            },
    {
        let ghost olds = self@;
        match self.find(field) {
            Some(i) => {
                self.0.set(i, (BvString::from_slice(field), value));
                proof {
                    assert(olds[i as int].0 == field@);
                    assert(self@ =~= olds.update(i as int, (field@, value@)));
                }
            },
            None => {
                self.0.push((BvString::from_slice(field), value));
                proof {
                    assert(self@ =~= olds.push((field@, value@)));
                }
            },
        }
    }
}

} // verus!
