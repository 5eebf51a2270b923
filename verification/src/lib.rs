//! An embeddable persistent store for key-value and tabular collections,
//! backed by a single binary file image.
//!
//! Values are kept type-erased: each one carries a normalized type tag next
//! to its raw serialized bytes, so a single collection can hold heterogeneous
//! values while still supporting typed comparison and arithmetic.

pub mod bvobject;
pub mod bvstr;
pub mod bvstring;
pub mod byteslice;
pub mod codec;
pub mod cursor;
pub mod format;
pub mod bytevec;
pub mod icbiadb;
pub mod kvdb;
pub mod laws;
pub mod mem;
pub mod parser;
pub mod reader;
pub mod slice;
pub mod storage;
pub mod table_types;
pub mod tabledb;
pub mod utils;
pub mod writer;

use vstd::prelude::*;

verus! {

} // verus!
