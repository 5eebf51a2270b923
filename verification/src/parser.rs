//! Record-region decoders, one submodule per record kind.

pub mod kv;
pub mod rows;
pub mod table;
