//! An indexed record store kept in fixed-width binary files: a sorted primary
//! file, an append-only overflow file and a sparse index over the primary.
//!
//! Every operation works on in-memory images of those files, so that the
//! caller decides how the bytes are read from and written to disk.
pub mod codec;
pub mod engine;
pub mod indice;
pub mod laws;
pub mod pedido;
pub mod produto;
pub mod store;
