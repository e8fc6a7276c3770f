//! An append-only sequence stored as a chain of fixed-capacity segments.
//!
//! A [`Writer`] owns the chain and is the only way to extend it. A [`Reader`]
//! is a cheap, copyable, read-only handle that borrows the chain from the
//! writer; it answers searches under the assumption that elements were
//! appended in non-decreasing order and hands out forward-only [`Iter`]
//! cursors. All contracts are stated over the logical sequence: the
//! concatenation of the segments' occupied prefixes, in chain order.

mod chain;
pub mod iter;
pub mod laws;
pub mod order;
pub mod reader;
pub mod writer;

pub use crate::iter::Iter;
pub use crate::reader::Reader;
pub use crate::writer::{new, Writer};
