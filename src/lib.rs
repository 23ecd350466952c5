//! Decoding of typed, self-describing binary buffers into generic value trees.
//!
//! A [`TypeDesc`] describes the layout of a byte window; [`decode`] turns a
//! window into a [`Value`], and [`build_group`] turns a snapshot of a
//! hierarchical container into a record of lists and records.
pub mod bytes;
pub mod decode;
pub mod desc;
pub mod text;
pub mod tree;
pub mod value;

pub use bytes::ByteOrder;
pub use decode::{decode, decode_run, VarLenSource};
pub use desc::{Field, FloatWidth, IntWidth, StrEncoding, TypeDesc, MAX_DEPTH};
pub use tree::{build_dataset, build_group, leaf_name, strip_name, DatasetNode, GroupNode};
pub use value::{DecodeError, Entry, Value};
