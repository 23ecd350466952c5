//! The generic value tree that decoding produces, and its mathematical view.
use vstd::prelude::*;

verus! {

/// A decoded value: a scalar, a text, a list of values or a record of named
/// values. Floating-point numbers are carried as their raw bit patterns.
#[derive(Debug, PartialEq)]
pub enum Value {
    Int(i64),
    UInt(u64),
    Float32(u32),
    Float64(u64),
    Bool(bool),
    Str(String),
    List(Vec<Value>),
    Record(Vec<Entry>),
}

/// One named field of a record.
#[derive(Debug, PartialEq)]
pub struct Entry {
    pub name: String,
    pub value: Value,
}

/// The mathematical form of a [`Value`].
pub enum Tree {
    Int(i64),
    UInt(u64),
    Float32(u32),
    Float64(u64),
    Bool(bool),
    Str(Seq<char>),
    List(Seq<Tree>),
    Record(Seq<(Seq<char>, Tree)>),
}

impl View for Value {
    type V = Tree;

    open spec fn view(&self) -> Tree {
        tree_of(*self)
    }
}

/// The mathematical form of `v`.
pub open spec fn tree_of(v: Value) -> Tree
    decreases v,
{
    match v {
        Value::Int(x) => Tree::Int(x),
        Value::UInt(x) => Tree::UInt(x),
        Value::Float32(x) => Tree::Float32(x),
        Value::Float64(x) => Tree::Float64(x),
        Value::Bool(x) => Tree::Bool(x),
        Value::Str(s) => Tree::Str(s@),
        Value::List(vs) => Tree::List(
            Seq::new(vs@.len(), |i: int| if 0 <= i < vs@.len() { tree_of(vs@[i]) } else { Tree::Bool(false) }),
        ),
        Value::Record(es) => Tree::Record(
            Seq::new(
                es@.len(),
                |i: int|
                    if 0 <= i < es@.len() {
                        (es@[i].name@, tree_of(es@[i].value))
                    } else {
                        (Seq::empty(), Tree::Bool(false))
                    },
            ),
        ),
    }
}

} // verus!

verus! {

/// Why a buffer could not be decoded.
#[derive(Clone, Copy, Debug, PartialEq, Eq, Structural)]
pub enum DecodeError {
    /// A byte window's length disagrees with the size its type declares,
    /// including a compound field cut off by the end of its compound.
    SizeMismatch,
    /// Two fields of one record carry the same name.
    DuplicateFieldName,
    /// A declared size does not fit in a `usize`.
    SizeOverflow,
    /// A variable-length array whose elements take no bytes.
    ZeroSizedElement,
    /// A type nests deeper than the decoder accepts.
    SchemaTooDeep,
    /// The container engine could not resolve a variable-length record.
    EngineError,
}

} // verus!
