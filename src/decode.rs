//! Decoding a byte window under a type descriptor.
use vstd::prelude::*;
use vstd::slice::slice_subrange;

use crate::bytes::{
    lemma_digits_bound, lemma_radix_pow_values, msb_first, radix_pow, read_signed, read_unsigned,
    signed_of, unsigned_of, ByteOrder,
};
use crate::desc::{
    byte_size, fields_error, layout_error, within_depth, Field, FloatWidth, IntWidth,
    StrEncoding, TypeDesc, MAX_DEPTH,
};
use crate::text::{lossy_text, text_from_bytes};
use crate::value::{tree_of, DecodeError, Entry, Tree, Value};

verus! {

/// Where the decoder finds what a variable-length record refers to.
///
/// A record is an indirection into storage that the container engine owns;
/// only the engine can follow it.
pub trait VarLenSource {
    /// The bytes of the run of elements, each `element_size` bytes wide, that
    /// `record` refers to, or `None` where the engine cannot follow it.
    fn resolve_array(&self, record: &[u8], element_size: usize) -> Option<Vec<u8>>;

    /// The text that `record` refers to, or `None` where the engine cannot
    /// follow it.
    fn resolve_string(&self, record: &[u8], encoding: StrEncoding) -> Option<String>;
}

/// The value of a scalar type in the window `b`.
pub open spec fn scalar_tree(b: Seq<u8>, t: TypeDesc, o: ByteOrder) -> Tree {
    match t {
        TypeDesc::Integer(_) => Tree::Int(signed_of(b, o) as i64),
        TypeDesc::Unsigned(_) => Tree::UInt(unsigned_of(b, o) as u64),
        TypeDesc::Float(FloatWidth::W4) => Tree::Float32(unsigned_of(b, o) as u32),
        TypeDesc::Float(FloatWidth::W8) => Tree::Float64(unsigned_of(b, o) as u64),
        TypeDesc::Enum(_, true) => Tree::Int(signed_of(b, o) as i64),
        TypeDesc::Enum(_, false) => Tree::UInt(unsigned_of(b, o) as u64),
        _ => Tree::Bool(b.len() > 0 && b[0] != 0),
    }
}

/// Whether `t` is a number, a boolean or an enumeration.
pub open spec fn is_scalar(t: TypeDesc) -> bool {
    ||| t is Integer
    ||| t is Unsigned
    ||| t is Float
    ||| t is Boolean
    ||| t is Enum
}

/// The `k`-th of the windows of `s` bytes that `b` is cut into.
pub open spec fn chunk(b: Seq<u8>, k: int, s: nat) -> Seq<u8> {
    b.subrange(k * s, (k + 1) * s)
}

/// The window that field `f` takes in the compound window `b`.
pub open spec fn field_window(b: Seq<u8>, f: Field) -> Seq<u8> {
    b.subrange(f.offset as int, f.offset + byte_size(f.ty))
}

/// Whether some part of `t` is a variable-length record.
pub open spec fn has_indirection(t: TypeDesc) -> bool
    decreases t, 0nat,
{
    match t {
        TypeDesc::VarLenString(_) => true,
        TypeDesc::VarLenArray(_) => true,
        TypeDesc::FixedArray(e, _) => has_indirection(*e),
        TypeDesc::Compound(_, fs) => fields_have_indirection(fs@, fs@.len()),
        _ => false,
    }
}

/// Whether the type of one of the first `n` fields has a variable-length part.
pub open spec fn fields_have_indirection(fs: Seq<Field>, n: nat) -> bool
    decreases fs, n,
{
    0 < n <= fs.len() && (fields_have_indirection(fs, (n - 1) as nat) || has_indirection(
        fs[n - 1].ty,
    ))
}

/// Whether `v` has the shape that type `t` describes: the kind of each
/// scalar, the length of each fixed array, and the names of each compound's
/// fields in order.
pub open spec fn conforms(v: Tree, t: TypeDesc) -> bool
    decreases t, 0nat,
{
    match t {
        TypeDesc::Integer(_) => v is Int,
        TypeDesc::Unsigned(_) => v is UInt,
        TypeDesc::Float(FloatWidth::W4) => v is Float32,
        TypeDesc::Float(FloatWidth::W8) => v is Float64,
        TypeDesc::Boolean => v is Bool,
        TypeDesc::Enum(_, signed) => if signed {
            v is Int
        } else {
            v is UInt
        },
        TypeDesc::FixedString(_, _) => v is Str,
        TypeDesc::VarLenString(_) => v is Str,
        TypeDesc::FixedArray(e, n) => v is List && v->List_0.len() == n && items_conform(
            v->List_0,
            *e,
        ),
        TypeDesc::VarLenArray(e) => v is List && items_conform(v->List_0, *e),
        TypeDesc::Compound(_, fs) => v is Record && v->Record_0.len() == fs@.len()
            && entries_conform(v->Record_0, fs@),
    }
}

/// Whether each of `items` has the shape that `e` describes.
pub open spec fn items_conform(items: Seq<Tree>, e: TypeDesc) -> bool
    decreases e, items.len() + 1,
{
    items.len() == 0 || (items_conform(items.drop_last(), e) && conforms(items.last(), e))
}

/// Whether `entries` carry the names of the first fields of `fs`, in order,
/// each with a value of the shape its field's type describes.
pub open spec fn entries_conform(entries: Seq<(Seq<char>, Tree)>, fs: Seq<Field>) -> bool
    decreases fs, entries.len(),
{
    if entries.len() == 0 {
        true
    } else if entries.len() > fs.len() {
        false
    } else {
        let k = entries.len() - 1;
        &&& entries_conform(entries.drop_last(), fs)
        &&& entries[k].0 == fs[k].name@
        &&& conforms(entries[k].1, fs[k].ty)
    }
}

/// Whether `v` is what the window `b` holds under type `t`.
///
/// Each part of a fixed layout is determined by its bytes. What a
/// variable-length record refers to lies outside the window: there only the
/// kind of the value is fixed.
pub open spec fn decodes(b: Seq<u8>, t: TypeDesc, o: ByteOrder, v: Tree) -> bool
    decreases t, 0nat,
{
    &&& b.len() == byte_size(t)
    &&& match t {
        TypeDesc::FixedString(_, _) => v == Tree::Str(lossy_text(b)),
        TypeDesc::VarLenString(_) => v is Str,
        TypeDesc::VarLenArray(e) => v is List && items_conform(v->List_0, *e),
        TypeDesc::FixedArray(e, n) => v is List && v->List_0.len() == n && run_decodes(
            b,
            *e,
            o,
            v->List_0,
        ),
        TypeDesc::Compound(_, fs) => v is Record && v->Record_0.len() == fs@.len()
            && fields_decode(b, fs@, o, v->Record_0),
        _ => v == scalar_tree(b, t, o),
    }
}

/// Whether `items` are what the first windows of `byte_size(e)` bytes in `b`
/// hold, one for one, under type `e`.
pub open spec fn run_decodes(b: Seq<u8>, e: TypeDesc, o: ByteOrder, items: Seq<Tree>) -> bool
    decreases e, items.len() + 1,
{
    if items.len() == 0 {
        true
    } else {
        &&& run_decodes(b, e, o, items.drop_last())
        &&& decodes(chunk(b, items.len() - 1, byte_size(e)), e, o, items.last())
    }
}

/// Whether `entries` are the first fields of the compound window `b`: each
/// carries its field's name and what the field's window holds.
pub open spec fn fields_decode(
    b: Seq<u8>,
    fs: Seq<Field>,
    o: ByteOrder,
    entries: Seq<(Seq<char>, Tree)>,
) -> bool
    decreases fs, entries.len(),
{
    if entries.len() == 0 {
        true
    } else if entries.len() > fs.len() {
        false
    } else {
        let k = entries.len() - 1;
        &&& fields_decode(b, fs, o, entries.drop_last())
        &&& entries[k].0 == fs[k].name@
        &&& decodes(field_window(b, fs[k]), fs[k].ty, o, entries[k].1)
    }
}

/// The views of a sequence of values.
pub open spec fn trees(vs: Seq<Value>) -> Seq<Tree> {
    Seq::new(vs.len(), |i: int| vs[i]@)
}

/// The errors that can only come from storage outside the window: the engine
/// could not follow a record, or a run it handed back does not hold a whole
/// number of elements.
pub open spec fn outer_fault(e: DecodeError) -> bool {
    e is EngineError || e is SizeMismatch
}

/// The fault of the type `t` itself, if it has one: nesting beyond
/// [`MAX_DEPTH`], or else the first fault of its layout.
pub open spec fn type_fault(t: TypeDesc) -> Option<DecodeError> {
    if !within_depth(t, MAX_DEPTH as nat) {
        Some(DecodeError::SchemaTooDeep)
    } else {
        layout_error(t)
    }
}

/// Why the window `b` cannot be decoded under `t` whatever else holds, if
/// there is a reason: a window of the wrong length, or else a fault of the
/// type.
pub open spec fn window_fault(b: Seq<u8>, t: TypeDesc) -> Option<DecodeError> {
    if b.len() != byte_size(t) {
        Some(DecodeError::SizeMismatch)
    } else {
        type_fault(t)
    }
}

/// Decodes the window `slice` under the type `dtype`, reading multi-byte
/// scalars in the byte order `order` and following variable-length records
/// through `heap`.
///
/// A window of the wrong length, and then a fault of the type, is reported
/// before any byte is read. A type without variable-length parts then always
/// decodes; otherwise the engine may still fail.
pub fn decode<S: VarLenSource>(slice: &[u8], dtype: &TypeDesc, order: ByteOrder, heap: &S) -> (r:
    Result<Value, DecodeError>)
    ensures
        window_fault(slice@, *dtype) is Some ==> r == Err::<Value, DecodeError>(
            window_fault(slice@, *dtype)->0,
        ),
        window_fault(slice@, *dtype) is None && !has_indirection(*dtype) ==> r is Ok,
        r is Ok ==> decodes(slice@, *dtype, order, r->Ok_0@),
        r is Err && window_fault(slice@, *dtype) is None ==> has_indirection(*dtype)
            && outer_fault(r->Err_0),
{
    let len = slice.len();
    match dtype.checked_size() {
        Some(n) => {
            if len != n {
                return Err(DecodeError::SizeMismatch);
            }
        },
        None => {
            return Err(DecodeError::SizeMismatch);
        },
    }
    if !dtype.fits_depth(MAX_DEPTH) {
        return Err(DecodeError::SchemaTooDeep);
    }
    if let Some(e) = dtype.layout_error() {
        return Err(e);
    }
    decode_checked(slice, dtype, order, heap)
}

/// Each of the first `n` fields of a layout without fault is itself without
/// fault and lies inside the compound.
proof fn lemma_field_fits(fs: Seq<Field>, size: nat, n: nat, k: int)
    requires
        0 <= k < n <= fs.len(),
        fields_error(fs, size, n) is None,
    ensures
        layout_error(fs[k].ty) is None,
        fs[k].offset + byte_size(fs[k].ty) <= size,
    decreases n,
{
    if k < n - 1 {
        lemma_field_fits(fs, size, (n - 1) as nat, k);
    }
}

/// No field among the first `n` has a variable-length part if none of them
/// together has one.
proof fn lemma_field_direct(fs: Seq<Field>, n: nat, k: int)
    requires
        0 <= k < n <= fs.len(),
        !fields_have_indirection(fs, n),
    ensures
        !has_indirection(fs[k].ty),
    decreases n,
{
    if k < n - 1 {
        lemma_field_direct(fs, (n - 1) as nat, k);
    }
}

/// Decodes the window `b` under a layout without fault whose size it matches.
fn decode_checked<S: VarLenSource>(b: &[u8], t: &TypeDesc, o: ByteOrder, heap: &S) -> (r: Result<
    Value,
    DecodeError,
>)
    requires
        layout_error(*t) is None,
        b@.len() == byte_size(*t),
    ensures
        r is Ok ==> decodes(b@, *t, o, r->Ok_0@),
        !has_indirection(*t) ==> r is Ok,
        r is Err ==> outer_fault(r->Err_0),
    decreases t, 0nat,
{
    match t {
        TypeDesc::Integer(_) => Ok(Value::Int(read_signed(b, o))),
        TypeDesc::Unsigned(_) => Ok(Value::UInt(read_unsigned(b, o))),
        TypeDesc::Float(w) => {
            let u = read_unsigned(b, o);
            proof {
                lemma_digits_bound(msb_first(b@, o));
                lemma_radix_pow_values();
            }
            match w {
                FloatWidth::W4 => Ok(Value::Float32(u as u32)),
                FloatWidth::W8 => Ok(Value::Float64(u)),
            }
        },
        TypeDesc::Boolean => Ok(Value::Bool(b[0] != 0)),
        TypeDesc::Enum(_, signed) => {
            if *signed {
                Ok(Value::Int(read_signed(b, o)))
            } else {
                Ok(Value::UInt(read_unsigned(b, o)))
            }
        },
        TypeDesc::FixedString(_, _) => Ok(Value::Str(text_from_bytes(b))),
        TypeDesc::VarLenString(enc) => match heap.resolve_string(b, *enc) {
            Some(text) => Ok(Value::Str(text)),
            None => Err(DecodeError::EngineError),
        },
        TypeDesc::FixedArray(e, n) => {
            let vals = decode_elements(b, e, *n, o, heap)?;
            let ghost items = vals@;
            let v = Value::List(vals);
            proof {
                reveal_with_fuel(tree_of, 2);
            }
            assert(v@->List_0 =~= trees(items));
            Ok(v)
        },
        TypeDesc::VarLenArray(e) => match heap.resolve_array(b, e.byte_size()) {
            Some(payload) => {
                let vals = decode_run(payload.as_slice(), e, o, heap)?;
                let ghost items = vals@;
                proof {
                    lemma_run_conforms(payload@, **e, o, trees(items));
                }
                let v = Value::List(vals);
                assert(v@->List_0 =~= trees(items));
                Ok(v)
            },
            None => Err(DecodeError::EngineError),
        },
        TypeDesc::Compound(size, fs) => {
            let entries = decode_fields(b, fs, *size, o, heap)?;
            let ghost es = entries@;
            let v = Value::Record(entries);
            assert(v@->Record_0 =~= entry_trees(es));
            Ok(v)
        },
    }
}

/// Decodes `n` elements of type `e` laid one after another in `b`.
pub(crate) fn decode_elements<S: VarLenSource>(
    b: &[u8],
    e: &TypeDesc,
    n: usize,
    o: ByteOrder,
    heap: &S,
) -> (r: Result<Vec<Value>, DecodeError>)
    requires
        layout_error(*e) is None,
        b@.len() == n * byte_size(*e),
    ensures
        r is Ok ==> r->Ok_0@.len() == n && run_decodes(b@, *e, o, trees(r->Ok_0@)),
        !has_indirection(*e) ==> r is Ok,
        r is Err ==> outer_fault(r->Err_0),
    decreases e, 1nat,
{
    let s = e.byte_size();
    let blen = b.len();
    let mut vals: Vec<Value> = Vec::new();
    let ghost mut items: Seq<Tree> = Seq::empty();
    let mut i: usize = 0;
    while i < n
        invariant
            layout_error(*e) is None,
            s as nat == byte_size(*e),
            b@.len() == n * s,
            blen == b@.len(),
            i <= n,
            vals@.len() == i,
            items == trees(vals@),
            run_decodes(b@, *e, o, items),
        decreases n - i,
    {
        proof {
            assert((i + 1) * s <= n * s) by (nonlinear_arith)
                requires
                    i < n,
            ;
            assert((i + 1) * s == i * s + s) by (nonlinear_arith);
        }
        let start = i * s;
        let part = slice_subrange(b, start, start + s);
        let v = decode_checked(part, e, o, heap)?;
        proof {
            let next = items.push(v@);
            assert(next.drop_last() =~= items);
            assert(part@ == chunk(b@, i as int, s as nat));
            items = next;
        }
        vals.push(v);
        proof {
            assert(items =~= trees(vals@));
        }
        i = i + 1;
    }
    Ok(vals)
}

/// Decodes the bytes of a variable-length run: as many elements of type `e`
/// as fit in `b`, which must hold a whole number of them.
pub fn decode_run<S: VarLenSource>(b: &[u8], e: &TypeDesc, o: ByteOrder, heap: &S) -> (r: Result<
    Vec<Value>,
    DecodeError,
>)
    requires
        layout_error(*e) is None,
        byte_size(*e) > 0,
    ensures
        b@.len() % byte_size(*e) != 0 ==> r == Err::<Vec<Value>, DecodeError>(
            DecodeError::SizeMismatch,
        ),
        r is Ok ==> b@.len() == r->Ok_0@.len() * byte_size(*e) && run_decodes(
            b@,
            *e,
            o,
            trees(r->Ok_0@),
        ),
        b@.len() % byte_size(*e) == 0 && !has_indirection(*e) ==> r is Ok,
        r is Err ==> outer_fault(r->Err_0),
    decreases e, 2nat,
{
    let s = e.byte_size();
    if b.len() % s != 0 {
        return Err(DecodeError::SizeMismatch);
    }
    let n = b.len() / s;
    proof {
        let len = b@.len() as int;
        let w = s as int;
        assert(len == n * w) by (nonlinear_arith)
            requires
                len % w == 0,
                n == len / w,
                w > 0,
        ;
    }
    decode_elements(b, e, n, o, heap)
}

/// Decodes the fields `fs` of a compound window `b` of `size` bytes.
fn decode_fields<S: VarLenSource>(
    b: &[u8],
    fs: &Vec<Field>,
    size: usize,
    o: ByteOrder,
    heap: &S,
) -> (r: Result<Vec<Entry>, DecodeError>)
    requires
        fields_error(fs@, size as nat, fs@.len()) is None,
        b@.len() == size,
    ensures
        r is Ok ==> r->Ok_0@.len() == fs@.len() && fields_decode(
            b@,
            fs@,
            o,
            entry_trees(r->Ok_0@),
        ),
        !fields_have_indirection(fs@, fs@.len()) ==> r is Ok,
        r is Err ==> outer_fault(r->Err_0),
    decreases fs@, 0nat,
{
    let mut entries: Vec<Entry> = Vec::new();
    let ghost mut seen: Seq<(Seq<char>, Tree)> = Seq::empty();
    let mut i: usize = 0;
    while i < fs.len()
        invariant
            fields_error(fs@, size as nat, fs@.len()) is None,
            b@.len() == size,
            i <= fs@.len(),
            entries@.len() == i,
            seen == entry_trees(entries@),
            fields_decode(b@, fs@, o, seen),
        decreases fs@.len() - i,
    {
        let f = &fs[i];
        proof {
            lemma_field_fits(fs@, size as nat, fs@.len(), i as int);
            if !fields_have_indirection(fs@, fs@.len()) {
                lemma_field_direct(fs@, fs@.len(), i as int);
            }
        }
        assert(decreases_to!(fs@ => fs@[i as int].ty));
        let fsz = f.ty.byte_size();
        let part = slice_subrange(b, f.offset, f.offset + fsz);
        let v = decode_checked(part, &f.ty, o, heap)?;
        let name = f.name.clone();
        proof {
            let next = seen.push((name@, v@));
            assert(next.drop_last() =~= seen);
            seen = next;
        }
        entries.push(Entry { name, value: v });
        proof {
            assert(seen =~= entry_trees(entries@));
        }
        i = i + 1;
    }
    Ok(entries)
}

/// The views of a sequence of record entries.
pub open spec fn entry_trees(es: Seq<Entry>) -> Seq<(Seq<char>, Tree)> {
    Seq::new(es.len(), |i: int| (es[i].name@, es[i].value@))
}

/// The bit pattern of a numeric scalar `v` that is `width` bytes wide: a
/// negative integer as its two's complement.
pub open spec fn tree_bits(v: Tree, width: nat) -> int {
    match v {
        Tree::Int(x) => if x < 0 {
            x + radix_pow(width)
        } else {
            x as int
        },
        Tree::UInt(x) => x as int,
        Tree::Float32(x) => x as int,
        Tree::Float64(x) => x as int,
        Tree::Bool(x) => if x {
            1
        } else {
            0
        },
        _ => -1,
    }
}

/// Every window of a scalar type's size decodes, to a value that depends on
/// its bytes alone; for a number, the value's bit pattern is the window read
/// in the given byte order, and a boolean is true exactly when its byte is
/// not zero.
pub proof fn lemma_scalar_window(b: Seq<u8>, t: TypeDesc, o: ByteOrder, v: Tree)
    requires
        is_scalar(t),
        b.len() == byte_size(t),
    ensures
        window_fault(b, t) is None,
        !has_indirection(t),
        decodes(b, t, o, v) <==> v == scalar_tree(b, t, o),
        t !is Boolean ==> tree_bits(scalar_tree(b, t, o), b.len()) == unsigned_of(b, o),
        t is Boolean ==> scalar_tree(b, t, o) == Tree::Bool(b[0] != 0),
{
    lemma_radix_pow_values();
    lemma_digits_bound(msb_first(b, o));
    assert(msb_first(b, o).len() == b.len());
    let u = unsigned_of(b, o);
    let full = radix_pow(b.len());
    if t !is Boolean && t !is Float {
        assert(b.len() == 1 || b.len() == 2 || b.len() == 4 || b.len() == 8);
        if u * 2 >= full {
            assert(signed_of(b, o) == u - full);
            assert(signed_of(b, o) as i64 == u - full);
        } else {
            assert(signed_of(b, o) as i64 == u);
        }
    }
}

/// An enumeration decodes exactly as the integer type of its width and
/// signedness.
pub proof fn lemma_enum_as_integer(b: Seq<u8>, w: IntWidth, signed: bool, o: ByteOrder, v: Tree)
    ensures
        window_fault(b, TypeDesc::Enum(w, signed)) == window_fault(
            b,
            if signed {
                TypeDesc::Integer(w)
            } else {
                TypeDesc::Unsigned(w)
            },
        ),
        decodes(b, TypeDesc::Enum(w, signed), o, v) <==> decodes(
            b,
            if signed {
                TypeDesc::Integer(w)
            } else {
                TypeDesc::Unsigned(w)
            },
            o,
            v,
        ),
{
}

/// A window holds at most one value under a type without variable-length
/// parts: decoding it twice gives the same tree.
pub proof fn lemma_decodes_unique(b: Seq<u8>, t: TypeDesc, o: ByteOrder, v1: Tree, v2: Tree)
    requires
        !has_indirection(t),
        decodes(b, t, o, v1),
        decodes(b, t, o, v2),
    ensures
        v1 == v2,
    decreases t, 0nat,
{
    match t {
        TypeDesc::FixedArray(e, n) => {
            lemma_run_unique(b, *e, o, v1->List_0, v2->List_0);
            assert(v1->List_0 =~= v2->List_0);
        },
        TypeDesc::Compound(_, fs) => {
            lemma_fields_unique(b, fs@, o, v1->Record_0, v2->Record_0);
            assert(v1->Record_0 =~= v2->Record_0);
        },
        _ => {},
    }
}

proof fn lemma_run_unique(b: Seq<u8>, e: TypeDesc, o: ByteOrder, i1: Seq<Tree>, i2: Seq<Tree>)
    requires
        !has_indirection(e),
        i1.len() == i2.len(),
        run_decodes(b, e, o, i1),
        run_decodes(b, e, o, i2),
    ensures
        i1 =~= i2,
    decreases e, i1.len() + 1,
{
    if i1.len() > 0 {
        lemma_run_unique(b, e, o, i1.drop_last(), i2.drop_last());
        lemma_decodes_unique(chunk(b, i1.len() - 1, byte_size(e)), e, o, i1.last(), i2.last());
        assert forall|k: int| 0 <= k < i1.len() implies i1[k] == i2[k] by {
            if k < i1.len() - 1 {
                assert(i1[k] == i1.drop_last()[k]);
                assert(i2[k] == i2.drop_last()[k]);
            }
        }
    }
}

proof fn lemma_fields_unique(
    b: Seq<u8>,
    fs: Seq<Field>,
    o: ByteOrder,
    e1: Seq<(Seq<char>, Tree)>,
    e2: Seq<(Seq<char>, Tree)>,
)
    requires
        !fields_have_indirection(fs, fs.len()),
        e1.len() == e2.len(),
        fields_decode(b, fs, o, e1),
        fields_decode(b, fs, o, e2),
    ensures
        e1 =~= e2,
    decreases fs, e1.len(),
{
    if e1.len() > 0 {
        let k = e1.len() - 1;
        lemma_fields_unique(b, fs, o, e1.drop_last(), e2.drop_last());
        lemma_field_direct(fs, fs.len(), k);
        assert(decreases_to!(fs => fs[k].ty));
        lemma_decodes_unique(field_window(b, fs[k]), fs[k].ty, o, e1[k].1, e2[k].1);
        assert forall|j: int| 0 <= j < e1.len() implies e1[j] == e2[j] by {
            if j < k {
                assert(e1[j] == e1.drop_last()[j]);
                assert(e2[j] == e2.drop_last()[j]);
            }
        }
    }
}

/// Whatever a window holds under a type has the shape the type describes.
pub proof fn lemma_decodes_conforms(b: Seq<u8>, t: TypeDesc, o: ByteOrder, v: Tree)
    requires
        decodes(b, t, o, v),
    ensures
        conforms(v, t),
    decreases t, 0nat,
{
    match t {
        TypeDesc::FixedArray(e, _) => lemma_run_conforms(b, *e, o, v->List_0),
        TypeDesc::Compound(_, fs) => lemma_fields_conform(b, fs@, o, v->Record_0),
        _ => {},
    }
}

proof fn lemma_run_conforms(b: Seq<u8>, e: TypeDesc, o: ByteOrder, items: Seq<Tree>)
    requires
        run_decodes(b, e, o, items),
    ensures
        items_conform(items, e),
    decreases e, items.len() + 1,
{
    if items.len() > 0 {
        lemma_run_conforms(b, e, o, items.drop_last());
        lemma_decodes_conforms(chunk(b, items.len() - 1, byte_size(e)), e, o, items.last());
    }
}

proof fn lemma_fields_conform(
    b: Seq<u8>,
    fs: Seq<Field>,
    o: ByteOrder,
    entries: Seq<(Seq<char>, Tree)>,
)
    requires
        fields_decode(b, fs, o, entries),
    ensures
        entries_conform(entries, fs),
    decreases fs, entries.len(),
{
    if entries.len() > 0 {
        let k = entries.len() - 1;
        lemma_fields_conform(b, fs, o, entries.drop_last());
        assert(decreases_to!(fs => fs[k].ty));
        lemma_decodes_conforms(field_window(b, fs[k]), fs[k].ty, o, entries[k].1);
    }
}

} // verus!
