//! Type descriptors: the layout of a byte window.
use vstd::prelude::*;
use vstd::layout::size_of;

use crate::value::DecodeError;

verus! {

/// Width in bytes of an integer type.
#[derive(Clone, Copy, Debug, PartialEq, Eq, Structural)]
pub enum IntWidth {
    W1,
    W2,
    W4,
    W8,
}

/// Width in bytes of a floating-point type.
#[derive(Clone, Copy, Debug, PartialEq, Eq, Structural)]
pub enum FloatWidth {
    W4,
    W8,
}

/// The character set a string type declares.
#[derive(Clone, Copy, Debug, PartialEq, Eq, Structural)]
pub enum StrEncoding {
    Ascii,
    Unicode,
}

/// The layout of a byte window.
#[derive(Debug)]
pub enum TypeDesc {
    /// A two's complement integer.
    Integer(IntWidth),
    /// An unsigned integer.
    Unsigned(IntWidth),
    /// An IEEE 754 number.
    Float(FloatWidth),
    /// One byte, zero for false.
    Boolean,
    /// An enumeration stored as an integer of the given width and signedness.
    Enum(IntWidth, bool),
    /// Text in a window of the given number of bytes.
    FixedString(usize, StrEncoding),
    /// An indirection record that refers to text held elsewhere.
    VarLenString(StrEncoding),
    /// The given number of elements, one after another.
    FixedArray(Box<TypeDesc>, usize),
    /// An indirection record that refers to a run of elements held elsewhere.
    VarLenArray(Box<TypeDesc>),
    /// A structure of the given total size with named fields at byte offsets.
    Compound(usize, Vec<Field>),
}

/// A named field of a compound type.
#[derive(Debug)]
pub struct Field {
    pub name: String,
    pub offset: usize,
    pub ty: TypeDesc,
}

/// How deeply arrays and compounds may nest inside one another.
pub const MAX_DEPTH: usize = 32;

/// The number of bytes of an integer of width `w`.
pub open spec fn int_width(w: IntWidth) -> nat {
    match w {
        IntWidth::W1 => 1,
        IntWidth::W2 => 2,
        IntWidth::W4 => 4,
        IntWidth::W8 => 8,
    }
}

/// The number of bytes of a floating-point number of width `w`.
pub open spec fn float_width(w: FloatWidth) -> nat {
    match w {
        FloatWidth::W4 => 4,
        FloatWidth::W8 => 8,
    }
}

/// The width of a machine word, and so of a pointer or a length.
pub open spec fn word_width() -> nat {
    size_of::<usize>()
}

/// The number of bytes a value of type `t` takes in its window.
pub open spec fn byte_size(t: TypeDesc) -> nat
    decreases t,
{
    match t {
        TypeDesc::Integer(w) => int_width(w),
        TypeDesc::Unsigned(w) => int_width(w),
        TypeDesc::Float(w) => float_width(w),
        TypeDesc::Boolean => 1,
        TypeDesc::Enum(w, _) => int_width(w),
        TypeDesc::FixedString(n, _) => n as nat,
        TypeDesc::VarLenString(_) => word_width(),
        TypeDesc::FixedArray(e, n) => n as nat * byte_size(*e),
        TypeDesc::VarLenArray(_) => 2 * word_width(),
        TypeDesc::Compound(size, _) => size as nat,
    }
}

/// Whether arrays and compounds nest at most `k` levels deep in `t`.
pub open spec fn within_depth(t: TypeDesc, k: nat) -> bool
    decreases k, 0nat,
{
    match t {
        TypeDesc::FixedArray(e, _) => k > 0 && within_depth(*e, (k - 1) as nat),
        TypeDesc::VarLenArray(e) => k > 0 && within_depth(*e, (k - 1) as nat),
        TypeDesc::Compound(_, fs) => k > 0 && fields_within(fs@, fs@.len(), (k - 1) as nat),
        _ => true,
    }
}

/// Whether the types of the first `n` fields nest at most `k` levels deep.
pub open spec fn fields_within(fs: Seq<Field>, n: nat, k: nat) -> bool
    decreases k, n,
{
    n == 0 || (n <= fs.len() && fields_within(fs, (n - 1) as nat, k) && within_depth(
        fs[n - 1].ty,
        k,
    ))
}

/// The first fault of the layout `t`, in declaration order, if it has one.
pub open spec fn layout_error(t: TypeDesc) -> Option<DecodeError>
    decreases t, 0nat,
{
    match t {
        TypeDesc::FixedArray(e, n) => match layout_error(*e) {
            Some(x) => Some(x),
            None => if n as nat * byte_size(*e) > usize::MAX {
                Some(DecodeError::SizeOverflow)
            } else {
                None
            },
        },
        TypeDesc::VarLenArray(e) => match layout_error(*e) {
            Some(x) => Some(x),
            None => if byte_size(*e) == 0 {
                Some(DecodeError::ZeroSizedElement)
            } else {
                None
            },
        },
        TypeDesc::Compound(size, fs) => fields_error(fs@, size as nat, fs@.len()),
        _ => None,
    }
}

/// The first fault among the first `n` fields of a compound of `size` bytes.
pub open spec fn fields_error(fs: Seq<Field>, size: nat, n: nat) -> Option<DecodeError>
    decreases fs, n,
{
    if n == 0 || n > fs.len() {
        None
    } else {
        match fields_error(fs, size, (n - 1) as nat) {
            Some(x) => Some(x),
            None => {
                let f = fs[n - 1];
                match layout_error(f.ty) {
                    Some(x) => Some(x),
                    None => if f.offset + byte_size(f.ty) > size {
                        Some(DecodeError::SizeMismatch)
                    } else if exists|k: int| 0 <= k < n - 1 && fs[k].name@ == f.name@ {
                        Some(DecodeError::DuplicateFieldName)
                    } else {
                        None
                    },
                }
            },
        }
    }
}

/// A machine word takes four or eight bytes.
pub proof fn lemma_word_width()
    ensures
        word_width() == 4 || word_width() == 8,
{
    broadcast use vstd::layout::layout_of_primitives;

    assert(usize::BITS == 32 || usize::BITS == 64);
}

/// The width of a machine word.
pub fn word_bytes() -> (r: usize)
    ensures
        r as nat == word_width(),
        r == 4 || r == 8,
{
    proof {
        lemma_word_width();
    }
    core::mem::size_of::<usize>()
}

impl IntWidth {
    /// The number of bytes of an integer of this width.
    pub fn bytes(&self) -> (r: usize)
        ensures
            r as nat == int_width(*self),
    {
        match self {
            IntWidth::W1 => 1,
            IntWidth::W2 => 2,
            IntWidth::W4 => 4,
            IntWidth::W8 => 8,
        }
    }
}

impl FloatWidth {
    /// The number of bytes of a floating-point number of this width.
    pub fn bytes(&self) -> (r: usize)
        ensures
            r as nat == float_width(*self),
    {
        match self {
            FloatWidth::W4 => 4,
            FloatWidth::W8 => 8,
        }
    }
}

impl TypeDesc {
    /// Whether arrays and compounds nest at most `k` levels deep.
    pub fn fits_depth(&self, k: usize) -> (r: bool)
        ensures
            r == within_depth(*self, k as nat),
        decreases k,
    {
        match self {
            TypeDesc::FixedArray(e, _) => {
                if k == 0 {
                    return false;
                }
                let r = e.fits_depth(k - 1);
                assert(within_depth(*self, k as nat) == within_depth(**e, (k - 1) as nat));
                r
            },
            TypeDesc::VarLenArray(e) => {
                if k == 0 {
                    return false;
                }
                let r = e.fits_depth(k - 1);
                assert(within_depth(*self, k as nat) == within_depth(**e, (k - 1) as nat));
                r
            },
            TypeDesc::Compound(size, fs) => {
                if k == 0 {
                    return false;
                }
                let ghost m = (k - 1) as nat;
                let mut i: usize = 0;
                while i < fs.len()
                    invariant
                        i <= fs@.len(),
                        fields_within(fs@, i as nat, m),
                        *self == TypeDesc::Compound(*size, *fs),
                        k > 0,
                        m == k - 1,
                    decreases fs@.len() - i,
                {
                    if !fs[i].ty.fits_depth(k - 1) {
                        proof {
                            lemma_fields_within_prefix(fs@, (i + 1) as nat, fs@.len(), m);
                        }
                        return false;
                    }
                    i = i + 1;
                }
                true
            },
            _ => true,
        }
    }

    /// The number of bytes a value of this type takes.
    pub fn byte_size(&self) -> (r: usize)
        requires
            layout_error(*self) is None,
        ensures
            r as nat == byte_size(*self),
        decreases self,
    {
        proof {
            lemma_word_width();
        }
        match self {
            TypeDesc::Integer(w) => w.bytes(),
            TypeDesc::Unsigned(w) => w.bytes(),
            TypeDesc::Float(w) => w.bytes(),
            TypeDesc::Boolean => 1,
            TypeDesc::Enum(w, _) => w.bytes(),
            TypeDesc::FixedString(n, _) => *n,
            TypeDesc::VarLenString(_) => word_bytes(),
            TypeDesc::FixedArray(e, n) => {
                let es = e.byte_size();
                *n * es
            },
            TypeDesc::VarLenArray(_) => 2 * word_bytes(),
            TypeDesc::Compound(size, _) => *size,
        }
    }

    /// The number of bytes a value of this type takes, or `None` where that
    /// number does not fit in a `usize`.
    pub fn checked_size(&self) -> (r: Option<usize>)
        ensures
            match r {
                Some(n) => n as nat == byte_size(*self),
                None => byte_size(*self) > usize::MAX,
            },
        decreases self,
    {
        proof {
            lemma_word_width();
        }
        match self {
            TypeDesc::Integer(w) => Some(w.bytes()),
            TypeDesc::Unsigned(w) => Some(w.bytes()),
            TypeDesc::Float(w) => Some(w.bytes()),
            TypeDesc::Boolean => Some(1),
            TypeDesc::Enum(w, _) => Some(w.bytes()),
            TypeDesc::FixedString(n, _) => Some(*n),
            TypeDesc::VarLenString(_) => Some(word_bytes()),
            TypeDesc::FixedArray(e, n) => {
                if *n == 0 {
                    return Some(0);
                }
                match e.checked_size() {
                    None => {
                        proof {
                            assert(*n as nat * byte_size(**e) >= byte_size(**e)) by (nonlinear_arith)
                                requires
                                    *n >= 1,
                            ;
                        }
                        None
                    },
                    Some(es) => {
                        if es > 0 && *n > usize::MAX / es {
                            proof {
                                assert(*n as nat * es as nat > usize::MAX) by (nonlinear_arith)
                                    requires
                                        es > 0,
                                        *n > usize::MAX / es,
                                ;
                            }
                            None
                        } else {
                            proof {
                                assert(*n as nat * es as nat <= usize::MAX) by (nonlinear_arith)
                                    requires
                                        es == 0 || *n <= usize::MAX / es,
                                ;
                            }
                            Some(*n * es)
                        }
                    },
                }
            },
            TypeDesc::VarLenArray(_) => Some(2 * word_bytes()),
            TypeDesc::Compound(size, _) => Some(*size),
        }
    }

    /// The first fault of this layout, in declaration order, if it has one.
    pub fn layout_error(&self) -> (r: Option<DecodeError>)
        ensures
            r == layout_error(*self),
        decreases self, 0nat,
    {
        match self {
            TypeDesc::FixedArray(e, n) => match e.layout_error() {
                Some(x) => Some(x),
                None => {
                    let es = e.byte_size();
                    if es > 0 && *n > usize::MAX / es {
                        proof {
                            assert(*n as nat * es as nat > usize::MAX) by (nonlinear_arith)
                                requires
                                    es > 0,
                                    *n > usize::MAX / es,
                            ;
                        }
                        Some(DecodeError::SizeOverflow)
                    } else {
                        proof {
                            assert(*n as nat * es as nat <= usize::MAX) by (nonlinear_arith)
                                requires
                                    es == 0 || *n <= usize::MAX / es,
                            ;
                        }
                        None
                    }
                },
            },
            TypeDesc::VarLenArray(e) => match e.layout_error() {
                Some(x) => Some(x),
                None => if e.byte_size() == 0 {
                    Some(DecodeError::ZeroSizedElement)
                } else {
                    None
                },
            },
            TypeDesc::Compound(size, fs) => fields_layout_error(fs, *size),
            _ => None,
        }
    }
}

/// The first fault among the fields of a compound of `size` bytes.
fn fields_layout_error(fs: &Vec<Field>, size: usize) -> (r: Option<DecodeError>)
    ensures
        r == fields_error(fs@, size as nat, fs@.len()),
    decreases fs@, 0nat,
{
    let mut i: usize = 0;
    while i < fs.len()
        invariant
            i <= fs@.len(),
            fields_error(fs@, size as nat, i as nat) is None,
        decreases fs@.len() - i,
    {
        let f = &fs[i];
        assert(decreases_to!(fs@ => fs@[i as int].ty));
        match f.ty.layout_error() {
            Some(x) => {
                proof {
                    lemma_fields_error_stays(fs@, size as nat, (i + 1) as nat, fs@.len());
                }
                return Some(x);
            },
            None => {},
        }
        let fsz = f.ty.byte_size();
        if f.offset > size || fsz > size - f.offset {
            proof {
                lemma_fields_error_stays(fs@, size as nat, (i + 1) as nat, fs@.len());
            }
            return Some(DecodeError::SizeMismatch);
        }
        let mut j: usize = 0;
        while j < i
            invariant
                i < fs@.len(),
                j <= i,
                f == fs@[i as int],
                fields_error(fs@, size as nat, i as nat) is None,
                layout_error(f.ty) is None,
                f.offset + byte_size(f.ty) <= size,
                forall|k: int| 0 <= k < j ==> fs@[k].name@ != f.name@,
            decreases i - j,
        {
            if fs[j].name == f.name {
                proof {
                    lemma_fields_error_stays(fs@, size as nat, (i + 1) as nat, fs@.len());
                }
                return Some(DecodeError::DuplicateFieldName);
            }
            j = j + 1;
        }
        i = i + 1;
    }
    None
}

/// Depth fails for a prefix of the fields only if it fails for a longer one.
proof fn lemma_fields_within_prefix(fs: Seq<Field>, n: nat, m: nat, k: nat)
    requires
        n <= m <= fs.len(),
        !fields_within(fs, n, k),
    ensures
        !fields_within(fs, m, k),
    decreases m - n,
{
    if n < m {
        lemma_fields_within_prefix(fs, n, (m - 1) as nat, k);
    }
}

/// A fault found among the first `n` fields is the fault of the first `m >= n`.
proof fn lemma_fields_error_stays(fs: Seq<Field>, size: nat, n: nat, m: nat)
    requires
        0 < n <= m <= fs.len(),
        fields_error(fs, size, n) is Some,
    ensures
        fields_error(fs, size, m) == fields_error(fs, size, n),
    decreases m - n,
{
    if n < m {
        lemma_fields_error_stays(fs, size, n, (m - 1) as nat);
    }
}

} // verus!
