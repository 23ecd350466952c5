use nu_plugin_hdf5::desc::word_bytes;
use nu_plugin_hdf5::{
    decode, decode_run, ByteOrder, DecodeError, Entry, Field, FloatWidth, IntWidth,
    StrEncoding, TypeDesc, Value, VarLenSource, MAX_DEPTH,
};

/// Storage for variable-length records: a record's first byte picks an entry.
struct Heap {
    arrays: Vec<Vec<u8>>,
    texts: Vec<String>,
}

impl VarLenSource for Heap {
    fn resolve_array(&self, record: &[u8], _element_size: usize) -> Option<Vec<u8>> {
        self.arrays.get(record[0] as usize).cloned()
    }

    fn resolve_string(&self, record: &[u8], _encoding: StrEncoding) -> Option<String> {
        self.texts.get(record[0] as usize).cloned()
    }
}

fn no_heap() -> Heap {
    Heap { arrays: vec![], texts: vec![] }
}

fn le(bytes: &[u8], t: &TypeDesc) -> Result<Value, DecodeError> {
    decode(bytes, t, ByteOrder::Little, &no_heap())
}

fn field(name: &str, offset: usize, ty: TypeDesc) -> Field {
    Field { name: name.to_string(), offset, ty }
}

fn word() -> usize {
    std::mem::size_of::<usize>()
}

#[test]
fn signed_integers_of_each_width() {
    assert_eq!(le(&[0xfe], &TypeDesc::Integer(IntWidth::W1)), Ok(Value::Int(-2)));
    assert_eq!(le(&(-300i16).to_le_bytes(), &TypeDesc::Integer(IntWidth::W2)), Ok(Value::Int(-300)));
    assert_eq!(le(&(-70000i32).to_le_bytes(), &TypeDesc::Integer(IntWidth::W4)), Ok(Value::Int(-70000)));
    assert_eq!(le(&i64::MIN.to_le_bytes(), &TypeDesc::Integer(IntWidth::W8)), Ok(Value::Int(i64::MIN)));
    assert_eq!(le(&0x7fu8.to_le_bytes(), &TypeDesc::Integer(IntWidth::W1)), Ok(Value::Int(127)));
}

#[test]
fn unsigned_integers_of_each_width() {
    assert_eq!(le(&[0xfe], &TypeDesc::Unsigned(IntWidth::W1)), Ok(Value::UInt(254)));
    assert_eq!(le(&[0x34, 0x12], &TypeDesc::Unsigned(IntWidth::W2)), Ok(Value::UInt(0x1234)));
    assert_eq!(le(&[1, 2, 3, 4], &TypeDesc::Unsigned(IntWidth::W4)), Ok(Value::UInt(0x04030201)));
    assert_eq!(le(&u64::MAX.to_le_bytes(), &TypeDesc::Unsigned(IntWidth::W8)), Ok(Value::UInt(u64::MAX)));
}

#[test]
fn big_endian_windows() {
    let t = TypeDesc::Unsigned(IntWidth::W4);
    assert_eq!(decode(&[1, 2, 3, 4], &t, ByteOrder::Big, &no_heap()), Ok(Value::UInt(0x01020304)));
    let s = TypeDesc::Integer(IntWidth::W2);
    assert_eq!(decode(&[0xff, 0xfe], &s, ByteOrder::Big, &no_heap()), Ok(Value::Int(-2)));
}

#[test]
fn native_order_matches_std() {
    let order = if u16::from_ne_bytes([1, 0]) == 1 { ByteOrder::Little } else { ByteOrder::Big };
    let bytes = 0xdead_beef_u32.to_ne_bytes();
    let t = TypeDesc::Unsigned(IntWidth::W4);
    assert_eq!(decode(&bytes, &t, order, &no_heap()), Ok(Value::UInt(0xdead_beef)));
}

#[test]
fn floats_keep_their_bits() {
    assert_eq!(
        le(&1.5f32.to_le_bytes(), &TypeDesc::Float(FloatWidth::W4)),
        Ok(Value::Float32(1.5f32.to_bits()))
    );
    assert_eq!(
        le(&(-2.25f64).to_le_bytes(), &TypeDesc::Float(FloatWidth::W8)),
        Ok(Value::Float64((-2.25f64).to_bits()))
    );
}

#[test]
fn booleans() {
    assert_eq!(le(&[0], &TypeDesc::Boolean), Ok(Value::Bool(false)));
    assert_eq!(le(&[1], &TypeDesc::Boolean), Ok(Value::Bool(true)));
}

#[test]
fn wrong_window_length_is_size_mismatch() {
    assert_eq!(le(&[1, 2, 3], &TypeDesc::Unsigned(IntWidth::W4)), Err(DecodeError::SizeMismatch));
    assert_eq!(le(&[], &TypeDesc::Boolean), Err(DecodeError::SizeMismatch));
    assert_eq!(le(&[0; 9], &TypeDesc::Float(FloatWidth::W8)), Err(DecodeError::SizeMismatch));
    let arr = TypeDesc::FixedArray(Box::new(TypeDesc::Unsigned(IntWidth::W2)), 3);
    assert_eq!(le(&[0; 5], &arr), Err(DecodeError::SizeMismatch));
    let comp = TypeDesc::Compound(4, vec![field("a", 0, TypeDesc::Unsigned(IntWidth::W4))]);
    assert_eq!(le(&[0; 8], &comp), Err(DecodeError::SizeMismatch));
    assert_eq!(le(&[0; 2], &TypeDesc::FixedString(3, StrEncoding::Ascii)), Err(DecodeError::SizeMismatch));
}

#[test]
fn compound_keeps_declared_field_order() {
    let t = TypeDesc::Compound(
        12,
        vec![
            field("a", 0, TypeDesc::Unsigned(IntWidth::W4)),
            field("b", 4, TypeDesc::Float(FloatWidth::W8)),
        ],
    );
    let mut bytes = 7u32.to_le_bytes().to_vec();
    bytes.extend_from_slice(&3.5f64.to_le_bytes());
    let expected = Value::Record(vec![
        Entry { name: "a".to_string(), value: Value::UInt(7) },
        Entry { name: "b".to_string(), value: Value::Float64(3.5f64.to_bits()) },
    ]);
    assert_eq!(le(&bytes, &t), Ok(expected));
}

#[test]
fn compound_fields_may_leave_padding() {
    let t = TypeDesc::Compound(
        8,
        vec![
            field("y", 4, TypeDesc::Unsigned(IntWidth::W2)),
            field("x", 0, TypeDesc::Unsigned(IntWidth::W1)),
        ],
    );
    let expected = Value::Record(vec![
        Entry { name: "y".to_string(), value: Value::UInt(0x0605) },
        Entry { name: "x".to_string(), value: Value::UInt(1) },
    ]);
    assert_eq!(le(&[1, 2, 3, 4, 5, 6, 7, 8], &t), Ok(expected));
}

#[test]
fn fixed_array_keeps_buffer_order() {
    let t = TypeDesc::FixedArray(Box::new(TypeDesc::Unsigned(IntWidth::W1)), 4);
    let expected = Value::List(vec![Value::UInt(1), Value::UInt(2), Value::UInt(3), Value::UInt(4)]);
    assert_eq!(le(&[1, 2, 3, 4], &t), Ok(expected));
}

#[test]
fn empty_fixed_array() {
    let t = TypeDesc::FixedArray(Box::new(TypeDesc::Unsigned(IntWidth::W8)), 0);
    assert_eq!(le(&[], &t), Ok(Value::List(vec![])));
}

#[test]
fn enum_decodes_as_its_integer() {
    let bytes = 500u16.to_le_bytes();
    let as_enum = le(&bytes, &TypeDesc::Enum(IntWidth::W2, false));
    assert_eq!(as_enum, Ok(Value::UInt(500)));
    assert_eq!(as_enum, le(&bytes, &TypeDesc::Unsigned(IntWidth::W2)));
    let signed = (-5i16).to_le_bytes();
    assert_eq!(le(&signed, &TypeDesc::Enum(IntWidth::W2, true)), Ok(Value::Int(-5)));
}

#[test]
fn decoding_twice_gives_equal_trees() {
    let t = TypeDesc::Compound(
        6,
        vec![
            field("n", 0, TypeDesc::Integer(IntWidth::W4)),
            field("s", 4, TypeDesc::FixedString(2, StrEncoding::Ascii)),
        ],
    );
    let bytes = [9, 0, 0, 0, b'h', b'i'];
    let first = le(&bytes, &t);
    assert!(first.is_ok());
    assert_eq!(first, le(&bytes, &t));
}

#[test]
fn fixed_strings_decode_lossily() {
    let t = TypeDesc::FixedString(3, StrEncoding::Ascii);
    assert_eq!(le(b"abc", &t), Ok(Value::Str("abc".to_string())));
    let u = TypeDesc::FixedString(3, StrEncoding::Unicode);
    assert_eq!(le(&[b'a', 0xff, b'b'], &u), Ok(Value::Str("a\u{fffd}b".to_string())));
    let padded = TypeDesc::FixedString(4, StrEncoding::Ascii);
    assert_eq!(le(&[b'o', b'k', 0, 0], &padded), Ok(Value::Str("ok\0\0".to_string())));
}

#[test]
fn varlen_string_is_resolved_by_the_engine() {
    let heap = Heap { arrays: vec![], texts: vec!["zero".to_string(), "one".to_string()] };
    let mut record = vec![0u8; word()];
    record[0] = 1;
    let t = TypeDesc::VarLenString(StrEncoding::Unicode);
    assert_eq!(decode(&record, &t, ByteOrder::Little, &heap), Ok(Value::Str("one".to_string())));
}

#[test]
fn varlen_array_is_resolved_by_the_engine() {
    let heap = Heap { arrays: vec![vec![1, 0, 2, 0, 3, 0]], texts: vec![] };
    let record = vec![0u8; 2 * word()];
    let t = TypeDesc::VarLenArray(Box::new(TypeDesc::Unsigned(IntWidth::W2)));
    let expected = Value::List(vec![Value::UInt(1), Value::UInt(2), Value::UInt(3)]);
    assert_eq!(decode(&record, &t, ByteOrder::Little, &heap), Ok(expected));
}

#[test]
fn unresolvable_record_is_engine_error() {
    let mut record = vec![0u8; word()];
    record[0] = 5;
    let t = TypeDesc::VarLenString(StrEncoding::Ascii);
    assert_eq!(le(&record, &t), Err(DecodeError::EngineError));
    let arr = TypeDesc::VarLenArray(Box::new(TypeDesc::Boolean));
    assert_eq!(le(&vec![0u8; 2 * word()], &arr), Err(DecodeError::EngineError));
}

#[test]
fn varlen_run_of_partial_element_is_size_mismatch() {
    let heap = Heap { arrays: vec![vec![1, 2, 3]], texts: vec![] };
    let t = TypeDesc::VarLenArray(Box::new(TypeDesc::Unsigned(IntWidth::W2)));
    assert_eq!(
        decode(&vec![0u8; 2 * word()], &t, ByteOrder::Little, &heap),
        Err(DecodeError::SizeMismatch)
    );
}

#[test]
fn varlen_record_of_wrong_width_is_size_mismatch() {
    let t = TypeDesc::VarLenString(StrEncoding::Ascii);
    assert_eq!(le(&[0u8; 3], &t), Err(DecodeError::SizeMismatch));
}

#[test]
fn decode_run_splits_payload() {
    let e = TypeDesc::Integer(IntWidth::W2);
    assert_eq!(
        decode_run(&[0xff, 0xff, 2, 0], &e, ByteOrder::Little, &no_heap()),
        Ok(vec![Value::Int(-1), Value::Int(2)])
    );
    assert_eq!(decode_run(&[], &e, ByteOrder::Little, &no_heap()), Ok(vec![]));
    assert_eq!(
        decode_run(&[1, 2, 3], &e, ByteOrder::Little, &no_heap()),
        Err(DecodeError::SizeMismatch)
    );
}

#[test]
fn field_past_the_end_is_size_mismatch() {
    let t = TypeDesc::Compound(4, vec![field("a", 2, TypeDesc::Unsigned(IntWidth::W4))]);
    assert_eq!(le(&[0; 4], &t), Err(DecodeError::SizeMismatch));
}

#[test]
fn wrong_length_comes_before_faults_of_the_type() {
    let overrun = TypeDesc::Compound(4, vec![field("a", 2, TypeDesc::Unsigned(IntWidth::W4))]);
    assert_eq!(le(&[0; 3], &overrun), Err(DecodeError::SizeMismatch));
    let dup = TypeDesc::Compound(
        2,
        vec![
            field("a", 0, TypeDesc::Unsigned(IntWidth::W1)),
            field("a", 1, TypeDesc::Unsigned(IntWidth::W1)),
        ],
    );
    assert_eq!(le(&[0; 3], &dup), Err(DecodeError::SizeMismatch));
    let mut deep = TypeDesc::Boolean;
    for _ in 0..=MAX_DEPTH {
        deep = TypeDesc::FixedArray(Box::new(deep), 1);
    }
    assert_eq!(le(&[1, 1], &deep), Err(DecodeError::SizeMismatch));
}

#[test]
fn duplicate_field_names_are_rejected() {
    let t = TypeDesc::Compound(
        2,
        vec![
            field("a", 0, TypeDesc::Unsigned(IntWidth::W1)),
            field("a", 1, TypeDesc::Unsigned(IntWidth::W1)),
        ],
    );
    assert_eq!(le(&[0; 2], &t), Err(DecodeError::DuplicateFieldName));
}

#[test]
fn oversized_array_cannot_match_any_window() {
    let t = TypeDesc::FixedArray(Box::new(TypeDesc::Unsigned(IntWidth::W8)), usize::MAX / 4);
    assert_eq!(le(&[], &t), Err(DecodeError::SizeMismatch));
}

#[test]
fn oversized_element_of_empty_array_is_size_overflow() {
    let huge = TypeDesc::FixedArray(Box::new(TypeDesc::Unsigned(IntWidth::W8)), usize::MAX / 4);
    let t = TypeDesc::FixedArray(Box::new(huge), 0);
    assert_eq!(le(&[], &t), Err(DecodeError::SizeOverflow));
}

#[test]
fn varlen_of_empty_elements_is_rejected() {
    let empty = TypeDesc::Compound(0, vec![]);
    let t = TypeDesc::VarLenArray(Box::new(empty));
    assert_eq!(le(&vec![0u8; 2 * word()], &t), Err(DecodeError::ZeroSizedElement));
}

#[test]
fn nesting_limit() {
    let mut t = TypeDesc::Boolean;
    for _ in 0..MAX_DEPTH {
        t = TypeDesc::FixedArray(Box::new(t), 1);
    }
    assert_eq!(le(&[1], &t), Ok(nested(Value::Bool(true), MAX_DEPTH)));
    let deeper = TypeDesc::FixedArray(Box::new(t), 1);
    assert_eq!(le(&[1], &deeper), Err(DecodeError::SchemaTooDeep));
}

fn nested(mut v: Value, levels: usize) -> Value {
    for _ in 0..levels {
        v = Value::List(vec![v]);
    }
    v
}

#[test]
fn byte_sizes_of_descriptors() {
    assert_eq!(word_bytes(), std::mem::size_of::<usize>());
    assert_eq!(IntWidth::W4.bytes(), 4);
    assert_eq!(FloatWidth::W8.bytes(), 8);
    assert_eq!(TypeDesc::Boolean.byte_size(), 1);
    assert_eq!(TypeDesc::Enum(IntWidth::W2, true).byte_size(), 2);
    assert_eq!(TypeDesc::FixedString(7, StrEncoding::Unicode).byte_size(), 7);
    assert_eq!(TypeDesc::VarLenString(StrEncoding::Ascii).byte_size(), word());
    let arr = TypeDesc::FixedArray(Box::new(TypeDesc::Integer(IntWidth::W4)), 3);
    assert_eq!(arr.byte_size(), 12);
    let vl = TypeDesc::VarLenArray(Box::new(TypeDesc::Boolean));
    assert_eq!(vl.byte_size(), 2 * word());
    assert_eq!(TypeDesc::Compound(24, vec![]).byte_size(), 24);
    assert_eq!(arr.checked_size(), Some(12));
    let huge = TypeDesc::FixedArray(Box::new(TypeDesc::Unsigned(IntWidth::W8)), usize::MAX / 4);
    assert_eq!(huge.checked_size(), None);
    assert_eq!(TypeDesc::FixedArray(Box::new(huge), 0).checked_size(), Some(0));
}

#[test]
fn layout_faults_come_in_declaration_order() {
    let t = TypeDesc::Compound(
        4,
        vec![
            field("a", 3, TypeDesc::Unsigned(IntWidth::W2)),
            field("a", 0, TypeDesc::Unsigned(IntWidth::W1)),
        ],
    );
    assert_eq!(t.layout_error(), Some(DecodeError::SizeMismatch));
    let u = TypeDesc::Compound(
        4,
        vec![
            field("a", 0, TypeDesc::Unsigned(IntWidth::W1)),
            field("a", 1, TypeDesc::Unsigned(IntWidth::W1)),
            field("b", 3, TypeDesc::Unsigned(IntWidth::W2)),
        ],
    );
    assert_eq!(u.layout_error(), Some(DecodeError::DuplicateFieldName));
    assert_eq!(TypeDesc::Boolean.layout_error(), None);
}

#[test]
fn depth_of_descriptors() {
    let flat = TypeDesc::Integer(IntWidth::W8);
    assert!(flat.fits_depth(0));
    let one = TypeDesc::Compound(8, vec![field("v", 0, flat)]);
    assert!(!one.fits_depth(0));
    assert!(one.fits_depth(1));
    let two = TypeDesc::FixedArray(Box::new(one), 2);
    assert!(!two.fits_depth(1));
    assert!(two.fits_depth(2));
}
