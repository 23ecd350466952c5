use nu_plugin_hdf5::{
    build_dataset, build_group, leaf_name, strip_name, ByteOrder, DatasetNode, DecodeError, Entry,
    FloatWidth, GroupNode, IntWidth, StrEncoding, TypeDesc, Value, VarLenSource, MAX_DEPTH,
};

struct NoHeap;

impl VarLenSource for NoHeap {
    fn resolve_array(&self, _record: &[u8], _element_size: usize) -> Option<Vec<u8>> {
        None
    }

    fn resolve_string(&self, _record: &[u8], _encoding: StrEncoding) -> Option<String> {
        None
    }
}

fn dataset(name: &str, dtype: TypeDesc, count: usize, data: Vec<u8>) -> DatasetNode {
    DatasetNode { name: name.to_string(), dtype, count, data }
}

fn group(name: &str, datasets: Vec<DatasetNode>, groups: Vec<GroupNode>) -> GroupNode {
    GroupNode { name: name.to_string(), datasets, groups }
}

fn entry(name: &str, value: Value) -> Entry {
    Entry { name: name.to_string(), value }
}

#[test]
fn strip_name_removes_one_leading_separator() {
    assert_eq!(strip_name("/x".to_string()), "x");
    assert_eq!(strip_name("x".to_string()), "x");
    assert_eq!(strip_name("//x".to_string()), "/x");
    assert_eq!(strip_name("/".to_string()), "");
    assert_eq!(strip_name("".to_string()), "");
    assert_eq!(strip_name("/é/ü".to_string()), "é/ü");
}

#[test]
fn leaf_name_is_the_last_component() {
    assert_eq!(leaf_name(&"/g/y".to_string()), "y");
    assert_eq!(leaf_name(&"/x".to_string()), "x");
    assert_eq!(leaf_name(&"x".to_string()), "x");
    assert_eq!(leaf_name(&"/".to_string()), "");
    assert_eq!(leaf_name(&"".to_string()), "");
    assert_eq!(leaf_name(&"/a/b/".to_string()), "");
    assert_eq!(leaf_name(&"/é/ü".to_string()), "ü");
}

#[test]
fn deeply_nested_children_are_named_by_leaf() {
    let inner = group(
        "/a/b",
        vec![dataset("/a/b/c", TypeDesc::Boolean, 1, vec![0])],
        vec![group("/a/b/d", vec![], vec![])],
    );
    let g = group("/a", vec![], vec![inner]);
    let expected = Value::Record(vec![entry(
        "b",
        Value::Record(vec![
            entry("c", Value::List(vec![Value::Bool(false)])),
            entry("d", Value::Record(vec![])),
        ]),
    )]);
    assert_eq!(build_group(&g, ByteOrder::Little, &NoHeap), Ok(expected));
}

#[test]
fn nested_group_puts_datasets_first() {
    let mut x = Vec::new();
    for v in [10u64, 20, 30] {
        x.extend_from_slice(&v.to_le_bytes());
    }
    let y = 3.14f64.to_le_bytes().to_vec();
    let g = group(
        "/",
        vec![dataset("/x", TypeDesc::Unsigned(IntWidth::W8), 3, x)],
        vec![group("/g", vec![dataset("/g/y", TypeDesc::Float(FloatWidth::W8), 1, y)], vec![])],
    );
    let expected = Value::Record(vec![
        entry("x", Value::List(vec![Value::UInt(10), Value::UInt(20), Value::UInt(30)])),
        entry("g", Value::Record(vec![entry("y", Value::List(vec![Value::Float64(3.14f64.to_bits())]))])),
    ]);
    assert_eq!(build_group(&g, ByteOrder::Little, &NoHeap), Ok(expected));
}

#[test]
fn datasets_precede_subgroups_whatever_their_names() {
    let g = group(
        "/",
        vec![dataset("/z", TypeDesc::Boolean, 1, vec![1])],
        vec![group("/a", vec![], vec![])],
    );
    let expected = Value::Record(vec![
        entry("z", Value::List(vec![Value::Bool(true)])),
        entry("a", Value::Record(vec![])),
    ]);
    assert_eq!(build_group(&g, ByteOrder::Little, &NoHeap), Ok(expected));
}

#[test]
fn empty_group_is_empty_record() {
    let g = group("/", vec![], vec![]);
    assert_eq!(build_group(&g, ByteOrder::Little, &NoHeap), Ok(Value::Record(vec![])));
}

#[test]
fn dataset_with_wrong_byte_count_is_size_mismatch() {
    let d = dataset("/d", TypeDesc::Unsigned(IntWidth::W2), 3, vec![0; 5]);
    assert_eq!(build_dataset(&d, ByteOrder::Little, &NoHeap), Err(DecodeError::SizeMismatch));
    let g = group("/", vec![d], vec![]);
    assert_eq!(build_group(&g, ByteOrder::Little, &NoHeap), Err(DecodeError::SizeMismatch));
}

#[test]
fn dataset_elements_in_order() {
    let d = dataset("/d", TypeDesc::Integer(IntWidth::W2), 2, vec![0xff, 0xff, 7, 0]);
    assert_eq!(
        build_dataset(&d, ByteOrder::Little, &NoHeap),
        Ok(Value::List(vec![Value::Int(-1), Value::Int(7)]))
    );
}

#[test]
fn clashing_child_names_are_rejected() {
    let g = group(
        "/",
        vec![dataset("/a", TypeDesc::Boolean, 1, vec![0])],
        vec![group("a", vec![], vec![])],
    );
    assert_eq!(build_group(&g, ByteOrder::Little, &NoHeap), Err(DecodeError::DuplicateFieldName));
}

#[test]
fn group_nesting_limit() {
    let mut g = group("/leaf", vec![], vec![]);
    for i in 1..MAX_DEPTH {
        g = group(&format!("/g{}", i), vec![], vec![g]);
    }
    assert!(build_group(&g, ByteOrder::Little, &NoHeap).is_ok());
    let deeper = group("/top", vec![], vec![g]);
    assert_eq!(build_group(&deeper, ByteOrder::Little, &NoHeap), Err(DecodeError::SchemaTooDeep));
}

#[test]
fn engine_failure_in_a_subgroup_fails_the_build() {
    let record = vec![0u8; std::mem::size_of::<usize>()];
    let sub = group("/s", vec![dataset("/t", TypeDesc::VarLenString(StrEncoding::Ascii), 1, record)], vec![]);
    let g = group("/", vec![], vec![sub]);
    assert_eq!(build_group(&g, ByteOrder::Little, &NoHeap), Err(DecodeError::EngineError));
}
