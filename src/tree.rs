//! Building the value tree of a hierarchical container.
use vstd::prelude::*;
use vstd::string::{StrSliceExecFns, StringExecFns};

use crate::bytes::ByteOrder;
use crate::decode::{
    decode_elements, entry_trees, has_indirection, outer_fault, run_decodes, trees, type_fault,
    VarLenSource,
};
use crate::desc::{byte_size, TypeDesc, MAX_DEPTH};
use crate::value::{DecodeError, Entry, Tree, Value};

verus! {

/// A dataset as the container engine hands it out: its name, the type of its
/// elements, how many elements it has, and their bytes one after another.
#[derive(Debug)]
pub struct DatasetNode {
    pub name: String,
    pub dtype: TypeDesc,
    pub count: usize,
    pub data: Vec<u8>,
}

/// A group as the container engine hands it out: its name, its datasets and
/// its subgroups, each in the engine's order.
#[derive(Debug)]
pub struct GroupNode {
    pub name: String,
    pub datasets: Vec<DatasetNode>,
    pub groups: Vec<GroupNode>,
}

/// A path name without its leading separator.
pub open spec fn stripped(s: Seq<char>) -> Seq<char> {
    if s.len() > 0 && s[0] == '/' {
        s.drop_first()
    } else {
        s
    }
}

/// Removes one leading `/` from `name`, if it has one.
pub fn strip_name(name: String) -> (r: String)
    ensures
        r@ == stripped(name@),
{
    let n = name.as_str().unicode_len();
    if n > 0 && name.as_str().get_char(0) == '/' {
        let rest = name.as_str().substring_char(1, n);
        assert(rest@ =~= name@.drop_first());
        String::from_str(rest)
    } else {
        name
    }
}

/// The last component of a path: the text after its last `/`, or all of it
/// where it has none.
pub open spec fn leaf(s: Seq<char>) -> Seq<char>
    decreases s.len(),
{
    if s.len() == 0 {
        s
    } else if s.last() == '/' {
        Seq::empty()
    } else {
        leaf(s.drop_last()).push(s.last())
    }
}

/// The last component of the path `name`.
pub fn leaf_name(name: &String) -> (r: String)
    ensures
        r@ == leaf(name@),
{
    let s = name.as_str();
    let n = s.unicode_len();
    let mut i: usize = n;
    assert(name@.subrange(0, n as int) =~= name@);
    assert(name@.subrange(n as int, n as int) =~= Seq::<char>::empty());
    loop
        invariant
            i <= n,
            n == name@.len(),
            s@ == name@,
            leaf(name@) == leaf(name@.subrange(0, i as int)) + name@.subrange(i as int, n as int),
        ensures
            i <= n,
            leaf(name@.subrange(0, i as int)) == Seq::<char>::empty(),
            leaf(name@) == leaf(name@.subrange(0, i as int)) + name@.subrange(i as int, n as int),
        decreases i,
    {
        if i == 0 {
            assert(name@.subrange(0, 0) =~= Seq::<char>::empty());
            break;
        }
        let c = s.get_char(i - 1);
        let ghost t = name@.subrange(0, i as int);
        assert(t.last() == c);
        if c == '/' {
            break;
        }
        proof {
            let u = name@.subrange(0, i - 1);
            assert(t.drop_last() =~= u);
            assert(leaf(t) == leaf(u).push(c));
            assert(leaf(u).push(c) + name@.subrange(i as int, n as int) =~= leaf(u) + name@.subrange(
                i - 1,
                n as int,
            ));
        }
        i = i - 1;
    }
    let rest = s.substring_char(i, n);
    assert(rest@ =~= leaf(name@));
    String::from_str(rest)
}

/// Why dataset `d` cannot be decoded whatever the engine does, if there is a
/// reason: a fault of its type, or bytes that are not `count` elements.
pub open spec fn dataset_fault(d: DatasetNode) -> Option<DecodeError> {
    match type_fault(d.dtype) {
        Some(e) => Some(e),
        None => if d.data@.len() != d.count * byte_size(d.dtype) {
            Some(DecodeError::SizeMismatch)
        } else {
            None
        },
    }
}

/// Whether `v` is what dataset `d` holds: the list of its elements in order.
pub open spec fn dataset_decodes(d: DatasetNode, o: ByteOrder, v: Tree) -> bool {
    &&& v is List
    &&& v->List_0.len() == d.count
    &&& run_decodes(d.data@, d.dtype, o, v->List_0)
}

/// Decodes the elements of dataset `d` into a list, in order.
pub fn build_dataset<S: VarLenSource>(d: &DatasetNode, order: ByteOrder, heap: &S) -> (r: Result<
    Value,
    DecodeError,
>)
    ensures
        dataset_fault(*d) is Some ==> r == Err::<Value, DecodeError>(dataset_fault(*d)->0),
        dataset_fault(*d) is None && !has_indirection(d.dtype) ==> r is Ok,
        r is Ok ==> dataset_decodes(*d, order, r->Ok_0@),
        r is Err && dataset_fault(*d) is None ==> has_indirection(d.dtype) && outer_fault(
            r->Err_0,
        ),
{
    if let Some(e) = dataset_check(d) {
        return Err(e);
    }
    let vals = decode_elements(d.data.as_slice(), &d.dtype, d.count, order, heap)?;
    let ghost items = vals@;
    let v = Value::List(vals);
    assert(v@->List_0 =~= trees(items));
    Ok(v)
}

/// The fault of dataset `d` that no engine can mend, if it has one.
fn dataset_check(d: &DatasetNode) -> (r: Option<DecodeError>)
    ensures
        r == dataset_fault(*d),
{
    if !d.dtype.fits_depth(MAX_DEPTH) {
        return Some(DecodeError::SchemaTooDeep);
    }
    if let Some(e) = d.dtype.layout_error() {
        return Some(e);
    }
    let s = d.dtype.byte_size();
    let len = d.data.len();
    if s > 0 && d.count > usize::MAX / s {
        proof {
            assert(d.count * s > usize::MAX) by (nonlinear_arith)
                requires
                    s > 0,
                    d.count > usize::MAX / s,
            ;
        }
        return Some(DecodeError::SizeMismatch);
    }
    proof {
        assert(d.count * s <= usize::MAX) by (nonlinear_arith)
            requires
                s == 0 || d.count <= usize::MAX / s,
        ;
    }
    if len != d.count * s {
        return Some(DecodeError::SizeMismatch);
    }
    None
}

/// The names of the fields of a group's record: the leaf names of its
/// datasets, then those of its subgroups.
pub open spec fn child_names(g: GroupNode) -> Seq<Seq<char>> {
    Seq::new(g.datasets@.len(), |i: int| leaf(g.datasets@[i].name@)) + Seq::new(
        g.groups@.len(),
        |i: int| leaf(g.groups@[i].name@),
    )
}

/// Whether no two of `s` are equal.
pub open spec fn distinct(s: Seq<Seq<char>>) -> bool {
    forall|i: int, j: int| 0 <= i < j < s.len() ==> s[i] != s[j]
}

/// The first fault among the first `n` datasets of `ds`.
pub open spec fn datasets_fault(ds: Seq<DatasetNode>, n: nat) -> Option<DecodeError>
    decreases n,
{
    if n == 0 || n > ds.len() {
        None
    } else {
        match datasets_fault(ds, (n - 1) as nat) {
            Some(e) => Some(e),
            None => dataset_fault(ds[n - 1]),
        }
    }
}

/// Why group `g` cannot be built whatever the engine does, if there is a
/// reason, with `k` levels of groups left: groups nested too deep, two
/// children with one name, or the first fault of a dataset, its own before
/// those of its subgroups.
pub open spec fn group_fault(g: GroupNode, k: nat) -> Option<DecodeError>
    decreases g, 0nat,
{
    if k == 0 {
        Some(DecodeError::SchemaTooDeep)
    } else if !distinct(child_names(g)) {
        Some(DecodeError::DuplicateFieldName)
    } else {
        match datasets_fault(g.datasets@, g.datasets@.len()) {
            Some(e) => Some(e),
            None => groups_fault(g.groups@, g.groups@.len(), (k - 1) as nat),
        }
    }
}

/// The first fault among the first `n` groups of `gs`.
pub open spec fn groups_fault(gs: Seq<GroupNode>, n: nat, k: nat) -> Option<DecodeError>
    decreases gs, n,
{
    if n == 0 || n > gs.len() {
        None
    } else {
        match groups_fault(gs, (n - 1) as nat, k) {
            Some(e) => Some(e),
            None => group_fault(gs[n - 1], k),
        }
    }
}

/// Whether no dataset anywhere under `g` has a variable-length part.
pub open spec fn group_direct(g: GroupNode) -> bool
    decreases g, 0nat,
{
    &&& forall|i: int|
        0 <= i < g.datasets@.len() ==> !has_indirection(#[trigger] g.datasets@[i].dtype)
    &&& groups_direct(g.groups@, g.groups@.len())
}

/// Whether no dataset under the first `n` groups of `gs` has a
/// variable-length part.
pub open spec fn groups_direct(gs: Seq<GroupNode>, n: nat) -> bool
    decreases gs, n,
{
    n == 0 || (n <= gs.len() && groups_direct(gs, (n - 1) as nat) && group_direct(gs[n - 1]))
}

/// Whether `v` is what group `g` holds: a record with a field for each of its
/// datasets, then one for each of its subgroups.
pub open spec fn group_decodes(g: GroupNode, o: ByteOrder, v: Tree) -> bool
    decreases g, 0nat,
{
    let nd = g.datasets@.len();
    &&& v is Record
    &&& v->Record_0.len() == nd + g.groups@.len()
    &&& forall|i: int|
        0 <= i < nd ==> #[trigger] v->Record_0[i].0 == leaf(g.datasets@[i].name@)
            && dataset_decodes(g.datasets@[i], o, v->Record_0[i].1)
    &&& groups_decode(g.groups@, o, v->Record_0.skip(nd as int))
}

/// Whether `entries` are the fields of the first groups of `gs`, one for one.
pub open spec fn groups_decode(gs: Seq<GroupNode>, o: ByteOrder, entries: Seq<(Seq<char>, Tree)>) -> bool
    decreases gs, entries.len(),
{
    if entries.len() == 0 {
        true
    } else if entries.len() > gs.len() {
        false
    } else {
        let k = entries.len() - 1;
        &&& groups_decode(gs, o, entries.drop_last())
        &&& entries[k].0 == leaf(gs[k].name@)
        &&& group_decodes(gs[k], o, entries[k].1)
    }
}

proof fn lemma_datasets_fault_stays(ds: Seq<DatasetNode>, n: nat, m: nat)
    requires
        0 < n <= m <= ds.len(),
        datasets_fault(ds, n) is Some,
    ensures
        datasets_fault(ds, m) == datasets_fault(ds, n),
    decreases m - n,
{
    if n < m {
        lemma_datasets_fault_stays(ds, n, (m - 1) as nat);
    }
}

proof fn lemma_datasets_ok(ds: Seq<DatasetNode>, n: nat, i: int)
    requires
        0 <= i < n <= ds.len(),
        datasets_fault(ds, n) is None,
    ensures
        dataset_fault(ds[i]) is None,
    decreases n,
{
    if i < n - 1 {
        lemma_datasets_ok(ds, (n - 1) as nat, i);
    }
}

proof fn lemma_groups_fault_stays(gs: Seq<GroupNode>, n: nat, m: nat, k: nat)
    requires
        0 < n <= m <= gs.len(),
        groups_fault(gs, n, k) is Some,
    ensures
        groups_fault(gs, m, k) == groups_fault(gs, n, k),
    decreases m - n,
{
    if n < m {
        lemma_groups_fault_stays(gs, n, (m - 1) as nat, k);
    }
}

proof fn lemma_groups_ok(gs: Seq<GroupNode>, n: nat, i: int, k: nat)
    requires
        0 <= i < n <= gs.len(),
        groups_fault(gs, n, k) is None,
    ensures
        group_fault(gs[i], k) is None,
    decreases n,
{
    if i < n - 1 {
        lemma_groups_ok(gs, (n - 1) as nat, i, k);
    }
}

proof fn lemma_groups_direct(gs: Seq<GroupNode>, n: nat, i: int)
    requires
        0 <= i < n <= gs.len(),
        groups_direct(gs, n),
    ensures
        group_direct(gs[i]),
    decreases n,
{
    if i < n - 1 {
        lemma_groups_direct(gs, (n - 1) as nat, i);
    }
}

/// The names of the fields of `g`'s record, in order.
fn child_names_of(g: &GroupNode) -> (r: Vec<String>)
    ensures
        r@.len() == child_names(*g).len(),
        forall|i: int| 0 <= i < r@.len() ==> #[trigger] r@[i]@ == child_names(*g)[i],
{
    let ghost names = child_names(*g);
    let ghost nd = g.datasets@.len();
    let mut r: Vec<String> = Vec::new();
    let mut i: usize = 0;
    while i < g.datasets.len()
        invariant
            names == child_names(*g),
            nd == g.datasets@.len(),
            i <= nd,
            r@.len() == i,
            forall|j: int| 0 <= j < i ==> #[trigger] r@[j]@ == names[j],
        decreases nd - i,
    {
        let name = leaf_name(&g.datasets[i].name);
        r.push(name);
        i = i + 1;
    }
    let mut i: usize = 0;
    while i < g.groups.len()
        invariant
            names == child_names(*g),
            nd == g.datasets@.len(),
            i <= g.groups@.len(),
            r@.len() == nd + i,
            forall|j: int| 0 <= j < nd + i ==> #[trigger] r@[j]@ == names[j],
        decreases g.groups@.len() - i,
    {
        let name = leaf_name(&g.groups[i].name);
        r.push(name);
        i = i + 1;
    }
    r
}

/// Whether no two of `names` are equal.
fn all_distinct(names: &Vec<String>) -> (r: bool)
    ensures
        r == (forall|i: int, j: int|
            0 <= i < j < names@.len() ==> #[trigger] names@[i]@ != #[trigger] names@[j]@),
{
    let n = names.len();
    let mut j: usize = 0;
    while j < n
        invariant
            n == names@.len(),
            j <= n,
            forall|a: int, b: int| 0 <= a < b < j ==> #[trigger] names@[a]@ != #[trigger] names@[b]@,
        decreases n - j,
    {
        let mut i: usize = 0;
        while i < j
            invariant
                n == names@.len(),
                i <= j < n,
                forall|a: int, b: int|
                    0 <= a < b < j ==> #[trigger] names@[a]@ != #[trigger] names@[b]@,
                forall|a: int| 0 <= a < i ==> #[trigger] names@[a]@ != names@[j as int]@,
            decreases j - i,
        {
            if names[i] == names[j] {
                return false;
            }
            i = i + 1;
        }
        j = j + 1;
    }
    true
}

/// The fault of group `g` that no engine can mend, with `k` levels of groups
/// left.
fn check_group(g: &GroupNode, k: usize) -> (r: Option<DecodeError>)
    ensures
        r == group_fault(*g, k as nat),
    decreases g, 0nat,
{
    if k == 0 {
        return Some(DecodeError::SchemaTooDeep);
    }
    let names = child_names_of(g);
    let unique = all_distinct(&names);
    proof {
        let cn = child_names(*g);
        if unique {
            assert forall|a: int, b: int| 0 <= a < b < cn.len() implies cn[a] != cn[b] by {
                assert(names@[a]@ == cn[a]);
                assert(names@[b]@ == cn[b]);
            }
        } else {
            assert(!distinct(cn));
        }
    }
    if !unique {
        return Some(DecodeError::DuplicateFieldName);
    }
    let mut i: usize = 0;
    while i < g.datasets.len()
        invariant
            k > 0,
            distinct(child_names(*g)),
            i <= g.datasets@.len(),
            datasets_fault(g.datasets@, i as nat) is None,
        decreases g.datasets@.len() - i,
    {
        if let Some(e) = dataset_check(&g.datasets[i]) {
            proof {
                lemma_datasets_fault_stays(g.datasets@, (i + 1) as nat, g.datasets@.len());
            }
            return Some(e);
        }
        i = i + 1;
    }
    let mut i: usize = 0;
    while i < g.groups.len()
        invariant
            k > 0,
            distinct(child_names(*g)),
            datasets_fault(g.datasets@, g.datasets@.len()) is None,
            i <= g.groups@.len(),
            groups_fault(g.groups@, i as nat, (k - 1) as nat) is None,
        decreases g.groups@.len() - i,
    {
        assert(decreases_to!(g => g.groups@[i as int]));
        if let Some(e) = check_group(&g.groups[i], k - 1) {
            proof {
                lemma_groups_fault_stays(
                    g.groups@,
                    (i + 1) as nat,
                    g.groups@.len(),
                    (k - 1) as nat,
                );
            }
            return Some(e);
        }
        i = i + 1;
    }
    None
}

/// Builds the record of group `g`, whose faults have been ruled out.
fn build_group_checked<S: VarLenSource>(g: &GroupNode, k: usize, o: ByteOrder, heap: &S) -> (r:
    Result<Value, DecodeError>)
    requires
        group_fault(*g, k as nat) is None,
    ensures
        r is Ok ==> group_decodes(*g, o, r->Ok_0@),
        group_direct(*g) ==> r is Ok,
        r is Err ==> outer_fault(r->Err_0),
    decreases g, 0nat,
{
    let ghost nd = g.datasets@.len();
    let mut entries: Vec<Entry> = Vec::new();
    let ghost mut seen: Seq<(Seq<char>, Tree)> = Seq::empty();
    let mut i: usize = 0;
    while i < g.datasets.len()
        invariant
            group_fault(*g, k as nat) is None,
            k > 0,
            nd == g.datasets@.len(),
            i <= nd,
            entries@.len() == i,
            seen == entry_trees(entries@),
            forall|j: int|
                0 <= j < i ==> #[trigger] seen[j].0 == leaf(g.datasets@[j].name@)
                    && dataset_decodes(g.datasets@[j], o, seen[j].1),
        decreases nd - i,
    {
        proof {
            lemma_datasets_ok(g.datasets@, nd, i as int);
        }
        let d = &g.datasets[i];
        let name = leaf_name(&d.name);
        let v = build_dataset(d, o, heap)?;
        proof {
            seen = seen.push((name@, v@));
        }
        entries.push(Entry { name, value: v });
        proof {
            assert(seen =~= entry_trees(entries@));
        }
        i = i + 1;
    }
    let mut i: usize = 0;
    while i < g.groups.len()
        invariant
            group_fault(*g, k as nat) is None,
            k > 0,
            nd == g.datasets@.len(),
            i <= g.groups@.len(),
            entries@.len() == nd + i,
            seen == entry_trees(entries@),
            forall|j: int|
                0 <= j < nd ==> #[trigger] seen[j].0 == leaf(g.datasets@[j].name@)
                    && dataset_decodes(g.datasets@[j], o, seen[j].1),
            groups_decode(g.groups@, o, seen.skip(nd as int)),
        decreases g.groups@.len() - i,
    {
        proof {
            lemma_groups_ok(g.groups@, g.groups@.len(), i as int, (k - 1) as nat);
            if group_direct(*g) {
                lemma_groups_direct(g.groups@, g.groups@.len(), i as int);
            }
        }
        assert(decreases_to!(g => g.groups@[i as int]));
        let sub = &g.groups[i];
        let name = leaf_name(&sub.name);
        let v = build_group_checked(sub, k - 1, o, heap)?;
        proof {
            let next = seen.push((name@, v@));
            assert(next.skip(nd as int).drop_last() =~= seen.skip(nd as int));
            seen = next;
        }
        entries.push(Entry { name, value: v });
        proof {
            assert(seen =~= entry_trees(entries@));
        }
        i = i + 1;
    }
    let ghost es = entries@;
    let v = Value::Record(entries);
    assert(v@->Record_0 =~= entry_trees(es));
    assert(v@->Record_0 == seen);
    assert(group_decodes(*g, o, v@));
    Ok(v)
}

/// Builds the record of group `g`: one field for each dataset, holding the
/// list of its elements, then one for each subgroup, holding its record,
/// each named by the last component of its path.
///
/// Groups nested deeper than [`MAX_DEPTH`], two children with one name, and
/// datasets with faults are reported before anything is decoded. Without
/// variable-length parts the build then always succeeds; otherwise the engine
/// may still fail.
pub fn build_group<S: VarLenSource>(g: &GroupNode, order: ByteOrder, heap: &S) -> (r: Result<
    Value,
    DecodeError,
>)
    ensures
        group_fault(*g, MAX_DEPTH as nat) is Some ==> r == Err::<Value, DecodeError>(
            group_fault(*g, MAX_DEPTH as nat)->0,
        ),
        group_fault(*g, MAX_DEPTH as nat) is None && group_direct(*g) ==> r is Ok,
        r is Ok ==> group_decodes(*g, order, r->Ok_0@),
        r is Err && group_fault(*g, MAX_DEPTH as nat) is None ==> outer_fault(r->Err_0),
{
    if let Some(e) = check_group(g, MAX_DEPTH) {
        return Err(e);
    }
    build_group_checked(g, MAX_DEPTH, order, heap)
}

/// In the record of a group, one field for each dataset comes first, in the
/// engine's order, named by the dataset's leaf name and holding the list of
/// its elements; one field for each subgroup follows, in the engine's order,
/// named by the subgroup's leaf name and holding its record.
pub proof fn lemma_group_field_order(g: GroupNode, o: ByteOrder, v: Tree)
    requires
        group_decodes(g, o, v),
    ensures
        v is Record,
        v->Record_0.len() == g.datasets@.len() + g.groups@.len(),
        forall|i: int|
            #![trigger v->Record_0[i]]
            0 <= i < g.datasets@.len() ==> v->Record_0[i].0 == leaf(g.datasets@[i].name@)
                && dataset_decodes(g.datasets@[i], o, v->Record_0[i].1),
        forall|j: int|
            #![trigger v->Record_0[g.datasets@.len() + j]]
            0 <= j < g.groups@.len() ==> v->Record_0[g.datasets@.len() + j].0 == leaf(
                g.groups@[j].name@,
            ) && group_decodes(g.groups@[j], o, v->Record_0[g.datasets@.len() + j].1),
{
    let nd = g.datasets@.len() as int;
    let rest = v->Record_0.skip(nd);
    lemma_groups_decode_each(g.groups@, o, rest);
    assert forall|j: int| 0 <= j < g.groups@.len() implies v->Record_0[nd + j].0 == leaf(
        g.groups@[j].name@,
    ) && group_decodes(g.groups@[j], o, v->Record_0[nd + j].1) by {
        assert(rest[j] == v->Record_0[nd + j]);
        assert(rest[j].0 == leaf(g.groups@[j].name@));
    }
}

/// Each entry of a run of subgroup fields is the field of its subgroup.
proof fn lemma_groups_decode_each(gs: Seq<GroupNode>, o: ByteOrder, es: Seq<(Seq<char>, Tree)>)
    requires
        groups_decode(gs, o, es),
    ensures
        es.len() <= gs.len(),
        forall|j: int|
            #![trigger es[j]]
            0 <= j < es.len() ==> es[j].0 == leaf(gs[j].name@) && group_decodes(gs[j], o, es[j].1),
    decreases es.len(),
{
    if es.len() > 0 {
        let init = es.drop_last();
        lemma_groups_decode_each(gs, o, init);
        assert forall|j: int| 0 <= j < es.len() implies es[j].0 == leaf(gs[j].name@)
            && group_decodes(gs[j], o, es[j].1) by {
            if j < es.len() - 1 {
                assert(es[j] == init[j]);
            }
        }
    }
}

} // verus!
