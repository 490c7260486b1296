//! Merging the contents of all fields into one nested value.

use vstd::prelude::*;
use crate::error::Error;
use crate::types::{entries_view, elements_view, path_view, MultipartContent, NamePart, Segment, Tree, Value};

verus! {

/// Whether some entry has the key.
pub open spec fn has_key(entries: Seq<(Seq<char>, Tree)>, key: Seq<char>) -> bool {
    exists|i: int| 0 <= i < entries.len() && (#[trigger] entries[i]).0 == key
}

/// Whether `i` is the place of the first entry with the key.
pub open spec fn is_first_key(entries: Seq<(Seq<char>, Tree)>, key: Seq<char>, i: int) -> bool {
    &&& 0 <= i < entries.len()
    &&& entries[i].0 == key
    &&& forall|j: int| 0 <= j < i ==> (#[trigger] entries[j]).0 != key
}

/// The place of the first entry with the key.
pub open spec fn key_index(entries: Seq<(Seq<char>, Tree)>, key: Seq<char>) -> int {
    choose|i: int| is_first_key(entries, key, i)
}

/// Whether two trees are of the same variant.
pub open spec fn same_kind(a: Tree, b: Tree) -> bool {
    match (a, b) {
        (Tree::Mapping(_), Tree::Mapping(_)) => true,
        (Tree::Array(_), Tree::Array(_)) => true,
        (Tree::File(_, _), Tree::File(_, _)) => true,
        (Tree::Text(_), Tree::Text(_)) => true,
        (Tree::Int(_), Tree::Int(_)) => true,
        (Tree::Float(_), Tree::Float(_)) => true,
        (Tree::Bytes(_), Tree::Bytes(_)) => true,
        _ => false,
    }
}

/// The merge of two trees, or `None` where they differ in variant at some
/// place that both have.  Two maps give the union of their entries, entries
/// under one key merged; two arrays give the elements of the first followed
/// by those of the second; of two scalars of one variant the first stays.
pub open spec fn merge_tree(a: Tree, b: Tree) -> Option<Tree>
    decreases b, 0nat,
{
    match (a, b) {
        (Tree::Mapping(xs), Tree::Mapping(ys)) => match merge_entries(xs, ys, ys.len()) {
            Some(entries) => Some(Tree::Mapping(entries)),
            None => None,
        },
        (Tree::Array(xs), Tree::Array(ys)) => Some(Tree::Array(xs + ys)),
        _ => if same_kind(a, b) {
            Some(a)
        } else {
            None
        },
    }
}

/// The entries `xs` after the first `n` entries of `ys` were merged in, one
/// after the other.
pub open spec fn merge_entries(
    xs: Seq<(Seq<char>, Tree)>,
    ys: Seq<(Seq<char>, Tree)>,
    n: nat,
) -> Option<Seq<(Seq<char>, Tree)>>
    decreases ys, n,
{
    if n == 0 || n > ys.len() {
        Some(xs)
    } else {
        match merge_entries(xs, ys, (n - 1) as nat) {
            None => None,
            Some(acc) => {
                let key = ys[n - 1].0;
                if !has_key(acc, key) {
                    Some(acc.push(ys[n - 1]))
                } else {
                    let i = key_index(acc, key);
                    match merge_tree(acc[i].1, ys[n - 1].1) {
                        Some(merged) => Some(acc.update(i, (acc[i].0, merged))),
                        None => None,
                    }
                }
            },
        }
    }
}

/// One segment wrapped around a tree.
pub open spec fn wrap(segment: Segment, inner: Tree) -> Tree {
    match segment {
        Segment::Key(key) => Tree::Mapping(seq![(key, inner)]),
        Segment::Index => Tree::Array(seq![inner]),
    }
}

/// The tree that holds `leaf` at the end of `path` and nothing else.
pub open spec fn singleton(path: Seq<Segment>, leaf: Tree) -> Tree
    decreases path.len(),
{
    if path.len() == 0 {
        leaf
    } else {
        singleton(path.drop_last(), wrap(path.last(), leaf))
    }
}

/// Model of a list of fields: each path with its content.
pub open spec fn fields_view(fields: Seq<(Vec<NamePart>, MultipartContent)>) -> Seq<
    (Seq<Segment>, Tree),
> {
    Seq::new(fields.len(), |i: int| (path_view(fields[i].0@), fields[i].1@))
}

/// The first `n` fields merged, in their order, into an empty map.
pub open spec fn consolidated(fields: Seq<(Seq<Segment>, Tree)>, n: nat) -> Option<Tree>
    decreases n,
{
    if n == 0 || n > fields.len() {
        Some(Tree::Mapping(Seq::empty()))
    } else {
        match consolidated(fields, (n - 1) as nat) {
            None => None,
            Some(acc) => merge_tree(acc, singleton(fields[n - 1].0, fields[n - 1].1)),
        }
    }
}

/// The first index of an entry with the given key.
fn find_key(entries: &Vec<(String, Value)>, key: &String) -> (r: Option<usize>)
    ensures
        match r {
            Some(i) => is_first_key(entries_view(entries@), key@, i as int),
            None => !has_key(entries_view(entries@), key@),
        },
{
    let mut i: usize = 0;
    while i < entries.len()
        invariant
            i <= entries.len(),
            forall|j: int| 0 <= j < i ==> (#[trigger] entries_view(entries@)[j]).0 != key@,
        decreases entries.len() - i,
    {
        if entries[i].0 == *key {
            return Some(i);
        }
        i += 1;
    }
    None
}

proof fn lemma_first_key_unique(entries: Seq<(Seq<char>, Tree)>, key: Seq<char>, i: int)
    requires
        is_first_key(entries, key, i),
    ensures
        has_key(entries, key),
        key_index(entries, key) == i,
{
    let j = key_index(entries, key);
    assert(is_first_key(entries, key, j));
    if j < i {
        assert(entries[j].0 != key);
    }
    if i < j {
        assert(entries[i].0 != key);
    }
}

fn variant_code(value: &Value) -> (r: u8)
    ensures
        r == tree_code(value@),
{
    match value {
        Value::Mapping(_) => 0,
        Value::Array(_) => 1,
        Value::File { .. } => 2,
        Value::Text(_) => 3,
        Value::Int(_) => 4,
        Value::Float(_) => 5,
        Value::Bytes(_) => 6,
    }
}

/// A number for each variant of a tree.
pub open spec fn tree_code(tree: Tree) -> u8 {
    match tree {
        Tree::Mapping(_) => 0,
        Tree::Array(_) => 1,
        Tree::File(_, _) => 2,
        Tree::Text(_) => 3,
        Tree::Int(_) => 4,
        Tree::Float(_) => 5,
        Tree::Bytes(_) => 6,
    }
}

impl Value {
    /// Merges `rhs` into `self`.  Fails with `Error::Merge` exactly where the
    /// two differ in variant at some place that both have.
    pub fn merge(self, rhs: Value) -> (r: Result<Value, Error>)
        ensures
            match merge_tree(self@, rhs@) {
                Some(tree) => r is Ok && r->Ok_0@ == tree,
                None => r is Err && r->Err_0 == Error::Merge,
            },
            well_formed(self@) && well_formed(rhs@) && r is Ok ==> well_formed(r->Ok_0@),
        decreases rhs@, 1nat,
    {
        proof {
            if well_formed(self@) && well_formed(rhs@) {
                lemma_merge_well_formed(self@, rhs@);
            }
        }
        if variant_code(&self) != variant_code(&rhs) {
            return Err(Error::Merge);
        }
        match self {
            Value::Mapping(xs) => match rhs {
                Value::Mapping(ys) => match merge_maps(xs, ys) {
                    Ok(entries) => Ok(Value::Mapping(entries)),
                    Err(e) => Err(e),
                },
                _ => Err(Error::Merge),
            },
            Value::Array(xs) => match rhs {
                Value::Array(ys) => {
                    let mut xs = xs;
                    let mut ys = ys;
                    let ghost before = elements_view(xs@);
                    let ghost added = elements_view(ys@);
                    xs.append(&mut ys);
                    assert(elements_view(xs@) =~= before + added);
                    Ok(Value::Array(xs))
                },
                _ => Err(Error::Merge),
            },
            other => Ok(other),
        }
    }
}

/// Merges the entries `ys` into `xs`, one after the other.
fn merge_maps(xs: Vec<(String, Value)>, ys: Vec<(String, Value)>) -> (r: Result<
    Vec<(String, Value)>,
    Error,
>)
    ensures
        match merge_entries(entries_view(xs@), entries_view(ys@), ys@.len()) {
            Some(entries) => r is Ok && entries_view(r->Ok_0@) == entries,
            None => r is Err && r->Err_0 == Error::Merge,
        },
    decreases entries_view(ys@), 0nat,
{
    let mut acc = xs;
    let mut rest = ys;
    let ghost x0 = entries_view(xs@);
    let ghost y0 = entries_view(ys@);
    let ghost mut done: nat = 0;
    while rest.len() > 0
        invariant
            done + rest@.len() == y0.len(),
            entries_view(rest@) =~= y0.subrange(done as int, y0.len() as int),
            merge_entries(x0, y0, done) == Some(entries_view(acc@)),
            x0 == entries_view(xs@),
            y0 == entries_view(ys@),
        decreases rest.len(),
    {
        let ghost rest_before = entries_view(rest@);
        let (key, value) = rest.remove(0);
        assert(entries_view(rest@) =~= rest_before.subrange(1, rest_before.len() as int));
        assert(rest_before[0] == (key@, value@));
        assert(y0[done as int] == (key@, value@));
        let ghost acc_before = entries_view(acc@);
        match find_key(&acc, &key) {
            None => {
                acc.push((key, value));
                assert(entries_view(acc@) =~= acc_before.push(y0[done as int]));
            },
            Some(i) => {
                proof {
                    lemma_first_key_unique(acc_before, key@, i as int);
                }
                let (kept, older) = acc.remove(i);
                assert(acc_before[i as int] == (kept@, older@));
                proof {
                    let ghost entry = y0[done as int];
                    assert(decreases_to!(y0 => entry));
                    assert(decreases_to!(entry => entry.1));
                    assert(entry.1 == value@);
                }
                match older.merge(value) {
                    Ok(merged) => {
                        let ghost merged_tree = merged@;
                        acc.insert(i, (kept, merged));
                        assert(entries_view(acc@) =~= acc_before.update(
                            i as int,
                            (kept@, merged_tree),
                        ));
                    },
                    Err(e) => {
                        proof {
                            assert(merge_tree(acc_before[i as int].1, y0[done as int].1) is None);
                            assert(merge_entries(x0, y0, done + 1) is None);
                            lemma_merge_entries_fails(x0, y0, done + 1, y0.len());
                        }
                        return Err(e);
                    },
                }
            },
        }
        proof {
            done = done + 1;
        }
    }
    Ok(acc)
}

/// Once merging has failed, it stays failed however many entries follow.
proof fn lemma_merge_entries_fails(
    xs: Seq<(Seq<char>, Tree)>,
    ys: Seq<(Seq<char>, Tree)>,
    n: nat,
    m: nat,
)
    requires
        merge_entries(xs, ys, n) is None,
        n <= m <= ys.len(),
    ensures
        merge_entries(xs, ys, m) is None,
    decreases m,
{
    if n < m {
        lemma_merge_entries_fails(xs, ys, n, (m - 1) as nat);
    }
}

/// Once consolidation has failed, it stays failed however many fields follow.
proof fn lemma_consolidated_fails(fields: Seq<(Seq<Segment>, Tree)>, n: nat, m: nat)
    requires
        consolidated(fields, n) is None,
        n <= m <= fields.len(),
    ensures
        consolidated(fields, m) is None,
    decreases m,
{
    if n < m {
        lemma_consolidated_fails(fields, n, (m - 1) as nat);
    }
}

/// One segment wrapped around a value.
fn wrap_value(part: NamePart, inner: Value) -> (r: Value)
    ensures
        r@ == wrap(part@, inner@),
{
    match part {
        NamePart::MapKey(key) => {
            let ghost entry = (key@, inner@);
            let mut entries: Vec<(String, Value)> = Vec::new();
            entries.push((key, inner));
            assert(entries_view(entries@) =~= seq![entry]);
            Value::Mapping(entries)
        },
        NamePart::ArrayIndex => {
            let ghost element = inner@;
            let mut elements: Vec<Value> = Vec::new();
            elements.push(inner);
            assert(elements_view(elements@) =~= seq![element]);
            Value::Array(elements)
        },
    }
}

/// The value that holds `content` at the end of `parts` and nothing else.
pub fn singleton_value(parts: Vec<NamePart>, content: MultipartContent) -> (r: Value)
    ensures
        r@ == singleton(path_view(parts@), content@),
{
    let mut rest = parts;
    let mut value = Value::from_content(content);
    while rest.len() > 0
        invariant
            singleton(path_view(rest@), value@) == singleton(path_view(parts@), content@),
        decreases rest.len(),
    {
        let ghost before = path_view(rest@);
        let part = rest.pop().unwrap();
        assert(path_view(rest@) =~= before.drop_last());
        assert(before.last() == part@);
        value = wrap_value(part, value);
    }
    value
}

/// Merges the fields, in their order, into one nested value that starts as
/// an empty map.  Fails with `Error::Merge` exactly where two fields differ
/// in variant at a place that both have.  Every map of the result holds
/// each of its keys once.
pub fn consolidate(mf: Vec<(Vec<NamePart>, MultipartContent)>) -> (r: Result<Value, Error>)
    ensures
        match consolidated(fields_view(mf@), mf@.len()) {
            Some(tree) => r is Ok && r->Ok_0@ == tree,
            None => r is Err && r->Err_0 == Error::Merge,
        },
        r is Ok ==> well_formed(r->Ok_0@),
{
    let ghost f0 = fields_view(mf@);
    let ghost mut done: nat = 0;
    let mut rest = mf;
    let mut acc = Value::Mapping(Vec::new());
    assert(entries_view(Seq::<(String, Value)>::empty()) =~= Seq::empty());
    while rest.len() > 0
        invariant
            done + rest@.len() == f0.len(),
            fields_view(rest@) =~= f0.subrange(done as int, f0.len() as int),
            consolidated(f0, done) == Some(acc@),
            f0 == fields_view(mf@),
        decreases rest.len(),
    {
        let ghost rest_before = fields_view(rest@);
        let (parts, content) = rest.remove(0);
        assert(fields_view(rest@) =~= rest_before.subrange(1, rest_before.len() as int));
        assert(rest_before[0] == (path_view(parts@), content@));
        assert(f0[done as int] == (path_view(parts@), content@));
        let value = singleton_value(parts, content);
        match acc.merge(value) {
            Ok(merged) => {
                acc = merged;
            },
            Err(e) => {
                proof {
                    assert(consolidated(f0, done + 1) is None);
                    lemma_consolidated_fails(f0, done + 1, f0.len());
                }
                return Err(e);
            },
        }
        proof {
            done = done + 1;
        }
    }
    proof {
        lemma_consolidated_well_formed(f0, f0.len());
    }
    Ok(acc)
}

/// No two entries have the same key.
pub open spec fn distinct_keys(entries: Seq<(Seq<char>, Tree)>) -> bool {
    forall|i: int, j: int|
        0 <= i < j < entries.len() ==> (#[trigger] entries[i]).0 != (#[trigger] entries[j]).0
}

/// No key of the one occurs in the other.
pub open spec fn disjoint_keys(xs: Seq<(Seq<char>, Tree)>, ys: Seq<(Seq<char>, Tree)>) -> bool {
    forall|i: int, j: int|
        0 <= i < xs.len() && 0 <= j < ys.len() ==> (#[trigger] xs[i]).0 != (#[trigger] ys[j]).0
}

/// Merging two arrays keeps every element, those of the first array before
/// those of the second, each in its order.
pub proof fn lemma_merge_arrays_in_order(xs: Seq<Tree>, ys: Seq<Tree>)
    ensures
        merge_tree(Tree::Array(xs), Tree::Array(ys)) == Some(Tree::Array(xs + ys)),
{
}

/// Merging entries under new keys adds them behind those that are there.
pub proof fn lemma_merge_disjoint_entries(
    xs: Seq<(Seq<char>, Tree)>,
    ys: Seq<(Seq<char>, Tree)>,
    n: nat,
)
    requires
        distinct_keys(ys),
        disjoint_keys(xs, ys),
        n <= ys.len(),
    ensures
        merge_entries(xs, ys, n) == Some(xs + ys.take(n as int)),
    decreases n,
{
    if n == 0 {
        assert(xs + ys.take(0) =~= xs);
    } else {
        lemma_merge_disjoint_entries(xs, ys, (n - 1) as nat);
        let acc = xs + ys.take(n - 1);
        let key = ys[n - 1].0;
        assert(!has_key(acc, key)) by {
            assert forall|i: int| 0 <= i < acc.len() implies (#[trigger] acc[i]).0 != key by {
                if i < xs.len() {
                    assert(acc[i] == xs[i]);
                } else {
                    assert(acc[i] == ys[i - xs.len()]);
                }
            }
        }
        assert(acc.push(ys[n - 1]) =~= xs + ys.take(n as int));
    }
}

/// Merging maps is associative where no key occurs twice among them: the
/// result holds the entries of the first, then those of the second, then
/// those of the third, however the merges are grouped.
pub proof fn lemma_merge_associative_on_disjoint_keys(
    xs: Seq<(Seq<char>, Tree)>,
    ys: Seq<(Seq<char>, Tree)>,
    zs: Seq<(Seq<char>, Tree)>,
)
    requires
        distinct_keys(ys),
        distinct_keys(zs),
        disjoint_keys(xs, ys),
        disjoint_keys(xs, zs),
        disjoint_keys(ys, zs),
    ensures
        merge_tree(Tree::Mapping(xs), Tree::Mapping(ys)) == Some(Tree::Mapping(xs + ys)),
        merge_tree(Tree::Mapping(ys), Tree::Mapping(zs)) == Some(Tree::Mapping(ys + zs)),
        merge_tree(Tree::Mapping(xs + ys), Tree::Mapping(zs)) == merge_tree(
            Tree::Mapping(xs),
            Tree::Mapping(ys + zs),
        ),
        merge_tree(Tree::Mapping(xs + ys), Tree::Mapping(zs)) == Some(
            Tree::Mapping(xs + ys + zs),
        ),
{
    let xy = xs + ys;
    let yz = ys + zs;
    lemma_merge_disjoint_entries(xs, ys, ys.len());
    assert(ys.take(ys.len() as int) =~= ys);
    lemma_merge_disjoint_entries(ys, zs, zs.len());
    assert(zs.take(zs.len() as int) =~= zs);
    assert(disjoint_keys(xy, zs)) by {
        assert forall|i: int, j: int| 0 <= i < xy.len() && 0 <= j < zs.len() implies (
        #[trigger] xy[i]).0 != (#[trigger] zs[j]).0 by {
            if i < xs.len() {
                assert(xy[i] == xs[i]);
            } else {
                assert(xy[i] == ys[i - xs.len()]);
            }
        }
    }
    lemma_merge_disjoint_entries(xy, zs, zs.len());
    assert(distinct_keys(yz)) by {
        assert forall|i: int, j: int| 0 <= i < j < yz.len() implies (#[trigger] yz[i]).0 != (
        #[trigger] yz[j]).0 by {
            if j < ys.len() {
                assert(yz[i] == ys[i] && yz[j] == ys[j]);
            } else if i < ys.len() {
                assert(yz[i] == ys[i] && yz[j] == zs[j - ys.len()]);
            } else {
                assert(yz[i] == zs[i - ys.len()] && yz[j] == zs[j - ys.len()]);
            }
        }
    }
    assert(disjoint_keys(xs, yz)) by {
        assert forall|i: int, j: int| 0 <= i < xs.len() && 0 <= j < yz.len() implies (
        #[trigger] xs[i]).0 != (#[trigger] yz[j]).0 by {
            if j < ys.len() {
                assert(yz[j] == ys[j]);
            } else {
                assert(yz[j] == zs[j - ys.len()]);
            }
        }
    }
    lemma_merge_disjoint_entries(xs, yz, yz.len());
    assert(yz.take(yz.len() as int) =~= yz);
    assert(xs + yz =~= xy + zs);
}

/// Every map in the tree holds each key once.
pub open spec fn well_formed(tree: Tree) -> bool
    decreases tree,
{
    match tree {
        Tree::Mapping(entries) => distinct_keys(entries) && forall|i: int|
            0 <= i < entries.len() ==> well_formed((#[trigger] entries[i]).1),
        Tree::Array(elements) => forall|i: int|
            0 <= i < elements.len() ==> well_formed(#[trigger] elements[i]),
        _ => true,
    }
}

/// Merging keeps every key once: the merge of two well-formed trees is
/// well-formed.
pub proof fn lemma_merge_well_formed(a: Tree, b: Tree)
    requires
        well_formed(a),
        well_formed(b),
    ensures
        merge_tree(a, b) is Some ==> well_formed(merge_tree(a, b)->Some_0),
    decreases b, 0nat,
{
    match (a, b) {
        (Tree::Mapping(xs), Tree::Mapping(ys)) => {
            lemma_merge_entries_well_formed(xs, ys, ys.len());
        },
        (Tree::Array(xs), Tree::Array(ys)) => {
            let all = xs + ys;
            assert forall|i: int| 0 <= i < all.len() implies well_formed(#[trigger] all[i]) by {
                if i < xs.len() {
                    assert(all[i] == xs[i]);
                } else {
                    assert(all[i] == ys[i - xs.len()]);
                }
            }
        },
        _ => {},
    }
}

/// Merging entries into the entries of a well-formed map leaves the entries
/// of a well-formed map.
pub proof fn lemma_merge_entries_well_formed(
    xs: Seq<(Seq<char>, Tree)>,
    ys: Seq<(Seq<char>, Tree)>,
    n: nat,
)
    requires
        well_formed(Tree::Mapping(xs)),
        forall|i: int| 0 <= i < ys.len() ==> well_formed((#[trigger] ys[i]).1),
        n <= ys.len(),
    ensures
        merge_entries(xs, ys, n) is Some ==> well_formed(
            Tree::Mapping(merge_entries(xs, ys, n)->Some_0),
        ),
    decreases ys, n,
{
    if n > 0 {
        lemma_merge_entries_well_formed(xs, ys, (n - 1) as nat);
        if merge_entries(xs, ys, n) is Some {
            let acc = merge_entries(xs, ys, (n - 1) as nat)->Some_0;
            let next = merge_entries(xs, ys, n)->Some_0;
            let entry = ys[n - 1];
            if !has_key(acc, entry.0) {
                assert(next == acc.push(entry));
                assert forall|i: int, j: int| 0 <= i < j < next.len() implies (
                #[trigger] next[i]).0 != (#[trigger] next[j]).0 by {
                    if j < acc.len() {
                        assert(next[i] == acc[i] && next[j] == acc[j]);
                    } else {
                        assert(next[i] == acc[i]);
                    }
                }
                assert forall|i: int| 0 <= i < next.len() implies well_formed(
                    (#[trigger] next[i]).1,
                ) by {
                    if i < acc.len() {
                        assert(next[i] == acc[i]);
                    }
                }
            } else {
                let k = key_index(acc, entry.0);
                assert(is_first_key(acc, entry.0, k)) by {
                    let w = choose|w: int| 0 <= w < acc.len() && (#[trigger] acc[w]).0 == entry.0;
                    lemma_first_key_exists(acc, entry.0, w);
                }
                lemma_merge_well_formed(acc[k].1, entry.1);
                let merged = merge_tree(acc[k].1, entry.1)->Some_0;
                assert(next == acc.update(k, (acc[k].0, merged)));
                assert forall|i: int, j: int| 0 <= i < j < next.len() implies (
                #[trigger] next[i]).0 != (#[trigger] next[j]).0 by {
                    assert(next[i].0 == acc[i].0 && next[j].0 == acc[j].0);
                }
                assert forall|i: int| 0 <= i < next.len() implies well_formed(
                    (#[trigger] next[i]).1,
                ) by {
                    if i != k {
                        assert(next[i] == acc[i]);
                    }
                }
            }
        }
    }
}

/// Where some entry has the key, some entry is the first to have it.
pub proof fn lemma_first_key_exists(entries: Seq<(Seq<char>, Tree)>, key: Seq<char>, w: int)
    requires
        0 <= w < entries.len(),
        entries[w].0 == key,
    ensures
        exists|i: int| is_first_key(entries, key, i),
    decreases w,
{
    if exists|j: int| 0 <= j < w && (#[trigger] entries[j]).0 == key {
        let j = choose|j: int| 0 <= j < w && (#[trigger] entries[j]).0 == key;
        lemma_first_key_exists(entries, key, j);
    } else {
        assert(is_first_key(entries, key, w));
    }
}

/// A content wrapped in its path is well-formed.
pub proof fn lemma_singleton_well_formed(path: Seq<Segment>, leaf: Tree)
    requires
        well_formed(leaf),
    ensures
        well_formed(singleton(path, leaf)),
    decreases path.len(),
{
    if path.len() > 0 {
        let inner = wrap(path.last(), leaf);
        match path.last() {
            Segment::Key(key) => {
                assert(inner == Tree::Mapping(seq![(key, leaf)]));
            },
            Segment::Index => {
                assert(inner == Tree::Array(seq![leaf]));
            },
        }
        lemma_singleton_well_formed(path.drop_last(), inner);
    }
}

/// The value of a submission holds each key of each of its maps once,
/// whatever the fields were, as long as the contents are scalars or files.
pub proof fn lemma_consolidated_well_formed(fields: Seq<(Seq<Segment>, Tree)>, n: nat)
    requires
        n <= fields.len(),
        forall|i: int| 0 <= i < fields.len() ==> well_formed((#[trigger] fields[i]).1),
    ensures
        consolidated(fields, n) is Some ==> well_formed(consolidated(fields, n)->Some_0),
    decreases n,
{
    if n > 0 {
        lemma_consolidated_well_formed(fields, (n - 1) as nat);
        if consolidated(fields, (n - 1) as nat) is Some {
            let acc = consolidated(fields, (n - 1) as nat)->Some_0;
            lemma_singleton_well_formed(fields[n - 1].0, fields[n - 1].1);
            lemma_merge_well_formed(acc, singleton(fields[n - 1].0, fields[n - 1].1));
        }
    }
}

/// Merging maps without a common key gives the same entries whichever map
/// comes first; only the order in which the entries stand differs.
pub proof fn lemma_merge_commutative_on_disjoint_keys(
    xs: Seq<(Seq<char>, Tree)>,
    ys: Seq<(Seq<char>, Tree)>,
)
    requires
        distinct_keys(xs),
        distinct_keys(ys),
        disjoint_keys(xs, ys),
    ensures
        merge_tree(Tree::Mapping(xs), Tree::Mapping(ys)) == Some(Tree::Mapping(xs + ys)),
        merge_tree(Tree::Mapping(ys), Tree::Mapping(xs)) == Some(Tree::Mapping(ys + xs)),
        (xs + ys).to_multiset() == (ys + xs).to_multiset(),
{
    assert(disjoint_keys(ys, xs)) by {
        assert forall|i: int, j: int| 0 <= i < ys.len() && 0 <= j < xs.len() implies (
        #[trigger] ys[i]).0 != (#[trigger] xs[j]).0 by {
            assert(xs[j].0 != ys[i].0);
        }
    }
    lemma_merge_disjoint_entries(xs, ys, ys.len());
    assert(ys.take(ys.len() as int) =~= ys);
    lemma_merge_disjoint_entries(ys, xs, xs.len());
    assert(xs.take(xs.len() as int) =~= xs);
    vstd::seq_lib::lemma_multiset_commutative(xs, ys);
    vstd::seq_lib::lemma_multiset_commutative(ys, xs);
    assert(xs.to_multiset().add(ys.to_multiset()) =~= ys.to_multiset().add(xs.to_multiset()));
}

/// Whether two trees hold the same, whatever the order in which the
/// entries of their maps stand: two maps have equally many entries, and each
/// entry of the first has an entry under its key in the second that holds
/// the same; two arrays hold the same at each place; two other trees are
/// equal.
pub open spec fn equivalent(a: Tree, b: Tree) -> bool
    decreases a,
{
    match (a, b) {
        (Tree::Mapping(xs), Tree::Mapping(ys)) => xs.len() == ys.len() && forall|i: int|
            0 <= i < xs.len() ==> has_key(ys, (#[trigger] xs[i]).0) && equivalent(
                xs[i].1,
                ys[key_index(ys, xs[i].0)].1,
            ),
        (Tree::Array(xs), Tree::Array(ys)) => xs.len() == ys.len() && forall|i: int|
            0 <= i < xs.len() ==> equivalent(#[trigger] xs[i], ys[i]),
        _ => a == b,
    }
}

fn same_bytes(a: &Vec<u8>, b: &Vec<u8>) -> (r: bool)
    ensures
        r == (a@ == b@),
{
    if a.len() != b.len() {
        return false;
    }
    let mut i: usize = 0;
    while i < a.len()
        invariant
            i <= a.len(),
            a.len() == b.len(),
            forall|j: int| 0 <= j < i ==> a@[j] == b@[j],
        decreases a.len() - i,
    {
        if a[i] != b[i] {
            return false;
        }
        i += 1;
    }
    assert(a@ =~= b@);
    true
}

fn same_entries(xs: &Vec<(String, Value)>, ys: &Vec<(String, Value)>) -> (r: bool)
    ensures
        r == equivalent(Tree::Mapping(entries_view(xs@)), Tree::Mapping(entries_view(ys@))),
    decreases entries_view(xs@), 0nat,
{
    let ghost xv = entries_view(xs@);
    let ghost yv = entries_view(ys@);
    if xs.len() != ys.len() {
        return false;
    }
    let mut i: usize = 0;
    while i < xs.len()
        invariant
            i <= xs.len(),
            xv == entries_view(xs@),
            yv == entries_view(ys@),
            xv.len() == yv.len(),
            forall|j: int|
                0 <= j < i ==> has_key(yv, (#[trigger] xv[j]).0) && equivalent(
                    xv[j].1,
                    yv[key_index(yv, xv[j].0)].1,
                ),
        decreases xs.len() - i,
    {
        let ghost entry = xv[i as int];
        assert(entry == (xs@[i as int].0@, xs@[i as int].1@));
        match find_key(ys, &xs[i].0) {
            None => {
                assert(!has_key(yv, xv[i as int].0));
                return false;
            },
            Some(k) => {
                proof {
                    lemma_first_key_unique(yv, entry.0, k as int);
                    assert(decreases_to!(xv => entry));
                    assert(decreases_to!(entry => entry.1));
                    assert(yv[k as int].1 == ys@[k as int].1@);
                }
                if !xs[i].1.same_as(&ys[k].1) {
                    assert(!equivalent(xv[i as int].1, yv[key_index(yv, xv[i as int].0)].1));
                    return false;
                }
            },
        }
        i += 1;
    }
    true
}

fn same_elements(xs: &Vec<Value>, ys: &Vec<Value>) -> (r: bool)
    ensures
        r == equivalent(Tree::Array(elements_view(xs@)), Tree::Array(elements_view(ys@))),
    decreases elements_view(xs@), 0nat,
{
    let ghost xv = elements_view(xs@);
    let ghost yv = elements_view(ys@);
    if xs.len() != ys.len() {
        return false;
    }
    let mut i: usize = 0;
    while i < xs.len()
        invariant
            i <= xs.len(),
            xv == elements_view(xs@),
            yv == elements_view(ys@),
            xv.len() == yv.len(),
            forall|j: int| 0 <= j < i ==> equivalent(#[trigger] xv[j], yv[j]),
        decreases xs.len() - i,
    {
        proof {
            assert(xv[i as int] == xs@[i as int]@);
            assert(yv[i as int] == ys@[i as int]@);
            assert(decreases_to!(xv => xv[i as int]));
        }
        if !xs[i].same_as(&ys[i]) {
            assert(!equivalent(xv[i as int], yv[i as int]));
            return false;
        }
        i += 1;
    }
    true
}

impl Value {
    /// Whether two values hold the same, whatever the order in which the
    /// entries of their maps stand.
    pub fn same_as(&self, other: &Value) -> (r: bool)
        ensures
            r == equivalent(self@, other@),
        decreases self@, 1nat,
    {
        match self {
            Value::Mapping(xs) => match other {
                Value::Mapping(ys) => {
                    assert(self@->Mapping_0 == entries_view(xs@));
                    same_entries(xs, ys)
                },
                _ => false,
            },
            Value::Array(xs) => match other {
                Value::Array(ys) => {
                    assert(self@->Array_0 == elements_view(xs@));
                    same_elements(xs, ys)
                },
                _ => false,
            },
            Value::File { filename, stored_as } => match other {
                Value::File { filename: other_name, stored_as: other_path } => *filename
                    == *other_name && *stored_as == *other_path,
                _ => false,
            },
            Value::Text(s) => match other {
                Value::Text(t) => *s == *t,
                _ => false,
            },
            Value::Int(n) => match other {
                Value::Int(m) => *n == *m,
                _ => false,
            },
            Value::Float(n) => match other {
                Value::Float(m) => *n == *m,
                _ => false,
            },
            Value::Bytes(a) => match other {
                Value::Bytes(b) => same_bytes(a, b),
                _ => false,
            },
        }
    }
}

/// A tree in which every map holds each key once holds the same as itself.
pub proof fn lemma_equivalent_reflexive(tree: Tree)
    requires
        well_formed(tree),
    ensures
        equivalent(tree, tree),
    decreases tree,
{
    match tree {
        Tree::Mapping(entries) => {
            assert forall|i: int| 0 <= i < entries.len() implies has_key(
                entries,
                (#[trigger] entries[i]).0,
            ) && equivalent(entries[i].1, entries[key_index(entries, entries[i].0)].1) by {
                assert(is_first_key(entries, entries[i].0, i));
                lemma_first_key_unique(entries, entries[i].0, i);
                lemma_equivalent_reflexive(entries[i].1);
            }
        },
        Tree::Array(elements) => {
            assert forall|i: int| 0 <= i < elements.len() implies equivalent(
                #[trigger] elements[i],
                elements[i],
            ) by {
                lemma_equivalent_reflexive(elements[i]);
            }
        },
        _ => {},
    }
}

/// Merging two maps without a common key gives maps that hold the same
/// whichever comes first.
pub proof fn lemma_merge_order_does_not_matter(
    xs: Seq<(Seq<char>, Tree)>,
    ys: Seq<(Seq<char>, Tree)>,
)
    requires
        well_formed(Tree::Mapping(xs)),
        well_formed(Tree::Mapping(ys)),
        disjoint_keys(xs, ys),
    ensures
        merge_tree(Tree::Mapping(xs), Tree::Mapping(ys)) is Some,
        merge_tree(Tree::Mapping(ys), Tree::Mapping(xs)) is Some,
        equivalent(
            merge_tree(Tree::Mapping(xs), Tree::Mapping(ys))->Some_0,
            merge_tree(Tree::Mapping(ys), Tree::Mapping(xs))->Some_0,
        ),
{
    lemma_merge_commutative_on_disjoint_keys(xs, ys);
    let xy = xs + ys;
    let yx = ys + xs;
    assert forall|i: int| 0 <= i < xy.len() implies has_key(yx, (#[trigger] xy[i]).0)
        && equivalent(xy[i].1, yx[key_index(yx, xy[i].0)].1) by {
        let j = if i < xs.len() {
            i + ys.len()
        } else {
            i - xs.len()
        };
        assert(yx[j] == xy[i]);
        assert forall|k: int| 0 <= k < j implies (#[trigger] yx[k]).0 != xy[i].0 by {
            if k < ys.len() {
                assert(yx[k] == ys[k]);
                if i < xs.len() {
                    assert(xy[i] == xs[i]);
                } else {
                    assert(xy[i] == ys[i - xs.len()]);
                }
            } else {
                assert(yx[k] == xs[k - ys.len()]);
                assert(xy[i] == xs[i]);
            }
        }
        assert(is_first_key(yx, xy[i].0, j));
        lemma_first_key_unique(yx, xy[i].0, j);
        if i < xs.len() {
            assert(xy[i] == xs[i]);
        } else {
            assert(xy[i] == ys[i - xs.len()]);
        }
        lemma_equivalent_reflexive(xy[i].1);
    }
}

} // verus!
