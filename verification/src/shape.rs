//! Fields that are valid under one form always merge: the value of a
//! submission has the shape that the form declares.

use vstd::prelude::*;
use crate::consolidate::{
    consolidated, has_key, is_first_key, key_index, lemma_first_key_exists, merge_entries,
    merge_tree, singleton, wrap,
};
use crate::schema::{
    child_index, children_terminator, has_child, terminator_of, Field, FieldTerminator, Form,
};
use crate::types::{Segment, Tree};

verus! {

/// Whether a tree has the shape that a node of a form declares: a map holds
/// only declared children, each of its child's shape; an array holds
/// elements of the declared shape; a scalar or file is of the declared kind.
pub open spec fn conforms<G>(tree: Tree, field: Field<G>) -> bool
    decreases tree,
{
    match tree {
        Tree::Mapping(entries) => match field {
            Field::Mapping(children) => forall|i: int|
                0 <= i < entries.len() ==> has_child(children@, (#[trigger] entries[i]).0)
                    && conforms(
                    entries[i].1,
                    children@[child_index(children@, entries[i].0)].1,
                ),
            _ => false,
        },
        Tree::Array(elements) => match field {
            Field::Array(element) => forall|i: int|
                0 <= i < elements.len() ==> conforms(#[trigger] elements[i], *element),
            _ => false,
        },
        Tree::File(_, _) => field is File,
        Tree::Text(_) => field is Text,
        Tree::Int(_) => field is Int,
        Tree::Float(_) => field is Float,
        Tree::Bytes(_) => field is Bytes,
    }
}

/// Whether entries are declared children, each of its child's shape.
pub open spec fn entries_conform<G>(
    entries: Seq<(Seq<char>, Tree)>,
    children: Seq<(String, Field<G>)>,
) -> bool {
    forall|i: int|
        0 <= i < entries.len() ==> has_child(children, (#[trigger] entries[i]).0) && conforms(
            entries[i].1,
            children[child_index(children, entries[i].0)].1,
        )
}

/// Whether a content is of the kind of the node that its path ends in.
pub open spec fn leaf_fits<G>(leaf: Tree, terminator: FieldTerminator<'_, G>) -> bool {
    match terminator {
        FieldTerminator::File(_) => leaf is File,
        FieldTerminator::Bytes => leaf is Bytes,
        FieldTerminator::Int => leaf is Int,
        FieldTerminator::Float => leaf is Float,
        FieldTerminator::Text => leaf is Text,
    }
}

/// Two trees of one declared shape merge, and the merge has that shape.
pub proof fn lemma_merge_conforming<G>(a: Tree, b: Tree, field: Field<G>)
    requires
        conforms(a, field),
        conforms(b, field),
    ensures
        merge_tree(a, b) is Some,
        conforms(merge_tree(a, b)->Some_0, field),
    decreases b, 0nat,
{
    match (a, b) {
        (Tree::Mapping(xs), Tree::Mapping(ys)) => {
            let children = field->Mapping_0@;
            assert(entries_conform(xs, children));
            assert(entries_conform(ys, children));
            lemma_merge_entries_conforming(xs, ys, ys.len(), children);
        },
        (Tree::Array(xs), Tree::Array(ys)) => {
            let all = xs + ys;
            let element = *field->Array_0;
            assert forall|i: int| 0 <= i < all.len() implies conforms(#[trigger] all[i], element) by {
                if i < xs.len() {
                    assert(all[i] == xs[i]);
                } else {
                    assert(all[i] == ys[i - xs.len()]);
                }
            }
        },
        _ => {},
    }
}

/// Entries of declared children merge into entries of declared children.
pub proof fn lemma_merge_entries_conforming<G>(
    xs: Seq<(Seq<char>, Tree)>,
    ys: Seq<(Seq<char>, Tree)>,
    n: nat,
    children: Seq<(String, Field<G>)>,
)
    requires
        entries_conform(xs, children),
        entries_conform(ys, children),
        n <= ys.len(),
    ensures
        merge_entries(xs, ys, n) is Some,
        entries_conform(merge_entries(xs, ys, n)->Some_0, children),
    decreases ys, n,
{
    if n > 0 {
        lemma_merge_entries_conforming(xs, ys, (n - 1) as nat, children);
        let acc = merge_entries(xs, ys, (n - 1) as nat)->Some_0;
        let entry = ys[n - 1];
        let child = children[child_index(children, entry.0)].1;
        assert(conforms(entry.1, child));
        if !has_key(acc, entry.0) {
            let next = acc.push(entry);
            assert forall|i: int| 0 <= i < next.len() implies has_child(
                children,
                (#[trigger] next[i]).0,
            ) && conforms(next[i].1, children[child_index(children, next[i].0)].1) by {
                if i < acc.len() {
                    assert(next[i] == acc[i]);
                }
            }
        } else {
            let w = choose|w: int| 0 <= w < acc.len() && (#[trigger] acc[w]).0 == entry.0;
            lemma_first_key_exists(acc, entry.0, w);
            let k = key_index(acc, entry.0);
            assert(is_first_key(acc, entry.0, k));
            assert(conforms(acc[k].1, child));
            lemma_merge_conforming(acc[k].1, entry.1, child);
            let merged = merge_tree(acc[k].1, entry.1)->Some_0;
            let next = acc.update(k, (acc[k].0, merged));
            assert(merge_entries(xs, ys, n) == Some(next));
            assert forall|i: int| 0 <= i < next.len() implies has_child(
                children,
                (#[trigger] next[i]).0,
            ) && conforms(next[i].1, children[child_index(children, next[i].0)].1) by {
                if i != k {
                    assert(next[i] == acc[i]);
                }
            }
        }
    }
}

/// A path's tree, read from its first segment.
pub proof fn lemma_singleton_from_front(path: Seq<Segment>, leaf: Tree)
    requires
        path.len() > 0,
    ensures
        singleton(path, leaf) == wrap(path[0], singleton(path.drop_first(), leaf)),
    decreases path.len(),
{
    if path.len() == 1 {
        assert(path.drop_last() =~= Seq::<Segment>::empty());
        assert(path.drop_first() =~= Seq::<Segment>::empty());
        assert(singleton(path.drop_last(), wrap(path.last(), leaf)) == wrap(path.last(), leaf));
    } else {
        let inner = wrap(path.last(), leaf);
        lemma_singleton_from_front(path.drop_last(), inner);
        assert(path.drop_last().drop_first() =~= path.drop_first().drop_last());
        assert(path.drop_first().last() == path.last());
        assert(path.drop_last()[0] == path[0]);
    }
}

/// A content at the end of a path that the node holds has the node's shape.
pub proof fn lemma_singleton_conforms<G>(field: Field<G>, path: Seq<Segment>, leaf: Tree)
    requires
        terminator_of(&field, path) is Some,
        leaf_fits(leaf, terminator_of(&field, path)->Some_0),
    ensures
        conforms(singleton(path, leaf), field),
    decreases path.len(),
{
    if path.len() > 0 {
        lemma_singleton_from_front(path, leaf);
        let rest = path.drop_first();
        let inner = singleton(rest, leaf);
        match (field, path[0]) {
            (Field::Mapping(children), Segment::Key(key)) => {
                assert(terminator_of(&field, path) == children_terminator(children@, key, rest));
                let child = children@[child_index(children@, key)].1;
                lemma_singleton_conforms(child, rest, leaf);
                let entries = seq![(key, inner)];
                assert(singleton(path, leaf) == Tree::Mapping(entries));
                assert forall|i: int| 0 <= i < entries.len() implies has_child(
                    children@,
                    (#[trigger] entries[i]).0,
                ) && conforms(entries[i].1, children@[child_index(children@, entries[i].0)].1) by {
                    assert(entries[i] == (key, inner));
                }
            },
            (Field::Array(element), Segment::Index) => {
                assert(terminator_of(&field, path) == terminator_of(&*element, rest));
                lemma_singleton_conforms(*element, rest, leaf);
                let elements = seq![inner];
                assert(singleton(path, leaf) == Tree::Array(elements));
                assert forall|i: int| 0 <= i < elements.len() implies conforms(
                    #[trigger] elements[i],
                    *element,
                ) by {
                    assert(elements[i] == inner);
                }
            },
            _ => {},
        }
    }
}

/// Whether every field is one that the form holds, with a content of the
/// kind that the form declares at its path.
pub open spec fn valid_under<G>(form: Form<G>, fields: Seq<(Seq<Segment>, Tree)>) -> bool {
    forall|i: int|
        0 <= i < fields.len() ==> form.terminator((#[trigger] fields[i]).0) is Some && leaf_fits(
            fields[i].1,
            form.terminator(fields[i].0)->Some_0,
        )
}

/// Fields that are valid under one form always merge, in whatever order
/// they come and however often a path occurs, and the value they give is a
/// map of the form's shape.
pub proof fn lemma_valid_fields_merge<G>(form: Form<G>, fields: Seq<(Seq<Segment>, Tree)>, n: nat)
    requires
        valid_under(form, fields),
        n <= fields.len(),
    ensures
        consolidated(fields, n) is Some,
        consolidated(fields, n)->Some_0 is Mapping,
        entries_conform(consolidated(fields, n)->Some_0->Mapping_0, form.fields@),
    decreases n,
{
    if n > 0 {
        lemma_valid_fields_merge(form, fields, (n - 1) as nat);
        let acc = consolidated(fields, (n - 1) as nat)->Some_0->Mapping_0;
        let path = fields[n - 1].0;
        let leaf = fields[n - 1].1;
        assert(form.terminator(path) is Some);
        let key = path[0]->Key_0;
        let rest = path.drop_first();
        assert(form.terminator(path) == children_terminator(form.fields@, key, rest));
        let child = form.fields@[child_index(form.fields@, key)].1;
        lemma_singleton_conforms(child, rest, leaf);
        lemma_singleton_from_front(path, leaf);
        let inner = singleton(rest, leaf);
        let single = seq![(key, inner)];
        assert(singleton(path, leaf) == Tree::Mapping(single));
        assert forall|i: int| 0 <= i < single.len() implies has_child(
            form.fields@,
            (#[trigger] single[i]).0,
        ) && conforms(single[i].1, form.fields@[child_index(form.fields@, single[i].0)].1) by {
            assert(single[i] == (key, inner));
        }
        lemma_merge_entries_conforming(acc, single, single.len(), form.fields@);
    }
}

} // verus!
