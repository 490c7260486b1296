//! The declared shape of a submission, and the matching of a field's path
//! against it.

use vstd::prelude::*;
use crate::types::{path_view, NamePart, Segment};

verus! {

/// The outside type `mime::Mime`, a parsed media type.  Nothing is known of
/// its contents here: it is handed on to the filename generator.
#[verifier::external_type_specification]
#[verifier::external_body]
pub struct ExMime(mime::Mime);

/// Produces the path under which an uploaded file is stored, or declines the
/// upload.  The media type is the one that the field declares.
pub trait FilenameGenerator: Send + Sync {
    fn next_filename(&self, mime_type: &mime::Mime) -> Option<String>;
}

/// One node of the declared shape.  `G` is the filename generator of the
/// file fields.
pub enum Field<G> {
    Array(Box<Field<G>>),
    Mapping(Vec<(String, Field<G>)>),
    File(G),
    Int,
    Float,
    Text,
    Bytes,
}

/// The scalar or file node that a path ends in.
pub enum FieldTerminator<'a, G> {
    File(&'a G),
    Bytes,
    Int,
    Float,
    Text,
}

/// The declared shape of a whole submission, with its limits.
pub struct Form<G> {
    pub max_fields: u32,
    pub max_field_size: usize,
    pub max_files: u32,
    pub max_file_size: usize,
    pub fields: Vec<(String, Field<G>)>,
}

/// Whether `i` is the place of the first child with the key.
pub open spec fn is_first_child<G>(children: Seq<(String, Field<G>)>, key: Seq<char>, i: int) -> bool {
    &&& 0 <= i < children.len()
    &&& children[i].0@ == key
    &&& forall|j: int| 0 <= j < i ==> (#[trigger] children[j]).0@ != key
}

/// Whether some child has the key.
pub open spec fn has_child<G>(children: Seq<(String, Field<G>)>, key: Seq<char>) -> bool {
    exists|i: int| 0 <= i < children.len() && (#[trigger] children[i]).0@ == key
}

/// The place of the first child with the key.
pub open spec fn child_index<G>(children: Seq<(String, Field<G>)>, key: Seq<char>) -> int {
    choose|i: int| is_first_child(children, key, i)
}

/// The node that `path` ends in when walked from `field`: each key must name
/// a child of a map, each array placeholder must meet an array, and the walk
/// must end on a scalar or a file.  `None` where it does not.
pub open spec fn terminator_of<'a, G>(field: &'a Field<G>, path: Seq<Segment>) -> Option<
    FieldTerminator<'a, G>,
>
    decreases path.len(), 0nat,
{
    if path.len() == 0 {
        match field {
            Field::File(generator) => Some(FieldTerminator::File(generator)),
            Field::Int => Some(FieldTerminator::Int),
            Field::Float => Some(FieldTerminator::Float),
            Field::Text => Some(FieldTerminator::Text),
            Field::Bytes => Some(FieldTerminator::Bytes),
            _ => None,
        }
    } else {
        match (field, path[0]) {
            (Field::Mapping(children), Segment::Key(key)) => children_terminator(
                children@,
                key,
                path.drop_first(),
            ),
            (Field::Array(element), Segment::Index) => terminator_of(&**element, path.drop_first()),
            _ => None,
        }
    }
}

/// The node that `rest` ends in when walked from the child under `key`.
pub open spec fn children_terminator<'a, G>(
    children: Seq<(String, Field<G>)>,
    key: Seq<char>,
    rest: Seq<Segment>,
) -> Option<FieldTerminator<'a, G>>
    decreases rest.len(), 1nat,
{
    if has_child(children, key) {
        terminator_of(&children[child_index(children, key)].1, rest)
    } else {
        None
    }
}

/// The first index of a child with the given key.
fn find_child<G>(children: &Vec<(String, Field<G>)>, key: &String) -> (r: Option<usize>)
    ensures
        match r {
            Some(i) => is_first_child(children@, key@, i as int) && has_child(children@, key@)
                && child_index(children@, key@) == i,
            None => !has_child(children@, key@),
        },
{
    let mut i: usize = 0;
    while i < children.len()
        invariant
            i <= children.len(),
            forall|j: int| 0 <= j < i ==> (#[trigger] children@[j]).0@ != key@,
        decreases children.len() - i,
    {
        if children[i].0 == *key {
            proof {
                let j = child_index(children@, key@);
                assert(is_first_child(children@, key@, i as int));
                assert(is_first_child(children@, key@, j));
                if j < i {
                    assert(children@[j].0@ != key@);
                }
                if i < j {
                    assert(children@[i as int].0@ != key@);
                }
            }
            return Some(i);
        }
        i += 1;
    }
    None
}

impl<G> Form<G> {
    /// The node that a path ends in when walked from the top of the form,
    /// whose fields are the children of a map.
    pub open spec fn terminator(&self, path: Seq<Segment>) -> Option<FieldTerminator<'_, G>> {
        if path.len() == 0 {
            None
        } else {
            match path[0] {
                Segment::Key(key) => children_terminator(self.fields@, key, path.drop_first()),
                Segment::Index => None,
            }
        }
    }

    /// Walks the form along a field's path and returns the scalar or file
    /// node that it ends in; `None` where the path leaves the form.
    pub fn valid_field(&self, name: &Vec<NamePart>) -> (r: Option<FieldTerminator<'_, G>>)
        ensures
            r == self.terminator(path_view(name@)),
    {
        let ghost path = path_view(name@);
        if name.len() == 0 {
            return None;
        }
        assert(path[0] == name@[0]@);
        assert(path.drop_first() =~= path.subrange(1, path.len() as int));
        let mut current: &Field<G> = match &name[0] {
            NamePart::MapKey(key) => match find_child(&self.fields, key) {
                Some(j) => &self.fields[j].1,
                None => {
                    return None;
                },
            },
            NamePart::ArrayIndex => {
                return None;
            },
        };
        let mut i: usize = 1;
        while i < name.len()
            invariant
                path == path_view(name@),
                1 <= i <= name.len(),
                self.terminator(path) == terminator_of(
                    current,
                    path.subrange(i as int, path.len() as int),
                ),
            decreases name.len() - i,
        {
            let ghost rest = path.subrange(i as int, path.len() as int);
            assert(rest.drop_first() =~= path.subrange(i + 1, path.len() as int));
            assert(rest[0] == name@[i as int]@);
            match &name[i] {
                NamePart::MapKey(key) => match current {
                    Field::Mapping(inner) => {
                        assert(rest[0] == Segment::Key(key@));
                        assert(terminator_of(current, rest) == children_terminator(
                            inner@,
                            key@,
                            rest.drop_first(),
                        ));
                        match find_child(inner, key) {
                            Some(j) => {
                                current = &inner[j].1;
                            },
                            None => {
                                return None;
                            },
                        }
                    },
                    _ => {
                        assert(rest[0] == Segment::Key(key@));
                        return None;
                    },
                },
                NamePart::ArrayIndex => match current {
                    Field::Array(element) => {
                        assert(rest[0] == Segment::Index);
                        assert(terminator_of(current, rest) == terminator_of(
                            &**element,
                            rest.drop_first(),
                        ));
                        current = &**element;
                    },
                    _ => {
                        return None;
                    },
                },
            }
            i += 1;
        }
        assert(path.subrange(path.len() as int, path.len() as int) =~= Seq::<Segment>::empty());
        match current {
            Field::File(generator) => Some(FieldTerminator::File(generator)),
            Field::Int => Some(FieldTerminator::Int),
            Field::Float => Some(FieldTerminator::Float),
            Field::Text => Some(FieldTerminator::Text),
            Field::Bytes => Some(FieldTerminator::Bytes),
            _ => None,
        }
    }
}

/// The children after `field` was put under `key`: in the place of the
/// first child with that key, or behind all children where there is none.
pub open spec fn with_child<G>(
    children: Seq<(String, Field<G>)>,
    key: String,
    field: Field<G>,
) -> Seq<(String, Field<G>)> {
    if has_child(children, key@) {
        children.update(child_index(children, key@), (key, field))
    } else {
        children.push((key, field))
    }
}

/// No two children have the same key.
pub open spec fn distinct_children<G>(children: Seq<(String, Field<G>)>) -> bool {
    forall|i: int, j: int|
        0 <= i < j < children.len() ==> (#[trigger] children[i]).0@ != (#[trigger] children[j]).0@
}

/// Putting a child under a key leaves every key with one child.
pub proof fn lemma_with_child_distinct<G>(
    children: Seq<(String, Field<G>)>,
    key: String,
    field: Field<G>,
)
    requires
        distinct_children(children),
    ensures
        distinct_children(with_child(children, key, field)),
{
    let after = with_child(children, key, field);
    if has_child(children, key@) {
        let w = choose|w: int| 0 <= w < children.len() && (#[trigger] children[w]).0@ == key@;
        lemma_first_child_exists(children, key@, w);
        let k = child_index(children, key@);
        assert(is_first_child(children, key@, k));
        assert forall|i: int, j: int| 0 <= i < j < after.len() implies (#[trigger] after[i]).0@ != (
        #[trigger] after[j]).0@ by {
            assert(after[i].0@ == children[i].0@ && after[j].0@ == children[j].0@);
        }
    } else {
        assert forall|i: int, j: int| 0 <= i < j < after.len() implies (#[trigger] after[i]).0@ != (
        #[trigger] after[j]).0@ by {
            if j < children.len() {
                assert(after[i] == children[i] && after[j] == children[j]);
            } else {
                assert(after[i] == children[i]);
            }
        }
    }
}

/// Where some child has the key, some child is the first to have it.
proof fn lemma_first_child_exists<G>(children: Seq<(String, Field<G>)>, key: Seq<char>, w: int)
    requires
        0 <= w < children.len(),
        children[w].0@ == key,
    ensures
        exists|i: int| is_first_child(children, key, i),
    decreases w,
{
    if exists|j: int| 0 <= j < w && (#[trigger] children[j]).0@ == key {
        let j = choose|j: int| 0 <= j < w && (#[trigger] children[j]).0@ == key;
        lemma_first_child_exists(children, key, j);
    } else {
        assert(is_first_child(children, key, w));
    }
}

fn put_child<G>(children: Vec<(String, Field<G>)>, key: String, field: Field<G>) -> (r: Vec<
    (String, Field<G>),
>)
    ensures
        r@ == with_child(children@, key, field),
        distinct_children(children@) ==> distinct_children(r@),
{
    proof {
        if distinct_children(children@) {
            lemma_with_child_distinct(children@, key, field);
        }
    }
    let mut children = children;
    match find_child(&children, &key) {
        Some(i) => {
            children.set(i, (key, field));
        },
        None => {
            children.push((key, field));
        },
    }
    children
}

/// A map node under construction.
pub struct MapBuilder<G> {
    pub children: Vec<(String, Field<G>)>,
}

impl<G> MapBuilder<G> {
    /// Declares the child under `key`; an earlier child under that key is
    /// replaced.
    pub fn field(self, key: &str, value: Field<G>) -> (r: MapBuilder<G>)
        ensures
            exists|owned: String|
                owned@ == key@ && r.children@ == with_child(self.children@, owned, value),
            distinct_children(self.children@) ==> distinct_children(r.children@),
    {
        let owned = key.to_owned();
        MapBuilder { children: put_child(self.children, owned, value) }
    }

    /// The finished map node.
    pub fn finalize(self) -> (r: Field<G>)
        ensures
            r == Field::Mapping(self.children),
    {
        Field::Mapping(self.children)
    }
}

impl<G> Field<G> {
    /// A field of text.
    pub fn text() -> (r: Field<G>)
        ensures
            r is Text,
    {
        Field::Text
    }

    /// A field that holds an integer.
    pub fn integer() -> (r: Field<G>)
        ensures
            r is Int,
    {
        Field::Int
    }

    /// A field that holds a floating-point number.
    pub fn float() -> (r: Field<G>)
        ensures
            r is Float,
    {
        Field::Float
    }

    /// A field of raw bytes.
    pub fn binary() -> (r: Field<G>)
        ensures
            r is Bytes,
    {
        Field::Bytes
    }

    /// A file, stored under the paths that `generator` gives.
    pub fn file(generator: G) -> (r: Field<G>)
        ensures
            r == Field::<G>::File(generator),
    {
        Field::File(generator)
    }

    /// An array whose elements have the shape `element`.
    pub fn array(element: Field<G>) -> (r: Field<G>)
        ensures
            r == Field::<G>::Array(Box::new(element)),
    {
        Field::Array(Box::new(element))
    }

    /// A map without children, to be filled and finalized.
    pub fn map() -> (r: MapBuilder<G>)
        ensures
            r.children@.len() == 0,
    {
        MapBuilder { children: Vec::new() }
    }
}

impl<G> Form<G> {
    /// A form without fields that takes up to 99 scalar fields of up to
    /// 10,000 bytes each and up to 19 files of up to 10,000,000 bytes each.
    pub fn new() -> (r: Form<G>)
        ensures
            r.max_fields == 100,
            r.max_field_size == 10_000,
            r.max_files == 20,
            r.max_file_size == 10_000_000,
            r.fields@.len() == 0,
    {
        Form {
            max_fields: 100,
            max_field_size: 10_000,
            max_files: 20,
            max_file_size: 10_000_000,
            fields: Vec::new(),
        }
    }

    /// Sets the limit on the number of scalar fields.
    pub fn max_fields(self, max: u32) -> (r: Form<G>)
        ensures
            r == (Form { max_fields: max, ..self }),
    {
        Form { max_fields: max, ..self }
    }

    /// Sets the limit on the bytes of one scalar field.
    pub fn max_field_size(self, max: usize) -> (r: Form<G>)
        ensures
            r == (Form { max_field_size: max, ..self }),
    {
        Form { max_field_size: max, ..self }
    }

    /// Sets the limit on the number of files.
    pub fn max_files(self, max: u32) -> (r: Form<G>)
        ensures
            r == (Form { max_files: max, ..self }),
    {
        Form { max_files: max, ..self }
    }

    /// Sets the limit on the bytes of one file.
    pub fn max_file_size(self, max: usize) -> (r: Form<G>)
        ensures
            r == (Form { max_file_size: max, ..self }),
    {
        Form { max_file_size: max, ..self }
    }

    /// Declares the top-level field under `name`; an earlier field under
    /// that name is replaced.
    pub fn field(self, name: &str, field: Field<G>) -> (r: Form<G>)
        ensures
            r.max_fields == self.max_fields,
            r.max_field_size == self.max_field_size,
            r.max_files == self.max_files,
            r.max_file_size == self.max_file_size,
            exists|owned: String|
                owned@ == name@ && r.fields@ == with_child(self.fields@, owned, field),
            distinct_children(self.fields@) ==> distinct_children(r.fields@),
    {
        let owned = name.to_owned();
        Form {
            max_fields: self.max_fields,
            max_field_size: self.max_field_size,
            max_files: self.max_files,
            max_file_size: self.max_file_size,
            fields: put_child(self.fields, owned, field),
        }
    }
}

} // verus!
