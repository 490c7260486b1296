//! The values that flow through a submission, and their mathematical models.

use vstd::prelude::*;

verus! {

/// Model of one path segment.
pub enum Segment {
    Key(Seq<char>),
    Index,
}

/// One segment of a field's name: a key of a map, or a place in an array.
#[derive(Clone, Debug, PartialEq, Eq)]
pub enum NamePart {
    MapKey(String),
    ArrayIndex,
}

impl View for NamePart {
    type V = Segment;

    open spec fn view(&self) -> Segment {
        match self {
            NamePart::MapKey(key) => Segment::Key(key@),
            NamePart::ArrayIndex => Segment::Index,
        }
    }
}

impl NamePart {
    /// Whether this segment is a key of a map.
    pub fn is_map(&self) -> (r: bool)
        ensures
            r == (self@ is Key),
    {
        match self {
            NamePart::MapKey(_) => true,
            NamePart::ArrayIndex => false,
        }
    }
}

/// Model of a path: its segments, outermost first.
pub open spec fn path_view(parts: Seq<NamePart>) -> Seq<Segment> {
    parts.map_values(|p: NamePart| p@)
}

/// What a field says of itself.
#[derive(Clone, Debug, PartialEq, Eq)]
pub struct ContentDisposition {
    pub name: Option<String>,
    pub filename: Option<String>,
}

impl ContentDisposition {
    /// The metadata of a field that carries none.
    pub fn empty() -> (r: ContentDisposition)
        ensures
            r.name is None,
            r.filename is None,
    {
        ContentDisposition { name: None, filename: None }
    }
}

/// Model of a nested value.  A map is the sequence of its entries in the
/// order in which their keys first arrived.
pub enum Tree {
    Mapping(Seq<(Seq<char>, Tree)>),
    Array(Seq<Tree>),
    File(Seq<char>, Seq<char>),
    Text(Seq<char>),
    Int(i64),
    Float(u64),
    Bytes(Seq<u8>),
}

/// The realised content of one field.  A float is held as the bit pattern
/// of its IEEE 754 double.
#[derive(Clone, Debug, PartialEq, Eq)]
pub enum MultipartContent {
    File { filename: String, stored_as: String },
    Text(String),
    Int(i64),
    Float(u64),
    Bytes(Vec<u8>),
}

impl View for MultipartContent {
    type V = Tree;

    open spec fn view(&self) -> Tree {
        match self {
            MultipartContent::File { filename, stored_as } => Tree::File(filename@, stored_as@),
            MultipartContent::Text(s) => Tree::Text(s@),
            MultipartContent::Int(n) => Tree::Int(*n),
            MultipartContent::Float(bits) => Tree::Float(*bits),
            MultipartContent::Bytes(b) => Tree::Bytes(b@),
        }
    }
}

impl MultipartContent {
    /// Whether this content is a stored file.
    pub fn is_file(&self) -> (r: bool)
        ensures
            r == (self@ is File),
    {
        match self {
            MultipartContent::File { .. } => true,
            _ => false,
        }
    }
}

/// The nested result of a submission.  A map holds its entries in the order
/// in which their keys first arrived; a float is held as the bit pattern of
/// its IEEE 754 double.
#[derive(Debug, PartialEq, Eq)]
pub enum Value {
    Mapping(Vec<(String, Value)>),
    Array(Vec<Value>),
    File { filename: String, stored_as: String },
    Text(String),
    Int(i64),
    Float(u64),
    Bytes(Vec<u8>),
}

/// Model of the entries of a map.
pub open spec fn entries_view(entries: Seq<(String, Value)>) -> Seq<(Seq<char>, Tree)>
    decreases entries,
{
    Seq::new(
        entries.len(),
        |i: int|
            if 0 <= i < entries.len() {
                (entries[i].0@, entries[i].1@)
            } else {
                (Seq::empty(), Tree::Int(0))
            },
    )
}

/// Model of the elements of an array.
pub open spec fn elements_view(elements: Seq<Value>) -> Seq<Tree>
    decreases elements,
{
    Seq::new(
        elements.len(),
        |i: int|
            if 0 <= i < elements.len() {
                elements[i]@
            } else {
                Tree::Int(0)
            },
    )
}

impl View for Value {
    type V = Tree;

    open spec fn view(&self) -> Tree
        decreases self,
    {
        match self {
            Value::Mapping(entries) => Tree::Mapping(entries_view(entries@)),
            Value::Array(elements) => Tree::Array(elements_view(elements@)),
            Value::File { filename, stored_as } => Tree::File(filename@, stored_as@),
            Value::Text(s) => Tree::Text(s@),
            Value::Int(n) => Tree::Int(*n),
            Value::Float(bits) => Tree::Float(*bits),
            Value::Bytes(b) => Tree::Bytes(b@),
        }
    }
}

impl Value {
    /// The value that a field's content stands for.
    pub fn from_content(content: MultipartContent) -> (r: Value)
        ensures
            r@ == content@,
    {
        match content {
            MultipartContent::File { filename, stored_as } => Value::File { filename, stored_as },
            MultipartContent::Text(s) => Value::Text(s),
            MultipartContent::Int(n) => Value::Int(n),
            MultipartContent::Float(bits) => Value::Float(bits),
            MultipartContent::Bytes(b) => Value::Bytes(b),
        }
    }
}

} // verus!
