//! Turning one field's bytes into its typed content, under the form's size
//! limits.

use vstd::prelude::*;
use crate::buffer::{buffer_to_vec, buffered};
use crate::error::Error;
use crate::schema::{FieldTerminator, FilenameGenerator};
use crate::types::{MultipartContent, Tree};

verus! {

/// The text that a sequence of bytes encodes in UTF-8, if it is valid UTF-8.
pub uninterp spec fn utf8_text(bytes: Seq<u8>) -> Option<Seq<char>>;

/// Whether every character is one of the digits `0` to `9`.
pub open spec fn all_digits(text: Seq<char>) -> bool {
    forall|i: int| 0 <= i < text.len() ==> '0' <= #[trigger] text[i] <= '9'
}

/// The number that a sequence of digits denotes in decimal.
pub open spec fn digits_value(digits: Seq<char>) -> nat
    decreases digits.len(),
{
    if digits.len() == 0 {
        0
    } else {
        (digits_value(digits.drop_last()) * 10 + (digits.last() as u32 - '0' as u32)) as nat
    }
}

/// The integer that a text denotes in decimal: an optional `+` or `-`, then
/// one or more digits and nothing else, with a value that fits in 64 bits.
pub open spec fn decimal_int(text: Seq<char>) -> Option<i64> {
    let signed = text.len() > 0 && (text[0] == '-' || text[0] == '+');
    let digits = if signed {
        text.drop_first()
    } else {
        text
    };
    let value = if text.len() > 0 && text[0] == '-' {
        -(digits_value(digits) as int)
    } else {
        digits_value(digits) as int
    };
    if digits.len() == 0 || !all_digits(digits) || value < i64::MIN || value > i64::MAX {
        None
    } else {
        Some(value as i64)
    }
}

/// `String::from_utf8`: the text that the bytes encode, or `None` where they
/// are not valid UTF-8.
#[verifier::external_body]
fn decode_utf8(bytes: Vec<u8>) -> (r: Option<String>)
    ensures
        match r {
            Some(text) => utf8_text(bytes@) == Some(text@),
            None => utf8_text(bytes@) is None,
        },
{
    String::from_utf8(bytes).ok()
}

/// `str::parse` to `i64`, as std documents it: an optional sign followed by
/// digits only; an empty text, a sign alone, any other character and a value
/// out of range give `None`.
#[verifier::external_body]
fn parse_decimal(text: &str) -> (r: Option<i64>)
    ensures
        r == decimal_int(text@),
{
    text.parse::<i64>().ok()
}

/// `Path::file_name`, then `OsStr::to_str`: the last component of a path, if
/// it has one.  How a path falls into components depends on the platform, so
/// nothing is stated of the result.
#[verifier::external_body]
fn last_component(path: &str) -> (r: Option<String>)
{
    let name = std::path::Path::new(path).file_name()?;
    Some(name.to_str()?.to_owned())
}

/// Adds one chunk to the bytes gathered for a scalar field.  Fails with
/// `Error::FieldSize` exactly where the field would then hold more than
/// `max_field_size` bytes.
pub fn gather_chunk(gathered: bytes::BytesMut, chunk: &[u8], max_field_size: usize) -> (r: Result<
    bytes::BytesMut,
    Error,
>)
    ensures
        match r {
            Ok(buffer) => buffered(gathered).len() + chunk@.len() <= max_field_size && buffered(
                buffer,
            ) == buffered(gathered) + chunk@,
            Err(e) => buffered(gathered).len() + chunk@.len() > max_field_size && e
                == Error::FieldSize,
        },
{
    let held = gathered.len();
    if held <= max_field_size && chunk.len() <= max_field_size - held {
        let mut buffer = gathered;
        buffer.extend_from_slice(chunk);
        Ok(buffer)
    } else {
        Err(Error::FieldSize)
    }
}

/// Gathers all chunks of a scalar field, in order.  Fails with
/// `Error::FieldSize` exactly where the chunks hold more than
/// `max_field_size` bytes in all.
pub fn gather_field(chunks: &Vec<Vec<u8>>, max_field_size: usize) -> (r: Result<Vec<u8>, Error>)
    ensures
        match r {
            Ok(bytes) => bytes@ == joined(chunks@, chunks@.len()) && bytes@.len()
                <= max_field_size,
            Err(e) => joined(chunks@, chunks@.len()).len() > max_field_size && e
                == Error::FieldSize,
        },
{
    let mut buffer = bytes::BytesMut::new();
    let mut i: usize = 0;
    while i < chunks.len()
        invariant
            i <= chunks.len(),
            buffered(buffer) == joined(chunks@, i as nat),
            buffered(buffer).len() <= max_field_size,
        decreases chunks.len() - i,
    {
        match gather_chunk(buffer, chunks[i].as_slice(), max_field_size) {
            Ok(longer) => {
                buffer = longer;
            },
            Err(e) => {
                proof {
                    lemma_joined_grows(chunks@, i as nat + 1, chunks@.len());
                }
                return Err(e);
            },
        }
        i += 1;
    }
    Ok(buffer_to_vec(&buffer))
}

/// The bytes of the first `n` chunks, one chunk after the other.
pub open spec fn joined(chunks: Seq<Vec<u8>>, n: nat) -> Seq<u8>
    decreases n,
{
    if n == 0 || n > chunks.len() {
        Seq::empty()
    } else {
        joined(chunks, (n - 1) as nat) + chunks[n - 1]@
    }
}

/// More chunks hold no fewer bytes.
pub proof fn lemma_joined_grows(chunks: Seq<Vec<u8>>, n: nat, m: nat)
    requires
        n <= m <= chunks.len(),
    ensures
        joined(chunks, n).len() <= joined(chunks, m).len(),
    decreases m,
{
    if n < m {
        lemma_joined_grows(chunks, n, (m - 1) as nat);
    }
}

/// What a scalar field's bytes have become: a finished content, or the text
/// of a float field, which is still to be read as a number.
pub enum Decoded {
    Content(MultipartContent),
    FloatText(String),
}

/// The text of a field whose bytes were decoded, or `Error::ParseField`
/// where they were no UTF-8.
pub fn decoded_text(decoded: Option<String>) -> (r: Result<String, Error>)
    ensures
        match decoded {
            Some(text) => r == Ok::<String, Error>(text),
            None => r == Err::<String, Error>(Error::ParseField),
        },
{
    match decoded {
        Some(text) => Ok(text),
        None => Err(Error::ParseField),
    }
}

/// The content of an integer field whose text was read, or
/// `Error::ParseInt` where it denoted no integer.
pub fn int_content(parsed: Option<i64>) -> (r: Result<MultipartContent, Error>)
    ensures
        match parsed {
            Some(n) => r is Ok && r->Ok_0@ == Tree::Int(n),
            None => r is Err && r->Err_0 == Error::ParseInt,
        },
{
    match parsed {
        Some(n) => Ok(MultipartContent::Int(n)),
        None => Err(Error::ParseInt),
    }
}

/// The content of a float field whose text was read as a double, given as
/// its bit pattern, or `Error::ParseFloat` where it denoted no number.
pub fn float_content(parsed: Option<u64>) -> (r: Result<MultipartContent, Error>)
    ensures
        match parsed {
            Some(bits) => r is Ok && r->Ok_0@ == Tree::Float(bits),
            None => r is Err && r->Err_0 == Error::ParseFloat,
        },
{
    match parsed {
        Some(bits) => Ok(MultipartContent::Float(bits)),
        None => Err(Error::ParseFloat),
    }
}

/// What the bytes of a field become under the node that its path ends in.
pub open spec fn decoded_as<G>(term: FieldTerminator<'_, G>, bytes: Seq<u8>) -> Result<
    Option<Tree>,
    Error,
> {
    match term {
        FieldTerminator::Bytes => Ok(Some(Tree::Bytes(bytes))),
        _ => match utf8_text(bytes) {
            None => Err(Error::ParseField),
            Some(text) => match term {
                FieldTerminator::Text => Ok(Some(Tree::Text(text))),
                FieldTerminator::Int => match decimal_int(text) {
                    Some(n) => Ok(Some(Tree::Int(n))),
                    None => Err(Error::ParseInt),
                },
                FieldTerminator::Float => Ok(None),
                _ => Err(Error::FieldType),
            },
        },
    }
}

/// Turns the gathered bytes of a field into its content.  A bytes field
/// keeps them as they are.  Any other field must hold UTF-8
/// (`Error::ParseField`): a text field keeps the text, an integer field must
/// denote an integer (`Error::ParseInt`), a float field hands its text back
/// to be read as a number, and a file field is refused
/// (`Error::FieldType`).
pub fn decode_field<G>(term: &FieldTerminator<'_, G>, bytes: Vec<u8>) -> (r: Result<Decoded, Error>)
    ensures
        match decoded_as(*term, bytes@) {
            Ok(Some(tree)) => r is Ok && r->Ok_0 is Content && r->Ok_0->Content_0@ == tree,
            Ok(None) => r is Ok && r->Ok_0 is FloatText && utf8_text(bytes@) == Some(
                r->Ok_0->FloatText_0@,
            ),
            Err(e) => r is Err && r->Err_0 == e,
        },
{
    if let FieldTerminator::Bytes = term {
        return Ok(Decoded::Content(MultipartContent::Bytes(bytes)));
    }
    let text = match decoded_text(decode_utf8(bytes)) {
        Ok(text) => text,
        Err(e) => {
            return Err(e);
        },
    };
    match term {
        FieldTerminator::Text => Ok(Decoded::Content(MultipartContent::Text(text))),
        FieldTerminator::Int => match int_content(parse_decimal(text.as_str())) {
            Ok(content) => Ok(Decoded::Content(content)),
            Err(e) => Err(e),
        },
        FieldTerminator::Float => Ok(Decoded::FloatText(text)),
        _ => Err(Error::FieldType),
    }
}

/// The name under which an uploaded file is reported, or `Error::Filename`
/// where the field's filename has no last component.
pub fn required_filename(component: Option<String>) -> (r: Result<String, Error>)
    ensures
        match component {
            Some(name) => r == Ok::<String, Error>(name),
            None => r == Err::<String, Error>(Error::Filename),
        },
{
    match component {
        Some(name) => Ok(name),
        None => Err(Error::Filename),
    }
}

/// The path under which an uploaded file is stored, or
/// `Error::GenFilename` where the generator declined.
pub fn generated_path(generated: Option<String>) -> (r: Result<String, Error>)
    ensures
        match generated {
            Some(path) => r == Ok::<String, Error>(path),
            None => r == Err::<String, Error>(Error::GenFilename),
        },
{
    match generated {
        Some(path) => Ok(path),
        None => Err(Error::GenFilename),
    }
}

/// Where an upload goes: the name it is reported under and the path it is
/// stored at.
pub struct FilePlan {
    pub filename: String,
    pub stored_as: String,
}

/// The plan of an upload whose reported name is `filename` and for which
/// the generator answered `generated`: the file is reported under that name
/// and stored at exactly the generator's path; where the generator declined,
/// `Error::GenFilename`.
pub fn planned_upload(filename: String, generated: Option<String>) -> (r: Result<FilePlan, Error>)
    ensures
        match generated {
            Some(path) => r == Ok::<FilePlan, Error>((FilePlan { filename, stored_as: path })),
            None => r == Err::<FilePlan, Error>(Error::GenFilename),
        },
{
    match generated_path(generated) {
        Ok(stored_as) => Ok(FilePlan { filename, stored_as }),
        Err(e) => Err(e),
    }
}

/// Prepares the upload of a file field: the field must carry a filename
/// with a last component (`Error::Filename`), and the generator must give a
/// path for its media type (`Error::GenFilename`).  The generator is asked
/// only where the filename is in order.  What the plan holds for each answer
/// of the generator is what `planned_upload` says, on the last component of
/// the filename.
pub fn plan_file_upload<G: FilenameGenerator>(
    generator: &G,
    content_type: &mime::Mime,
    filename: Option<String>,
) -> (r: Result<FilePlan, Error>)
    ensures
        filename is None ==> r is Err && r->Err_0 == Error::Filename,
        r is Err ==> r->Err_0 == Error::Filename || r->Err_0 == Error::GenFilename,
{
    let given = match filename {
        Some(given) => given,
        None => {
            return Err(Error::Filename);
        },
    };
    let filename = match required_filename(last_component(given.as_str())) {
        Ok(filename) => filename,
        Err(e) => {
            return Err(e);
        },
    };
    planned_upload(filename, generator.next_filename(content_type))
}

/// Counts one chunk of a file.  Fails with `Error::FileSize` exactly where
/// the file would then hold more than `max_file_size` bytes.
pub fn count_file_chunk(written: usize, chunk_len: usize, max_file_size: usize) -> (r: Result<
    usize,
    Error,
>)
    ensures
        match r {
            Ok(size) => size == written + chunk_len && size <= max_file_size,
            Err(e) => written + chunk_len > max_file_size && e == Error::FileSize,
        },
{
    if written <= max_file_size && chunk_len <= max_file_size - written {
        Ok(written + chunk_len)
    } else {
        Err(Error::FileSize)
    }
}

/// The content of a file field whose bytes were all stored.
pub fn file_content(plan: FilePlan) -> (r: MultipartContent)
    ensures
        r@ == Tree::File(plan.filename@, plan.stored_as@),
{
    MultipartContent::File { filename: plan.filename, stored_as: plan.stored_as }
}

} // verus!
