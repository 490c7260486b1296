//! The failures a submission can end in.

use vstd::prelude::*;

verus! {

/// Why a submission was rejected.  The first failure ends the submission.
#[derive(Clone, Copy, Debug, PartialEq, Eq, Structural)]
pub enum Error {
    /// A field carried no name.
    Field,
    /// A field's path is not in the form, or its content does not fit the
    /// declared type.
    FieldType,
    /// A field's name opens with an array placeholder.
    ContentDisposition,
    /// A scalar field holds more bytes than the form allows.
    FieldSize,
    /// A file holds more bytes than the form allows.
    FileSize,
    /// Too many scalar fields.
    FieldCount,
    /// Too many files.
    FileCount,
    /// A text field is not valid UTF-8.
    ParseField,
    /// An integer field does not hold an integer.
    ParseInt,
    /// A float field does not hold a number.
    ParseFloat,
    /// A file field carried no usable filename.
    Filename,
    /// The filename generator declined the upload.
    GenFilename,
    /// The directory for a stored file could not be created.
    MkDir,
    /// Creating or writing a stored file failed.
    Io,
    /// The queue between the reader and the file writer broke.
    ChannelError,
    /// The source of the fields failed.
    Multipart,
    /// Two fields ask for different shapes at the same place of the result.
    Merge,
}

} // verus!
