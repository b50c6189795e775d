//! Errors reported by the library.
use vstd::prelude::*;

use crate::object_id::{HexError, ObjectId};
use crate::object_store::ObjectType;
use crate::parsing::ParseError;
use crate::reference::RefName;

verus! {

/// A failure reported by the filesystem layer that feeds the library bytes.
#[derive(Debug, Clone, Copy, PartialEq, Eq)]
pub enum FilesystemError {
    NotFound,
    Other,
}

/// The outcome of a zlib decompression, mirroring the decompressor's status
/// codes.
#[derive(Debug, Clone, Copy, PartialEq, Eq)]
pub enum InflateStatus {
    FailedCannotMakeProgress,
    BadParam,
    Adler32Mismatch,
    Failed,
    Done,
    NeedsMoreInput,
    HasMoreOutput,
    BlockBoundary,
}

/// The status with the decompressor's numeric code `code`.
pub open spec fn inflate_status_of(code: i8) -> InflateStatus {
    if code == -4 {
        InflateStatus::FailedCannotMakeProgress
    } else if code == -3 {
        InflateStatus::BadParam
    } else if code == -2 {
        InflateStatus::Adler32Mismatch
    } else if code == 0 {
        InflateStatus::Done
    } else if code == 1 {
        InflateStatus::NeedsMoreInput
    } else if code == 2 {
        InflateStatus::HasMoreOutput
    } else if code == 3 {
        InflateStatus::BlockBoundary
    } else {
        InflateStatus::Failed
    }
}

impl InflateStatus {
    /// The status for a numeric decompressor code; unknown codes are failures.
    pub fn from_code(code: i8) -> (r: Self)
        ensures
            r == inflate_status_of(code),
    {
        if code == -4 {
            InflateStatus::FailedCannotMakeProgress
        } else if code == -3 {
            InflateStatus::BadParam
        } else if code == -2 {
            InflateStatus::Adler32Mismatch
        } else if code == 0 {
            InflateStatus::Done
        } else if code == 1 {
            InflateStatus::NeedsMoreInput
        } else if code == 2 {
            InflateStatus::HasMoreOutput
        } else if code == 3 {
            InflateStatus::BlockBoundary
        } else {
            InflateStatus::Failed
        }
    }
}

/// An object had a different type than the caller asked for.
#[derive(Debug, Clone, Copy, PartialEq, Eq)]
pub struct UnexpectedObjectType {
    pub id: ObjectId,
    pub expected: ObjectType,
    pub received: ObjectType,
}

impl UnexpectedObjectType {
    /// The id of the object.
    pub fn id(&self) -> (r: ObjectId)
        ensures
            r == self.id,
    {
        self.id
    }

    /// The type that was asked for.
    pub fn expected(&self) -> (r: ObjectType)
        ensures
            r == self.expected,
    {
        self.expected
    }

    /// The type the object has.
    pub fn received(&self) -> (r: ObjectType)
        ensures
            r == self.received,
    {
        self.received
    }
}

/// Where decompressing a packed object failed.
#[derive(Debug, Clone, Copy, PartialEq, Eq)]
pub struct PackDecompressError {
    /// Offset of the compressed stream from the start of the packed object.
    pub input_position: usize,
    /// Size of the output buffer when decompression failed: the bytes
    /// produced so far and any room not yet written.
    pub output_position: usize,
    /// Offset of the packed object in its pack file.
    pub pack_offset: u64,
    pub status: InflateStatus,
}

/// Errors reported by the library.
#[derive(Debug, Clone, PartialEq, Eq)]
pub enum Error {
    FileSystem(FilesystemError),
    PathError(Vec<u8>),
    LooseObjectDecompressError { id: ObjectId, status: InflateStatus },
    PackObjectDecompressError { id: ObjectId, error: PackDecompressError },
    FromHexError(HexError),
    UnsupportedIndexVersion,
    CorruptIndexFile,
    UnsupportedPackVersion,
    CorruptPackFile,
    MalformedPackedRefs,
    MalformedRef(RefName),
    RefNotFound(RefName),
    MalformedPackObject(ObjectId),
    MalformedObject(ObjectId),
    ObjectParseError { id: ObjectId, snippet: Vec<u8> },
    ObjectMissingRequiredFields(ObjectId),
    MissingObject(ObjectId),
    ObjectTooLarge(ObjectId),
    UnexpectedThinPack,
    NotAnnotatedWithRepo,
    UnexpectedObjectType(UnexpectedObjectType),
}

/// Errors raised while reading one object, before the object's id is known
/// to the code that raised them.
#[derive(Debug, Clone, PartialEq, Eq)]
pub enum InternalObjectError {
    ExternalError(Error),
    ObjectTooLarge,
    ParseError { snippet: Vec<u8> },
    MissingFields,
    MalformedPackObject,
    PackObjectDecompressError(PackDecompressError),
}

impl InternalObjectError {
    /// The internal error for a body that did not parse.
    pub fn from_parse_error(e: ParseError) -> (r: Self)
        ensures
            r == (match e {
                ParseError::ParseError { input_snippet } => InternalObjectError::ParseError {
                    snippet: input_snippet,
                },
                ParseError::MissingFields => InternalObjectError::MissingFields,
            }),
    {
        match e {
            ParseError::ParseError { input_snippet } => InternalObjectError::ParseError {
                snippet: input_snippet,
            },
            ParseError::MissingFields => InternalObjectError::MissingFields,
        }
    }
}

/// The error reported for object `id` when reading it failed with `e`.
pub open spec fn annotated(id: ObjectId, e: InternalObjectError) -> Error {
    match e {
        InternalObjectError::ExternalError(error) => error,
        InternalObjectError::ObjectTooLarge => Error::ObjectTooLarge(id),
        InternalObjectError::MalformedPackObject => Error::MalformedPackObject(id),
        InternalObjectError::ParseError { snippet } => Error::ObjectParseError { id, snippet },
        InternalObjectError::MissingFields => Error::ObjectMissingRequiredFields(id),
        InternalObjectError::PackObjectDecompressError(error) => Error::PackObjectDecompressError {
            id,
            error,
        },
    }
}

/// Names object `id` in an error raised while reading it.
pub fn annotate_with_object_id(id: ObjectId, e: InternalObjectError) -> (r: Error)
    ensures
        r == annotated(id, e),
{
    match e {
        InternalObjectError::ExternalError(error) => error,
        InternalObjectError::ObjectTooLarge => Error::ObjectTooLarge(id),
        InternalObjectError::MalformedPackObject => Error::MalformedPackObject(id),
        InternalObjectError::ParseError { snippet } => Error::ObjectParseError { id, snippet },
        InternalObjectError::MissingFields => Error::ObjectMissingRequiredFields(id),
        InternalObjectError::PackObjectDecompressError(error) => Error::PackObjectDecompressError {
            id,
            error,
        },
    }
}

} // verus!
