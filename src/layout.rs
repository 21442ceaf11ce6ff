//! The fixed layout of a header block: where each field lies, how reading
//! one can fail, and the reading of a single text field.
use vstd::prelude::*;
use vstd::slice::slice_subrange;
use vstd::utf8::{decode_utf8, encode_utf8_decode_utf8, valid_utf8};
use vstd::string::StringSliceAdditionalSpecFns;

verus! {

/// The fields of a header block. Those of the ustar extension record are
/// placed relative to the start of that record, the others relative to the
/// start of the block.
#[derive(Clone, Copy, Debug, PartialEq, Eq, Structural)]
pub enum Field {
    Name,
    Mode,
    Uid,
    Gid,
    Size,
    Mtime,
    Chksum,
    Typeflag,
    Linkname,
    Magic,
    Version,
    Uname,
    Gname,
    Devmajor,
    Devminor,
    Prefix,
    Padding,
}

/// Why a header could not be read.
#[derive(Clone, Copy, Debug, PartialEq, Eq, Structural)]
pub enum ParseError {
    /// The input ended before the end of this field.
    Incomplete(Field),
    /// The bytes of this text field are not valid UTF-8.
    InvalidUtf8(Field),
}

/// Length of a header block.
pub const BLOCK_LEN: usize = 512;

/// Where the ustar extension record starts within a block.
pub const USTAR_START: usize = 257;

/// Length of the ustar extension record.
pub const USTAR_LEN: usize = 243;

impl Field {
    /// Offset of the field's first byte.
    pub open spec fn start(self) -> nat {
        match self {
            Field::Name => 0,
            Field::Mode => 100,
            Field::Uid => 108,
            Field::Gid => 116,
            Field::Size => 124,
            Field::Mtime => 136,
            Field::Chksum => 148,
            Field::Typeflag => 156,
            Field::Linkname => 157,
            Field::Magic => 0,
            Field::Version => 6,
            Field::Uname => 8,
            Field::Gname => 40,
            Field::Devmajor => 72,
            Field::Devminor => 80,
            Field::Prefix => 88,
            Field::Padding => 500,
        }
    }

    /// Number of bytes in the field.
    pub open spec fn width(self) -> nat {
        match self {
            Field::Name => 100,
            Field::Mode => 8,
            Field::Uid => 8,
            Field::Gid => 8,
            Field::Size => 12,
            Field::Mtime => 12,
            Field::Chksum => 8,
            Field::Typeflag => 1,
            Field::Linkname => 100,
            Field::Magic => 6,
            Field::Version => 2,
            Field::Uname => 32,
            Field::Gname => 32,
            Field::Devmajor => 8,
            Field::Devminor => 8,
            Field::Prefix => 155,
            Field::Padding => 12,
        }
    }

    /// Offset one past the field's last byte.
    pub open spec fn end(self) -> nat {
        self.start() + self.width()
    }

    /// Whether the field holds text, which must be valid UTF-8.
    pub open spec fn is_text(self) -> bool {
        !(self is Typeflag) && !(self is Padding)
    }

    /// Offset and width of the field.
    pub fn span(&self) -> (r: (usize, usize))
        ensures
            r.0 == self.start(),
            r.1 == self.width(),
    {
        match self {
            Field::Name => (0, 100),
            Field::Mode => (100, 8),
            Field::Uid => (108, 8),
            Field::Gid => (116, 8),
            Field::Size => (124, 12),
            Field::Mtime => (136, 12),
            Field::Chksum => (148, 8),
            Field::Typeflag => (156, 1),
            Field::Linkname => (157, 100),
            Field::Magic => (0, 6),
            Field::Version => (6, 2),
            Field::Uname => (8, 32),
            Field::Gname => (40, 32),
            Field::Devmajor => (72, 8),
            Field::Devminor => (80, 8),
            Field::Prefix => (88, 155),
            Field::Padding => (500, 12),
        }
    }
}

/// The bytes of field `f` in `b`.
pub open spec fn field_bytes(b: Seq<u8>, f: Field) -> Seq<u8> {
    b.subrange(f.start() as int, f.end() as int)
}

/// The text that the bytes of field `f` in `b` encode.
pub open spec fn field_text(b: Seq<u8>, f: Field) -> Seq<char> {
    decode_utf8(field_bytes(b, f))
}

/// How reading field `f` from `b` fails, if it does: the input is too short
/// for it, or it is a text field whose bytes are not valid UTF-8.
pub open spec fn field_error(b: Seq<u8>, f: Field) -> Option<ParseError> {
    if b.len() < f.end() {
        Some(ParseError::Incomplete(f))
    } else if f.is_text() && !valid_utf8(field_bytes(b, f)) {
        Some(ParseError::InvalidUtf8(f))
    } else {
        None
    }
}

/// The first of two outcomes that is an error, if either is.
pub open spec fn first_error(a: Option<ParseError>, b: Option<ParseError>) -> Option<ParseError> {
    if a is Some {
        a
    } else {
        b
    }
}

/// Relies on std::str::from_utf8: it succeeds exactly when the bytes are
/// valid UTF-8, and the text it returns is made of those same bytes.
#[verifier::external_body]
fn utf8_text<'a>(b: &'a [u8]) -> (r: Option<&'a str>)
    ensures
        match r {
            Some(t) => valid_utf8(b@) && t.spec_bytes() == b@,
            None => !valid_utf8(b@),
        },
{
    std::str::from_utf8(b).ok()
}

/// Reads text field `f` from `b`, borrowing its bytes.
pub fn take_text<'a>(b: &'a [u8], f: Field) -> (r: Result<&'a str, ParseError>)
    requires
        f.is_text(),
    ensures
        match r {
            Ok(t) => field_error(b@, f) is None && t@ == field_text(b@, f),
            Err(e) => field_error(b@, f) == Some(e),
        },
{
    let (start, width) = f.span();
    if b.len() < start + width {
        return Err(ParseError::Incomplete(f));
    }
    let bytes = slice_subrange(b, start, start + width);
    match utf8_text(bytes) {
        Some(t) => {
            proof {
                encode_utf8_decode_utf8(t@);
            }
            Ok(t)
        },
        None => Err(ParseError::InvalidUtf8(f)),
    }
}

} // verus!
