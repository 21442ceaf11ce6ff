//! Decoding of POSIX ustar archive headers from a byte buffer into
//! records that borrow their text from that buffer.
pub mod archive;
pub mod header;
pub mod layout;
pub mod numeric;
pub mod text;

pub use archive::{parse_entry, parse_tar, TarEntry};
pub use header::{parse_header, parse_ustar, PosixHeader, UStarHeader};
pub use layout::{Field, ParseError};
pub use numeric::{decimal_to_u32, octal_to_u32};
