//! Header records and their parsers.
use vstd::prelude::*;
use vstd::slice::slice_subrange;
use vstd::string::StrSliceExecFns;
use vstd::utf8::{decode_utf8_encode_utf8, encode_utf8, is_ascii_chars_encode_utf8};
use crate::text::{is_ascii_bytes, lemma_ascii_decode};
use crate::layout::{
    field_error, field_text, field_bytes, first_error, take_text, Field, ParseError, BLOCK_LEN,
    USTAR_LEN, USTAR_START,
};

verus! {

/// The ustar extension record of a header. Each text borrows its bytes from
/// the parsed buffer. The record is kept only when its magic field holds
/// `"ustar"` and a terminating NUL; `magic` is then the text before the NUL.
#[derive(Debug, PartialEq, Eq)]
pub struct UStarHeader<'a> {
    pub magic: &'a str,
    pub version: &'a str,
    pub uname: &'a str,
    pub gname: &'a str,
    pub devmajor: &'a str,
    pub devminor: &'a str,
    pub prefix: &'a str,
}

/// A header block. Each text borrows its bytes from the parsed buffer; the
/// numeric fields stay as the text that the block holds.
#[derive(Debug, PartialEq, Eq)]
pub struct PosixHeader<'a> {
    pub name: &'a str,
    pub mode: &'a str,
    pub uid: &'a str,
    pub gid: &'a str,
    pub size: &'a str,
    pub mtime: &'a str,
    pub chksum: &'a str,
    pub typeflag: char,
    pub linkname: &'a str,
    pub ustar: Option<UStarHeader<'a>>,
}

/// The magic of a ustar record: `"ustar"` and a terminating NUL byte.
pub open spec fn ustar_magic_bytes() -> Seq<u8> {
    seq![0x75u8, 0x73u8, 0x74u8, 0x61u8, 0x72u8, 0x00u8]
}

/// The magic text that a recognised ustar record carries.
pub open spec fn ustar_magic_text() -> Seq<char> {
    seq!['u', 's', 't', 'a', 'r']
}

/// Whether the ustar record `b` carries the ustar magic.
pub open spec fn has_ustar_magic(b: Seq<u8>) -> bool {
    field_bytes(b, Field::Magic) == ustar_magic_bytes()
}

/// How reading the ustar record `b` fails, if it does: the first of its
/// fields, in order, that is cut short or not valid UTF-8.
pub open spec fn ustar_error(b: Seq<u8>) -> Option<ParseError> {
    first_error(field_error(b, Field::Magic),
    first_error(field_error(b, Field::Version),
    first_error(field_error(b, Field::Uname),
    first_error(field_error(b, Field::Gname),
    first_error(field_error(b, Field::Devmajor),
    first_error(field_error(b, Field::Devminor),
    field_error(b, Field::Prefix)))))))
}

/// `u` is what the ustar record `b` decodes to: present exactly when the
/// magic is recognised, and then with each field's text.
pub open spec fn ustar_matches(u: Option<UStarHeader>, b: Seq<u8>) -> bool {
    match u {
        Some(h) => {
            &&& has_ustar_magic(b)
            &&& h.magic@ == ustar_magic_text()
            &&& h.version@ == field_text(b, Field::Version)
            &&& h.uname@ == field_text(b, Field::Uname)
            &&& h.gname@ == field_text(b, Field::Gname)
            &&& h.devmajor@ == field_text(b, Field::Devmajor)
            &&& h.devminor@ == field_text(b, Field::Devminor)
            &&& h.prefix@ == field_text(b, Field::Prefix)
        },
        None => !has_ustar_magic(b),
    }
}

/// How reading the header block at the start of `b` fails, if it does: the
/// first of its fields, in order, that is cut short or not valid UTF-8.
pub open spec fn header_error(b: Seq<u8>) -> Option<ParseError> {
    first_error(field_error(b, Field::Name),
    first_error(field_error(b, Field::Mode),
    first_error(field_error(b, Field::Uid),
    first_error(field_error(b, Field::Gid),
    first_error(field_error(b, Field::Size),
    first_error(field_error(b, Field::Mtime),
    first_error(field_error(b, Field::Chksum),
    first_error(field_error(b, Field::Typeflag),
    first_error(field_error(b, Field::Linkname),
    first_error(ustar_error(b.skip(USTAR_START as int)),
    field_error(b, Field::Padding)))))))))))
}

/// `h` is what the header block at the start of `b` decodes to.
pub open spec fn header_matches(h: PosixHeader, b: Seq<u8>) -> bool {
    &&& h.name@ == field_text(b, Field::Name)
    &&& h.mode@ == field_text(b, Field::Mode)
    &&& h.uid@ == field_text(b, Field::Uid)
    &&& h.gid@ == field_text(b, Field::Gid)
    &&& h.size@ == field_text(b, Field::Size)
    &&& h.mtime@ == field_text(b, Field::Mtime)
    &&& h.chksum@ == field_text(b, Field::Chksum)
    &&& h.typeflag == b[Field::Typeflag.start() as int] as char
    &&& h.linkname@ == field_text(b, Field::Linkname)
    &&& ustar_matches(h.ustar, b.skip(USTAR_START as int))
}

/// Reads a ustar extension record from the front of `b`. All of its bytes
/// are consumed whether or not the magic is recognised.
pub fn parse_ustar<'a>(b: &'a [u8]) -> (r: Result<(&'a [u8], Option<UStarHeader<'a>>), ParseError>)
    ensures
        match r {
            Ok((rest, u)) => {
                &&& ustar_error(b@) is None
                &&& ustar_matches(u, b@)
                &&& rest@ == b@.skip(USTAR_LEN as int)
            },
            Err(e) => ustar_error(b@) == Some(e),
        },
{
    let magic = match take_text(b, Field::Magic) {
        Ok(t) => t,
        Err(e) => return Err(e),
    };
    let version = match take_text(b, Field::Version) {
        Ok(t) => t,
        Err(e) => return Err(e),
    };
    let uname = match take_text(b, Field::Uname) {
        Ok(t) => t,
        Err(e) => return Err(e),
    };
    let gname = match take_text(b, Field::Gname) {
        Ok(t) => t,
        Err(e) => return Err(e),
    };
    let devmajor = match take_text(b, Field::Devmajor) {
        Ok(t) => t,
        Err(e) => return Err(e),
    };
    let devminor = match take_text(b, Field::Devminor) {
        Ok(t) => t,
        Err(e) => return Err(e),
    };
    let prefix = match take_text(b, Field::Prefix) {
        Ok(t) => t,
        Err(e) => return Err(e),
    };
    let rest = slice_subrange(b, USTAR_LEN, b.len());
    let recognised = b[0] == 0x75u8 && b[1] == 0x73u8 && b[2] == 0x74u8 && b[3] == 0x61u8
        && b[4] == 0x72u8 && b[5] == 0x00u8;
    proof {
        assert(recognised == has_ustar_magic(b@)) by {
            if has_ustar_magic(b@) {
                assert(field_bytes(b@, Field::Magic)[0] == b@[0]);
                assert(field_bytes(b@, Field::Magic)[5] == b@[5]);
            }
            if recognised {
                assert(field_bytes(b@, Field::Magic) =~= ustar_magic_bytes());
            }
        }
    }
    if recognised {
        proof {
            lemma_ustar_magic_text(b@);
        }
        let u = UStarHeader {
            magic: magic.substring_char(0, 5),
            version,
            uname,
            gname,
            devmajor,
            devminor,
            prefix,
        };
        Ok((rest, Some(u)))
    } else {
        Ok((rest, None))
    }
}

/// Reads one header block from the front of `b`: its fields in order, the
/// ustar extension record, and the padding that ends the block.
pub fn parse_header<'a>(b: &'a [u8]) -> (r: Result<(&'a [u8], PosixHeader<'a>), ParseError>)
    ensures
        match r {
            Ok((rest, h)) => {
                &&& header_error(b@) is None
                &&& header_matches(h, b@)
                &&& rest@ == b@.skip(BLOCK_LEN as int)
            },
            Err(e) => header_error(b@) == Some(e),
        },
{
    let name = match take_text(b, Field::Name) {
        Ok(t) => t,
        Err(e) => return Err(e),
    };
    let mode = match take_text(b, Field::Mode) {
        Ok(t) => t,
        Err(e) => return Err(e),
    };
    let uid = match take_text(b, Field::Uid) {
        Ok(t) => t,
        Err(e) => return Err(e),
    };
    let gid = match take_text(b, Field::Gid) {
        Ok(t) => t,
        Err(e) => return Err(e),
    };
    let size = match take_text(b, Field::Size) {
        Ok(t) => t,
        Err(e) => return Err(e),
    };
    let mtime = match take_text(b, Field::Mtime) {
        Ok(t) => t,
        Err(e) => return Err(e),
    };
    let chksum = match take_text(b, Field::Chksum) {
        Ok(t) => t,
        Err(e) => return Err(e),
    };
    let (flag_at, _) = Field::Typeflag.span();
    if b.len() <= flag_at {
        return Err(ParseError::Incomplete(Field::Typeflag));
    }
    let typeflag = b[flag_at] as char;
    let linkname = match take_text(b, Field::Linkname) {
        Ok(t) => t,
        Err(e) => return Err(e),
    };
    let record = slice_subrange(b, USTAR_START, b.len());
    let ustar = match parse_ustar(record) {
        Ok((_, u)) => u,
        Err(e) => return Err(e),
    };
    if b.len() < BLOCK_LEN {
        return Err(ParseError::Incomplete(Field::Padding));
    }
    let rest = slice_subrange(b, BLOCK_LEN, b.len());
    let h = PosixHeader { name, mode, uid, gid, size, mtime, chksum, typeflag, linkname, ustar };
    Ok((rest, h))
}

proof fn lemma_ustar_magic_text(b: Seq<u8>)
    requires
        has_ustar_magic(b),
    ensures
        field_text(b, Field::Magic).len() == 6,
        field_text(b, Field::Magic).subrange(0, 5) == ustar_magic_text(),
{
    lemma_ascii_decode(field_bytes(b, Field::Magic));
    assert(field_text(b, Field::Magic).subrange(0, 5) =~= ustar_magic_text());
}

proof fn lemma_ascii_field(b: Seq<u8>, f: Field)
    requires
        is_ascii_bytes(b),
    ensures
        field_error(b, f) is None || field_error(b, f) == Some(ParseError::Incomplete(f)),
{
    if b.len() >= f.end() {
        let fb = field_bytes(b, f);
        assert(is_ascii_bytes(fb)) by {
            assert forall|k: int| 0 <= k < fb.len() implies fb[k] < 0x80 by {
                assert(fb[k] == b[f.start() + k]);
            }
        }
        lemma_ascii_decode(fb);
    }
}

/// Input shorter than a block never reads as a header; when its bytes are
/// all ASCII, the error is that the input ended early. A block that reads
/// without error and is the whole input leaves nothing over.
pub proof fn lemma_block_length(b: Seq<u8>)
    ensures
        b.len() < BLOCK_LEN ==> header_error(b) is Some,
        b.len() < BLOCK_LEN && is_ascii_bytes(b) ==> header_error(b) matches Some(
            ParseError::Incomplete(_),
        ),
        b.len() == BLOCK_LEN && header_error(b) is None ==> b.skip(BLOCK_LEN as int).len() == 0,
{
    if b.len() < BLOCK_LEN && is_ascii_bytes(b) {
        lemma_ascii_field(b, Field::Name);
        lemma_ascii_field(b, Field::Mode);
        lemma_ascii_field(b, Field::Uid);
        lemma_ascii_field(b, Field::Gid);
        lemma_ascii_field(b, Field::Size);
        lemma_ascii_field(b, Field::Mtime);
        lemma_ascii_field(b, Field::Chksum);
        lemma_ascii_field(b, Field::Typeflag);
        lemma_ascii_field(b, Field::Linkname);
        lemma_ascii_field(b, Field::Padding);
        let u = b.skip(USTAR_START as int);
        if b.len() >= USTAR_START {
            assert(is_ascii_bytes(u)) by {
                assert forall|k: int| 0 <= k < u.len() implies u[k] < 0x80 by {
                    assert(u[k] == b[USTAR_START + k]);
                }
            }
            lemma_ascii_field(u, Field::Magic);
            lemma_ascii_field(u, Field::Version);
            lemma_ascii_field(u, Field::Uname);
            lemma_ascii_field(u, Field::Gname);
            lemma_ascii_field(u, Field::Devmajor);
            lemma_ascii_field(u, Field::Devminor);
            lemma_ascii_field(u, Field::Prefix);
        }
    }
}

proof fn lemma_text_field_reencodes(b: Seq<u8>, f: Field)
    requires
        field_error(b, f) is None,
        f.is_text(),
    ensures
        encode_utf8(field_text(b, f)) == field_bytes(b, f),
{
    decode_utf8_encode_utf8(field_bytes(b, f));
}

/// Writing back the UTF-8 encoding of each text of a header that was read
/// from `b` gives exactly the bytes of its field, and the type flag is the
/// code of the byte it was read from. Of a ustar record, the magic text
/// followed by a NUL byte gives the magic field.
pub proof fn lemma_fields_reencode(h: PosixHeader, b: Seq<u8>)
    requires
        header_error(b) is None,
        header_matches(h, b),
    ensures
        encode_utf8(h.name@) == field_bytes(b, Field::Name),
        encode_utf8(h.mode@) == field_bytes(b, Field::Mode),
        encode_utf8(h.uid@) == field_bytes(b, Field::Uid),
        encode_utf8(h.gid@) == field_bytes(b, Field::Gid),
        encode_utf8(h.size@) == field_bytes(b, Field::Size),
        encode_utf8(h.mtime@) == field_bytes(b, Field::Mtime),
        encode_utf8(h.chksum@) == field_bytes(b, Field::Chksum),
        h.typeflag as u32 == field_bytes(b, Field::Typeflag)[0] as u32,
        encode_utf8(h.linkname@) == field_bytes(b, Field::Linkname),
        h.ustar matches Some(u) ==> {
            let r = b.skip(USTAR_START as int);
            &&& encode_utf8(u.magic@).push(0u8) == field_bytes(r, Field::Magic)
            &&& encode_utf8(u.version@) == field_bytes(r, Field::Version)
            &&& encode_utf8(u.uname@) == field_bytes(r, Field::Uname)
            &&& encode_utf8(u.gname@) == field_bytes(r, Field::Gname)
            &&& encode_utf8(u.devmajor@) == field_bytes(r, Field::Devmajor)
            &&& encode_utf8(u.devminor@) == field_bytes(r, Field::Devminor)
            &&& encode_utf8(u.prefix@) == field_bytes(r, Field::Prefix)
        },
{
    lemma_text_field_reencodes(b, Field::Name);
    lemma_text_field_reencodes(b, Field::Mode);
    lemma_text_field_reencodes(b, Field::Uid);
    lemma_text_field_reencodes(b, Field::Gid);
    lemma_text_field_reencodes(b, Field::Size);
    lemma_text_field_reencodes(b, Field::Mtime);
    lemma_text_field_reencodes(b, Field::Chksum);
    lemma_text_field_reencodes(b, Field::Linkname);
    assert(field_bytes(b, Field::Typeflag)[0] == b[156]);
    if h.ustar is Some {
        let r = b.skip(USTAR_START as int);
        lemma_text_field_reencodes(r, Field::Version);
        lemma_text_field_reencodes(r, Field::Uname);
        lemma_text_field_reencodes(r, Field::Gname);
        lemma_text_field_reencodes(r, Field::Devmajor);
        lemma_text_field_reencodes(r, Field::Devminor);
        lemma_text_field_reencodes(r, Field::Prefix);
        let m = ustar_magic_text();
        is_ascii_chars_encode_utf8(m);
        assert(encode_utf8(m).push(0u8) =~= ustar_magic_bytes());
    }
}

} // verus!
