use tar_parser::{parse_entry, parse_header, parse_tar, parse_ustar, Field, ParseError};

fn put(block: &mut [u8], at: usize, text: &[u8]) {
    block[at..at + text.len()].copy_from_slice(text);
}

fn sample_block() -> Vec<u8> {
    let mut b = vec![0u8; 512];
    put(&mut b, 0, b"hello.txt");
    put(&mut b, 100, b"0000644");
    put(&mut b, 108, b"0001750");
    put(&mut b, 116, b"0000144");
    put(&mut b, 124, b"00000000014");
    put(&mut b, 136, b"14371475730");
    put(&mut b, 148, b"012345 ");
    b[156] = b'0';
    put(&mut b, 157, b"target");
    put(&mut b, 257, b"ustar\0");
    put(&mut b, 263, b"00");
    put(&mut b, 265, b"alice");
    put(&mut b, 297, b"staff");
    put(&mut b, 329, b"0000000");
    put(&mut b, 337, b"0000001");
    put(&mut b, 345, b"some/dir");
    b
}

fn padded(text: &str, width: usize) -> String {
    let mut s = String::from(text);
    while s.len() < width {
        s.push('\0');
    }
    s
}

#[test]
fn zero_block_has_nul_typeflag_and_no_ustar() {
    let b = vec![0u8; 512];
    let (rest, h) = parse_header(&b).unwrap();
    assert!(rest.is_empty());
    assert_eq!(h.typeflag, '\0');
    assert!(h.ustar.is_none());
    assert_eq!(h.name, padded("", 100));
    assert_eq!(h.size, padded("", 12));
}

#[test]
fn ustar_magic_gives_extension_record() {
    let b = sample_block();
    let (rest, h) = parse_header(&b).unwrap();
    assert!(rest.is_empty());
    let u = h.ustar.unwrap();
    assert_eq!(u.magic, "ustar");
    assert_eq!(u.version, "00");
    assert_eq!(u.uname, padded("alice", 32));
    assert_eq!(u.gname, padded("staff", 32));
    assert_eq!(u.devmajor, "0000000\0");
    assert_eq!(u.devminor, "0000001\0");
    assert_eq!(u.prefix, padded("some/dir", 155));
}

#[test]
fn other_magic_gives_no_extension_record() {
    let mut b = sample_block();
    put(&mut b, 257, b"ustar ");
    let (_, h) = parse_header(&b).unwrap();
    assert!(h.ustar.is_none());
    put(&mut b, 257, b"ustar\0");
    b[262] = b'x';
    let (_, h) = parse_header(&b).unwrap();
    assert!(h.ustar.is_none());
}

#[test]
fn header_fields_are_the_block_bytes() {
    let b = sample_block();
    let (_, h) = parse_header(&b).unwrap();
    assert_eq!(h.name, padded("hello.txt", 100));
    assert_eq!(h.mode, "0000644\0");
    assert_eq!(h.uid, "0001750\0");
    assert_eq!(h.gid, "0000144\0");
    assert_eq!(h.size, "00000000014\0");
    assert_eq!(h.mtime, "14371475730\0");
    assert_eq!(h.chksum, "012345 \0");
    assert_eq!(h.typeflag, '0');
    assert_eq!(h.linkname, padded("target", 100));
    assert_eq!(h.name.as_bytes(), &b[0..100]);
    assert_eq!(h.linkname.as_bytes(), &b[157..257]);
    assert_eq!(h.ustar.unwrap().prefix.as_bytes(), &b[345..500]);
}

#[test]
fn numeric_fields_decode_after_trimming() {
    let b = sample_block();
    let (_, h) = parse_header(&b).unwrap();
    assert_eq!(tar_parser::octal_to_u32(h.mode.trim_end_matches('\0')), 420);
    assert_eq!(tar_parser::octal_to_u32(h.size.trim_end_matches('\0')), 12);
}

#[test]
fn non_ascii_text_is_kept() {
    let mut b = sample_block();
    put(&mut b, 0, "caf\u{e9}".as_bytes());
    let (_, h) = parse_header(&b).unwrap();
    assert!(h.name.starts_with("caf\u{e9}.txt\0"));
    assert_eq!(h.name.chars().count(), 99);
}

#[test]
fn typeflag_takes_any_byte() {
    let mut b = sample_block();
    b[156] = 0xff;
    let (_, h) = parse_header(&b).unwrap();
    assert_eq!(h.typeflag, '\u{ff}');
}

#[test]
fn invalid_utf8_names_the_field() {
    let mut b = sample_block();
    b[3] = 0xff;
    assert_eq!(parse_header(&b).unwrap_err(), ParseError::InvalidUtf8(Field::Name));
    let mut b = sample_block();
    b[160] = 0xc3;
    assert_eq!(parse_header(&b).unwrap_err(), ParseError::InvalidUtf8(Field::Linkname));
    let mut b = sample_block();
    b[270] = 0x80;
    assert_eq!(parse_header(&b).unwrap_err(), ParseError::InvalidUtf8(Field::Uname));
}

#[test]
fn invalid_utf8_is_reported_even_without_magic() {
    let mut b = vec![0u8; 512];
    b[400] = 0xfe;
    assert_eq!(parse_header(&b).unwrap_err(), ParseError::InvalidUtf8(Field::Prefix));
}

#[test]
fn short_input_is_incomplete() {
    let b = vec![0u8; 511];
    assert_eq!(parse_header(&b).unwrap_err(), ParseError::Incomplete(Field::Padding));
    assert_eq!(parse_header(&b[..100]).unwrap_err(), ParseError::Incomplete(Field::Mode));
    assert_eq!(parse_header(&b[..156]).unwrap_err(), ParseError::Incomplete(Field::Typeflag));
    assert_eq!(parse_header(&b[..260]).unwrap_err(), ParseError::Incomplete(Field::Magic));
    assert_eq!(parse_header(&b[..499]).unwrap_err(), ParseError::Incomplete(Field::Prefix));
    assert_eq!(parse_header(&[]).unwrap_err(), ParseError::Incomplete(Field::Name));
}

#[test]
fn earlier_invalid_field_wins_over_short_input() {
    let mut b = vec![0u8; 300];
    b[10] = 0xff;
    assert_eq!(parse_header(&b).unwrap_err(), ParseError::InvalidUtf8(Field::Name));
}

#[test]
fn whole_block_leaves_nothing() {
    let b = sample_block();
    let (rest, _) = parse_header(&b).unwrap();
    assert_eq!(rest.len(), 0);
}

#[test]
fn ustar_record_is_consumed_either_way() {
    let mut r = vec![0u8; 250];
    r[243] = 7;
    let (rest, u) = parse_ustar(&r).unwrap();
    assert!(u.is_none());
    assert_eq!(rest, &r[243..]);
    put(&mut r, 0, b"ustar\0");
    let (rest, u) = parse_ustar(&r).unwrap();
    assert_eq!(u.unwrap().magic, "ustar");
    assert_eq!(rest, &[7u8, 0, 0, 0, 0, 0, 0][..]);
    assert_eq!(parse_ustar(&r[..242]).unwrap_err(), ParseError::Incomplete(Field::Prefix));
}

#[test]
fn entry_has_empty_contents() {
    let mut b = sample_block();
    b.extend_from_slice(b"tail");
    let (rest, e) = parse_entry(&b).unwrap();
    assert_eq!(e.contents, "");
    assert_eq!(e.header.typeflag, '0');
    assert_eq!(rest, b"tail");
}

#[test]
fn empty_archive() {
    let (rest, entries) = parse_tar(&[]);
    assert!(entries.is_empty());
    assert!(rest.is_empty());
}

#[test]
fn single_block_archive() {
    let b = sample_block();
    let (rest, entries) = parse_tar(&b);
    assert!(rest.is_empty());
    assert_eq!(entries.len(), 1);
    assert_eq!(entries[0].contents, "");
    let (_, h) = parse_header(&b).unwrap();
    assert_eq!(entries[0].header, h);
}

#[test]
fn archive_stops_at_first_unreadable_block() {
    let mut b = sample_block();
    b.extend_from_slice(&vec![0u8; 512]);
    b.extend_from_slice(&[1u8; 100]);
    let (rest, entries) = parse_tar(&b);
    assert_eq!(entries.len(), 2);
    assert_eq!(entries[1].header.typeflag, '\0');
    assert_eq!(rest.len(), 100);

    let mut c = sample_block();
    let mut bad = sample_block();
    bad[0] = 0xff;
    c.extend_from_slice(&bad);
    let (rest, entries) = parse_tar(&c);
    assert_eq!(entries.len(), 1);
    assert_eq!(rest, &bad[..]);
}
