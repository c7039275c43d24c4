use std::borrow::Cow;

use libmount::bind::{BindMount, MS_BIND, MS_REC};
use libmount::escape::{escape_octals, unescape_octals};
use libmount::fields::{parse_decimal, split_ranges};
use libmount::flags::{self, flag_of_option, flags_from_options};
use libmount::mountinfo::{parse_row, MountsParser, MountsParserError};

const PROC_LINE: &str = "19 24 0:4 / /proc rw,nosuid,nodev,noexec,relatime shared:12 - proc proc rw";

#[test]
fn octal_escapes_decode_to_their_bytes() {
    assert_eq!(unescape_octals(br"\040").unwrap().into_owned(), b" ".to_vec());
    assert_eq!(unescape_octals(br"\046").unwrap().into_owned(), b"&".to_vec());
    assert_eq!(unescape_octals(br"\134").unwrap().into_owned(), b"\\".to_vec());
    assert_eq!(unescape_octals(br"\011").unwrap().into_owned(), b"\t".to_vec());
    assert_eq!(unescape_octals(br"\012").unwrap().into_owned(), b"\n".to_vec());
    assert_eq!(unescape_octals(br"\377").unwrap().into_owned(), vec![0xffu8]);
    assert_eq!(unescape_octals(br"a\134040b").unwrap().into_owned(), b"a\\040b".to_vec());
}

#[test]
fn bare_or_malformed_backslash_is_invalid() {
    assert!(matches!(unescape_octals(br"a\b"), Err(MountsParserError::InvalidValue(_))));
    assert!(matches!(unescape_octals(br"\01"), Err(MountsParserError::InvalidValue(_))));
    assert!(matches!(unescape_octals(br"x\"), Err(MountsParserError::InvalidValue(_))));
    assert!(matches!(unescape_octals(br"\081"), Err(MountsParserError::InvalidValue(_))));
    assert!(matches!(unescape_octals(br"\400"), Err(MountsParserError::InvalidValue(_))));
    assert!(matches!(unescape_octals(br"\+12"), Err(MountsParserError::InvalidValue(_))));
}

#[test]
fn plain_field_is_borrowed_unchanged() {
    let field = b"/\xff\xfe plain";
    match unescape_octals(field).unwrap() {
        Cow::Borrowed(b) => assert_eq!(b, &field[..]),
        Cow::Owned(_) => panic!("a field without escapes is not copied"),
    }
    assert_eq!(unescape_octals(b"").unwrap().into_owned(), Vec::<u8>::new());
}

#[test]
fn escape_then_unescape_round_trips() {
    let raw = b"/home/my dir\twith\nodd\\name\xff".to_vec();
    let escaped = escape_octals(&raw);
    assert_eq!(escaped, br"/home/my\040dir\011with\012odd\134name".iter().copied().chain([0xffu8]).collect::<Vec<u8>>());
    assert!(!escaped.contains(&b' '));
    assert_eq!(unescape_octals(&escaped).unwrap().into_owned(), raw);
}

#[test]
fn reencoded_record_parses_the_same() {
    let line = br"76 24 8:6 / /home/my\040super\046name rw,relatime shared:29 - ext4 /dev/sda1 rw,data=ordered";
    let first = parse_row(line).unwrap();
    let rebuilt = [
        b"76 24 8:6 ".to_vec(),
        escape_octals(&first.root),
        b" ".to_vec(),
        escape_octals(&first.mount_point),
        b" ".to_vec(),
        escape_octals(&first.mount_options),
        b" ".to_vec(),
        escape_octals(&first.optional_fields),
        b" - ".to_vec(),
        escape_octals(&first.fstype),
        b" ".to_vec(),
        escape_octals(&first.mount_source),
        b" ".to_vec(),
        escape_octals(&first.super_options),
    ]
    .concat();
    let second = parse_row(&rebuilt).unwrap();
    assert_eq!(second.mount_point, b"/home/my super&name".to_vec());
    assert_eq!(second.mount_point, first.mount_point);
    assert_eq!(second.root, first.root);
    assert_eq!(second.mount_options, first.mount_options);
    assert_eq!(second.super_options, first.super_options);
}

#[test]
fn crlf_row_parses_like_lf_row() {
    let lf = parse_row(b"26 20 0:21 / /tmp rw shared:4 - tmpfs tmpfs rw").unwrap();
    let cr = parse_row(b"26 20 0:21 / /tmp rw shared:4 - tmpfs tmpfs rw\r").unwrap();
    assert_eq!(lf.super_options, b"rw".to_vec());
    assert_eq!(cr.super_options, lf.super_options);
    assert_eq!(cr.mount_point, lf.mount_point);
    let only_one_cr = parse_row(b"26 20 0:21 / /tmp rw shared:4 - tmpfs tmpfs rw\r\r").unwrap();
    assert_eq!(only_one_cr.super_options, b"rw\r".to_vec());
}

#[test]
fn incomplete_row_does_not_stop_later_rows() {
    let content = format!("19 24 0:4 / /proc rw shared:12 - proc proc\n{}\n", PROC_LINE);
    let mut parser = MountsParser::new(content.into_bytes());
    assert!(matches!(parser.next(), Some(Err(MountsParserError::IncompleteRow(_)))));
    let second = parser.next().unwrap().unwrap();
    assert_eq!(second.mount_id, 19);
    assert_eq!(second.super_options, b"rw".to_vec());
    assert!(parser.next().is_none());
}

#[test]
fn invalid_integer_affects_its_line_only() {
    let content = format!("19 24b 0:4 / /proc rw shared:12 - proc proc rw\n{}", PROC_LINE);
    let mut parser = MountsParser::new(content.into_bytes());
    assert!(matches!(parser.next(), Some(Err(MountsParserError::InvalidValue(_)))));
    assert_eq!(parser.next().unwrap().unwrap().parent_id, 24);
    assert!(parser.next().is_none());
}

#[test]
fn truncated_escape_is_invalid_value() {
    let r = parse_row(br"19 24 0:4 / /proc rw,nosuid shared:12 - proc proc rw\01");
    assert!(matches!(r, Err(MountsParserError::InvalidValue(_))));
}

#[test]
fn short_rows_are_incomplete() {
    for line in [&b"19"[..], b"19 24", b"19 24 0", b"19 24 0:4 /", b"19 24 0:4 / /p rw s:1"] {
        assert!(matches!(parse_row(line), Err(MountsParserError::IncompleteRow(_))));
    }
    assert!(matches!(parse_row(b""), Err(MountsParserError::InvalidValue(_))));
}

#[test]
fn wrong_separator_is_invalid_value() {
    let r = parse_row(b"19 24 0:4 / /proc rw shared:12 + proc proc rw");
    assert!(matches!(r, Err(MountsParserError::InvalidValue(_))));
    let r = parse_row(b"19 24 0:x / /proc rw shared:12 - proc proc rw");
    assert!(matches!(r, Err(MountsParserError::InvalidValue(_))));
}

#[test]
fn error_describes_the_row() {
    match parse_row(b"19 24b 0:4 / /proc rw shared:12 - proc proc rw") {
        Err(MountsParserError::InvalidValue(msg)) => assert!(msg.contains("19 24b 0:4 / /proc")),
        _ => panic!("expected an invalid value"),
    }
    match parse_row(b"19 24 0:4 /\xff") {
        Err(MountsParserError::IncompleteRow(msg)) => assert!(msg.contains("19 24 0:4 /\u{fffd}")),
        _ => panic!("expected an incomplete row"),
    }
}

#[test]
fn extra_columns_are_ignored() {
    let line = format!("{} extra", PROC_LINE);
    let r = parse_row(line.as_bytes()).unwrap();
    assert_eq!(r.super_options, b"rw".to_vec());
}

#[test]
fn empty_lines_and_trailing_newline() {
    let mut parser = MountsParser::new(b"\n".to_vec());
    assert!(matches!(parser.next(), Some(Err(MountsParserError::InvalidValue(_)))));
    assert!(parser.next().is_none());
    let mut empty = MountsParser::new(Vec::new());
    assert!(empty.next().is_none());
}

#[test]
fn decimal_columns() {
    assert_eq!(parse_decimal(b"0"), Some(0));
    assert_eq!(parse_decimal(b"007"), Some(7));
    assert_eq!(parse_decimal(b"18446744073709551615"), Some(u64::MAX));
    assert_eq!(parse_decimal(b"18446744073709551616"), None);
    assert_eq!(parse_decimal(b""), None);
    assert_eq!(parse_decimal(b"+1"), None);
    assert_eq!(parse_decimal(b"-1"), None);
    assert_eq!(parse_decimal(b"24b"), None);
}

#[test]
fn split_keeps_empty_pieces() {
    assert_eq!(split_ranges(b"a  b", b' '), vec![(0, 1), (2, 2), (3, 4)]);
    assert_eq!(split_ranges(b"", b' '), vec![(0, 0)]);
    assert_eq!(split_ranges(b"ab,", b','), vec![(0, 2), (3, 3)]);
}

#[test]
fn flags_of_proc_options() {
    let f = flags_from_options(b"rw,nosuid,nodev,noexec,relatime");
    assert_eq!(f, libc::MS_NOSUID | libc::MS_NODEV | libc::MS_NOEXEC | libc::MS_RELATIME);
    assert_eq!(f & libc::MS_RDONLY, 0);
    assert_eq!(flags_from_options(b"rw"), 0);
    assert_eq!(flags_from_options(b""), 0);
    assert_eq!(flags_from_options(b"ro,unknown,,sync"), libc::MS_RDONLY | libc::MS_SYNCHRONOUS);
    assert_eq!(flags_from_options(b"RO,nosuid2"), 0);
}

#[test]
fn every_option_maps_to_the_kernel_flag() {
    let cases: [(&[u8], u64); 11] = [
        (b"ro", libc::MS_RDONLY),
        (b"nosuid", libc::MS_NOSUID),
        (b"nodev", libc::MS_NODEV),
        (b"noexec", libc::MS_NOEXEC),
        (b"mand", libc::MS_MANDLOCK),
        (b"sync", libc::MS_SYNCHRONOUS),
        (b"dirsync", libc::MS_DIRSYNC),
        (b"noatime", libc::MS_NOATIME),
        (b"nodiratime", libc::MS_NODIRATIME),
        (b"relatime", libc::MS_RELATIME),
        (b"strictatime", libc::MS_STRICTATIME),
    ];
    for (word, flag) in cases {
        assert_eq!(flag_of_option(word), flag);
    }
    assert_eq!(flags::MS_RDONLY, libc::MS_RDONLY);
    assert_eq!(flags::MS_STRICTATIME, libc::MS_STRICTATIME);
    assert_eq!(flag_of_option(b"rw"), 0);
}

#[test]
fn end_to_end_proc_line() {
    let r = parse_row(PROC_LINE.as_bytes()).unwrap();
    assert_eq!((r.mount_id, r.parent_id, r.major, r.minor), (19, 24, 0, 4));
    assert_eq!(r.optional_fields, b"shared:12".to_vec());
    assert_eq!(r.get_flags(), libc::MS_NOSUID | libc::MS_NODEV | libc::MS_NOEXEC | libc::MS_RELATIME);
}

#[test]
fn bind_mount_flags() {
    let b = BindMount::new(b"/src", b"/dst");
    assert!(b.recursion());
    assert_eq!(b.mount_flags(), libc::MS_BIND | libc::MS_REC);
    assert_eq!(MS_BIND, libc::MS_BIND);
    assert_eq!(MS_REC, libc::MS_REC);
    assert_eq!(MS_BIND, nix::mount::MsFlags::MS_BIND.bits());
    assert_eq!(MS_REC, nix::mount::MsFlags::MS_REC.bits());
    let b = b.recursive(false);
    assert_eq!(b.mount_flags(), libc::MS_BIND);
    assert_eq!(b.source_path(), b"/src");
    assert_eq!(b.target_path(), b"/dst");
}
