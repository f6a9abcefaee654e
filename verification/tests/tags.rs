use tag_query::location::Location;
use tag_query::tags::{from_buf, is_header, read_line, LoadError, Tag};

fn location(file: &str, address: &str, extra: &str) -> Location {
    Location { file: file.into(), address: address.into(), extra: extra.into() }
}

#[test]
fn test_read_line() {
    assert_eq!(
        read_line("tag1\tpath/to/file.md\t42;\"\tvimwiki:path/to/file.md\\tpath/to/file.md#header").unwrap(),
        ("tag1".into(), Location {
            file: "path/to/file.md".into(),
            address: "42".into(),
            extra: "vimwiki:path/to/file.md\tpath/to/file.md#header".into(),
        })
    );
}

#[test]
fn test_is_header_vimwiki_headers() {
    assert!(is_header("!_TAG_FILE_FORMAT\t2"));
    assert!(is_header("!_TAG_FILE_SORTED\t1"));
    assert!(is_header("!_TAG_OUTPUT_MODE\tvimwiki-tags"));
    assert!(is_header("!_TAG_PROGRAM_AUTHOR\tVimwiki"));
    assert!(is_header("!_TAG_PROGRAM_NAME\tVimwiki Tags"));
    assert!(is_header("!_TAG_PROGRAM_URL\thttps://github.com/vimwiki/vimwiki"));
    assert!(is_header("!_TAG_PROGRAM_VERSION\t2.5"));
}

#[test]
fn test_is_header_bad_headers() {
    assert!(!is_header("!_T"));
    assert!(!is_header("!_TA"));
    assert!(!is_header("tag1\tpath/to/file.md	42;\"\tvimwiki:path/to/file.md\\tpath/to/file.md#header"));
}

#[test]
fn test_is_header_empty_header() {
    assert!(!is_header(""));
}

#[test]
fn test_from_buf() {
    let buf = b"
!_TAG_FILE_FORMAT\t2
!_TAG_FILE_SORTED\t1
!_TAG_OUTPUT_MODE\tvimwiki-tags
tag1\tpath/to/file1.md\t21;\"\tvimwiki:path/to/file1.md\\tpath/to/file1.md#header1
tag1\tpath/to/file2.md\t11;\"\tvimwiki:path/to/file2.md\\tpath/to/file2.md#header1
tag2\tpath/to/file1.md\t42;\"\tvimwiki:path/to/file1.md\\tpath/to/file1.md#header2
tag2\tpath/to/file2.md\t22;\"\tvimwiki:path/to/file2.md\\tpath/to/file2.md#header2
" as &[u8];
    let locations = from_buf(buf);
    assert_eq!(locations.unwrap(), vec![
        ("tag1".into(), Location {
            file: "path/to/file1.md".into(),
            address: "21".into(),
            extra: "vimwiki:path/to/file1.md\\tpath/to/file1.md#header1".into(),
        }),
        ("tag1".into(), Location {
            file: "path/to/file2.md".into(),
            address: "11".into(),
            extra: "vimwiki:path/to/file2.md\\tpath/to/file2.md#header1".into(),
        }),
        ("tag2".into(), Location {
            file: "path/to/file1.md".into(),
            address: "42".into(),
            extra: "vimwiki:path/to/file1.md\\tpath/to/file1.md#header2".into(),
        }),
        ("tag2".into(), Location {
            file: "path/to/file2.md".into(),
            address: "22".into(),
            extra: "vimwiki:path/to/file2.md\\tpath/to/file2.md#header2".into(),
        })
    ]);
}

#[test]
fn test_from_buf_bad_format_line_3() {
    let buf = b"
!_TAG_FILE_FORMAT\t2
tag1\tpath/to/file1.md\t21;\"\tvimwiki:path/to/file1.md\\tpath/to/file1.md#header1
tag1\tpath/to/file2.md\t11;\"\tvimwiki:path/to/file2.md\\tpath/to/file2.md#header1
this is a bad line
" as &[u8];
    match from_buf(buf) {
        Err(e) if matches!(e, LoadError::BadLine(_)) => {
            assert_eq!(e.message(), "Failed to parse line: 'this is a bad line'");
        },
        Err(e) => assert!(false, "Expected a different io::Error, got {}", e.message()),
        Ok(_) => assert!(false, "Expected line 3 to cause error"),
    }
}

#[test]
fn read_line_keeps_every_field_as_written() {
    let (tag, place) = read_line("tag1\tnotes/a.md\t42;\"\tkind:header\tignored").unwrap();
    assert_eq!(tag, "tag1");
    assert_eq!(place.file, "notes/a.md");
    assert_eq!(place.address, "42");
    assert_eq!(place.extra, "kind:header");
}

#[test]
fn read_line_takes_every_marker_out_of_the_address() {
    let (_, place) = read_line("t\tf\t;\"/^a;\";b$/;\"\tx").unwrap();
    assert_eq!(place.address, "/^a;b$/");
    let (_, place) = read_line("t\tf\t;;\"\"\tx").unwrap();
    assert_eq!(place.address, ";\"");
    let (_, place) = read_line("t\tf\t12;\tx").unwrap();
    assert_eq!(place.address, "12;");
}

#[test]
fn read_line_leaves_the_marker_in_other_fields() {
    let (tag, place) = read_line("t;\"\tf;\"\t1\tx;\"").unwrap();
    assert_eq!(tag, "t;\"");
    assert_eq!(place.file, "f;\"");
    assert_eq!(place.extra, "x;\"");
}

#[test]
fn read_line_accepts_empty_fields() {
    let (tag, place) = read_line("\t\t\t").unwrap();
    assert_eq!(tag, "");
    assert_eq!(place.file, "");
    assert_eq!(place.address, "");
    assert_eq!(place.extra, "");
}

#[test]
fn read_line_needs_four_fields() {
    assert!(read_line("").is_none());
    assert!(read_line("this is a bad line").is_none());
    assert!(read_line("tag\tfile\taddress").is_none());
    assert!(read_line("tag\tfile\taddress\t").is_some());
}

#[test]
fn read_line_handles_text_beyond_ascii() {
    let (tag, place) = read_line("étiquette\tnotes/été.md\t/^日本語$/;\"\t→").unwrap();
    assert_eq!(tag, "étiquette");
    assert_eq!(place.file, "notes/été.md");
    assert_eq!(place.address, "/^日本語$/");
    assert_eq!(place.extra, "→");
}

#[test]
fn is_header_looks_at_the_first_six_characters() {
    assert!(is_header("!_TAG_"));
    assert!(!is_header("!_TAG"));
    assert!(!is_header(" !_TAG_FILE_FORMAT"));
    assert!(!is_header("!_tag_file_format"));
    assert!(!is_header("!_TAGé"));
}

#[test]
fn from_buf_of_nothing_is_empty() {
    assert_eq!(from_buf(b""), Ok(vec![]));
    assert_eq!(from_buf(b"\n"), Ok(vec![]));
    assert_eq!(from_buf(b"only a first line"), Ok(vec![]));
}

#[test]
fn from_buf_passes_over_the_first_line_whatever_it_holds() {
    assert_eq!(from_buf(b"not a record\n"), Ok(vec![]));
    assert_eq!(from_buf(b"\xff\xfe\n"), Ok(vec![]));
    let pairs = from_buf(b"a\tskipped\t1\tx\nb\tkept\t2\ty\n").unwrap();
    assert_eq!(pairs.len(), 1);
    assert_eq!(pairs[0].0, "b");
    assert_eq!(pairs[0].1.file, "kept");
    assert_eq!(pairs[0].1.address, "2");
    assert_eq!(pairs[0].1.extra, "y");
}

#[test]
fn from_buf_reads_a_last_line_without_line_feed() {
    let pairs = from_buf(b"\nb\tkept\t2;\"\ty").unwrap();
    assert_eq!(pairs.len(), 1);
    assert_eq!(pairs[0].0, "b");
    assert_eq!(pairs[0].1.address, "2");
    assert_eq!(pairs[0].1.extra, "y");
}

#[test]
fn from_buf_drops_a_carriage_return_before_a_line_feed_only() {
    let pairs = from_buf(b"\r\nb\tf\t2\ty\r\nc\tg\t3\tz\r").unwrap();
    assert_eq!(pairs.len(), 2);
    assert_eq!(pairs[0].1.extra, "y");
    assert_eq!(pairs[1].1.extra, "z\r");
    let pairs = from_buf(b"\nb\tf\t2\ty\r\r\n").unwrap();
    assert_eq!(pairs[0].1.extra, "y\r");
}

#[test]
fn from_buf_fails_on_a_blank_line() {
    assert_eq!(from_buf(b"\n\n"), Err(LoadError::BadLine(String::new())));
    assert_eq!(from_buf(b"\nb\tf\t2\ty\n\nc\tg\t3\tz\n"), Err(LoadError::BadLine(String::new())));
}

#[test]
fn from_buf_fails_on_the_first_bad_line() {
    assert_eq!(
        from_buf(b"\nfirst bad\nsecond bad\n"),
        Err(LoadError::BadLine("first bad".into()))
    );
    assert_eq!(from_buf(b"\n\xc3\x28\nbad\n"), Err(LoadError::InvalidData));
    assert_eq!(from_buf(b"\nbad\n\xc3\x28\n"), Err(LoadError::BadLine("bad".into())));
}

#[test]
fn from_buf_fails_on_bytes_that_are_not_utf8() {
    assert_eq!(from_buf(b"\ntag\tfile\t1\t\xff\n"), Err(LoadError::InvalidData));
    assert_eq!(from_buf(b"\n!_TAG_\x80\n"), Err(LoadError::InvalidData));
    assert_eq!(from_buf(b"\ntag\tfile\t1\t\xe2\x82"), Err(LoadError::InvalidData));
}

#[test]
fn from_buf_decodes_utf8() {
    let pairs = from_buf("\nétiquette\tété.md\t1;\"\t日本語\n".as_bytes()).unwrap();
    assert_eq!(pairs.len(), 1);
    let expected: Tag = "étiquette".into();
    assert_eq!(pairs[0].0, expected);
    assert_eq!(pairs[0].1.file, "été.md");
    assert_eq!(pairs[0].1.extra, "日本語");
}

#[test]
fn from_buf_keeps_the_order_of_the_lines() {
    let pairs = from_buf(b"\nz\tf\t9\tx\n!_TAG_FILE_SORTED\t0\na\tf\t1\ty\nz\tf\t9\tw\n").unwrap();
    let tags: Vec<&str> = pairs.iter().map(|pair| pair.0.as_str()).collect();
    assert_eq!(tags, vec!["z", "a", "z"]);
    assert_eq!(pairs[0].1, location("f", "9", ""));
    assert_eq!(pairs[2].1.extra, "w");
}

#[test]
fn load_error_messages() {
    assert_eq!(LoadError::InvalidData.message(), "stream did not contain valid UTF-8");
    assert_eq!(LoadError::BadLine("x\ty".into()).message(), "Failed to parse line: 'x\ty'");
    assert_eq!(LoadError::BadLine(String::new()).message(), "Failed to parse line: ''");
}
