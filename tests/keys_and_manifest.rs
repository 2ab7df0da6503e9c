use s3ar::error::{Error, StaticStrError, StringError};
use s3ar::file_entry::FileEntry;
use s3ar::key_resolver::{data_key, manifest_key};
use s3ar::manifest::{
    append_manifest_line, build_manifest, parse_decimal, parse_manifest, parse_manifest_line,
    push_decimal,
    INVALID_SIZE, NO_PATH,
};

fn static_message(r: Result<FileEntry, Error>) -> &'static str {
    match r {
        Err(Error::StaticStr(e)) => e.message(),
        other => panic!("unexpected result {:?}", other),
    }
}

#[test]
fn data_key_appends_data_dir_and_path() {
    assert_eq!(data_key("backup/", "a/b.txt"), "backup/data/a/b.txt");
    assert_eq!(data_key("", "x"), "data/x");
    assert_eq!(data_key("p", "x"), "pdata/x");
}

#[test]
fn manifest_key_appends_manifest() {
    assert_eq!(manifest_key("backup/"), "backup/manifest");
    assert_eq!(manifest_key(""), "manifest");
}

#[test]
fn decimal_digits() {
    let mut out = Vec::new();
    push_decimal(0, &mut out);
    assert_eq!(out, b"0".to_vec());
    let mut out = b"x".to_vec();
    push_decimal(1234567, &mut out);
    assert_eq!(out, b"x1234567".to_vec());
    let mut out = Vec::new();
    push_decimal(usize::MAX, &mut out);
    assert_eq!(out, usize::MAX.to_string().into_bytes());
}

#[test]
fn single_small_file_manifest() {
    let entries = vec![FileEntry::new("a.txt".to_string(), 5)];
    assert_eq!(build_manifest(&entries), b"5\ta.txt\n".to_vec());
}

#[test]
fn nested_files_manifest_has_one_line_each() {
    let entries = vec![
        FileEntry::new("a/b/c.txt".to_string(), 3),
        FileEntry::new("a/b/d.txt".to_string(), 0),
        FileEntry::new("a/e.txt".to_string(), 16777216),
    ];
    let m = build_manifest(&entries);
    assert_eq!(m, b"3\ta/b/c.txt\n0\ta/b/d.txt\n16777216\ta/e.txt\n".to_vec());
    let text = String::from_utf8(m).unwrap();
    let parsed: Vec<FileEntry> = text.lines().map(|l| parse_manifest_line(l).unwrap()).collect();
    assert_eq!(parsed.len(), 3);
    for (p, e) in parsed.iter().zip(entries.iter()) {
        assert_eq!(p.path(), e.path());
        assert_eq!(p.size(), e.size());
    }
}

#[test]
fn empty_manifest() {
    assert_eq!(build_manifest(&Vec::new()), Vec::<u8>::new());
}

#[test]
fn append_line_keeps_earlier_lines() {
    let mut m = b"1\tx\n".to_vec();
    append_manifest_line(&mut m, &FileEntry::new("y z".to_string(), 42));
    assert_eq!(m, b"1\tx\n42\ty z\n".to_vec());
}

#[test]
fn parse_line_splits_at_first_tab() {
    let e = parse_manifest_line("5\ta.txt").unwrap();
    assert_eq!(e.size(), 5);
    assert_eq!(e.path(), "a.txt");
    let e = parse_manifest_line("7\tdir/with\ttab").unwrap();
    assert_eq!(e.size(), 7);
    assert_eq!(e.path(), "dir/with\ttab");
    let e = parse_manifest_line("0\t\u{e9}t\u{e9}.txt").unwrap();
    assert_eq!(e.size(), 0);
    assert_eq!(e.path(), "\u{e9}t\u{e9}.txt");
    let e = parse_manifest_line("12\t").unwrap();
    assert_eq!(e.path(), "");
}

#[test]
fn parse_line_round_trips_written_line() {
    let entry = FileEntry::new("big.bin".to_string(), 34603008);
    let mut m = Vec::new();
    append_manifest_line(&mut m, &entry);
    let text = String::from_utf8(m).unwrap();
    let e = parse_manifest_line(text.trim_end_matches('\n')).unwrap();
    assert_eq!(e.size(), 34603008);
    assert_eq!(e.path(), "big.bin");
}

#[test]
fn parse_line_rejects_bad_size() {
    assert_eq!(static_message(parse_manifest_line("x\ta")), INVALID_SIZE);
    assert_eq!(static_message(parse_manifest_line("\ta")), INVALID_SIZE);
    assert_eq!(static_message(parse_manifest_line("-1\ta")), INVALID_SIZE);
    assert_eq!(static_message(parse_manifest_line("1 \ta")), INVALID_SIZE);
    assert_eq!(static_message(parse_manifest_line("")), INVALID_SIZE);
    assert_eq!(static_message(parse_manifest_line("abc")), INVALID_SIZE);
    let too_big = format!("{}0\ta", usize::MAX);
    assert_eq!(static_message(parse_manifest_line(&too_big)), INVALID_SIZE);
}

#[test]
fn parse_line_without_path_column() {
    assert_eq!(static_message(parse_manifest_line("12")), NO_PATH);
}

#[test]
fn parse_decimal_values() {
    assert_eq!(parse_decimal(b"0", 1), Some(0));
    assert_eq!(parse_decimal(b"0012", 4), Some(12));
    assert_eq!(parse_decimal(b"12x", 2), Some(12));
    assert_eq!(parse_decimal(b"12x", 3), None);
    assert_eq!(parse_decimal(b"12", 0), None);
    let max = usize::MAX.to_string();
    assert_eq!(parse_decimal(max.as_bytes(), max.len()), Some(usize::MAX));
    let over = format!("{}1", max);
    assert_eq!(parse_decimal(over.as_bytes(), over.len()), None);
}

#[test]
fn file_entry_getters() {
    let e = FileEntry::new("a/b".to_string(), 9);
    assert_eq!(e.path(), "a/b");
    assert_eq!(e.size(), 9);
}

#[test]
fn error_conversions() {
    match Error::from("boom") {
        Error::StaticStr(e) => assert_eq!(e.message(), "boom"),
        other => panic!("unexpected {:?}", other),
    }
    match Error::from("bad".to_string()) {
        Error::String(e) => assert_eq!(e.message(), "bad"),
        other => panic!("unexpected {:?}", other),
    }
    assert_eq!(StringError::from("s".to_string()).message(), "s");
    assert_eq!(StaticStrError::from("t").message(), "t");
    match Error::from(s3ar::chan_exec::Error::Recv) {
        Error::ChanExec(e) => assert_eq!(e, s3ar::chan_exec::Error::Recv),
        other => panic!("unexpected {:?}", other),
    }
}

#[test]
fn parse_whole_manifest() {
    let v = parse_manifest("5\ta.txt\n0\tempty\n").unwrap();
    assert_eq!(v.len(), 2);
    assert_eq!((v[0].size(), v[0].path()), (5, "a.txt"));
    assert_eq!((v[1].size(), v[1].path()), (0, "empty"));
    let v = parse_manifest("3\tlast").unwrap();
    assert_eq!(v.len(), 1);
    assert_eq!((v[0].size(), v[0].path()), (3, "last"));
    assert_eq!(parse_manifest("").unwrap().len(), 0);
}

#[test]
fn parse_manifest_reads_back_built_manifest() {
    let entries = vec![
        FileEntry::new("a/b/c.txt".to_string(), 3),
        FileEntry::new("tab\tin name".to_string(), 12),
        FileEntry::new("empty".to_string(), 0),
    ];
    let text = String::from_utf8(build_manifest(&entries)).unwrap();
    let v = parse_manifest(&text).unwrap();
    assert_eq!(v.len(), entries.len());
    for (p, e) in v.iter().zip(entries.iter()) {
        assert_eq!((p.size(), p.path()), (e.size(), e.path()));
    }
}

#[test]
fn parse_manifest_fails_on_bad_line() {
    assert_eq!(static_message_vec(parse_manifest("5\ta\nbad\tb\n")), INVALID_SIZE);
    assert_eq!(static_message_vec(parse_manifest("5\ta\n\n")), INVALID_SIZE);
    assert_eq!(static_message_vec(parse_manifest("5\ta\n7\n")), NO_PATH);
}

fn static_message_vec(r: Result<Vec<FileEntry>, Error>) -> &'static str {
    match r {
        Err(Error::StaticStr(e)) => e.message(),
        other => panic!("unexpected result {:?}", other),
    }
}
