use minikeyvalue::listing::{
    decode_hex, is_subvolume_dir, parse_query, valid, DecodeHexError, File, FileWrapper, Query,
};

fn file(name: &str, file_type: &str) -> File {
    File { name: name.to_string(), file_type: file_type.to_string(), time: String::new() }
}

#[test]
fn empty_query_is_a_plain_request() {
    assert_eq!(parse_query(""), Query::Plain);
}

#[test]
fn list_and_unlinked_operations() {
    assert_eq!(parse_query("list"), Query::Listing { unlinked: false, limit: 0 });
    assert_eq!(parse_query("unlinked"), Query::Listing { unlinked: true, limit: 0 });
}

#[test]
fn limit_clause_is_honoured() {
    assert_eq!(parse_query("list&limit=42"), Query::Listing { unlinked: false, limit: 42 });
    assert_eq!(parse_query("unlinked&limit=1"), Query::Listing { unlinked: true, limit: 1 });
    // The last limit clause wins.
    assert_eq!(parse_query("list&limit=1&limit=7"), Query::Listing { unlinked: false, limit: 7 });
}

#[test]
fn unknown_operations_are_refused() {
    assert_eq!(parse_query("link"), Query::BadOp);
    assert_eq!(parse_query("delete"), Query::BadOp);
    assert_eq!(parse_query("list&foo=1"), Query::BadOp);
}

#[test]
fn malformed_limits_are_refused() {
    assert_eq!(parse_query("list&limit=abc"), Query::BadLimit);
    assert_eq!(parse_query("list&limit="), Query::BadLimit);
    assert_eq!(parse_query("list&limit=12x4"), Query::BadLimit);
}

#[test]
fn oversized_limits_act_as_beyond_the_scan_cap() {
    // The scan refuses more than a million matching keys, so any limit of
    // more than seven digits behaves like this stand-in.
    assert_eq!(
        parse_query("list&limit=123456789"),
        Query::Listing { unlinked: false, limit: 1000001 }
    );
}

#[test]
fn decode_hex_handles_both_cases_and_errors() {
    assert_eq!(decode_hex("ff"), Ok(vec![255]));
    assert_eq!(decode_hex("00ab"), Ok(vec![0, 0xab]));
    assert_eq!(decode_hex("AB"), Ok(vec![0xab]));
    assert_eq!(decode_hex("f"), Err(DecodeHexError::OddLength));
    assert_eq!(decode_hex("zz"), Err(DecodeHexError::ParseInt));
}

#[test]
fn valid_accepts_two_digit_hex_directories() {
    assert!(valid(&file("5d", "directory")));
    assert!(valid(&file("ff", "directory")));
    assert!(!valid(&file("5d", "file")));
    assert!(!valid(&file("5", "directory")));
    assert!(!valid(&file("zz", "directory")));
    assert!(!valid(&file("abc", "directory")));
}

#[test]
fn subvolume_directories_are_recognized() {
    assert!(is_subvolume_dir(&file("sv03", "directory")));
    assert!(is_subvolume_dir(&file("sv99", "directory")));
    assert!(!is_subvolume_dir(&file("sv03", "file")));
    assert!(!is_subvolume_dir(&file("sv3", "directory")));
    assert!(!is_subvolume_dir(&file("xx03", "directory")));
    // only decimal labels name a sub-volume; a stray name with a comma or
    // letters must not reach the rebuild merge
    assert!(!is_subvolume_dir(&file("sv,3", "directory")));
    assert!(!is_subvolume_dir(&file("svxy", "directory")));
}

#[test]
fn file_wrapper_starts_empty() {
    let w = FileWrapper::new();
    assert!(w.0.is_empty());
}
