use img_hash_linker::dictionary::{
    add_entry_to_data_file, columns_from_lowered, entries_from_rows, find_columns, is_dictionary_extension,
    load_data_from_csv, DictionaryError,
};
use img_hash_linker::resolve_link;

fn s(v: &str) -> String {
    v.to_string()
}

fn pair(h: &str, l: &str) -> (String, String) {
    (s(h), s(l))
}

#[test]
fn loads_named_columns_ignoring_extra() {
    let content = b"hash,link,note\n\"abc123\",\"https://x.test\",\"n\"\n";
    let d = load_data_from_csv(content).unwrap();
    assert_eq!(d, vec![pair("abc123", "https://x.test")]);
}

#[test]
fn loads_two_unnamed_columns_in_order() {
    let content = b"a,b\nff00, https://y.test \n";
    let d = load_data_from_csv(content).unwrap();
    assert_eq!(d, vec![pair("ff00", "https://y.test")]);
}

#[test]
fn column_names_ignore_case_and_position() {
    let content = b"note,LINK,Hash\nx,https://z.test,0a0a\n";
    let d = load_data_from_csv(content).unwrap();
    assert_eq!(d, vec![pair("0a0a", "https://z.test")]);
}

#[test]
fn missing_columns_are_an_error() {
    let content = b"a,b,c\n1,2,3\n";
    assert_eq!(load_data_from_csv(content), Err(DictionaryError::MissingColumns));
    assert_eq!(load_data_from_csv(b""), Err(DictionaryError::MissingColumns));
}

#[test]
fn invalid_rows_are_skipped() {
    let content = b"hash,link\n,https://a.test\nab,\ncd,not a url\nef,https://ok.test\n";
    let d = load_data_from_csv(content).unwrap();
    assert_eq!(d, vec![pair("ef", "https://ok.test")]);
}

#[test]
fn no_valid_rows_is_one_error() {
    let content = b"hash,link\nab,not a url\ncd,also bad\n";
    assert_eq!(load_data_from_csv(content), Err(DictionaryError::NoValidEntries));
}

#[test]
fn ragged_rows_are_malformed() {
    let content = b"hash,link\nab,https://a.test,extra\n";
    assert_eq!(load_data_from_csv(content), Err(DictionaryError::MalformedCsv));
}

#[test]
fn short_rows_are_reported() {
    let rows = vec![vec![s("ab")]];
    assert_eq!(entries_from_rows(&rows, 0, 1), Err(DictionaryError::RowTooShort));
    let rows = vec![vec![s(" ab "), s(" https://a.test ")]];
    assert_eq!(entries_from_rows(&rows, 0, 1), Ok(vec![pair("ab", "https://a.test")]));
}

#[test]
fn column_lookup_takes_last_match() {
    let names = vec![s("hash"), s("link"), s("hash")];
    assert_eq!(columns_from_lowered(&names), Some((2, 1)));
    let names = vec![s("x"), s("y")];
    assert_eq!(columns_from_lowered(&names), Some((0, 1)));
    let names = vec![s("HASH"), s("x"), s("Link")];
    assert_eq!(columns_from_lowered(&names), None);
    assert_eq!(find_columns(&names), Some((0, 2)));
}

#[test]
fn new_file_gets_header_and_rows() {
    let bytes = add_entry_to_data_file(vec![pair("abc", "https://a.test")], None).unwrap();
    assert_eq!(bytes, b"hash,link\nabc,https://a.test\n".to_vec());
}

#[test]
fn append_then_load_round_trips() {
    let bytes = add_entry_to_data_file(vec![pair("0f0f", "https://r.test/x?y=1")], None).unwrap();
    let d = load_data_from_csv(&bytes).unwrap();
    assert_eq!(d, vec![pair("0f0f", "https://r.test/x?y=1")]);
}

#[test]
fn append_after_missing_newline_starts_a_row() {
    let mut file = b"hash,link\nab,https://a.test".to_vec();
    let added = add_entry_to_data_file(vec![pair("cd", "https://c.test")], Some(file.clone())).unwrap();
    assert_eq!(added, b"\ncd,https://c.test\n".to_vec());
    file.extend_from_slice(&added);
    let d = load_data_from_csv(&file).unwrap();
    assert_eq!(d, vec![pair("ab", "https://a.test"), pair("cd", "https://c.test")]);
}

#[test]
fn append_fills_extra_columns_blank() {
    let file = b"note,link,hash\n".to_vec();
    let added = add_entry_to_data_file(vec![pair("ee", "https://e.test")], Some(file)).unwrap();
    assert_eq!(added, b",https://e.test,ee\n".to_vec());
}

#[test]
fn append_nothing_is_a_no_op() {
    let file = b"hash,link\nab,https://a.test\n".to_vec();
    assert_eq!(add_entry_to_data_file(Vec::new(), Some(file)), Ok(Vec::new()));
    assert_eq!(add_entry_to_data_file(Vec::new(), None), Ok(b"hash,link\n".to_vec()));
}

#[test]
fn append_needs_columns() {
    let file = b"a,b,c\n".to_vec();
    let r = add_entry_to_data_file(vec![pair("ab", "https://a.test")], Some(file));
    assert_eq!(r, Err(DictionaryError::MissingColumns));
}

#[test]
fn append_quotes_fields_that_need_it() {
    let added = add_entry_to_data_file(vec![pair("a,b", "https://q.test")], None).unwrap();
    let d = load_data_from_csv(&added).unwrap();
    assert_eq!(d, vec![pair("a,b", "https://q.test")]);
}

#[test]
fn exact_lookup_returns_first_match() {
    let links = vec![pair("aa", "https://1.test"), pair("bb", "https://2.test"), pair("bb", "https://3.test")];
    assert_eq!(resolve_link(&links, &s("bb")), Some(s("https://2.test")));
    assert_eq!(resolve_link(&links, &s("cc")), None);
}

#[test]
fn only_csv_extension_is_a_dictionary() {
    assert!(is_dictionary_extension("csv"));
    assert!(!is_dictionary_extension("CSV"));
    assert!(!is_dictionary_extension("tsv"));
    assert!(!is_dictionary_extension(""));
}
