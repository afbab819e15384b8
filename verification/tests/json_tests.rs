use libsourcemap::errors::Error;
use libsourcemap::view::SourceMapView;

fn load(text: &str) -> SourceMapView {
    SourceMapView::json_from_slice(&text.as_bytes().to_vec()).expect("valid map must load")
}

fn load_err(text: &str) -> Error {
    match SourceMapView::json_from_slice(&text.as_bytes().to_vec()) {
        Ok(_) => panic!("expected a decode failure"),
        Err(e) => e,
    }
}

#[test]
fn two_lines_two_tokens() {
    // "AAAA;AACA": one token per generated line, both at column 0 of
    // source 0, original lines 0 and 1
    let v = load(r#"{"version":3,"sources":["a.js"],"names":[],"mappings":"AAAA;AACA"}"#);
    let m0 = v.lookup_token(0, 0).expect("line 0 must match");
    assert_eq!(m0.src_id, 0);
    assert_eq!(m0.line, 0);
    assert_eq!(m0.col, 0);
    assert_eq!(m0.src, b"a.js".to_vec());
    assert_eq!(m0.name, None);
    let m1 = v.lookup_token(1, 0).expect("line 1 must match");
    assert_eq!(m1.line, 1);
    assert_eq!(m1.col, 0);
}

#[test]
fn lookup_past_last_token_on_line() {
    let v = load(r#"{"version":3,"sources":["a.js"],"names":[],"mappings":"AAAA;AACA"}"#);
    // nearest-preceding semantics: far past the last token of line 0
    let m = v.lookup_token(0, 4096).expect("must fall back to the last token");
    assert_eq!(m.line, 0);
    assert_eq!(m.col, 0);
}

#[test]
fn lookup_before_any_token_is_none() {
    // no mapping on generated line 0 at all
    let v = load(r#"{"version":3,"sources":["a.js"],"names":[],"mappings":";AACA"}"#);
    assert!(v.lookup_token(0, 10).is_none());
}

#[test]
fn lookup_across_lines_takes_nearest_preceding() {
    // a line far past every mapping still matches the last token of the
    // table (nearest preceding by global order)
    let v = load(r#"{"version":3,"sources":["a.js"],"names":[],"mappings":";AACA"}"#);
    let m = v.lookup_token(5, 0).expect("must fall back across lines");
    assert_eq!(m.line, 1);
}

#[test]
fn first_of_equal_positions_wins() {
    // two groups standing on one generated position; the first one wins
    let v = load(r#"{"version":3,"sources":["a.js"],"names":[],"mappings":"AAAA,AACA"}"#);
    let m = v.lookup_token(0, 0).expect("must match");
    assert_eq!(m.line, 0);
}

#[test]
fn names_are_resolved() {
    let v = load(r#"{"version":3,"sources":["s.js"],"names":["foo"],"mappings":"AAAAA"}"#);
    let m = v.lookup_token(0, 0).expect("must match");
    assert_eq!(m.name, Some(b"foo".to_vec()));
}

#[test]
fn token_without_source_fails_lookup() {
    // a 1-field group advances the column but carries no source
    let v = load(r#"{"version":3,"sources":["s.js"],"names":[],"mappings":"A"}"#);
    assert!(v.lookup_token(0, 0).is_none());
}

#[test]
fn null_source_stored_as_empty_string() {
    let v = load(r#"{"version":3,"sources":[null],"names":[],"mappings":"AAAA"}"#);
    let m = v.lookup_token(0, 0).expect("must match");
    assert_eq!(m.src, Vec::<u8>::new());
}

#[test]
fn source_contents_lookup() {
    let v = load(
        r#"{"version":3,"sources":["a.js","b.js"],"names":[],"mappings":"","sourcesContent":[null,"hello"]}"#,
    );
    assert!(v.get_source_contents(0).is_none());
    assert_eq!(v.get_source_contents(1).map(|c| c.clone()), Some(b"hello".to_vec()));
    assert!(v.get_source_contents(2).is_none());
    assert!(v.get_source_contents(u32::MAX).is_none());
}

#[test]
fn short_contents_list_pads_with_none() {
    let v = load(
        r#"{"version":3,"sources":["a.js","b.js"],"names":[],"mappings":"","sourcesContent":["x"]}"#,
    );
    assert_eq!(v.get_source_contents(0).map(|c| c.clone()), Some(b"x".to_vec()));
    assert!(v.get_source_contents(1).is_none());
}

#[test]
fn unknown_fields_are_skipped() {
    let v = load(
        r#"{"version":3,"file":"out.js","sourceRoot":"/r","x_meta":{"a":[1,2,{"b":null}],"c":true},"sources":["a.js"],"names":[],"mappings":"AAAA"}"#,
    );
    assert!(v.lookup_token(0, 0).is_some());
}

#[test]
fn string_escapes_decode() {
    let v = load(r#"{"version":3,"sources":["aAb\n\"q\""],"names":[],"mappings":"AAAA"}"#);
    let m = v.lookup_token(0, 0).expect("must match");
    assert_eq!(m.src, b"aAb\n\"q\"".to_vec());
}

#[test]
fn surrogate_pair_decodes_to_utf8() {
    // U+1F600, written as a surrogate pair
    let v = load(r#"{"version":3,"sources":["😀"],"names":[],"mappings":"AAAA"}"#);
    let m = v.lookup_token(0, 0).expect("must match");
    assert_eq!(m.src, "\u{1F600}".as_bytes().to_vec());
}

#[test]
fn version_two_is_refused() {
    let e = load_err(r#"{"version":2,"sources":[],"names":[],"mappings":""}"#);
    assert_eq!(e, Error::UnsupportedVersion);
}

#[test]
fn missing_version_is_refused() {
    let e = load_err(r#"{"sources":[],"names":[],"mappings":""}"#);
    assert_eq!(e, Error::UnsupportedVersion);
}

#[test]
fn two_field_group_is_refused() {
    let e = load_err(r#"{"version":3,"sources":["a"],"names":[],"mappings":"AA"}"#);
    assert_eq!(e, Error::InvalidMappingGroup);
}

#[test]
fn three_field_group_is_refused() {
    let e = load_err(r#"{"version":3,"sources":["a"],"names":[],"mappings":"AAA"}"#);
    assert_eq!(e, Error::InvalidMappingGroup);
}

#[test]
fn negative_column_is_refused() {
    // 'D' stands for -1: the running column would leave its range
    let e = load_err(r#"{"version":3,"sources":["a"],"names":[],"mappings":"D"}"#);
    assert_eq!(e, Error::InvalidMappingGroup);
}

#[test]
fn source_index_out_of_range_is_refused() {
    // the group names source 1, but only one source exists
    let e = load_err(r#"{"version":3,"sources":["a"],"names":[],"mappings":"ACAA"}"#);
    assert_eq!(e, Error::InvalidMappingGroup);
}

#[test]
fn bad_vlq_byte_in_mappings() {
    let e = load_err(r#"{"version":3,"sources":["a"],"names":[],"mappings":"A!A"}"#);
    assert_eq!(e, Error::MalformedVlq);
}

#[test]
fn truncated_vlq_in_mappings() {
    // 'g' never ends its value
    let e = load_err(r#"{"version":3,"sources":["a"],"names":[],"mappings":"g"}"#);
    assert_eq!(e, Error::TruncatedVlq);
}

#[test]
fn not_json_is_refused() {
    assert_eq!(load_err("[1, 2"), Error::InvalidJson);
    assert_eq!(load_err(""), Error::InvalidJson);
    assert_eq!(load_err("{\"version\":3"), Error::InvalidJson);
    assert_eq!(load_err("{\"version\":3} trailing"), Error::InvalidJson);
}

#[test]
fn duplicate_field_last_wins() {
    let v = load(
        r#"{"version":3,"sources":["a"],"names":[],"mappings":"AAAA;AAAA","mappings":"AAAA"}"#,
    );
    assert!(v.lookup_token(0, 0).is_some());
    assert!(v.lookup_token(1, 0).map(|m| m.line) == Some(0));
}

#[test]
fn out_of_order_mappings_are_sorted() {
    // columns 4 then 0 inside one line ("IAAA,HACA": +4 then -3ish is
    // invalid; use explicit columns 4 and 0 via two lines of one segment)
    let v = load(r#"{"version":3,"sources":["a"],"names":[],"mappings":"IAAA,DACA"}"#);
    // first group: generated col 4, orig line 0; second: generated col
    // 4 - 1 = 3 < 4, orig line 1: decoded out of order, sorted at load
    let m = v.lookup_token(0, 3).expect("must match the earlier column");
    assert_eq!(m.line, 1);
    let m2 = v.lookup_token(0, 4).expect("must match the later column");
    assert_eq!(m2.line, 0);
}

#[test]
fn name_index_out_of_range_is_refused() {
    // a 5-field group names entry 0 of an empty name table
    let e = load_err(r#"{"version":3,"sources":["a"],"names":[],"mappings":"AAAAA"}"#);
    assert_eq!(e, Error::InvalidMappingGroup);
}

#[test]
fn empty_segments_are_allowed() {
    // lines 0 and 1 carry no mapping at all
    let v = load(r#"{"version":3,"sources":["a"],"names":[],"mappings":";;AAAA"}"#);
    let m = v.lookup_token(2, 0).expect("line 2 must match");
    assert_eq!(m.line, 0);
    assert!(v.lookup_token(1, 7).is_none());
}

#[test]
fn overflowing_delta_in_mappings_is_refused() {
    // a column delta of 33 magnitude bits
    let e = load_err(r#"{"version":3,"sources":["a"],"names":[],"mappings":"ggggggQAAA"}"#);
    assert_eq!(e, Error::VlqOverflow);
}

#[test]
fn empty_mappings_empty_document() {
    let v = load(r#"{"version":3,"sources":[],"names":[],"mappings":""}"#);
    assert!(v.lookup_token(0, 0).is_none());
    assert!(v.get_source_contents(0).is_none());
}
