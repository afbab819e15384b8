use libsourcemap::errors::Error;
use libsourcemap::view::SourceMapView;

const MAP: &str = r#"{"version":3,"sources":["a.js","b.js"],"names":["foo","bar"],"mappings":"AAAAA;AACAC,gBACA","sourcesContent":["const a;",null]}"#;

fn load_json() -> SourceMapView {
    SourceMapView::json_from_slice(&MAP.as_bytes().to_vec()).expect("valid map must load")
}

#[test]
fn memdb_roundtrip_preserves_document() {
    let v = load_json();
    let dump = v.dump_memdb();
    let v2 = SourceMapView::memdb_from_vec(dump.clone()).expect("own dump must decode");
    // byte-identical re-encoding: the decoded document equals the
    // original one, and encoding is deterministic
    assert_eq!(v2.dump_memdb(), dump);
    // the reloaded document answers queries exactly as the JSON one
    for line in 0..3u32 {
        for col in 0..20u32 {
            let a = v.lookup_token(line, col);
            let b = v2.lookup_token(line, col);
            match (a, b) {
                (None, None) => {},
                (Some(x), Some(y)) => {
                    assert_eq!(x.line, y.line);
                    assert_eq!(x.col, y.col);
                    assert_eq!(x.src_id, y.src_id);
                    assert_eq!(x.src, y.src);
                    assert_eq!(x.name, y.name);
                },
                _ => panic!("JSON and memdb views disagree"),
            }
        }
    }
    for id in 0..3u32 {
        assert_eq!(v.get_source_contents(id), v2.get_source_contents(id));
    }
}

#[test]
fn memdb_roundtrip_without_contents() {
    let text = r#"{"version":3,"sources":["a.js"],"names":[],"mappings":"AAAA"}"#;
    let v = SourceMapView::json_from_slice(&text.as_bytes().to_vec()).unwrap();
    let dump = v.dump_memdb();
    let v2 = SourceMapView::memdb_from_vec(dump.clone()).unwrap();
    assert_eq!(v2.dump_memdb(), dump);
    assert!(v2.get_source_contents(0).is_none());
}

#[test]
fn memdb_dump_is_deterministic() {
    let a = load_json().dump_memdb();
    let b = load_json().dump_memdb();
    assert_eq!(a, b);
}

#[test]
fn truncation_at_every_offset_is_refused() {
    let dump = load_json().dump_memdb();
    for cut in 0..dump.len() {
        let prefix = dump[..cut].to_vec();
        match SourceMapView::memdb_from_vec(prefix) {
            Err(Error::TruncatedMemdb) => {},
            Err(e) => panic!("truncation at {} gave {:?}", cut, e),
            Ok(_) => panic!("truncation at {} was accepted", cut),
        }
    }
}

#[test]
fn trailing_bytes_are_refused() {
    let mut dump = load_json().dump_memdb();
    dump.push(0);
    assert!(matches!(
        SourceMapView::memdb_from_vec(dump),
        Err(Error::TruncatedMemdb)
    ));
}

#[test]
fn wrong_magic_is_refused() {
    let mut dump = load_json().dump_memdb();
    dump[0] = b'X';
    assert!(matches!(
        SourceMapView::memdb_from_vec(dump),
        Err(Error::UnsupportedMemdbVersion)
    ));
}

#[test]
fn wrong_version_is_refused() {
    let mut dump = load_json().dump_memdb();
    dump[4] = 2;
    assert!(matches!(
        SourceMapView::memdb_from_vec(dump),
        Err(Error::UnsupportedMemdbVersion)
    ));
}

#[test]
fn empty_buffer_is_refused() {
    assert!(matches!(
        SourceMapView::memdb_from_vec(Vec::new()),
        Err(Error::TruncatedMemdb)
    ));
}
