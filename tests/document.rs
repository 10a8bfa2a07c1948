use wasm2map::sourcemap::strip_root_prefix;
use wasm2map::{LineRow, PositionTable, SourceMap};

fn row(address: u64, line: Option<u64>, column: Option<u64>, path: &str) -> LineRow {
    LineRow { address, line, column, path: Some(path.to_string()), end_sequence: false }
}

fn sample() -> PositionTable {
    let rows = vec![
        row(0, Some(1), Some(1), "src/a.rs"),
        row(3, None, Some(1), "src/gen.rs"),
        row(5, Some(2), Some(5), "src/b.rs"),
        row(9, Some(3), Some(2), "src/a.rs"),
        LineRow { address: 12, line: Some(9), column: None, path: None, end_sequence: false },
    ];
    PositionTable::build(&rows, 0).unwrap()
}

#[test]
fn mappings_are_deltas_from_previous_point() {
    let m = SourceMap::from_table(&sample(), None);
    assert_eq!(m.sources, vec!["src/a.rs".to_string(), "src/b.rs".to_string()]);
    assert_eq!(m.mappings, "AAAA,KCCI,IDCH");
}

#[test]
fn unattributed_points_leave_no_trace() {
    let rows = vec![row(0, Some(1), Some(1), "src/a.rs"), row(5, Some(2), Some(5), "src/b.rs"), row(9, Some(3), Some(2), "src/a.rs")];
    let without = SourceMap::from_table(&PositionTable::build(&rows, 0).unwrap(), None);
    let with = SourceMap::from_table(&sample(), None);
    assert_eq!(with.mappings, without.mappings);
    assert_eq!(with.sources, without.sources);
}

#[test]
fn document_json_has_fixed_members() {
    let m = SourceMap::from_table(&sample(), Some("app.wasm".to_string()));
    assert_eq!(
        m.to_json(),
        "{\"version\":3,\"file\":\"app.wasm\",\"sourceRoot\":\"\",\"names\":[],\"sources\":[\"src/a.rs\",\"src/b.rs\"],\"mappings\":\"AAAA,KCCI,IDCH\"}"
    );
}

#[test]
fn empty_table_gives_empty_document() {
    let m = SourceMap::from_table(&PositionTable::new(), None);
    assert_eq!(m.to_json(), "{\"version\":3,\"sourceRoot\":\"\",\"names\":[],\"sources\":[],\"mappings\":\"\"}");
}

#[test]
fn bundled_content_is_escaped_or_null() {
    let m = SourceMap::from_table(&sample(), None)
        .with_sources_content(vec![Some("fn a() {\n}\t\"x\"".to_string()), None])
        .unwrap();
    assert_eq!(
        m.to_json(),
        "{\"version\":3,\"sourceRoot\":\"\",\"names\":[],\"sources\":[\"src/a.rs\",\"src/b.rs\"],\"sourcesContent\":[\"fn a() {\\n}\\t\\\"x\\\"\",null],\"mappings\":\"AAAA,KCCI,IDCH\"}"
    );
}

#[test]
fn library_root_prefix_is_stripped() {
    assert_eq!(strip_root_prefix("std:/rustc/lib/core.rs"), "/rustc/lib/core.rs");
    assert_eq!(strip_root_prefix("C:/src/a.rs"), "C:/src/a.rs");
    assert_eq!(strip_root_prefix("/src/a:b.rs"), "/src/a:b.rs");
    assert_eq!(strip_root_prefix("plain.rs"), "plain.rs");
    let rows = vec![row(0, Some(1), Some(1), "crate:src/a.rs")];
    let m = SourceMap::from_table(&PositionTable::build(&rows, 0).unwrap(), None);
    assert!(m.to_json().contains("\"sources\":[\"src/a.rs\"]"));
}

#[test]
fn document_parses_and_resolves_tokens() {
    let m = SourceMap::from_table(&sample(), None);
    let parsed = sourcemap::SourceMap::from_slice(m.to_json().as_bytes()).unwrap();
    let t = parsed.lookup_token(0, 5).unwrap();
    assert_eq!(t.get_source(), Some("src/b.rs"));
    assert_eq!(t.get_src_line(), 1);
    assert_eq!(t.get_src_col(), 4);
    let t = parsed.lookup_token(0, 9).unwrap();
    assert_eq!(t.get_source(), Some("src/a.rs"));
    assert_eq!(t.get_src_line(), 2);
    assert_eq!(parsed.get_name_count(), 0);
}

#[test]
fn bundled_content_must_match_sources() {
    let m = SourceMap::from_table(&sample(), None);
    assert!(matches!(m.with_sources_content(vec![None]), Err(wasm2map::Error::Internal(_))));
}
