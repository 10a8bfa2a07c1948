use wasm2map::{code_point, source_path, CodePoint, Error, FileEntry, LineRow, PositionTable};

fn row(address: u64, line: Option<u64>, column: Option<u64>, path: &str, end_sequence: bool) -> LineRow {
    LineRow { address, line, column, path: Some(path.to_string()), end_sequence }
}

fn addresses(t: &PositionTable) -> Vec<u32> {
    (0..t.len()).map(|i| t.get(i).address).collect()
}

#[test]
fn rows_are_moved_by_code_offset_and_sorted() {
    let rows = vec![row(10, Some(3), Some(5), "a.rs", false), row(2, Some(1), None, "a.rs", false)];
    let t = PositionTable::build(&rows, 100).unwrap();
    assert_eq!(addresses(&t), vec![102, 110]);
    assert_eq!(t.get(0).column, 0);
    assert_eq!(t.get(1).line, 3);
}

#[test]
fn missing_line_becomes_zero() {
    let p = code_point(&row(1, None, Some(2), "a.rs", false), 0).unwrap();
    assert_eq!(p.line, 0);
    assert_eq!(p.column, 2);
}

#[test]
fn end_of_sequence_addresses_last_byte() {
    let p = code_point(&row(20, Some(4), Some(1), "a.rs", true), 5).unwrap();
    assert_eq!(p.address, 24);
}

#[test]
fn later_row_at_same_address_wins() {
    let rows = vec![
        row(8, Some(1), Some(1), "a.rs", false),
        row(9, Some(2), Some(1), "b.rs", true),
        row(8, Some(7), Some(3), "c.rs", false),
    ];
    let t = PositionTable::build(&rows, 0).unwrap();
    assert_eq!(t.len(), 1);
    assert_eq!(
        *t.get(0),
        CodePoint { source: Some("c.rs".to_string()), address: 8, line: 7, column: 3 }
    );
}

#[test]
fn end_of_sequence_merges_with_point_at_same_address() {
    let rows = vec![
        row(0, Some(1), Some(1), "a.rs", false),
        row(4, Some(2), Some(1), "a.rs", false),
        row(5, Some(3), Some(1), "a.rs", true),
    ];
    let t = PositionTable::build(&rows, 0).unwrap();
    assert_eq!(addresses(&t), vec![0, 4]);
    assert_eq!(t.get(1).line, 3);
}

#[test]
fn oversized_values_overflow() {
    let big = u32::MAX as u64 + 1;
    assert_eq!(PositionTable::build(&vec![row(0, Some(big), None, "a.rs", false)], 0).err(), Some(Error::IntegerOverflow));
    assert_eq!(PositionTable::build(&vec![row(0, Some(1), Some(big), "a.rs", false)], 0).err(), Some(Error::IntegerOverflow));
    assert_eq!(PositionTable::build(&vec![row(u32::MAX as u64, Some(1), None, "a.rs", false)], 1).err(), Some(Error::IntegerOverflow));
    assert_eq!(PositionTable::build(&vec![row(0, Some(1), None, "a.rs", true)], 0).err(), Some(Error::IntegerOverflow));
}

#[test]
fn empty_rows_give_empty_table() {
    let t = PositionTable::build(&vec![], 7).unwrap();
    assert_eq!(t.len(), 0);
}

#[test]
fn source_path_joins_normalizes_and_uses_forward_slashes() {
    let e = FileEntry { comp_dir: Some("/work".to_string()), directory: Some("src/./x/..".to_string()), name: "lib.rs".to_string() };
    assert_eq!(source_path(&e), "/work/src/lib.rs");
    let abs = FileEntry { comp_dir: Some("/work".to_string()), directory: Some("/rustc/lib/".to_string()), name: "core.rs".to_string() };
    assert_eq!(source_path(&abs), "/rustc/lib/core.rs");
    let win = FileEntry { comp_dir: None, directory: None, name: "src\\main.rs".to_string() };
    assert_eq!(source_path(&win), "src/main.rs");
}
